//! Finding the next valid password: lowercase strings incremented letter by
//! letter, like a base-26 odometer, until the corporate policy is met.

use vstd::prelude::*;
use vstd::string::StringSliceAdditionalSpecFns;

use crate::util::{bytes_to_string, lemma_ascii_bytes_valid_utf8};

verus! {

/// Every byte is a lowercase ASCII letter.
pub open spec fn is_lower(s: Seq<u8>) -> bool {
    forall|i: int| 0 <= i < s.len() ==> 97 <= #[trigger] s[i] <= 122
}

/// Some three consecutive letters increase by exactly one each.
pub open spec fn has_straight(s: Seq<u8>) -> bool {
    exists|i: int|
        0 <= i && i + 2 < s.len() && s[i + 1] == s[i] + 1 && #[trigger] s[i + 2] == s[i] + 2
}

/// `i`, `o` or `l`.
pub open spec fn is_confusing(c: u8) -> bool {
    c == 105 || c == 111 || c == 108
}

/// Some letter is one of the easily confused ones.
pub open spec fn has_confusing_letter(s: Seq<u8>) -> bool {
    exists|i: int| 0 <= i < s.len() && is_confusing(#[trigger] s[i])
}

/// The greedy pair scan the policy uses: pairs are counted left to right
/// without overlap, and the scan stops early at the first unpaired letter
/// seen once exactly two pairs have been counted.
pub open spec fn pair_scan(s: Seq<u8>, count: int) -> int
    decreases s.len(),
{
    if s.len() < 2 {
        count
    } else if s[0] == s[1] {
        pair_scan(s.skip(2), count + 1)
    } else if count == 2 {
        2
    } else {
        pair_scan(s.skip(1), count)
    }
}

/// A valid password: an increasing straight of three, no confusing letters,
/// and the pair scan settles on exactly two pairs.
pub open spec fn password_ok(s: Seq<u8>) -> bool {
    has_straight(s) && !has_confusing_letter(s) && pair_scan(s, 0) == 2
}

/// The next letter, wrapping from `z` back to `a`.
pub open spec fn rot1(c: u8) -> u8 {
    if c == 122 {
        97
    } else {
        (c + 1) as u8
    }
}

/// The base-26 successor of a lowercase string: the last non-`z` letter is
/// bumped and every letter after it wraps to `a`. `None` when the string is
/// all `z` (or empty) and has no successor of the same length.
pub open spec fn succ26(s: Seq<u8>) -> Option<Seq<u8>>
    decreases s.len(),
{
    if s.len() == 0 {
        None
    } else if s.last() != 122 {
        Some(s.update(s.len() - 1, (s.last() + 1) as u8))
    } else {
        match succ26(s.drop_last()) {
            None => None,
            Some(t) => Some(t.push(97)),
        }
    }
}

/// Where the search starts: the input itself, unless it holds a confusing
/// letter, in which case the first one is bumped and everything after it is
/// reset to `a`, skipping the whole confusing range at once.
pub open spec fn start_candidate(s: Seq<u8>) -> Seq<u8>
    decreases s.len(),
{
    if s.len() == 0 {
        s
    } else if is_confusing(s[0]) {
        seq![rot1(s[0])] + Seq::new((s.len() - 1) as nat, |i: int| 97u8)
    } else {
        seq![s[0]] + start_candidate(s.skip(1))
    }
}

/// The candidate the search settles on, starting from `c` and taking at
/// most `fuel` increment steps: the first candidate in increment order that
/// is a valid password different from the original.
pub open spec fn search(c: Seq<u8>, orig: Seq<u8>, fuel: nat) -> Option<Seq<u8>>
    decreases fuel,
{
    if password_ok(c) && c != orig {
        Some(c)
    } else if fuel == 0 {
        None
    } else {
        match succ26(c) {
            None => None,
            Some(n) => search(n, orig, (fuel - 1) as nat),
        }
    }
}

/// The search from `c` eventually settles on `x`.
pub open spec fn chain_finds(c: Seq<u8>, orig: Seq<u8>, x: Seq<u8>) -> bool {
    exists|fuel: nat| search(c, orig, fuel) == Some(x)
}

/// Whatever the search settles on is a valid password other than the
/// original.
pub proof fn lemma_search_found(c: Seq<u8>, orig: Seq<u8>, x: Seq<u8>)
    requires
        chain_finds(c, orig, x),
    ensures
        password_ok(x),
        x != orig,
{
    let fuel = choose|fuel: nat| search(c, orig, fuel) == Some(x);
    lemma_search_found_rec(c, orig, x, fuel);
}

proof fn lemma_search_found_rec(c: Seq<u8>, orig: Seq<u8>, x: Seq<u8>, fuel: nat)
    requires
        search(c, orig, fuel) == Some(x),
    ensures
        password_ok(x),
        x != orig,
    decreases fuel,
{
    if !(password_ok(c) && c != orig) {
        lemma_search_found_rec(succ26(c).unwrap(), orig, x, (fuel - 1) as nat);
    }
}

/// 26 to the power `n`.
pub open spec fn pow26(n: nat) -> int
    decreases n,
{
    if n == 0 {
        1
    } else {
        26 * pow26((n - 1) as nat)
    }
}

/// Base-26 value of a lowercase string.
pub open spec fn val26(s: Seq<u8>) -> int
    decreases s.len(),
{
    if s.len() == 0 {
        0
    } else {
        val26(s.drop_last()) * 26 + (s.last() - 97)
    }
}

proof fn lemma_val26_bound(s: Seq<u8>)
    requires
        is_lower(s),
    ensures
        0 <= val26(s) < pow26(s.len() as nat),
    decreases s.len(),
{
    if s.len() > 0 {
        assert(is_lower(s.drop_last()));
        lemma_val26_bound(s.drop_last());
        let p = pow26((s.len() - 1) as nat);
        assert(pow26(s.len() as nat) == 26 * p);
        assert(val26(s.drop_last()) * 26 + 25 < 26 * p) by (nonlinear_arith)
            requires
                val26(s.drop_last()) < p,
        ;
    }
}

/// Taking the successor adds exactly one to the base-26 value and keeps the
/// string lowercase and of the same length.
proof fn lemma_succ26_value(s: Seq<u8>, t: Seq<u8>)
    requires
        is_lower(s),
        succ26(s) == Some(t),
    ensures
        t.len() == s.len(),
        is_lower(t),
        val26(t) == val26(s) + 1,
    decreases s.len(),
{
    if s.last() != 122 {
        assert(t =~= s.update(s.len() - 1, (s.last() + 1) as u8));
        assert(t.drop_last() =~= s.drop_last());
    } else {
        assert(is_lower(s.drop_last()));
        let u = succ26(s.drop_last()).unwrap();
        lemma_succ26_value(s.drop_last(), u);
        assert(t =~= u.push(97));
        assert(t.drop_last() =~= u);
    }
}

/// Whether some three consecutive letters increase by one each.
fn contains_increasing_straight_of_three(s: &[u8]) -> (b: bool)
    ensures
        b == has_straight(s@),
{
    let len = s.len();
    if len < 3 {
        return false;
    }
    let mut i: usize = 0;
    while i + 2 < len
        invariant
            len == s@.len(),
            i + 2 <= len,
            forall|j: int|
                0 <= j && j + 2 < i + 2 ==> !(s@[j + 1] == s@[j] + 1 && #[trigger] s@[j + 2]
                    == s@[j] + 2),
        decreases len - i,
    {
        if s[i + 1] as u16 == s[i] as u16 + 1 && s[i + 2] as u16 == s[i] as u16 + 2 {
            return true;
        }
        i = i + 1;
    }
    false
}

/// Whether some letter is `i`, `o` or `l`.
fn contains_forbidden_char(s: &[u8]) -> (b: bool)
    ensures
        b == has_confusing_letter(s@),
{
    let len = s.len();
    let mut i: usize = 0;
    while i < len
        invariant
            len == s@.len(),
            i <= len,
            forall|j: int| 0 <= j < i ==> !is_confusing(#[trigger] s@[j]),
        decreases len - i,
    {
        let c = s[i];
        if c == 105 || c == 111 || c == 108 {
            return true;
        }
        i = i + 1;
    }
    false
}

/// Whether the greedy pair scan settles on exactly two pairs.
fn contains_two_pairs(s: &[u8]) -> (b: bool)
    ensures
        b == (pair_scan(s@, 0) == 2),
{
    let len = s.len();
    if len < 4 {
        proof {
            lemma_pair_scan_small(s@, 0);
        }
        return false;
    }
    let mut i: usize = 0;
    let mut count: u32 = 0;
    proof {
        assert(s@.skip(0) =~= s@);
    }
    while i < len - 1
        invariant
            len == s@.len(),
            4 <= len,
            i <= len,
            count <= 3,
            count <= 2 ==> pair_scan(s@, 0) == pair_scan(s@.skip(i as int), count as int),
            count == 3 ==> pair_scan(s@, 0) >= 3,
        decreases len - i,
    {
        let ghost rest = s@.skip(i as int);
        if s[i] == s[i + 1] {
            proof {
                assert(rest.skip(2) =~= s@.skip(i + 2));
                if count == 2 {
                    lemma_pair_scan_high(s@.skip(i + 2), 3);
                }
            }
            if count < 3 {
                count = count + 1;
            }
            i = i + 2;
        } else {
            if count == 2 {
                return true;
            }
            proof {
                assert(rest.skip(1) =~= s@.skip(i + 1));
            }
            i = i + 1;
        }
    }
    proof {
        if count <= 2 {
            assert(s@.skip(i as int).len() < 2);
        }
    }
    count == 2
}

/// Fewer than four letters can never hold two pairs.
proof fn lemma_pair_scan_small(s: Seq<u8>, count: int)
    requires
        s.len() < 4,
        count < 2,
    ensures
        pair_scan(s, count) <= count + 1,
    decreases s.len(),
{
    reveal_with_fuel(pair_scan, 2);
    if s.len() >= 2 {
        if s[0] == s[1] {
            assert(s.skip(2).len() < 2);
        } else {
            lemma_pair_scan_small(s.skip(1), count);
        }
    }
}

/// Once the scan's count passes two, the exact value no longer matters: the
/// scan can only grow it.
proof fn lemma_pair_scan_high(s: Seq<u8>, count: int)
    requires
        count >= 3,
    ensures
        pair_scan(s, count) >= 3,
        pair_scan(s, count + 1) >= 3,
    decreases s.len(),
{
    if s.len() >= 2 {
        if s[0] == s[1] {
            lemma_pair_scan_high(s.skip(2), count + 1);
        } else {
            lemma_pair_scan_high(s.skip(1), count);
        }
    }
}

/// Whether the candidate meets the password policy.
fn is_password(s: &[u8]) -> (b: bool)
    ensures
        b == password_ok(s@),
{
    contains_increasing_straight_of_three(s) && !contains_forbidden_char(s) && contains_two_pairs(s)
}

/// Bumps the letter at `start` to the next one (wrapping `z` to `a`) and
/// resets every letter after it to `a`.
fn rotate_letters(letters: &mut Vec<u8>, start: usize)
    requires
        start < old(letters)@.len(),
        is_lower(old(letters)@),
    ensures
        final(letters)@.len() == old(letters)@.len(),
        is_lower(final(letters)@),
        forall|j: int| 0 <= j < start ==> final(letters)@[j] == old(letters)@[j],
        final(letters)@[start as int] == rot1(old(letters)@[start as int]),
        forall|j: int| start < j < final(letters)@.len() ==> final(letters)@[j] == 97,
    decreases old(letters)@.len(),
{
    let c = letters[start];
    let bumped = if c == 122 {
        97
    } else {
        c + 1
    };
    letters.set(start, bumped);
    let len = letters.len();
    let mut j = start + 1;
    while j < len
        invariant
            len == letters@.len(),
            start < j <= len,
            letters@[start as int] == rot1(old(letters)@[start as int]),
            forall|k: int| 0 <= k < start ==> letters@[k] == old(letters)@[k],
            forall|k: int| start < k < j ==> letters@[k] == 97,
            forall|k: int| j <= k < len ==> letters@[k] == old(letters)@[k],
            is_lower(old(letters)@),
            97 <= letters@[start as int] <= 122,
        decreases len - j,
    {
        letters.set(j, 97);
        j = j + 1;
    }
}

/// Error returned when the input cannot be treated as a password at all.
#[derive(Clone, Copy, Debug, PartialEq, Eq, Structural)]
pub struct NextPasswordError {}

/// Whether the two byte slices hold the same bytes.
fn bytes_equal(a: &[u8], b: &[u8]) -> (r: bool)
    ensures
        r == (a@ == b@),
{
    let n = a.len();
    if n != b.len() {
        return false;
    }
    let mut i: usize = 0;
    while i < n
        invariant
            n == a@.len(),
            n == b@.len(),
            i <= n,
            forall|j: int| 0 <= j < i ==> a@[j] == b@[j],
        decreases n - i,
    {
        if a[i] != b[i] {
            return false;
        }
        i = i + 1;
    }
    proof {
        assert(a@ =~= b@);
    }
    true
}

/// Index of the last letter that is not `z`, if any.
fn rposition_non_z(v: &Vec<u8>) -> (r: Option<usize>)
    ensures
        match r {
            Some(p) => p < v@.len() && v@[p as int] != 122 && forall|j: int|
                p < j < v@.len() ==> v@[j] == 122,
            None => forall|j: int| 0 <= j < v@.len() ==> v@[j] == 122,
        },
{
    let len = v.len();
    let mut i = len;
    while i > 0
        invariant
            len == v@.len(),
            i <= len,
            forall|j: int| i <= j < len ==> v@[j] == 122,
        decreases i,
    {
        i = i - 1;
        if v[i] != 122 {
            return Some(i);
        }
    }
    None
}

/// The next valid password after `old_password`: letters are incremented
/// like a base-26 odometer, a confusing letter fast-forwards its whole
/// range, and the first candidate that meets the policy and differs from
/// the input is returned.
///
/// The input must hold no uppercase and no non-ASCII characters; those the
/// policy never produces. Anything else that is not all lowercase letters,
/// or shorter than four letters, is rejected. `Err` also comes back when
/// the search space is exhausted (an input near `zzzz...` with no valid
/// successor), where nothing sensible can be returned.
pub fn next_password(old_password: &str) -> (r: Result<String, NextPasswordError>)
    requires
        forall|i: int|
            0 <= i < old_password@.len() ==> '\0' <= (#[trigger] old_password@[i]) <= '\u{7f}'
                && !('A' <= old_password@[i] <= 'Z'),
    ensures
        match r {
            Ok(p) => chain_finds(
                start_candidate(old_password.spec_bytes()),
                old_password.spec_bytes(),
                vstd::utf8::encode_utf8(p@),
            ),
            Err(_) => old_password.spec_bytes().len() < 4 || (exists|i: int|
                0 <= i < old_password.spec_bytes().len() && !(97
                    <= #[trigger] old_password.spec_bytes()[i] <= 122)) || (forall|x: Seq<u8>|
                !chain_finds(
                    start_candidate(old_password.spec_bytes()),
                    old_password.spec_bytes(),
                    x,
                )),
        },
{
    broadcast use vstd::string::is_ascii_spec_bytes;

    let bytes = old_password.as_bytes();
    let ghost orig = old_password.spec_bytes();
    proof {
        assert(vstd::utf8::is_ascii_chars(old_password@));
        assert(vstd::string::is_ascii(old_password));
        assert(bytes@ == orig);
    }
    if bytes.len() < 4 {
        return Err(NextPasswordError {  });
    }
    let len = bytes.len();
    let mut i: usize = 0;
    while i < len
        invariant
            len == bytes@.len(),
            i <= len,
            bytes@ == orig,
            orig == old_password.spec_bytes(),
            forall|j: int| 0 <= j < i ==> 97 <= #[trigger] bytes@[j] <= 122,
        decreases len - i,
    {
        let c = bytes[i];
        if !(97 <= c && c <= 122) {
            proof {
                assert(!(97 <= orig[i as int] <= 122));
            }
            return Err(NextPasswordError {  });
        }
        i = i + 1;
    }
    let mut password: Vec<u8> = Vec::new();
    password.extend_from_slice(bytes);
    proof {
        assert(password@ =~= bytes@);
    }
    let mut start_position: Option<usize> = None;
    let mut i: usize = 0;
    while i < len
        invariant_except_break
            len == password@.len(),
            i <= len,
            start_position is None,
            forall|j: int| 0 <= j < i ==> !is_confusing(#[trigger] password@[j]),
        ensures
            len == password@.len(),
            match start_position {
                Some(p) => p < len && is_confusing(password@[p as int]) && forall|j: int|
                    0 <= j < p ==> !is_confusing(#[trigger] password@[j]),
                None => forall|j: int| 0 <= j < len ==> !is_confusing(#[trigger] password@[j]),
            },
        decreases len - i,
    {
        let c = password[i];
        if c == 105 || c == 111 || c == 108 {
            start_position = Some(i);
            break ;
        }
        i = i + 1;
    }
    if let Some(p) = start_position {
        proof {
            lemma_start_candidate_shape(password@, p as int);
        }
        rotate_letters(&mut password, p);
        proof {
            assert(password@ =~= start_candidate(orig));
        }
    } else {
        proof {
            lemma_start_candidate_clean(password@);
        }
    }
    let ghost start = start_candidate(orig);
    proof {
        assert(password@ == start);
    }
    loop
        invariant_except_break
            password@.len() == orig.len(),
            orig.len() == len,
            is_lower(password@),
            forall|x: Seq<u8>|
                #[trigger] chain_finds(start, orig, x) <==> chain_finds(password@, orig, x),
            bytes@ == orig,
            orig == old_password.spec_bytes(),
            start == start_candidate(orig),
        ensures
            is_lower(password@),
            password@.len() == orig.len(),
            password_ok(password@),
            password@ != orig,
            chain_finds(start, orig, password@),
        decreases pow26(password@.len() as nat) - val26(password@),
    {
        let valid = is_password(password.as_slice());
        let same = bytes_equal(password.as_slice(), bytes);
        if valid && !same {
            proof {
                assert(search(password@, orig, 0) == Some(password@));
                assert(chain_finds(password@, orig, password@));
            }
            break ;
        }
        let ghost current = password@;
        match rposition_non_z(&password) {
            None => {
                proof {
                    assert(succ26(current) is None) by {
                        lemma_succ26_all_z(current);
                    }
                    assert forall|x: Seq<u8>| !(#[trigger] chain_finds(start, orig, x)) by {
                        if chain_finds(start, orig, x) {
                            assert(chain_finds(current, orig, x));
                            let f = choose|f: nat| search(current, orig, f) == Some(x);
                            assert(search(current, orig, f) is None);
                        }
                    };
                }
                return Err(NextPasswordError {  });
            },
            Some(p) => {
                proof {
                    lemma_succ26_at(current, p as int);
                    lemma_val26_bound(current);
                }
                rotate_letters(&mut password, p);
                proof {
                    let t = succ26(current).unwrap();
                    assert(password@ =~= t);
                    lemma_succ26_value(current, t);
                    assert forall|x: Seq<u8>|
                        #[trigger] chain_finds(start, orig, x) <==> chain_finds(
                            password@,
                            orig,
                            x,
                        ) by {
                        if chain_finds(current, orig, x) {
                            let f = choose|f: nat| search(current, orig, f) == Some(x);
                            assert(f > 0);
                            assert(search(t, orig, (f - 1) as nat) == Some(x));
                        }
                        if chain_finds(t, orig, x) {
                            let f = choose|f: nat| search(t, orig, f) == Some(x);
                            assert(search(current, orig, f + 1) == Some(x));
                        }
                    };
                }
            },
        }
    }
    proof {
        assert forall|j: int| 0 <= j < password@.len() implies password@[j] < 128 by {
            assert(97 <= password@[j] <= 122);
        };
        lemma_ascii_bytes_valid_utf8(password@);
    }
    Ok(bytes_to_string(password))
}

/// An all-`z` string has no successor of its length.
proof fn lemma_succ26_all_z(s: Seq<u8>)
    requires
        forall|j: int| 0 <= j < s.len() ==> s[j] == 122,
    ensures
        succ26(s) is None,
    decreases s.len(),
{
    if s.len() > 0 {
        lemma_succ26_all_z(s.drop_last());
    }
}

/// The successor of a string whose last non-`z` letter sits at `p`: that
/// letter is bumped and the `z` tail wraps to `a`.
proof fn lemma_succ26_at(s: Seq<u8>, p: int)
    requires
        is_lower(s),
        0 <= p < s.len(),
        s[p] != 122,
        forall|j: int| p < j < s.len() ==> s[j] == 122,
    ensures
        succ26(s) matches Some(t) && t.len() == s.len() && (forall|j: int|
            0 <= j < p ==> t[j] == s[j]) && t[p] == s[p] + 1 && (forall|j: int|
            p < j < s.len() ==> t[j] == 97),
    decreases s.len(),
{
    if p == s.len() - 1 {
        let t = s.update(s.len() - 1, (s.last() + 1) as u8);
        assert(succ26(s) == Some(t));
    } else {
        assert(is_lower(s.drop_last()));
        lemma_succ26_at(s.drop_last(), p);
        let u = succ26(s.drop_last()).unwrap();
        assert(succ26(s) == Some(u.push(97)));
    }
}

/// Shape of the start candidate when the first confusing letter sits at `p`.
proof fn lemma_start_candidate_shape(s: Seq<u8>, p: int)
    requires
        0 <= p < s.len(),
        is_confusing(s[p]),
        forall|j: int| 0 <= j < p ==> !is_confusing(#[trigger] s[j]),
    ensures
        start_candidate(s).len() == s.len(),
        forall|j: int| 0 <= j < p ==> start_candidate(s)[j] == s[j],
        start_candidate(s)[p] == rot1(s[p]),
        forall|j: int| p < j < s.len() ==> start_candidate(s)[j] == 97,
    decreases s.len(),
{
    if p == 0 {
    } else {
        lemma_start_candidate_shape(s.skip(1), p - 1);
        assert forall|j: int| 0 <= j < p implies start_candidate(s)[j] == s[j] by {
            if j > 0 {
                assert(start_candidate(s.skip(1))[j - 1] == s.skip(1)[j - 1]);
            }
        };
    }
}

/// A string without confusing letters starts the search unchanged.
proof fn lemma_start_candidate_clean(s: Seq<u8>)
    requires
        forall|j: int| 0 <= j < s.len() ==> !is_confusing(#[trigger] s[j]),
    ensures
        start_candidate(s) == s,
    decreases s.len(),
{
    if s.len() > 0 {
        lemma_start_candidate_clean(s.skip(1));
        assert(start_candidate(s) =~= s);
    }
}

} // verus!
