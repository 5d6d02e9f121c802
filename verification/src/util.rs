//! Small string helpers shared by the parsing modules: character-exact
//! equality, splitting on a delimiter, and decimal tokens.

use vstd::prelude::*;

verus! {

/// Character-for-character equality of two string slices.
pub fn str_eq(a: &str, b: &str) -> (r: bool)
    ensures
        r == (a@ == b@),
{
    let n = a.unicode_len();
    if n != b.unicode_len() {
        return false;
    }
    let mut i: usize = 0;
    while i < n
        invariant
            n == a@.len(),
            n == b@.len(),
            i <= n,
            forall|j: int| 0 <= j < i ==> a@[j] == b@[j],
        decreases n - i,
    {
        if a.get_char(i) != b.get_char(i) {
            return false;
        }
        i = i + 1;
    }
    proof {
        assert(a@ =~= b@);
    }
    true
}

/// The sequence split at every occurrence of the delimiter; an empty input
/// is one empty token, and adjacent delimiters produce empty tokens.
pub open spec fn split_char(s: Seq<char>, d: char) -> Seq<Seq<char>>
    decreases s.len(),
{
    if s.len() == 0 {
        seq![Seq::<char>::empty()]
    } else if s.last() == d {
        split_char(s.drop_last(), d).push(Seq::<char>::empty())
    } else {
        let prev = split_char(s.drop_last(), d);
        prev.update(prev.len() - 1, prev.last().push(s.last()))
    }
}

pub proof fn lemma_split_char_len(s: Seq<char>, d: char)
    ensures
        split_char(s, d).len() >= 1,
    decreases s.len(),
{
    if s.len() > 0 {
        lemma_split_char_len(s.drop_last(), d);
    }
}

/// Token boundaries of the string split at every occurrence of `d`: entry
/// `j` delimits the characters of token `j`.
pub fn split_bounds(s: &str, d: char) -> (r: Vec<(usize, usize)>)
    ensures
        r@.len() == split_char(s@, d).len(),
        forall|j: int|
            0 <= j < r@.len() ==> (#[trigger] r@[j]).0 <= r@[j].1 <= s@.len() && s@.subrange(
                r@[j].0 as int,
                r@[j].1 as int,
            ) == split_char(s@, d)[j],
{
    let n = s.unicode_len();
    let mut r: Vec<(usize, usize)> = Vec::new();
    let mut start: usize = 0;
    let mut i: usize = 0;
    while i < n
        invariant
            n == s@.len(),
            i <= n,
            start <= i,
            split_char(s@.take(i as int), d).len() == r@.len() + 1,
            forall|j: int|
                0 <= j < r@.len() ==> (#[trigger] r@[j]).0 <= r@[j].1 <= i && s@.subrange(
                    r@[j].0 as int,
                    r@[j].1 as int,
                ) == split_char(s@.take(i as int), d)[j],
            split_char(s@.take(i as int), d).last() == s@.subrange(start as int, i as int),
        decreases n - i,
    {
        let c = s.get_char(i);
        proof {
            assert(s@.take(i + 1).drop_last() =~= s@.take(i as int));
            lemma_split_char_len(s@.take(i as int), d);
        }
        if c == d {
            r.push((start, i));
            start = i + 1;
            proof {
                assert(s@.subrange(start as int, start as int) =~= Seq::<char>::empty());
            }
        } else {
            proof {
                assert(s@.subrange(start as int, i + 1) =~= s@.subrange(
                    start as int,
                    i as int,
                ).push(s@[i as int]));
            }
        }
        i = i + 1;
    }
    proof {
        assert(s@.take(n as int) =~= s@);
        lemma_split_char_len(s@, d);
    }
    r.push((start, n));
    r
}

pub open spec fn is_digit(c: char) -> bool {
    '0' <= c <= '9'
}

pub open spec fn digit_val(c: char) -> int {
    c as int - 48
}

pub open spec fn all_digits(t: Seq<char>) -> bool {
    forall|i: int| 0 <= i < t.len() ==> is_digit(#[trigger] t[i])
}

/// The decimal value of a digit string.
pub open spec fn num_val(t: Seq<char>) -> int
    decreases t.len(),
{
    if t.len() == 0 {
        0
    } else {
        num_val(t.drop_last()) * 10 + digit_val(t.last())
    }
}

pub proof fn lemma_num_val_nonneg(t: Seq<char>)
    requires
        all_digits(t),
    ensures
        num_val(t) >= 0,
    decreases t.len(),
{
    if t.len() > 0 {
        lemma_num_val_nonneg(t.drop_last());
    }
}

/// Ceiling used by [`parse_decimal`] for values that do not fit in 32 bits.
pub open spec fn decimal_cap() -> int {
    0x1_0000_0000
}

/// Reads a token as a decimal number. `Some` exactly when the token is a
/// non-empty string of digits; values of 2^32 or more come back as the cap,
/// so a caller can still tell that its own bound was exceeded.
pub fn parse_decimal(t: &str) -> (r: Option<u64>)
    ensures
        match r {
            Some(v) => t@.len() > 0 && all_digits(t@) && if num_val(t@) < decimal_cap() {
                v == num_val(t@)
            } else {
                v == decimal_cap()
            },
            None => !(t@.len() > 0 && all_digits(t@)),
        },
{
    let n = t.unicode_len();
    if n == 0 {
        return None;
    }
    let mut val: u64 = 0;
    let mut i: usize = 0;
    while i < n
        invariant
            n == t@.len(),
            i <= n,
            all_digits(t@.take(i as int)),
            num_val(t@.take(i as int)) < decimal_cap() ==> val == num_val(t@.take(i as int)),
            num_val(t@.take(i as int)) >= decimal_cap() ==> val == decimal_cap(),
            val <= decimal_cap(),
        decreases n - i,
    {
        let c = t.get_char(i);
        if !('0' <= c && c <= '9') {
            return None;
        }
        proof {
            assert(t@.take(i + 1).drop_last() =~= t@.take(i as int));
            lemma_num_val_nonneg(t@.take(i as int));
        }
        let d = (c as u64) - 48;
        if val * 10 + d >= 0x1_0000_0000 {
            val = 0x1_0000_0000;
        } else {
            val = val * 10 + d;
        }
        i = i + 1;
    }
    proof {
        assert(t@.take(n as int) =~= t@);
    }
    Some(val)
}

/// True for the characters a name token may consist of: ASCII letters,
/// digits and underscore.
pub open spec fn is_word_char(c: char) -> bool {
    ('a' <= c <= 'z') || ('A' <= c <= 'Z') || ('0' <= c <= '9') || c == '_'
}

/// A non-empty token of word characters.
pub open spec fn is_word(t: Seq<char>) -> bool {
    t.len() > 0 && forall|i: int| 0 <= i < t.len() ==> is_word_char(#[trigger] t[i])
}

/// Whether the token is a non-empty run of word characters.
pub fn is_word_str(t: &str) -> (b: bool)
    ensures
        b == is_word(t@),
{
    let n = t.unicode_len();
    if n == 0 {
        return false;
    }
    let mut i: usize = 0;
    while i < n
        invariant
            n == t@.len(),
            i <= n,
            forall|j: int| 0 <= j < i ==> is_word_char(#[trigger] t@[j]),
        decreases n - i,
    {
        let c = t.get_char(i);
        if !(('a' <= c && c <= 'z') || ('A' <= c && c <= 'Z') || ('0' <= c && c <= '9') || c == '_')
        {
            return false;
        }
        i = i + 1;
    }
    true
}

/// A sequence of bytes below 128 is valid UTF-8: each byte stands for one
/// character.
pub proof fn lemma_ascii_bytes_valid_utf8(bytes: Seq<u8>)
    requires
        forall|i: int| 0 <= i < bytes.len() ==> bytes[i] < 128,
    ensures
        vstd::utf8::valid_utf8(bytes),
    decreases bytes.len(),
{
    if bytes.len() > 0 {
        let b = bytes[0];
        assert(b & 0x7f == b) by (bit_vector)
            requires
                b < 128,
        ;
        assert(vstd::utf8::valid_first_scalar(bytes));
        assert(vstd::utf8::pop_first_scalar(bytes) =~= bytes.subrange(1, bytes.len() as int));
        lemma_ascii_bytes_valid_utf8(bytes.subrange(1, bytes.len() as int));
    }
}

/// Relies on `String::from_utf8`: the collected bytes are already a valid
/// encoding, so they come back unchanged as a string.
#[verifier::external_body]
pub fn bytes_to_string(v: Vec<u8>) -> (r: String)
    requires
        vstd::utf8::valid_utf8(v@),
    ensures
        vstd::utf8::encode_utf8(r@) == v@,
{
    match String::from_utf8(v) {
        Ok(s) => s,
        Err(_) => String::new(),
    }
}

/// Marks for the search: `true` entries are already placed on the route.
pub open spec fn fresh_marks(n: nat) -> Seq<bool> {
    Seq::new(n, |i: int| false)
}

/// The indices at or after `i` that are not yet marked, in increasing order.
pub open spec fn unused_list(used: Seq<bool>, i: int) -> Seq<int>
    decreases (if i <= used.len() {
        used.len() - i
    } else {
        0
    })
{
    if i < 0 || i >= used.len() {
        Seq::empty()
    } else if !used[i] {
        seq![i] + unused_list(used, i + 1)
    } else {
        unused_list(used, i + 1)
    }
}

/// How many indices are not yet marked.
pub open spec fn unused_count(used: Seq<bool>) -> int {
    unused_list(used, 0).len() as int
}

/// `q` lists every unmarked index exactly once, in some order.
pub open spec fn completion_ok(used: Seq<bool>, q: Seq<int>) -> bool {
    &&& q.len() == unused_count(used)
    &&& forall|i: int| 0 <= i < q.len() ==> 0 <= #[trigger] q[i] < used.len() && !used[q[i]]
    &&& forall|i: int, j: int| 0 <= i < j < q.len() ==> q[i] != q[j]
}

pub proof fn lemma_unused_list_props(used: Seq<bool>, i: int)
    requires
        0 <= i <= used.len(),
    ensures
        unused_list(used, i).len() <= used.len() - i,
        forall|k: int|
            0 <= k < unused_list(used, i).len() ==> i <= #[trigger] unused_list(used, i)[k]
                < used.len() && !used[unused_list(used, i)[k]],
        forall|k1: int, k2: int|
            0 <= k1 < k2 < unused_list(used, i).len() ==> unused_list(used, i)[k1] < unused_list(
                used,
                i,
            )[k2],
        forall|m: int| i <= m < used.len() && !used[m] ==> unused_list(used, i).contains(m),
    decreases used.len() - i,
{
    if i < used.len() {
        lemma_unused_list_props(used, i + 1);
        assert forall|m: int|
            i <= m < used.len() && !used[m] implies unused_list(used, i).contains(m) by {
            if m == i {
                assert(unused_list(used, i)[0] == i);
            } else {
                let k = choose|k: int|
                    0 <= k < unused_list(used, i + 1).len() && #[trigger] unused_list(
                        used,
                        i + 1,
                    )[k] == m;
                if !used[i] {
                    assert(unused_list(used, i)[k + 1] == m);
                } else {
                    assert(unused_list(used, i)[k] == m);
                }
            }
        };
    }
}

pub proof fn lemma_unused_list_update(used: Seq<bool>, v: int, i: int)
    requires
        0 <= v < used.len(),
        !used[v],
        0 <= i <= used.len(),
    ensures
        i <= v ==> unused_list(used.update(v, true), i).len() == unused_list(used, i).len() - 1,
        i > v ==> unused_list(used.update(v, true), i) == unused_list(used, i),
    decreases used.len() - i,
{
    let upd = used.update(v, true);
    if i < used.len() {
        lemma_unused_list_update(used, v, i + 1);
        if i > v {
            assert(unused_list(upd, i) =~= unused_list(used, i));
        }
    }
}

pub proof fn lemma_completion_pop(used: Seq<bool>, v: int, q: Seq<int>)
    requires
        completion_ok(used, q),
        q.len() > 0,
        q[0] == v,
    ensures
        0 <= v < used.len(),
        !used[v],
        completion_ok(used.update(v, true), q.drop_first()),
    decreases 0int,
{
    lemma_unused_list_update(used, v, 0);
    let q2 = q.drop_first();
    assert forall|i: int|
        0 <= i < q2.len() implies 0 <= #[trigger] q2[i] < used.update(v, true).len() && !used.update(
        v,
        true,
    )[q2[i]] by {
        assert(q2[i] == q[i + 1]);
        assert(q[i + 1] != q[0]);
    };
    assert forall|i: int, j: int| 0 <= i < j < q2.len() implies q2[i] != q2[j] by {
        assert(q2[i] == q[i + 1] && q2[j] == q[j + 1]);
    };
}

pub proof fn lemma_completion_push(used: Seq<bool>, v: int, q2: Seq<int>)
    requires
        0 <= v < used.len(),
        !used[v],
        completion_ok(used.update(v, true), q2),
    ensures
        completion_ok(used, seq![v] + q2),
    decreases 0int,
{
    lemma_unused_list_update(used, v, 0);
    let q = seq![v] + q2;
    assert forall|i: int|
        0 <= i < q.len() implies 0 <= #[trigger] q[i] < used.len() && !used[q[i]] by {
        if i > 0 {
            assert(q[i] == q2[i - 1]);
            assert(!used.update(v, true)[q2[i - 1]]);
        }
    };
    assert forall|i: int, j: int| 0 <= i < j < q.len() implies q[i] != q[j] by {
        if i == 0 {
            assert(q[j] == q2[j - 1]);
            assert(!used.update(v, true)[q2[j - 1]]);
        } else {
            assert(q[i] == q2[i - 1] && q[j] == q2[j - 1]);
        }
    };
}

pub proof fn lemma_completion_exists(used: Seq<bool>)
    ensures
        completion_ok(used, unused_list(used, 0)),
    decreases 0int,
{
    lemma_unused_list_props(used, 0);
    let q = unused_list(used, 0);
    assert forall|i: int, j: int| 0 <= i < j < q.len() implies q[i] != q[j] by {
        assert(q[i] < q[j]);
    };
}

pub proof fn lemma_fresh_count(n: nat, i: int)
    requires
        0 <= i <= n,
    ensures
        unused_list(fresh_marks(n), i).len() == n - i,
    decreases n - i,
{
    if i < n {
        lemma_fresh_count(n, i + 1);
    }
}

} // verus!
