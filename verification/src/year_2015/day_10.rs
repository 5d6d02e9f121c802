//! The look-and-say sequence: each step reads a string aloud, replacing
//! every run of equal characters with the run's length followed by the
//! character.

use vstd::prelude::*;
use vstd::string::StringSliceAdditionalSpecFns;

use crate::util::{bytes_to_string, lemma_ascii_bytes_valid_utf8};

verus! {

/// Length of the run of `c` at the front of `s`.
pub open spec fn lead_count(s: Seq<u8>, c: u8) -> int
    decreases s.len(),
{
    if s.len() == 0 || s[0] != c {
        0
    } else {
        1 + lead_count(s.skip(1), c)
    }
}

pub proof fn lemma_lead_count_bounds(s: Seq<u8>, c: u8)
    ensures
        0 <= lead_count(s, c) <= s.len(),
        s.len() > 0 && s[0] == c ==> 1 <= lead_count(s, c),
        forall|i: int| 0 <= i < lead_count(s, c) ==> s[i] == c,
        lead_count(s, c) < s.len() ==> s[lead_count(s, c)] != c,
    decreases s.len(),
{
    if s.len() > 0 && s[0] == c {
        lemma_lead_count_bounds(s.skip(1), c);
        assert forall|i: int| 0 <= i < lead_count(s, c) implies s[i] == c by {
            if i > 0 {
                assert(s.skip(1)[i - 1] == c);
            }
        };
    }
}

/// The decimal digits of `n`, as ASCII bytes.
pub open spec fn digits_of(n: int) -> Seq<u8>
    recommends
        n >= 0,
    decreases n
        via digits_of_decreases
{
    if n < 10 {
        seq![(48 + if n >= 0 {
            n
        } else {
            0
        }) as u8]
    } else {
        digits_of(n / 10).push((48 + n % 10) as u8)
    }
}

#[via_fn]
proof fn digits_of_decreases(n: int) {
    if n >= 10 {
        assert(0 <= n / 10 < n) by (nonlinear_arith)
            requires
                n >= 10,
        ;
    }
}

proof fn lemma_digits_of_ascii(n: int)
    requires
        n >= 0,
    ensures
        forall|i: int| 0 <= i < digits_of(n).len() ==> #[trigger] digits_of(n)[i] < 128,
        digits_of(n).len() >= 1,
    decreases n,
{
    if n >= 10 {
        assert(0 <= n / 10 < n && 0 <= n % 10 < 10) by (nonlinear_arith)
            requires
                n >= 10,
        ;
        lemma_digits_of_ascii(n / 10);
    }
}

/// One look-and-say step over a byte string: every maximal run of an equal
/// byte becomes the run length's digits followed by the byte.
pub open spec fn look_say(s: Seq<u8>) -> Seq<u8>
    decreases s.len()
        via look_say_decreases
{
    if s.len() == 0 {
        Seq::empty()
    } else {
        let k = lead_count(s, s[0]);
        digits_of(k) + seq![s[0]] + look_say(s.skip(k))
    }
}

#[via_fn]
proof fn look_say_decreases(s: Seq<u8>) {
    if s.len() > 0 {
        lemma_lead_count_bounds(s, s[0]);
    }
}

/// Length of the run of `c` at the front of the byte slice.
fn get_count(s: &[u8], c: u8) -> (count: usize)
    ensures
        count == lead_count(s@, c),
{
    let len = s.len();
    let mut count: usize = 0;
    while count < len && s[count] == c
        invariant
            len == s@.len(),
            count <= len,
            forall|i: int| 0 <= i < count ==> s@[i] == c,
        decreases len - count,
    {
        count = count + 1;
    }
    proof {
        lemma_lead_count_bounds(s@, c);
        if count < lead_count(s@, c) {
            assert(s@[count as int] == c);
            assert(false);
        }
        if lead_count(s@, c) < count {
            assert(s@[lead_count(s@, c)] == c);
            assert(false);
        }
    }
    count
}

/// Pushes the decimal digits of `n` onto `out`.
pub fn push_digits(out: &mut Vec<u8>, n: u64)
    ensures
        final(out)@ == old(out)@ + digits_of(n as int),
    decreases n,
{
    if n < 10 {
        out.push(48 + n as u8);
        proof {
            assert(out@ =~= old(out)@ + digits_of(n as int));
        }
    } else {
        push_digits(out, n / 10);
        out.push(48 + (n % 10) as u8);
        proof {
            assert(out@ =~= old(out)@ + digits_of(n as int));
        }
    }
}

/// One look-and-say step of the input. The input must be ASCII, so that the
/// runs read aloud are runs of whole characters.
pub fn look_and_say(number: &str) -> (r: String)
    requires
        number.is_ascii(),
    ensures
        vstd::utf8::encode_utf8(r@) == look_say(number.spec_bytes()),
{
    broadcast use vstd::string::is_ascii_spec_bytes;

    let bytes = number.as_bytes();
    let len = bytes.len();
    proof {
        assert forall|j: int| 0 <= j < bytes@.len() implies bytes@[j] < 128 by {
            assert(number@[j] <= '\u{7f}');
        };
    }
    let mut result: Vec<u8> = Vec::new();
    let mut i: usize = 0;
    proof {
        assert(bytes@.skip(0) =~= bytes@);
        assert(Seq::<u8>::empty() + look_say(bytes@) =~= look_say(bytes@));
    }
    while i < len
        invariant
            len == bytes@.len(),
            bytes@ == number.spec_bytes(),
            i <= len,
            look_say(bytes@) == result@ + look_say(bytes@.skip(i as int)),
            forall|j: int| 0 <= j < bytes@.len() ==> bytes@[j] < 128,
            forall|j: int| 0 <= j < result@.len() ==> #[trigger] result@[j] < 128,
        decreases len - i,
    {
        let ghost res0 = result@;
        let ghost rest = bytes@.skip(i as int);
        let c = bytes[i];
        let count = get_count(&bytes[i..len], c);
        proof {
            assert(bytes@.subrange(i as int, len as int) =~= rest);
            lemma_lead_count_bounds(rest, c);
            lemma_digits_of_ascii(count as int);
        }
        push_digits(&mut result, count as u64);
        result.push(c);
        proof {
            let k = count as int;
            assert(result@ =~= res0 + digits_of(k) + seq![c]);
            assert(rest.skip(k) =~= bytes@.skip(i + k));
            assert(look_say(rest) == digits_of(k) + seq![c] + look_say(rest.skip(k)));
            assert(res0 + (digits_of(k) + seq![c] + look_say(rest.skip(k))) =~= (res0 + digits_of(
                k,
            ) + seq![c]) + look_say(rest.skip(k)));
            assert(result@ + look_say(bytes@.skip(i + k)) == res0 + look_say(rest));
        }
        i = i + count;
    }
    proof {
        assert(bytes@.skip(len as int) =~= Seq::<u8>::empty());
        assert(result@ + look_say(bytes@.skip(len as int)) =~= result@);
        lemma_ascii_bytes_valid_utf8(result@);
    }
    bytes_to_string(result)
}

} // verus!
