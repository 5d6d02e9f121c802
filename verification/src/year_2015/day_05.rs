//! Classifying words as naughty or nice, by two rule sets over their bytes.

use vstd::prelude::*;
use vstd::string::StringSliceAdditionalSpecFns;

verus! {

/// The five lowercase vowels.
pub open spec fn is_vowel(c: u8) -> bool {
    c == 97 || c == 101 || c == 105 || c == 111 || c == 117
}

/// Number of vowels in the byte string.
pub open spec fn vowel_count(s: Seq<u8>) -> int
    decreases s.len(),
{
    if s.len() == 0 {
        0
    } else {
        vowel_count(s.drop_last()) + if is_vowel(s.last()) {
            1int
        } else {
            0int
        }
    }
}

/// Some letter appears twice in a row.
pub open spec fn has_double_letter(s: Seq<u8>) -> bool {
    exists|i: int| 0 <= i && i + 1 < s.len() && s[i] == #[trigger] s[i + 1]
}

/// The two bytes form one of the forbidden substrings `ab`, `cd`, `pq`, `xy`.
pub open spec fn is_forbidden_pair(a: u8, b: u8) -> bool {
    (a == 97 && b == 98) || (a == 99 && b == 100) || (a == 112 && b == 113) || (a == 120 && b
        == 121)
}

/// Some forbidden substring occurs.
pub open spec fn has_forbidden_str(s: Seq<u8>) -> bool {
    exists|i: int| 0 <= i && i + 1 < s.len() && is_forbidden_pair(s[i], #[trigger] s[i + 1])
}

/// First rule set: at least three vowels, a doubled letter, and no forbidden
/// substring.
pub open spec fn nice_word(s: Seq<u8>) -> bool {
    vowel_count(s) >= 3 && has_double_letter(s) && !has_forbidden_str(s)
}

/// Some pair of letters appears at least twice without overlapping.
pub open spec fn has_pair_twice(s: Seq<u8>) -> bool {
    exists|i: int, j: int|
        0 <= i && i + 2 <= j && j + 1 < s.len() && s[i] == s[j] && #[trigger] s[i + 1]
            == #[trigger] s[j + 1]
}

/// Some letter repeats with exactly one letter between the occurrences.
pub open spec fn has_repeat_with_gap(s: Seq<u8>) -> bool {
    exists|i: int| 0 <= i && i + 2 < s.len() && s[i] == #[trigger] s[i + 2]
}

/// Second rule set: a non-overlapping repeated pair and a gap-one repeat.
pub open spec fn nice_word2(s: Seq<u8>) -> bool {
    has_pair_twice(s) && has_repeat_with_gap(s)
}

/// Counts the vowels in the provided bytes.
fn count_vowels(s: &[u8]) -> (n: usize)
    ensures
        n == vowel_count(s@),
{
    let len = s.len();
    let mut n: usize = 0;
    let mut i: usize = 0;
    while i < len
        invariant
            len == s@.len(),
            i <= len,
            n == vowel_count(s@.take(i as int)),
            n <= i,
        decreases len - i,
    {
        let c = s[i];
        proof {
            assert(s@.take(i + 1).drop_last() =~= s@.take(i as int));
        }
        if c == 97 || c == 101 || c == 105 || c == 111 || c == 117 {
            n = n + 1;
        }
        i = i + 1;
    }
    proof {
        assert(s@.take(len as int) =~= s@);
    }
    n
}

/// Whether some letter appears twice in a row.
fn contains_double_letter(s: &[u8]) -> (b: bool)
    ensures
        b == has_double_letter(s@),
{
    let len = s.len();
    if len < 2 {
        return false;
    }
    let mut i: usize = 0;
    while i + 1 < len
        invariant
            len == s@.len(),
            i + 1 <= len,
            forall|j: int| 0 <= j && j + 1 < i + 1 ==> s@[j] != #[trigger] s@[j + 1],
        decreases len - i,
    {
        if s[i] == s[i + 1] {
            return true;
        }
        i = i + 1;
    }
    false
}

/// Whether some forbidden substring (`ab`, `cd`, `pq`, `xy`) occurs.
fn contains_forbidden_str(s: &[u8]) -> (b: bool)
    ensures
        b == has_forbidden_str(s@),
{
    let len = s.len();
    if len < 2 {
        return false;
    }
    let mut i: usize = 0;
    while i + 1 < len
        invariant
            len == s@.len(),
            i + 1 <= len,
            forall|j: int| 0 <= j && j + 1 < i + 1 ==> !is_forbidden_pair(s@[j], #[trigger] s@[j + 1]),
        decreases len - i,
    {
        let a = s[i];
        let b = s[i + 1];
        if (a == 97 && b == 98) || (a == 99 && b == 100) || (a == 112 && b == 113) || (a == 120 && b
            == 121) {
            return true;
        }
        i = i + 1;
    }
    false
}

/// Whether the word is nice under the first rule set: at least three vowels,
/// a doubled letter, and none of the forbidden substrings.
pub fn is_nice_word(s: &str) -> (b: bool)
    ensures
        b == nice_word(s.spec_bytes()),
{
    let bytes = s.as_bytes();
    count_vowels(bytes) >= 3 && contains_double_letter(bytes) && !contains_forbidden_str(bytes)
}

/// Whether some pair of letters appears at least twice without overlapping.
fn contains_pair_of_letters_twice(s: &[u8]) -> (b: bool)
    ensures
        b == has_pair_twice(s@),
{
    let len = s.len();
    if len < 4 {
        return false;
    }
    let mut i: usize = 0;
    while i + 3 < len
        invariant
            len == s@.len(),
            i + 3 <= len,
            forall|a: int, b: int|
                0 <= a < i && a + 2 <= b && b + 1 < len ==> !(s@[a] == s@[b] && #[trigger] s@[a + 1]
                    == #[trigger] s@[b + 1]),
        decreases len - i,
    {
        let mut j: usize = i + 2;
        while j + 1 < len
            invariant
                len == s@.len(),
                i + 3 <= len,
                i + 2 <= j,
                j + 1 <= len,
                forall|b: int|
                    i + 2 <= b < j ==> !(s@[i as int] == s@[b] && s@[i + 1] == #[trigger] s@[b
                        + 1]),
            decreases len - j,
        {
            if s[i] == s[j] && s[i + 1] == s[j + 1] {
                return true;
            }
            j = j + 1;
        }
        i = i + 1;
    }
    false
}

/// Whether some letter repeats with exactly one letter between.
fn contains_letter_that_repeats_with_letter_between(s: &[u8]) -> (b: bool)
    ensures
        b == has_repeat_with_gap(s@),
{
    let len = s.len();
    if len < 3 {
        return false;
    }
    let mut i: usize = 0;
    while i + 2 < len
        invariant
            len == s@.len(),
            i + 2 <= len,
            forall|j: int| 0 <= j < i ==> s@[j] != #[trigger] s@[j + 2],
        decreases len - i,
    {
        if s[i] == s[i + 2] {
            return true;
        }
        i = i + 1;
    }
    false
}

/// Whether the word is nice under the second rule set: a pair of letters
/// that appears twice without overlapping, and a letter that repeats with
/// exactly one letter between.
pub fn is_nice_word2(s: &str) -> (b: bool)
    ensures
        b == nice_word2(s.spec_bytes()),
{
    let bytes = s.as_bytes();
    contains_pair_of_letters_twice(bytes) && contains_letter_that_repeats_with_letter_between(bytes)
}

} // verus!
