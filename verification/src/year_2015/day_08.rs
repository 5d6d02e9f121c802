//! Re-encoding string literals from a santa list: stripping one layer of
//! quoting and escapes, and adding one.

use vstd::prelude::*;
use vstd::string::StringSliceAdditionalSpecFns;

use crate::util::{bytes_to_string, lemma_ascii_bytes_valid_utf8};

verus! {

/// ASCII whitespace, as the token patterns read it.
pub open spec fn is_space(c: u8) -> bool {
    c == 32 || c == 9 || c == 10 || c == 13 || c == 11 || c == 12
}

pub open spec fn is_hex_digit(c: u8) -> bool {
    (48 <= c <= 57) || (97 <= c <= 102) || (65 <= c <= 70)
}

/// First index at or after `i` that holds whitespace, or the end.
pub open spec fn run_end(s: Seq<u8>, i: int) -> int
    decreases (if i <= s.len() {
        s.len() - i
    } else {
        0
    })
{
    if i < 0 || i >= s.len() {
        s.len() as int
    } else if is_space(s[i]) {
        i
    } else {
        run_end(s, i + 1)
    }
}

/// Largest index in `[lo, hi)` holding a double quote, or -1.
pub open spec fn last_quote_in(s: Seq<u8>, lo: int, hi: int) -> int
    decreases (if hi >= lo {
        hi - lo
    } else {
        0
    })
{
    if hi <= lo || hi > s.len() || lo < 0 {
        -1
    } else if s[hi - 1] == 34 {
        hi - 1
    } else {
        last_quote_in(s, lo, hi - 1)
    }
}

/// The first quoted whitespace-free token: a double quote, a non-empty run
/// of non-whitespace ending at the last double quote of the run, or two
/// adjacent double quotes. Yields the positions of the two quotes.
pub open spec fn first_quoted(s: Seq<u8>, p: int) -> Option<(int, int)>
    decreases (if p <= s.len() {
        s.len() - p
    } else {
        0
    })
{
    if p < 0 || p >= s.len() {
        None
    } else if s[p] == 34 {
        let r = last_quote_in(s, p + 2, run_end(s, p + 1));
        if r >= 0 {
            Some((p, r))
        } else if p + 1 < s.len() && s[p + 1] == 34 {
            Some((p, p + 1))
        } else {
            first_quoted(s, p + 1)
        }
    } else {
        first_quoted(s, p + 1)
    }
}

pub proof fn lemma_first_quoted_bounds(s: Seq<u8>, p0: int)
    ensures
        first_quoted(s, p0) matches Some(pr) ==> p0 <= pr.0 && pr.0 < pr.1 < s.len() && s[pr.0]
            == 34 && s[pr.1] == 34,
    decreases (if p0 <= s.len() {
        s.len() - p0
    } else {
        0
    }),
{
    if 0 <= p0 < s.len() {
        lemma_first_quoted_bounds(s, p0 + 1);
        if s[p0] == 34 {
            lemma_last_quote_bounds(s, p0 + 2, run_end(s, p0 + 1));
            lemma_run_end_bounds(s, p0 + 1);
        }
    }
}

proof fn lemma_last_quote_bounds(s: Seq<u8>, lo: int, hi: int)
    ensures
        last_quote_in(s, lo, hi) >= 0 ==> lo <= last_quote_in(s, lo, hi) < hi && s[last_quote_in(
            s,
            lo,
            hi,
        )] == 34,
    decreases (if hi >= lo {
        hi - lo
    } else {
        0
    }),
{
    if !(hi <= lo || hi > s.len() || lo < 0) && s[hi - 1] != 34 {
        lemma_last_quote_bounds(s, lo, hi - 1);
    }
}

proof fn lemma_run_end_bounds(s: Seq<u8>, i: int)
    requires
        0 <= i <= s.len(),
    ensures
        i <= run_end(s, i) <= s.len(),
    decreases s.len() - i,
{
    if i < s.len() && !is_space(s[i]) {
        lemma_run_end_bounds(s, i + 1);
    }
}

/// Strips the quotes of the first quoted token, keeping what stood between
/// them.
pub open spec fn unquote_first(s: Seq<u8>) -> Seq<u8> {
    match first_quoted(s, 0) {
        Some((p, r)) => s.take(p) + s.subrange(p + 1, r) + s.skip(r + 1),
        None => s,
    }
}

/// Replaces every hex escape `\xHH` by a single placeholder character.
pub open spec fn replace_hex(s: Seq<u8>) -> Seq<u8>
    decreases s.len(),
{
    if s.len() == 0 {
        s
    } else if s.len() >= 4 && s[0] == 92 && s[1] == 120 && is_hex_digit(s[2]) && is_hex_digit(
        s[3],
    ) {
        seq![39u8] + replace_hex(s.skip(4))
    } else {
        seq![s[0]] + replace_hex(s.skip(1))
    }
}

/// Replaces every backslash escape by the escaped character itself.
pub open spec fn replace_escapes(s: Seq<u8>) -> Seq<u8>
    decreases s.len(),
{
    if s.len() == 0 {
        s
    } else if s.len() >= 2 && s[0] == 92 && !is_space(s[1]) {
        seq![s[1]] + replace_escapes(s.skip(2))
    } else {
        seq![s[0]] + replace_escapes(s.skip(1))
    }
}

/// The in-memory form of a string literal: the first quoted token loses its
/// quotes, hex escapes collapse to one character, and other escapes to the
/// escaped character.
pub open spec fn reformat_spec(s: Seq<u8>) -> Seq<u8> {
    replace_escapes(replace_hex(unquote_first(s)))
}

/// Prefixes every backslash and double quote with a backslash.
pub open spec fn escape_chars(s: Seq<u8>) -> Seq<u8>
    decreases s.len(),
{
    if s.len() == 0 {
        s
    } else if s[0] == 92 || s[0] == 34 {
        seq![92u8, s[0]] + escape_chars(s.skip(1))
    } else {
        seq![s[0]] + escape_chars(s.skip(1))
    }
}

/// First index at or after `i` holding non-whitespace, or the end.
pub open spec fn token_start(s: Seq<u8>, i: int) -> int
    decreases (if i <= s.len() {
        s.len() - i
    } else {
        0
    })
{
    if i < 0 || i >= s.len() {
        s.len() as int
    } else if !is_space(s[i]) {
        i
    } else {
        token_start(s, i + 1)
    }
}

/// Wraps the first whitespace-free token in double quotes; a string with no
/// such token is left alone.
pub open spec fn quote_first(s: Seq<u8>) -> Seq<u8> {
    let p = token_start(s, 0);
    if p >= s.len() {
        s
    } else {
        let m = run_end(s, p);
        s.take(p) + seq![34u8] + s.subrange(p, m) + seq![34u8] + s.skip(m)
    }
}

/// The re-encoded form of a line: escapes added, then the first token
/// wrapped in quotes.
pub open spec fn escape_spec(s: Seq<u8>) -> Seq<u8> {
    quote_first(escape_chars(s))
}

/// First whitespace position at or after `from`.
fn find_run_end(s: &[u8], from: usize) -> (r: usize)
    requires
        from <= s@.len(),
    ensures
        r == run_end(s@, from as int),
        from <= r <= s@.len(),
{
    let len = s.len();
    let mut i = from;
    while i < len
        invariant
            len == s@.len(),
            from <= i <= len,
            run_end(s@, from as int) == run_end(s@, i as int),
        decreases len - i,
    {
        let c = s[i];
        if c == 32 || c == 9 || c == 10 || c == 13 || c == 11 || c == 12 {
            return i;
        }
        i = i + 1;
    }
    len
}

/// Largest double-quote position in `[lo, hi)`, if any.
fn find_last_quote(s: &[u8], lo: usize, hi: usize) -> (r: Option<usize>)
    requires
        hi <= s@.len(),
    ensures
        match r {
            Some(q) => last_quote_in(s@, lo as int, hi as int) == q,
            None => last_quote_in(s@, lo as int, hi as int) == -1,
        },
{
    let mut h = hi;
    while h > lo
        invariant
            hi <= s@.len(),
            h <= hi,
            last_quote_in(s@, lo as int, hi as int) == last_quote_in(s@, lo as int, h as int),
        decreases h,
    {
        h = h - 1;
        if s[h] == 34 {
            return Some(h);
        }
    }
    None
}

/// Positions of the two quotes of the first quoted token, if any.
fn find_first_quoted(s: &[u8]) -> (r: Option<(usize, usize)>)
    ensures
        match r {
            Some(pr) => first_quoted(s@, 0) == Some((pr.0 as int, pr.1 as int)),
            None => first_quoted(s@, 0) is None,
        },
{
    let len = s.len();
    let mut p: usize = 0;
    while p < len
        invariant
            len == s@.len(),
            p <= len,
            first_quoted(s@, 0) == first_quoted(s@, p as int),
        decreases len - p,
    {
        if s[p] == 34 {
            let e = find_run_end(s, p + 1);
            let found = if e >= 2 && p <= e - 2 {
                find_last_quote(s, p + 2, e)
            } else {
                proof {
                    assert(last_quote_in(s@, p + 2, e as int) == -1);
                }
                None
            };
            match found {
                Some(q) => {
                    return Some((p, q));
                },
                None => {
                    if p + 1 < len && s[p + 1] == 34 {
                        return Some((p, p + 1));
                    }
                },
            }
        }
        p = p + 1;
    }
    None
}

/// The bytes with the two given positions removed.
fn strip_quotes(s: &[u8], p: usize, q: usize) -> (r: Vec<u8>)
    requires
        p < q < s@.len(),
    ensures
        r@ == s@.take(p as int) + s@.subrange(p + 1, q as int) + s@.skip(q + 1),
        (forall|k: int| 0 <= k < s@.len() ==> s@[k] < 128) ==> forall|j: int|
            0 <= j < r@.len() ==> #[trigger] r@[j] < 128,
{
    let len = s.len();
    let mut r: Vec<u8> = Vec::new();
    let mut i: usize = 0;
    while i < len
        invariant
            len == s@.len(),
            p < q < len,
            i <= len,
            i <= p ==> r@ =~= s@.subrange(0, i as int),
            p < i <= q ==> r@ =~= s@.subrange(0, p as int) + s@.subrange(p + 1, i as int),
            i > q ==> r@ =~= s@.subrange(0, p as int) + s@.subrange(p + 1, q as int)
                + s@.subrange(q + 1, i as int),
        decreases len - i,
    {
        if i != p && i != q {
            r.push(s[i]);
        }
        proof {
            if i + 1 <= p {
                assert(r@ =~= s@.subrange(0, i + 1));
            } else if p < i + 1 && i + 1 <= q {
                assert(r@ =~= s@.subrange(0, p as int) + s@.subrange(p + 1, i + 1));
            } else {
                assert(r@ =~= s@.subrange(0, p as int) + s@.subrange(p + 1, q as int)
                    + s@.subrange(q + 1, i + 1));
            }
        }
        i = i + 1;
    }
    proof {
        assert(s@.subrange(0, p as int) =~= s@.take(p as int));
        assert(s@.subrange(q + 1, len as int) =~= s@.skip(q + 1));
        if forall|k: int| 0 <= k < s@.len() ==> s@[k] < 128 {
            assert forall|j: int| 0 <= j < r@.len() implies #[trigger] r@[j] < 128 by {
                if j < p {
                    assert(r@[j] == s@[j]);
                } else if j < q - 1 {
                    assert(r@[j] == s@[j + 1]);
                } else {
                    assert(r@[j] == s@[j + 2]);
                }
            };
        }
    }
    r
}

/// One pass replacing every `\xHH` by the placeholder character.
fn hex_pass(s: &[u8]) -> (r: Vec<u8>)
    requires
        forall|k: int| 0 <= k < s@.len() ==> s@[k] < 128,
    ensures
        r@ == replace_hex(s@),
        forall|j: int| 0 <= j < r@.len() ==> #[trigger] r@[j] < 128,
{
    let len = s.len();
    let mut r: Vec<u8> = Vec::new();
    let mut i: usize = 0;
    proof {
        assert(s@.skip(0) =~= s@);
        assert(Seq::<u8>::empty() + replace_hex(s@) =~= replace_hex(s@));
    }
    while i < len
        invariant
            len == s@.len(),
            i <= len,
            replace_hex(s@) == r@ + replace_hex(s@.skip(i as int)),
            forall|k: int| 0 <= k < s@.len() ==> s@[k] < 128,
            forall|j: int| 0 <= j < r@.len() ==> #[trigger] r@[j] < 128,
        decreases len - i,
    {
        let ghost res0 = r@;
        let ghost rest = s@.skip(i as int);
        if len - i >= 4 && s[i] == 92 && s[i + 1] == 120 && ((48 <= s[i + 2] && s[i + 2] <= 57) || (
        97 <= s[i + 2] && s[i + 2] <= 102) || (65 <= s[i + 2] && s[i + 2] <= 70)) && ((48 <= s[i
            + 3] && s[i + 3] <= 57) || (97 <= s[i + 3] && s[i + 3] <= 102) || (65 <= s[i + 3] && s[i
            + 3] <= 70)) {
            r.push(39);
            proof {
                assert(rest.skip(4) =~= s@.skip(i + 4));
                assert(replace_hex(rest) == seq![39u8] + replace_hex(rest.skip(4)));
                assert(res0 + (seq![39u8] + replace_hex(rest.skip(4))) =~= (res0 + seq![39u8])
                    + replace_hex(rest.skip(4)));
                assert(r@ =~= res0 + seq![39u8]);
            }
            i = i + 4;
        } else {
            r.push(s[i]);
            proof {
                assert(rest.skip(1) =~= s@.skip(i + 1));
                assert(rest[0] == s@[i as int]);
                assert(replace_hex(rest) == seq![s@[i as int]] + replace_hex(rest.skip(1)));
                assert(res0 + (seq![s@[i as int]] + replace_hex(rest.skip(1))) =~= (res0 + seq![
                    s@[i as int],
                ]) + replace_hex(rest.skip(1)));
                assert(r@ =~= res0 + seq![s@[i as int]]);
            }
            i = i + 1;
        }
    }
    proof {
        assert(s@.skip(len as int) =~= Seq::<u8>::empty());
        assert(r@ + replace_hex(s@.skip(len as int)) =~= r@);
    }
    r
}

/// One pass replacing every backslash escape by the escaped character.
fn escape_pass(s: &[u8]) -> (r: Vec<u8>)
    requires
        forall|k: int| 0 <= k < s@.len() ==> s@[k] < 128,
    ensures
        r@ == replace_escapes(s@),
        forall|j: int| 0 <= j < r@.len() ==> #[trigger] r@[j] < 128,
{
    let len = s.len();
    let mut r: Vec<u8> = Vec::new();
    let mut i: usize = 0;
    proof {
        assert(s@.skip(0) =~= s@);
        assert(Seq::<u8>::empty() + replace_escapes(s@) =~= replace_escapes(s@));
    }
    while i < len
        invariant
            len == s@.len(),
            i <= len,
            replace_escapes(s@) == r@ + replace_escapes(s@.skip(i as int)),
            forall|k: int| 0 <= k < s@.len() ==> s@[k] < 128,
            forall|j: int| 0 <= j < r@.len() ==> #[trigger] r@[j] < 128,
        decreases len - i,
    {
        let ghost res0 = r@;
        let ghost rest = s@.skip(i as int);
        let c = s[i];
        if len - i >= 2 && c == 92 && !(s[i + 1] == 32 || s[i + 1] == 9 || s[i + 1] == 10 || s[i + 1]
            == 13 || s[i + 1] == 11 || s[i + 1] == 12) {
            r.push(s[i + 1]);
            proof {
                assert(rest.skip(2) =~= s@.skip(i + 2));
                assert(rest[1] == s@[i + 1]);
                assert(replace_escapes(rest) == seq![s@[i + 1]] + replace_escapes(rest.skip(2)));
                assert(res0 + (seq![s@[i + 1]] + replace_escapes(rest.skip(2))) =~= (res0 + seq![
                    s@[i + 1],
                ]) + replace_escapes(rest.skip(2)));
                assert(r@ =~= res0 + seq![s@[i + 1]]);
            }
            i = i + 2;
        } else {
            r.push(c);
            proof {
                assert(rest.skip(1) =~= s@.skip(i + 1));
                assert(rest[0] == s@[i as int]);
                assert(replace_escapes(rest) == seq![s@[i as int]] + replace_escapes(
                    rest.skip(1),
                ));
                assert(res0 + (seq![s@[i as int]] + replace_escapes(rest.skip(1))) =~= (res0
                    + seq![s@[i as int]]) + replace_escapes(rest.skip(1)));
                assert(r@ =~= res0 + seq![s@[i as int]]);
            }
            i = i + 1;
        }
    }
    proof {
        assert(s@.skip(len as int) =~= Seq::<u8>::empty());
        assert(r@ + replace_escapes(s@.skip(len as int)) =~= r@);
    }
    r
}

/// The in-memory form of the provided string literal. The input must be
/// ASCII, as the escapes it holds are byte-for-byte characters.
pub fn reformat_string(before: &str) -> (r: String)
    requires
        before.is_ascii(),
    ensures
        vstd::utf8::encode_utf8(r@) == reformat_spec(before.spec_bytes()),
{
    broadcast use vstd::string::is_ascii_spec_bytes;

    let bytes = before.as_bytes();
    proof {
        assert forall|j: int| 0 <= j < bytes@.len() implies bytes@[j] < 128 by {
            assert(before@[j] <= '\u{7f}');
        };
    }
    proof {
        lemma_first_quoted_bounds(bytes@, 0);
    }
    let stripped: Vec<u8> = match find_first_quoted(bytes) {
        Some((p, q)) => strip_quotes(bytes, p, q),
        None => {
            let mut copy: Vec<u8> = Vec::new();
            copy.extend_from_slice(bytes);
            proof {
                assert(copy@ =~= bytes@);
            }
            copy
        },
    };
    proof {
        assert(stripped@ == unquote_first(bytes@));
    }
    let hexed = hex_pass(stripped.as_slice());
    let unescaped = escape_pass(hexed.as_slice());
    proof {
        lemma_ascii_bytes_valid_utf8(unescaped@);
    }
    bytes_to_string(unescaped)
}

/// First non-whitespace position at or after `from`.
fn find_token_start(s: &[u8], from: usize) -> (r: usize)
    requires
        from <= s@.len(),
    ensures
        r == token_start(s@, from as int),
        from <= r <= s@.len(),
{
    let len = s.len();
    let mut i = from;
    while i < len
        invariant
            len == s@.len(),
            from <= i <= len,
            token_start(s@, from as int) == token_start(s@, i as int),
        decreases len - i,
    {
        let c = s[i];
        if !(c == 32 || c == 9 || c == 10 || c == 13 || c == 11 || c == 12) {
            return i;
        }
        i = i + 1;
    }
    len
}

/// The re-encoded form of the provided line: every backslash and double
/// quote gains a backslash, and the first whitespace-free token is wrapped
/// in double quotes. The input must be ASCII, like the lists this reads.
pub fn escape_string(before: &str) -> (r: String)
    requires
        before.is_ascii(),
    ensures
        vstd::utf8::encode_utf8(r@) == escape_spec(before.spec_bytes()),
{
    broadcast use vstd::string::is_ascii_spec_bytes;

    let bytes = before.as_bytes();
    proof {
        assert forall|j: int| 0 <= j < bytes@.len() implies bytes@[j] < 128 by {
            assert(before@[j] <= '\u{7f}');
        };
    }
    let len = bytes.len();
    let mut escaped: Vec<u8> = Vec::new();
    let mut i: usize = 0;
    proof {
        assert(bytes@.skip(0) =~= bytes@);
        assert(Seq::<u8>::empty() + escape_chars(bytes@) =~= escape_chars(bytes@));
    }
    while i < len
        invariant
            len == bytes@.len(),
            i <= len,
            escape_chars(bytes@) == escaped@ + escape_chars(bytes@.skip(i as int)),
            forall|j: int| 0 <= j < bytes@.len() ==> bytes@[j] < 128,
            forall|j: int| 0 <= j < escaped@.len() ==> #[trigger] escaped@[j] < 128,
        decreases len - i,
    {
        let ghost res0 = escaped@;
        let ghost rest = bytes@.skip(i as int);
        let c = bytes[i];
        if c == 92 || c == 34 {
            escaped.push(92);
            escaped.push(c);
            proof {
                assert(rest.skip(1) =~= bytes@.skip(i + 1));
                assert(rest[0] == bytes@[i as int]);
                assert(escape_chars(rest) == seq![92u8, bytes@[i as int]] + escape_chars(
                    rest.skip(1),
                ));
                assert(res0 + (seq![92u8, bytes@[i as int]] + escape_chars(rest.skip(1))) =~= (res0
                    + seq![92u8, bytes@[i as int]]) + escape_chars(rest.skip(1)));
                assert(escaped@ =~= res0 + seq![92u8, bytes@[i as int]]);
            }
        } else {
            escaped.push(c);
            proof {
                assert(rest.skip(1) =~= bytes@.skip(i + 1));
                assert(rest[0] == bytes@[i as int]);
                assert(escape_chars(rest) == seq![bytes@[i as int]] + escape_chars(rest.skip(1)));
                assert(res0 + (seq![bytes@[i as int]] + escape_chars(rest.skip(1))) =~= (res0
                    + seq![bytes@[i as int]]) + escape_chars(rest.skip(1)));
                assert(escaped@ =~= res0 + seq![bytes@[i as int]]);
            }
        }
        i = i + 1;
    }
    proof {
        assert(bytes@.skip(len as int) =~= Seq::<u8>::empty());
        assert(escaped@ + escape_chars(bytes@.skip(len as int)) =~= escaped@);
    }
    let p = find_token_start(escaped.as_slice(), 0);
    let elen = escaped.len();
    if p >= elen {
        proof {
            assert(quote_first(escaped@) == escaped@);
            lemma_ascii_bytes_valid_utf8(escaped@);
        }
        return bytes_to_string(escaped);
    }
    let m = find_run_end(escaped.as_slice(), p);
    let mut out: Vec<u8> = Vec::new();
    let mut i: usize = 0;
    while i < p
        invariant
            p <= escaped@.len(),
            i <= p,
            out@ =~= escaped@.subrange(0, i as int),
        decreases p - i,
    {
        out.push(escaped[i]);
        proof {
            assert(out@ =~= escaped@.subrange(0, i + 1));
        }
        i = i + 1;
    }
    out.push(34);
    let mut i = p;
    while i < m
        invariant
            p <= m <= escaped@.len(),
            p <= i <= m,
            out@ =~= escaped@.subrange(0, p as int) + seq![34u8] + escaped@.subrange(
                p as int,
                i as int,
            ),
        decreases m - i,
    {
        out.push(escaped[i]);
        proof {
            assert(out@ =~= escaped@.subrange(0, p as int) + seq![34u8] + escaped@.subrange(
                p as int,
                i + 1,
            ));
        }
        i = i + 1;
    }
    out.push(34);
    let mut i = m;
    while i < elen
        invariant
            elen == escaped@.len(),
            p <= m <= elen,
            m <= i <= elen,
            out@ =~= escaped@.subrange(0, p as int) + seq![34u8] + escaped@.subrange(
                p as int,
                m as int,
            ) + seq![34u8] + escaped@.subrange(m as int, i as int),
        decreases elen - i,
    {
        out.push(escaped[i]);
        proof {
            assert(out@ =~= escaped@.subrange(0, p as int) + seq![34u8] + escaped@.subrange(
                p as int,
                m as int,
            ) + seq![34u8] + escaped@.subrange(m as int, i + 1));
        }
        i = i + 1;
    }
    proof {
        assert(escaped@.subrange(0, p as int) =~= escaped@.take(p as int));
        assert(escaped@.subrange(m as int, elen as int) =~= escaped@.skip(m as int));
        assert(out@ =~= quote_first(escaped@));
        assert forall|j: int| 0 <= j < out@.len() implies out@[j] < 128 by {};
        lemma_ascii_bytes_valid_utf8(out@);
    }
    bytes_to_string(out)
}

} // verus!
