//! Summing the numbers in an accounting document: first every number in the
//! raw text, then a structural walk that skips any object with a `"red"`
//! property value.

use vstd::prelude::*;

use crate::util::{is_digit, num_val, str_eq};

verus! {

/// Length of the run of digits at the front of `s`.
pub open spec fn digit_run(s: Seq<char>) -> int
    decreases s.len(),
{
    if s.len() == 0 || !is_digit(s[0]) {
        0
    } else {
        1 + digit_run(s.skip(1))
    }
}

pub proof fn lemma_digit_run_bounds(s: Seq<char>)
    ensures
        0 <= digit_run(s) <= s.len(),
        s.len() > 0 && is_digit(s[0]) ==> 1 <= digit_run(s),
        forall|i: int| 0 <= i < digit_run(s) ==> is_digit(s[i]),
        digit_run(s) < s.len() ==> !is_digit(s[digit_run(s)]),
    decreases s.len(),
{
    if s.len() > 0 && is_digit(s[0]) {
        lemma_digit_run_bounds(s.skip(1));
        assert forall|i: int| 0 <= i < digit_run(s) implies is_digit(s[i]) by {
            if i > 0 {
                assert(is_digit(s.skip(1)[i - 1]));
            }
        };
    }
}

/// Sum of every number in the text: each maximal digit run counts once, and
/// is negative exactly when a `-` immediately precedes it.
pub open spec fn text_sum(s: Seq<char>) -> int
    decreases s.len()
        via text_sum_decreases
{
    if s.len() == 0 {
        0
    } else if is_digit(s[0]) {
        num_val(s.take(digit_run(s))) + text_sum(s.skip(digit_run(s)))
    } else if s[0] == '-' && s.len() > 1 && is_digit(s[1]) {
        -num_val(s.skip(1).take(digit_run(s.skip(1)))) + text_sum(s.skip(1 + digit_run(s.skip(1))))
    } else {
        text_sum(s.skip(1))
    }
}

#[via_fn]
proof fn text_sum_decreases(s: Seq<char>) {
    if s.len() > 0 {
        lemma_digit_run_bounds(s);
        lemma_digit_run_bounds(s.skip(1));
    }
}

/// Every number in the text fits in 31 bits, as `i32` parsing demands.
pub open spec fn runs_fit(s: Seq<char>) -> bool
    decreases s.len()
        via runs_fit_decreases
{
    if s.len() == 0 {
        true
    } else if is_digit(s[0]) {
        num_val(s.take(digit_run(s))) <= i32::MAX && runs_fit(s.skip(digit_run(s)))
    } else if s[0] == '-' && s.len() > 1 && is_digit(s[1]) {
        num_val(s.skip(1).take(digit_run(s.skip(1)))) <= 0x8000_0000 && runs_fit(
            s.skip(1 + digit_run(s.skip(1))),
        )
    } else {
        runs_fit(s.skip(1))
    }
}

#[via_fn]
proof fn runs_fit_decreases(s: Seq<char>) {
    if s.len() > 0 {
        lemma_digit_run_bounds(s);
        lemma_digit_run_bounds(s.skip(1));
    }
}

/// Reads the digit run at `from` and returns its length and value, the
/// value clamped to `cap` of 2^32 as in [`crate::util::parse_decimal`].
fn scan_run(s: &[char], from: usize) -> (r: (usize, u64))
    requires
        from <= s@.len(),
    ensures
        r.0 == digit_run(s@.skip(from as int)),
        from + r.0 <= s@.len(),
        num_val(s@.skip(from as int).take(r.0 as int)) < 0x1_0000_0000 ==> r.1 == num_val(
            s@.skip(from as int).take(r.0 as int),
        ),
        num_val(s@.skip(from as int).take(r.0 as int)) >= 0x1_0000_0000 ==> r.1 == 0x1_0000_0000,
{
    let ghost rest = s@.skip(from as int);
    let len = s.len();
    let mut k: usize = 0;
    let mut val: u64 = 0;
    proof {
        lemma_digit_run_bounds(rest);
        assert(rest.take(0) =~= Seq::<char>::empty());
    }
    while from + k < len && '0' <= s[from + k] && s[from + k] <= '9'
        invariant
            len == s@.len(),
            from + k <= len,
            rest == s@.skip(from as int),
            k <= digit_run(rest),
            forall|i: int| 0 <= i < k ==> is_digit(rest[i]),
            num_val(rest.take(k as int)) < 0x1_0000_0000 ==> val == num_val(rest.take(k as int)),
            num_val(rest.take(k as int)) >= 0x1_0000_0000 ==> val == 0x1_0000_0000,
            val <= 0x1_0000_0000,
        decreases len - from - k,
    {
        let c = s[from + k];
        proof {
            assert(rest.take(k + 1).drop_last() =~= rest.take(k as int));
            assert(rest.take(k + 1).last() == rest[k as int]);
            crate::util::lemma_num_val_nonneg(rest.take(k as int));
            lemma_digit_run_bounds(rest);
            if k >= digit_run(rest) {
                assert(!is_digit(rest[digit_run(rest)]));
                assert(false);
            }
        }
        let d = (c as u64) - 48;
        if val * 10 + d >= 0x1_0000_0000 {
            val = 0x1_0000_0000;
        } else {
            val = val * 10 + d;
        }
        k = k + 1;
    }
    proof {
        lemma_digit_run_bounds(rest);
        if k < digit_run(rest) {
            assert(is_digit(rest[k as int]));
            assert(false);
        }
    }
    (k, val)
}

/// Sum of every number that appears in the document text.
pub fn sum_numbers_in_str(s: &str) -> (r: i32)
    requires
        s@.len() <= i32::MAX,
        runs_fit(s@),
        i32::MIN <= text_sum(s@) <= i32::MAX,
    ensures
        r == text_sum(s@),
{
    let chars = str_chars(s);
    let len = chars.len();
    let mut acc: i64 = 0;
    let mut i: usize = 0;
    proof {
        assert(chars@.skip(0) =~= chars@);
    }
    while i < len
        invariant
            chars@ == s@,
            len == chars@.len(),
            len <= i32::MAX,
            i <= len,
            acc + text_sum(chars@.skip(i as int)) == text_sum(chars@),
            runs_fit(chars@.skip(i as int)),
            -0x8000_0000int * i <= acc <= 0x8000_0000int * i,
        decreases len - i,
    {
        let ghost rest = chars@.skip(i as int);
        let c = chars[i];
        if '0' <= c && c <= '9' {
            let (k, v) = scan_run(&chars, i);
            proof {
                lemma_digit_run_bounds(rest);
                crate::util::lemma_num_val_nonneg(rest.take(digit_run(rest)));
                assert(chars@.skip(i + k) =~= rest.skip(k as int));
                assert(0x8000_0000int * i + 0x8000_0000 <= 0x8000_0000int * (i + k))
                    by (nonlinear_arith)
                    requires
                        k >= 1,
                        i >= 0,
                ;
                assert(-0x8000_0000int * (i + k) <= -0x8000_0000int * i) by (nonlinear_arith)
                    requires
                        k >= 1,
                        i >= 0,
                ;
            }
            acc = acc + v as i64;
            i = i + k;
        } else if c == '-' && i + 1 < len && '0' <= chars[i + 1] && chars[i + 1] <= '9' {
            let (k, v) = scan_run(&chars, i + 1);
            proof {
                lemma_digit_run_bounds(rest);
                lemma_digit_run_bounds(rest.skip(1));
                assert(rest.skip(1) =~= chars@.skip(i + 1));
                assert(rest.skip(1).take(k as int) =~= chars@.skip(i + 1).take(k as int));
                crate::util::lemma_num_val_nonneg(rest.skip(1).take(digit_run(rest.skip(1))));
                assert(chars@.skip(i + 1 + k) =~= rest.skip(1 + k));
                assert(0x8000_0000int * i + 0x8000_0000 <= 0x8000_0000int * (i + 1 + k))
                    by (nonlinear_arith)
                    requires
                        k >= 0,
                        i >= 0,
                ;
                assert(-0x8000_0000int * (i + 1 + k) <= -0x8000_0000int * i) by (nonlinear_arith)
                    requires
                        k >= 0,
                        i >= 0,
                ;
            }
            acc = acc - v as i64;
            i = i + 1 + k;
        } else {
            proof {
                assert(chars@.skip(i + 1) =~= rest.skip(1));
                assert(0x8000_0000int * i <= 0x8000_0000int * (i + 1)) by (nonlinear_arith)
                    requires
                        i >= 0,
                ;
                assert(-0x8000_0000int * (i + 1) <= -0x8000_0000int * i) by (nonlinear_arith)
                    requires
                        i >= 0,
                ;
            }
            i = i + 1;
        }
    }
    proof {
        assert(chars@.skip(len as int) =~= Seq::<char>::empty());
    }
    acc as i32
}

/// The characters of the string, one by one.
fn str_chars(s: &str) -> (r: Vec<char>)
    ensures
        r@ == s@,
{
    let n = s.unicode_len();
    let mut r: Vec<char> = Vec::new();
    let mut i: usize = 0;
    while i < n
        invariant
            n == s@.len(),
            i <= n,
            r@ == s@.take(i as int),
        decreases n - i,
    {
        r.push(s.get_char(i));
        proof {
            assert(r@ =~= s@.take(i + 1));
        }
        i = i + 1;
    }
    proof {
        assert(s@.take(n as int) =~= s@);
    }
    r
}

/// A JSON-like document value, as plain data: objects keep their properties
/// in document order.
pub enum JsonNode {
    Null,
    Bool(bool),
    Num(i64),
    Str(String),
    Arr(Vec<JsonNode>),
    Obj(Vec<(String, JsonNode)>),
}

pub open spec fn red_word() -> Seq<char> {
    seq!['r', 'e', 'd']
}

/// Some property value of the object is the string `"red"`.
pub open spec fn has_red(fields: Seq<(String, JsonNode)>) -> bool {
    exists|i: int|
        0 <= i < fields.len() && ((#[trigger] fields[i]).1 matches JsonNode::Str(s) && s@
            == red_word())
}

/// Sum of the numbers in a value, skipping any object that has a `"red"`
/// property value (the object's whole subtree is ignored).
pub open spec fn node_sum(n: JsonNode) -> int
    decreases n,
{
    match n {
        JsonNode::Num(v) => v as int,
        JsonNode::Arr(items) => arr_sum(items@),
        JsonNode::Obj(fields) => if has_red(fields@) {
            0
        } else {
            obj_sum(fields@)
        },
        _ => 0,
    }
}

pub open spec fn arr_sum(items: Seq<JsonNode>) -> int
    decreases items, 0int,
{
    if items.len() == 0 {
        0
    } else {
        arr_sum(items.drop_last()) + node_sum(items.last())
    }
}

pub open spec fn obj_sum(fields: Seq<(String, JsonNode)>) -> int
    decreases fields, 0int,
{
    if fields.len() == 0 {
        0
    } else {
        obj_sum(fields.drop_last()) + node_sum(fields.last().1)
    }
}

/// Every partial sum inside the value stays within `i64`, so the walk never
/// overflows its accumulator.
pub open spec fn sums_fit(n: JsonNode) -> bool
    decreases n,
{
    match n {
        JsonNode::Arr(items) => arr_fit(items@),
        JsonNode::Obj(fields) => obj_fit(fields@),
        _ => true,
    }
}

pub open spec fn arr_fit(items: Seq<JsonNode>) -> bool
    decreases items, 0int,
{
    if items.len() == 0 {
        true
    } else {
        arr_fit(items.drop_last()) && sums_fit(items.last()) && i64::MIN <= arr_sum(items)
            <= i64::MAX
    }
}

pub open spec fn obj_fit(fields: Seq<(String, JsonNode)>) -> bool
    decreases fields, 0int,
{
    if fields.len() == 0 {
        true
    } else {
        obj_fit(fields.drop_last()) && sums_fit(fields.last().1) && i64::MIN <= obj_sum(fields)
            <= i64::MAX
    }
}

proof fn lemma_arr_fit_prefix(items: Seq<JsonNode>, i: int)
    requires
        arr_fit(items),
        0 <= i <= items.len(),
    ensures
        arr_fit(items.take(i)),
    decreases items.len() - i,
{
    if i < items.len() {
        lemma_arr_fit_prefix(items, i + 1);
        assert(items.take(i + 1).drop_last() =~= items.take(i));
    } else {
        assert(items.take(i) =~= items);
    }
}

proof fn lemma_obj_fit_prefix(fields: Seq<(String, JsonNode)>, i: int)
    requires
        obj_fit(fields),
        0 <= i <= fields.len(),
    ensures
        obj_fit(fields.take(i)),
    decreases fields.len() - i,
{
    if i < fields.len() {
        lemma_obj_fit_prefix(fields, i + 1);
        assert(fields.take(i + 1).drop_last() =~= fields.take(i));
    } else {
        assert(fields.take(i) =~= fields);
    }
}

/// Sum of the numbers in the value, skipping every object that holds a
/// `"red"` property value.
pub fn sum_value(value: &JsonNode) -> (r: i64)
    requires
        sums_fit(*value),
    ensures
        r == node_sum(*value),
    decreases *value,
{
    proof {
        reveal_strlit("red");
        assert("red"@ =~= red_word());
    }
    match value {
        JsonNode::Null => 0,
        JsonNode::Bool(_) => 0,
        JsonNode::Num(v) => *v,
        JsonNode::Str(_) => 0,
        JsonNode::Arr(items) => {
            let n = items.len();
            let mut acc: i64 = 0;
            let mut i: usize = 0;
            proof {
                assert(items@.take(0) =~= Seq::<JsonNode>::empty());
                assert(sums_fit(JsonNode::Arr(*items)));
            }
            while i < n
                invariant
                    n == items@.len(),
                    i <= n,
                    acc == arr_sum(items@.take(i as int)),
                    arr_fit(items@),
                    decreases_to!(*value => *items),
                decreases n - i,
            {
                proof {
                    assert(decreases_to!(*items => items@[i as int]));
                    assert(items@.take(i + 1).drop_last() =~= items@.take(i as int));
                    assert(items@.take(i + 1).last() == items@[i as int]);
                    lemma_arr_fit_prefix(items@, i + 1);
                }
                let v = sum_value(&items[i]);
                proof {
                    assert(arr_sum(items@.take(i + 1)) == acc + v);
                }
                acc = acc + v;
                i = i + 1;
            }
            proof {
                assert(items@.take(n as int) =~= items@);
            }
            acc
        },
        JsonNode::Obj(fields) => {
            let n = fields.len();
            let mut red = false;
            let mut i: usize = 0;
            while i < n
                invariant
                    n == fields@.len(),
                    i <= n,
                    red == exists|j: int|
                        0 <= j < i && ((#[trigger] fields@[j]).1 matches JsonNode::Str(s) && s@
                            == red_word()),
                    "red"@ == red_word(),
                decreases n - i,
            {
                match &fields[i].1 {
                    JsonNode::Str(s) => {
                        if str_eq(s.as_str(), "red") {
                            red = true;
                        }
                    },
                    _ => {},
                }
                i = i + 1;
            }
            if red {
                proof {
                    assert(has_red(fields@));
                }
                return 0;
            }
            let mut acc: i64 = 0;
            let mut i: usize = 0;
            proof {
                assert(fields@.take(0) =~= Seq::<(String, JsonNode)>::empty());
                assert(!has_red(fields@));
                assert(sums_fit(JsonNode::Obj(*fields)));
            }
            while i < n
                invariant
                    n == fields@.len(),
                    i <= n,
                    acc == obj_sum(fields@.take(i as int)),
                    obj_fit(fields@),
                    decreases_to!(*value => *fields),
                decreases n - i,
            {
                proof {
                    assert(decreases_to!(*fields => fields@[i as int]));
                    assert(decreases_to!(fields@[i as int] => fields@[i as int].1));
                    assert(fields@.take(i + 1).drop_last() =~= fields@.take(i as int));
                    assert(fields@.take(i + 1).last() == fields@[i as int]);
                    lemma_obj_fit_prefix(fields@, i + 1);
                }
                let v = sum_value(&fields[i].1);
                proof {
                    assert(obj_sum(fields@.take(i + 1)) == acc + v);
                }
                acc = acc + v;
                i = i + 1;
            }
            proof {
                assert(fields@.take(n as int) =~= fields@);
            }
            acc
        },
    }
}

} // verus!
