//! Counting floor instructions, first revision: a running counter over the
//! characters of an instruction string.
//!
//! `(` steps one floor up, `)` one floor down, and every other character is
//! ignored. The counter also records how many parenthesis instructions it has
//! applied, so a caller can ask for the position of the first instruction that
//! reaches a given floor.

use vstd::prelude::*;

verus! {

/// Net floor change contributed by one character.
pub open spec fn count_delta(c: char) -> int {
    if c == '(' {
        1
    } else if c == ')' {
        -1
    } else {
        0
    }
}

/// 1 if the character is a parenthesis instruction, 0 otherwise.
pub open spec fn op_delta(c: char) -> int {
    if c == '(' || c == ')' {
        1
    } else {
        0
    }
}

/// Floor reached after applying every character of `s`, starting from 0.
pub open spec fn net_count(s: Seq<char>) -> int
    decreases s.len(),
{
    if s.len() == 0 {
        0
    } else {
        net_count(s.drop_last()) + count_delta(s.last())
    }
}

/// Number of parenthesis instructions in `s`.
pub open spec fn op_count(s: Seq<char>) -> int
    decreases s.len(),
{
    if s.len() == 0 {
        0
    } else {
        op_count(s.drop_last()) + op_delta(s.last())
    }
}

pub proof fn lemma_count_bounds(s: Seq<char>)
    ensures
        -s.len() <= net_count(s) <= s.len(),
        0 <= op_count(s) <= s.len(),
    decreases s.len(),
{
    if s.len() > 0 {
        lemma_count_bounds(s.drop_last());
    }
}

/// Running state: the floor reached so far and the number of parenthesis
/// instructions applied so far.
pub struct Counter {
    pub count: i32,
    pub operations: i32,
}

impl Counter {
    pub fn new() -> (c: Counter)
        ensures
            c.count == 0,
            c.operations == 0,
    {
        Counter { count: 0, operations: 0 }
    }

    pub fn apply(&mut self, operation: char)
        requires
            i32::MIN < old(self).count < i32::MAX,
            old(self).operations < i32::MAX,
        ensures
            final(self).count == old(self).count + count_delta(operation),
            final(self).operations == old(self).operations + op_delta(operation),
    {
        match operation {
            '(' => {
                self.count = self.count + 1;
                self.operations = self.operations + 1;
            }
            ')' => {
                self.count = self.count - 1;
                self.operations = self.operations + 1;
            }
            _ => {}
        }
    }
}

/// Floor reached after following every instruction of `operations`.
pub fn calculate_final_count(operations: &str) -> (count: i32)
    requires
        operations@.len() <= i32::MAX,
    ensures
        count == net_count(operations@),
{
    let n = operations.unicode_len();
    let mut counter = Counter::new();
    let mut i: usize = 0;
    while i < n
        invariant
            n == operations@.len(),
            n <= i32::MAX,
            i <= n,
            counter.count == net_count(operations@.take(i as int)),
            counter.operations == op_count(operations@.take(i as int)),
        decreases n - i,
    {
        let c = operations.get_char(i);
        proof {
            lemma_count_bounds(operations@.take(i as int));
        }
        counter.apply(c);
        proof {
            assert(operations@.take(i + 1).drop_last() =~= operations@.take(i as int));
            assert(operations@.take(i + 1).last() == operations@[i as int]);
        }
        i = i + 1;
    }
    proof {
        assert(operations@.take(n as int) =~= operations@);
    }
    counter.count
}

/// Number of parenthesis instructions applied when the running floor count
/// first reaches `stop_value`; the count over the whole string if it never
/// does.
pub fn calculate_operations_to_value(operations: &str, stop_value: i32) -> (r: i32)
    requires
        operations@.len() <= i32::MAX,
    ensures
        (exists|i: int|
            0 <= i < operations@.len() && #[trigger] net_count(operations@.take(i + 1))
                == stop_value) ==> exists|i: int|
            0 <= i < operations@.len() && #[trigger] net_count(operations@.take(i + 1))
                == stop_value && (forall|j: int|
                0 <= j < i ==> #[trigger] net_count(operations@.take(j + 1)) != stop_value) && r == op_count(
                operations@.take(i + 1),
            ),
        (forall|i: int|
            0 <= i < operations@.len() ==> #[trigger] net_count(operations@.take(i + 1))
                != stop_value) ==> r == op_count(operations@),
{
    let n = operations.unicode_len();
    let mut counter = Counter::new();
    let mut i: usize = 0;
    while i < n
        invariant_except_break
            n == operations@.len(),
            n <= i32::MAX,
            i <= n,
            counter.count == net_count(operations@.take(i as int)),
            counter.operations == op_count(operations@.take(i as int)),
            forall|j: int|
                0 <= j < i ==> #[trigger] net_count(operations@.take(j + 1)) != stop_value,
        ensures
            (exists|k: int|
                0 <= k < operations@.len() && #[trigger] net_count(operations@.take(k + 1))
                    == stop_value && (forall|j: int|
                    0 <= j < k ==> #[trigger] net_count(operations@.take(j + 1)) != stop_value)
                    && counter.operations == op_count(operations@.take(k + 1))) || ((forall|k: int|
                0 <= k < operations@.len() ==> #[trigger] net_count(operations@.take(k + 1))
                    != stop_value)
                && counter.operations == op_count(operations@.take(operations@.len() as int))),
        decreases n - i,
    {
        let c = operations.get_char(i);
        proof {
            lemma_count_bounds(operations@.take(i as int));
        }
        counter.apply(c);
        proof {
            assert(operations@.take(i + 1).drop_last() =~= operations@.take(i as int));
            assert(operations@.take(i + 1).last() == operations@[i as int]);
        }
        i = i + 1;
        if counter.count == stop_value {
            proof {
                let k = i as int - 1;
                assert(net_count(operations@.take(k + 1)) == stop_value);
                assert(counter.operations == op_count(operations@.take(k + 1)));
            }
            break ;
        }
    }
    proof {
        assert(operations@.take(operations@.len() as int) =~= operations@);
    }
    counter.operations
}

} // verus!
