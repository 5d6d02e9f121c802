//! Floor instructions over raw bytes.
//!
//! An opening parenthesis `(` goes one floor up and a closing parenthesis `)`
//! one floor down; every other byte is ignored. The building is unbounded in
//! both directions.

use vstd::prelude::*;

verus! {

/// Net floor change contributed by one instruction byte.
pub open spec fn floor_delta(c: u8) -> int {
    if c == 40 {
        1
    } else if c == 41 {
        -1
    } else {
        0
    }
}

/// 1 if the byte is a parenthesis instruction, 0 otherwise.
pub open spec fn step_delta(c: u8) -> int {
    if c == 40 || c == 41 {
        1
    } else {
        0
    }
}

/// Floor reached after applying every byte of `s`, starting from floor 0.
pub open spec fn floor_after(s: Seq<u8>) -> int
    decreases s.len(),
{
    if s.len() == 0 {
        0
    } else {
        floor_after(s.drop_last()) + floor_delta(s.last())
    }
}

/// Number of parenthesis instructions in `s`.
pub open spec fn steps_after(s: Seq<u8>) -> int
    decreases s.len(),
{
    if s.len() == 0 {
        0
    } else {
        steps_after(s.drop_last()) + step_delta(s.last())
    }
}

pub proof fn lemma_floor_bounds(s: Seq<u8>)
    ensures
        -s.len() <= floor_after(s) <= s.len(),
        0 <= steps_after(s) <= s.len(),
    decreases s.len(),
{
    if s.len() > 0 {
        lemma_floor_bounds(s.drop_last());
    }
}

/// Running state while walking the instructions: the current floor and the
/// number of parenthesis instructions applied so far.
struct InfiniteBuilding {
    floor: i32,
    position: i32,
}

impl InfiniteBuilding {
    fn new() -> (b: InfiniteBuilding)
        ensures
            b.floor == 0,
            b.position == 0,
    {
        InfiniteBuilding { floor: 0, position: 0 }
    }

    fn apply(&mut self, c: &u8)
        requires
            i32::MIN < old(self).floor < i32::MAX,
            old(self).position < i32::MAX,
        ensures
            final(self).floor == old(self).floor + floor_delta(*c),
            final(self).position == old(self).position + step_delta(*c),
    {
        if *c == 40 {
            self.floor = self.floor + 1;
            self.position = self.position + 1;
        } else if *c == 41 {
            self.floor = self.floor - 1;
            self.position = self.position + 1;
        }
    }
}

/// Floor that the instruction bytes lead to.
pub fn floor(instructions: &[u8]) -> (f: i32)
    requires
        instructions@.len() <= i32::MAX,
    ensures
        f == floor_after(instructions@),
{
    let n = instructions.len();
    let mut building = InfiniteBuilding::new();
    let mut i: usize = 0;
    while i < n
        invariant
            n == instructions@.len(),
            n <= i32::MAX,
            i <= n,
            building.floor == floor_after(instructions@.take(i as int)),
            building.position == steps_after(instructions@.take(i as int)),
        decreases n - i,
    {
        proof {
            lemma_floor_bounds(instructions@.take(i as int));
        }
        building.apply(&instructions[i]);
        proof {
            assert(instructions@.take(i + 1).drop_last() =~= instructions@.take(i as int));
        }
        i = i + 1;
    }
    proof {
        assert(instructions@.take(n as int) =~= instructions@);
    }
    building.floor
}

/// Position (counted in parenthesis instructions) of the first instruction
/// that brings the walk to `floor`; `None` if the walk never reaches it.
/// Floor 0 is where the walk starts, so its position is always `Some(0)`.
pub fn position(parentheses: &[u8], floor: i32) -> (r: Option<i32>)
    requires
        parentheses@.len() <= i32::MAX,
    ensures
        floor == 0 ==> r == Some(0i32),
        floor != 0 ==> match r {
            Some(p) => exists|i: int|
                0 <= i < parentheses@.len() && #[trigger] floor_after(parentheses@.take(i + 1))
                    == floor && (forall|j: int|
                    0 <= j < i ==> #[trigger] floor_after(parentheses@.take(j + 1)) != floor) && p
                    == steps_after(parentheses@.take(i + 1)),
            None => forall|i: int|
                0 <= i < parentheses@.len() ==> #[trigger] floor_after(parentheses@.take(i + 1))
                    != floor,
        },
{
    if floor == 0 {
        return Some(0);
    }
    let n = parentheses.len();
    let mut building = InfiniteBuilding::new();
    let mut i: usize = 0;
    while i < n
        invariant
            n == parentheses@.len(),
            n <= i32::MAX,
            i <= n,
            floor != 0,
            building.floor == floor_after(parentheses@.take(i as int)),
            building.position == steps_after(parentheses@.take(i as int)),
            forall|j: int|
                0 <= j < i ==> #[trigger] floor_after(parentheses@.take(j + 1)) != floor,
        decreases n - i,
    {
        proof {
            lemma_floor_bounds(parentheses@.take(i as int));
        }
        building.apply(&parentheses[i]);
        proof {
            assert(parentheses@.take(i + 1).drop_last() =~= parentheses@.take(i as int));
        }
        i = i + 1;
        if building.floor == floor {
            proof {
                let k = i as int - 1;
                assert(floor_after(parentheses@.take(k + 1)) == floor);
                assert(building.position == steps_after(parentheses@.take(k + 1)));
            }
            return Some(building.position);
        }
    }
    None
}

} // verus!
