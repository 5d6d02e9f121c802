//! A 1000 by 1000 grid of lights driven by `turn on` / `turn off` / `toggle`
//! instructions over inclusive corner-to-corner rectangles.

use vstd::prelude::*;

use crate::util::{all_digits, num_val, parse_decimal, split_bounds, split_char, str_eq};

verus! {

/// Side length of the square grid.
pub const GRID_CAPACITY: usize = 1000;

/// A point (or bulb position) in the grid.
#[derive(Debug)]
pub struct Point {
    pub x: usize,
    pub y: usize,
}

/// The operations an instruction can apply to a bulb.
#[derive(Debug)]
pub enum Operation {
    Toggle,
    TurnOn,
    TurnOff,
}

/// Types that can be used as a light bulb.
///
/// A bulb carries a brightness and reacts to the three operations; the spec
/// functions pin down, per implementation, what each operation does to the
/// brightness.
pub trait Bulb: Sized {
    /// Current brightness.
    spec fn bright(&self) -> int;

    /// The bulb's internal invariant.
    spec fn inv(&self) -> bool;

    /// Brightness after `toggle`.
    spec fn toggled(&self) -> int;

    /// Brightness after `turn_on`.
    spec fn turned_on(&self) -> int;

    /// Brightness after `turn_off`.
    spec fn turned_off(&self) -> int;

    /// Brightness always fits an `i32` and is never negative.
    proof fn lemma_bright_range(&self)
        requires
            self.inv(),
        ensures
            0 <= self.bright() <= i32::MAX,
    ;

    /// A fresh, dark bulb.
    fn new() -> (b: Self)
        ensures
            b.inv(),
            b.bright() == 0,
    ;

    fn toggle(&mut self)
        requires
            old(self).inv(),
            old(self).bright() + 2 <= i32::MAX,
        ensures
            final(self).inv(),
            final(self).bright() == old(self).toggled(),
    ;

    fn turn_on(&mut self)
        requires
            old(self).inv(),
            old(self).bright() + 1 <= i32::MAX,
        ensures
            final(self).inv(),
            final(self).bright() == old(self).turned_on(),
    ;

    fn turn_off(&mut self)
        requires
            old(self).inv(),
        ensures
            final(self).inv(),
            final(self).bright() == old(self).turned_off(),
    ;

    fn brightness(&self) -> (r: i32)
        requires
            self.inv(),
        ensures
            r == self.bright(),
    ;
}

/// A bulb that is either on or off.
#[derive(Clone, Debug)]
pub struct SimpleBulb {
    state: bool,
}

impl Bulb for SimpleBulb {
    closed spec fn bright(&self) -> int {
        if self.state {
            1
        } else {
            0
        }
    }

    closed spec fn inv(&self) -> bool {
        true
    }

    closed spec fn toggled(&self) -> int {
        if self.state {
            0
        } else {
            1
        }
    }

    closed spec fn turned_on(&self) -> int {
        1
    }

    closed spec fn turned_off(&self) -> int {
        0
    }

    proof fn lemma_bright_range(&self) {
    }

    fn new() -> (b: Self) {
        SimpleBulb { state: false }
    }

    /// Change the light to the opposite state.
    fn toggle(&mut self) {
        self.state = !self.state;
    }

    /// Set the light as on.
    fn turn_on(&mut self) {
        self.state = true;
    }

    /// Set the light as off.
    fn turn_off(&mut self) {
        self.state = false;
    }

    /// Returns 1 if on and 0 if off.
    fn brightness(&self) -> (r: i32) {
        if self.state {
            1
        } else {
            0
        }
    }
}

/// A bulb with a brightness of zero or more.
#[derive(Clone, Debug)]
pub struct AdjustableBulb {
    state: i32,
}

impl Bulb for AdjustableBulb {
    closed spec fn bright(&self) -> int {
        self.state as int
    }

    closed spec fn inv(&self) -> bool {
        self.state >= 0
    }

    closed spec fn toggled(&self) -> int {
        self.state + 2
    }

    closed spec fn turned_on(&self) -> int {
        self.state + 1
    }

    closed spec fn turned_off(&self) -> int {
        if self.state == 0 {
            0
        } else {
            self.state - 1
        }
    }

    proof fn lemma_bright_range(&self) {
    }

    fn new() -> (b: Self) {
        AdjustableBulb { state: 0 }
    }

    /// Turns up the brightness by two.
    fn toggle(&mut self) {
        self.state = self.state + 2;
    }

    /// Turns up the brightness by one.
    fn turn_on(&mut self) {
        self.state = self.state + 1;
    }

    /// Turns the brightness down by one, to a minimum of zero.
    fn turn_off(&mut self) {
        if self.state != 0 {
            self.state = self.state - 1;
        }
    }

    /// Returns the light's brightness.
    fn brightness(&self) -> (r: i32) {
        self.state
    }
}

/// Total brightness of one row of bulbs.
pub open spec fn row_bright<T: Bulb>(row: Seq<T>) -> int
    decreases row.len(),
{
    if row.len() == 0 {
        0
    } else {
        row_bright(row.drop_last()) + row.last().bright()
    }
}

/// Total brightness of a sequence of rows.
pub open spec fn rows_bright<T: Bulb>(rows: Seq<Vec<T>>) -> int
    decreases rows.len(),
{
    if rows.len() == 0 {
        0
    } else {
        rows_bright(rows.drop_last()) + row_bright(rows.last()@)
    }
}

proof fn lemma_row_bright_nonneg<T: Bulb>(row: Seq<T>)
    requires
        forall|j: int| 0 <= j < row.len() ==> (#[trigger] row[j]).inv(),
    ensures
        0 <= row_bright(row),
    decreases row.len(),
{
    if row.len() > 0 {
        lemma_row_bright_nonneg(row.drop_last());
        row.last().lemma_bright_range();
    }
}

proof fn lemma_row_bright_prefix<T: Bulb>(row: Seq<T>, i: int)
    requires
        0 <= i <= row.len(),
        forall|j: int| 0 <= j < row.len() ==> (#[trigger] row[j]).inv(),
    ensures
        row_bright(row.take(i)) <= row_bright(row),
    decreases row.len() - i,
{
    if i < row.len() {
        lemma_row_bright_prefix(row, i + 1);
        assert(row.take(i + 1).drop_last() =~= row.take(i));
        row[i].lemma_bright_range();
    } else {
        assert(row.take(i) =~= row);
    }
}

proof fn lemma_rows_bright_prefix<T: Bulb>(rows: Seq<Vec<T>>, i: int)
    requires
        0 <= i <= rows.len(),
        forall|a: int, j: int|
            0 <= a < rows.len() && 0 <= j < (#[trigger] rows[a])@.len() ==> (#[trigger] rows[a]@[j]).inv(),
    ensures
        rows_bright(rows.take(i)) <= rows_bright(rows),
    decreases rows.len() - i,
{
    if i < rows.len() {
        lemma_rows_bright_prefix(rows, i + 1);
        assert(rows.take(i + 1).drop_last() =~= rows.take(i));
        assert(forall|j: int|
            0 <= j < rows[i]@.len() ==> (#[trigger] rows[i]@[j]).inv());
        lemma_row_bright_nonneg(rows[i]@);
    } else {
        assert(rows.take(i) =~= rows);
    }
}

/// A finite square grid of lights.
pub struct LightGrid<T: Bulb> {
    lights: Vec<Vec<T>>,
}

impl<T: Bulb> LightGrid<T> {
    /// The bulb at a grid position.
    pub closed spec fn bulb_at(&self, x: int, y: int) -> T {
        self.lights@[x]@[y]
    }

    /// The grid is full-sized and every bulb satisfies its invariant.
    pub closed spec fn grid_ok(&self) -> bool {
        self.lights@.len() == GRID_CAPACITY && (forall|x: int|
            0 <= x < GRID_CAPACITY ==> (#[trigger] self.lights@[x])@.len() == GRID_CAPACITY) && (
        forall|x: int, y: int|
            0 <= x < GRID_CAPACITY && 0 <= y < GRID_CAPACITY ==> (#[trigger] self.bulb_at(
                x,
                y,
            )).inv())
    }

    /// Total brightness over the whole grid.
    pub closed spec fn total_bright(&self) -> int {
        rows_bright(self.lights@)
    }

    /// Constructs a full grid of fresh, dark bulbs.
    pub fn new() -> (g: LightGrid<T>)
        ensures
            g.grid_ok(),
            g.total_bright() == 0,
            forall|x: int, y: int|
                0 <= x < GRID_CAPACITY && 0 <= y < GRID_CAPACITY ==> (#[trigger] g.bulb_at(
                    x,
                    y,
                )).bright() == 0,
    {
        let mut lights: Vec<Vec<T>> = Vec::new();
        let mut x: usize = 0;
        while x < GRID_CAPACITY
            invariant
                x == lights@.len(),
                x <= GRID_CAPACITY,
                forall|a: int| 0 <= a < x ==> (#[trigger] lights@[a])@.len() == GRID_CAPACITY,
                forall|a: int, j: int|
                    0 <= a < x && 0 <= j < GRID_CAPACITY ==> (#[trigger] lights@[a]@[j]).inv()
                        && lights@[a]@[j].bright() == 0,
                rows_bright(lights@) == 0,
            decreases GRID_CAPACITY - x,
        {
            let mut row: Vec<T> = Vec::new();
            let mut y: usize = 0;
            while y < GRID_CAPACITY
                invariant
                    y == row@.len(),
                    y <= GRID_CAPACITY,
                    forall|j: int|
                        0 <= j < y ==> (#[trigger] row@[j]).inv() && row@[j].bright() == 0,
                    row_bright(row@) == 0,
                decreases GRID_CAPACITY - y,
            {
                let b = T::new();
                let ghost prev = row@;
                row.push(b);
                proof {
                    assert(row@.drop_last() =~= prev);
                }
                y = y + 1;
            }
            let ghost prev_rows = lights@;
            lights.push(row);
            proof {
                assert(lights@.drop_last() =~= prev_rows);
            }
            x = x + 1;
        }
        LightGrid { lights }
    }

    /// Returns the total brightness from all lights in the grid.
    pub fn total_brightness(&self) -> (count: i32)
        requires
            self.grid_ok(),
            self.total_bright() <= i32::MAX,
        ensures
            count == self.total_bright(),
    {
        let mut count: i32 = 0;
        let mut x: usize = 0;
        while x < GRID_CAPACITY
            invariant
                self.grid_ok(),
                self.total_bright() <= i32::MAX,
                x <= GRID_CAPACITY,
                count == rows_bright(self.lights@.take(x as int)),
            decreases GRID_CAPACITY - x,
        {
            let row = &self.lights[x];
            let mut y: usize = 0;
            while y < GRID_CAPACITY
                invariant
                    self.grid_ok(),
                    self.total_bright() <= i32::MAX,
                    x < GRID_CAPACITY,
                    y <= GRID_CAPACITY,
                    row == self.lights@[x as int],
                    count == rows_bright(self.lights@.take(x as int)) + row_bright(
                        row@.take(y as int),
                    ),
                decreases GRID_CAPACITY - y,
            {
                proof {
                    assert forall|j: int| 0 <= j < row@.len() implies (#[trigger] row@[j]).inv() by {
                        assert(row@[j] == self.bulb_at(x as int, j));
                    };
                    lemma_row_bright_nonneg(row@.take(y as int));
                    lemma_row_bright_nonneg(self.lights@[x as int]@);
                    assert forall|a: int, j: int|
                        0 <= a < self.lights@.len() && 0 <= j < (#[trigger] self.lights@[a])@.len()
                            implies (#[trigger] self.lights@[a]@[j]).inv() by {
                        assert(self.lights@[a]@[j] == self.bulb_at(a, j));
                    };
                    lemma_rows_bright_prefix(self.lights@, x as int);
                    lemma_rows_bright_prefix(self.lights@, x as int + 1);
                    assert(self.lights@.take(x as int + 1).drop_last() =~= self.lights@.take(
                        x as int,
                    ));
                    lemma_row_bright_prefix(row@, y as int + 1);
                    assert(row@.take(y as int + 1).drop_last() =~= row@.take(y as int));
                    row@[y as int].lemma_bright_range();
                    assert(row@.take(y as int + 1).last() == row@[y as int]);
                    lemma_row_bright_nonneg(row@.take(y as int + 1));
                }
                count = count + row[y].brightness();
                y = y + 1;
            }
            proof {
                assert(row@.take(GRID_CAPACITY as int) =~= row@);
                assert(self.lights@.take(x as int + 1).drop_last() =~= self.lights@.take(x as int));
                assert(self.lights@.take(x as int + 1).last() == self.lights@[x as int]);
            }
            x = x + 1;
        }
        proof {
            assert(self.lights@.take(GRID_CAPACITY as int) =~= self.lights@);
        }
        count
    }
}


/// An instruction for all lights between the provided start and end points,
/// inclusive.
#[derive(Debug)]
pub struct LightInstruction {
    pub operation: Operation,
    pub start_point: Point,
    pub end_point: Point,
}

/// Error type used when parsing a light instruction from a string.
#[derive(Clone, Copy, Debug, PartialEq, Eq, Structural)]
pub struct ParseInstructionError {}

impl<T: Bulb> Default for LightGrid<T> {
    /// The same full, dark grid as `new`.
    fn default() -> (g: Self)
        ensures
            g.grid_ok(),
            g.total_bright() == 0,
            forall|x: int, y: int|
                0 <= x < GRID_CAPACITY && 0 <= y < GRID_CAPACITY ==> (#[trigger] g.bulb_at(
                    x,
                    y,
                )).bright() == 0,
    {
        LightGrid::new()
    }
}

/// The rectangle with inclusive corners `(sx, sy)` and `(ex, ey)` contains
/// the position `(a, b)`.
pub open spec fn covers(sx: int, sy: int, ex: int, ey: int, a: int, b: int) -> bool {
    sx <= a <= ex && sy <= b <= ey
}

/// Brightness of a bulb after one operation is applied to it.
pub open spec fn op_bright<T: Bulb>(op: Operation, bulb: T) -> int {
    match op {
        Operation::Toggle => bulb.toggled(),
        Operation::TurnOn => bulb.turned_on(),
        Operation::TurnOff => bulb.turned_off(),
    }
}

/// What one operation demands of a bulb it is applied to: headroom for the
/// brightness it may add.
pub open spec fn op_ok<T: Bulb>(op: Operation, bulb: T) -> bool {
    match op {
        Operation::Toggle => bulb.bright() + 2 <= i32::MAX,
        Operation::TurnOn => bulb.bright() + 1 <= i32::MAX,
        Operation::TurnOff => true,
    }
}

impl<T: Bulb> LightGrid<T> {
    /// Applies the provided instruction to every light in its rectangle,
    /// leaving all other lights untouched.
    pub fn apply_operation(&mut self, instruction: LightInstruction)
        requires
            old(self).grid_ok(),
            instruction.end_point.x < GRID_CAPACITY,
            instruction.end_point.y < GRID_CAPACITY,
            forall|a: int, b: int|
                covers(
                    instruction.start_point.x as int,
                    instruction.start_point.y as int,
                    instruction.end_point.x as int,
                    instruction.end_point.y as int,
                    a,
                    b,
                ) ==> op_ok(instruction.operation, #[trigger] old(self).bulb_at(a, b)),
        ensures
            final(self).grid_ok(),
            forall|a: int, b: int|
                0 <= a < GRID_CAPACITY && 0 <= b < GRID_CAPACITY && covers(
                    instruction.start_point.x as int,
                    instruction.start_point.y as int,
                    instruction.end_point.x as int,
                    instruction.end_point.y as int,
                    a,
                    b,
                ) ==> (#[trigger] final(self).bulb_at(a, b)).bright() == op_bright(
                    instruction.operation,
                    old(self).bulb_at(a, b),
                ),
            forall|a: int, b: int|
                0 <= a < GRID_CAPACITY && 0 <= b < GRID_CAPACITY && !covers(
                    instruction.start_point.x as int,
                    instruction.start_point.y as int,
                    instruction.end_point.x as int,
                    instruction.end_point.y as int,
                    a,
                    b,
                ) ==> #[trigger] final(self).bulb_at(a, b) == old(self).bulb_at(a, b),
    {
        let sx = instruction.start_point.x;
        let sy = instruction.start_point.y;
        let ex = instruction.end_point.x;
        let ey = instruction.end_point.y;
        let mut x = sx;
        while x <= ex
            invariant
                self.grid_ok(),
                ex < GRID_CAPACITY,
                ey < GRID_CAPACITY,
                sx <= x,
                sx == instruction.start_point.x,
                sy == instruction.start_point.y,
                ex == instruction.end_point.x,
                ey == instruction.end_point.y,
                forall|a: int, b: int|
                    covers(sx as int, sy as int, ex as int, ey as int, a, b) ==> op_ok(
                        instruction.operation,
                        #[trigger] old(self).bulb_at(a, b),
                    ),
                forall|a: int, b: int|
                    0 <= a < GRID_CAPACITY && 0 <= b < GRID_CAPACITY && covers(
                        sx as int,
                        sy as int,
                        ex as int,
                        ey as int,
                        a,
                        b,
                    ) && a < x ==> (#[trigger] self.bulb_at(a, b)).bright() == op_bright(
                        instruction.operation,
                        old(self).bulb_at(a, b),
                    ),
                forall|a: int, b: int|
                    0 <= a < GRID_CAPACITY && 0 <= b < GRID_CAPACITY && !(covers(
                        sx as int,
                        sy as int,
                        ex as int,
                        ey as int,
                        a,
                        b,
                    ) && a < x) ==> #[trigger] self.bulb_at(a, b) == old(self).bulb_at(a, b),
            decreases ex + 1 - x,
        {
            let mut y = sy;
            while y <= ey
                invariant
                    self.grid_ok(),
                    ex < GRID_CAPACITY,
                    ey < GRID_CAPACITY,
                    sx <= x <= ex,
                    sy <= y,
                    sx == instruction.start_point.x,
                    sy == instruction.start_point.y,
                    ex == instruction.end_point.x,
                    ey == instruction.end_point.y,
                    forall|a: int, b: int|
                        covers(sx as int, sy as int, ex as int, ey as int, a, b) ==> op_ok(
                            instruction.operation,
                            #[trigger] old(self).bulb_at(a, b),
                        ),
                    forall|a: int, b: int|
                        0 <= a < GRID_CAPACITY && 0 <= b < GRID_CAPACITY && covers(
                            sx as int,
                            sy as int,
                            ex as int,
                            ey as int,
                            a,
                            b,
                        ) && (a < x || (a == x && b < y)) ==> (#[trigger] self.bulb_at(
                            a,
                            b,
                        )).bright() == op_bright(instruction.operation, old(self).bulb_at(a, b)),
                    forall|a: int, b: int|
                        0 <= a < GRID_CAPACITY && 0 <= b < GRID_CAPACITY && !(covers(
                            sx as int,
                            sy as int,
                            ex as int,
                            ey as int,
                            a,
                            b,
                        ) && (a < x || (a == x && b < y))) ==> #[trigger] self.bulb_at(a, b) == old(
                            self,
                        ).bulb_at(a, b),
                decreases ey + 1 - y,
            {
                let ghost self_prev = *self;
                proof {
                    assert(self.bulb_at(x as int, y as int) == old(self).bulb_at(x as int, y as int));
                    assert(op_ok(instruction.operation, old(self).bulb_at(x as int, y as int)));
                }
                match instruction.operation {
                    Operation::Toggle => self.lights[x][y].toggle(),
                    Operation::TurnOn => self.lights[x][y].turn_on(),
                    Operation::TurnOff => self.lights[x][y].turn_off(),
                }
                proof {
                    assert(self.lights@.len() == self_prev.lights@.len());
                    assert forall|a: int|
                        0 <= a < GRID_CAPACITY && a != x implies #[trigger] self.lights@[a]
                        == self_prev.lights@[a] by {};
                    assert(self.lights@[x as int]@.len() == self_prev.lights@[x as int]@.len());
                    assert forall|a: int, b: int|
                        0 <= a < GRID_CAPACITY && 0 <= b < GRID_CAPACITY && !(a == x && b == y)
                            implies #[trigger] self.bulb_at(a, b) == self_prev.bulb_at(a, b) by {
                        if a == x {
                            assert(self.lights@[a]@[b] == self_prev.lights@[a]@[b]);
                        } else {
                            assert(self.lights@[a] == self_prev.lights@[a]);
                        }
                    };
                    assert((self.bulb_at(x as int, y as int)).bright() == op_bright(
                        instruction.operation,
                        self_prev.bulb_at(x as int, y as int),
                    ));
                    assert((self.bulb_at(x as int, y as int)).inv());
                    assert forall|a: int|
                        0 <= a < GRID_CAPACITY implies (#[trigger] self.lights@[a])@.len()
                        == GRID_CAPACITY by {
                        if a != x {
                            assert(self.lights@[a] == self_prev.lights@[a]);
                            assert(self_prev.lights@[a]@.len() == GRID_CAPACITY);
                        }
                    };
                    assert forall|a: int, b: int|
                        0 <= a < GRID_CAPACITY && 0 <= b < GRID_CAPACITY implies (
                        #[trigger] self.bulb_at(a, b)).inv() by {
                        if !(a == x && b == y) {
                            assert(self.bulb_at(a, b) == self_prev.bulb_at(a, b));
                            assert(self_prev.bulb_at(a, b).inv());
                        }
                    };
                }
                y = y + 1;
            }
            x = x + 1;
        }
    }
}

/// The coordinate pair a `x,y` token stands for: two comma-separated runs of
/// one to three digits, as the original line format allows.
pub open spec fn coord_of(t: Seq<char>) -> Option<(int, int)> {
    let parts = split_char(t, ',');
    if parts.len() == 2 && 1 <= parts[0].len() <= 3 && all_digits(parts[0]) && 1 <= parts[1].len()
        <= 3 && all_digits(parts[1]) {
        Some((num_val(parts[0]), num_val(parts[1])))
    } else {
        None
    }
}

pub open spec fn toggle_name() -> Seq<char> {
    seq!['t', 'o', 'g', 'g', 'l', 'e']
}

pub open spec fn turn_name() -> Seq<char> {
    seq!['t', 'u', 'r', 'n']
}

pub open spec fn on_name() -> Seq<char> {
    seq!['o', 'n']
}

pub open spec fn off_name() -> Seq<char> {
    seq!['o', 'f', 'f']
}

pub open spec fn through_name() -> Seq<char> {
    seq!['t', 'h', 'r', 'o', 'u', 'g', 'h']
}

/// The instruction a whole line stands for, if it is well formed:
/// `(toggle|turn on|turn off) X1,Y1 through X2,Y2` with three-digit
/// coordinates at most.
pub open spec fn instruction_of(s: Seq<char>) -> Option<(Operation, (int, int), (int, int))> {
    let toks = split_char(s, ' ');
    if toks.len() == 4 && toks[0] == toggle_name() && toks[2] == through_name() {
        match (coord_of(toks[1]), coord_of(toks[3])) {
            (Some(p1), Some(p2)) => Some((Operation::Toggle, p1, p2)),
            _ => None,
        }
    } else if toks.len() == 5 && toks[0] == turn_name() && (toks[1] == on_name() || toks[1]
        == off_name()) && toks[3] == through_name() {
        match (coord_of(toks[2]), coord_of(toks[4])) {
            (Some(p1), Some(p2)) => Some(
                (
                    if toks[1] == on_name() {
                        Operation::TurnOn
                    } else {
                        Operation::TurnOff
                    },
                    p1,
                    p2,
                ),
            ),
            _ => None,
        }
    } else {
        None
    }
}

proof fn lemma_num_val_three_digits(t: Seq<char>)
    requires
        all_digits(t),
        t.len() <= 3,
    ensures
        0 <= num_val(t),
        t.len() <= 1 ==> num_val(t) <= 9,
        t.len() <= 2 ==> num_val(t) <= 99,
        t.len() <= 3 ==> num_val(t) <= 999,
    decreases t.len(),
{
    if t.len() > 0 {
        lemma_num_val_three_digits(t.drop_last());
    }
}

/// Reads a `x,y` coordinate token.
fn parse_coord(t: &str) -> (r: Option<(usize, usize)>)
    ensures
        match r {
            Some(p) => coord_of(t@) == Some((p.0 as int, p.1 as int)) && p.0 <= 999 && p.1 <= 999,
            None => coord_of(t@) is None,
        },
{
    let parts = split_bounds(t, ',');
    if parts.len() != 2 {
        return None;
    }
    let a = t.substring_char(parts[0].0, parts[0].1);
    let b = t.substring_char(parts[1].0, parts[1].1);
    if a.unicode_len() > 3 || b.unicode_len() > 3 {
        return None;
    }
    let va = match parse_decimal(a) {
        Some(v) => v,
        None => {
            return None;
        },
    };
    let vb = match parse_decimal(b) {
        Some(v) => v,
        None => {
            return None;
        },
    };
    proof {
        lemma_num_val_three_digits(a@);
        lemma_num_val_three_digits(b@);
    }
    Some((va as usize, vb as usize))
}

impl LightInstruction {
    /// Parses one instruction line. `Ok` exactly when the line fits the
    /// format that [`instruction_of`] describes, with the parsed operation
    /// and corner points.
    pub fn from_str(s: &str) -> (r: Result<LightInstruction, ParseInstructionError>)
        ensures
            match r {
                Ok(ins) => instruction_of(s@) == Some(
                    (
                        ins.operation,
                        (ins.start_point.x as int, ins.start_point.y as int),
                        (ins.end_point.x as int, ins.end_point.y as int),
                    ),
                ),
                Err(_) => instruction_of(s@) is None,
            },
    {
        proof {
            reveal_strlit("toggle");
            reveal_strlit("turn");
            reveal_strlit("on");
            reveal_strlit("off");
            reveal_strlit("through");
            assert("toggle"@ =~= toggle_name());
            assert("turn"@ =~= turn_name());
            assert("on"@ =~= on_name());
            assert("off"@ =~= off_name());
            assert("through"@ =~= through_name());
        }
        let bounds = split_bounds(s, ' ');
        if bounds.len() == 4 {
            let t0 = s.substring_char(bounds[0].0, bounds[0].1);
            let t2 = s.substring_char(bounds[2].0, bounds[2].1);
            if !(str_eq(t0, "toggle") && str_eq(t2, "through")) {
                return Err(ParseInstructionError {  });
            }
            let c1 = s.substring_char(bounds[1].0, bounds[1].1);
            let c2 = s.substring_char(bounds[3].0, bounds[3].1);
            match (parse_coord(c1), parse_coord(c2)) {
                (Some(p1), Some(p2)) => Ok(
                    LightInstruction {
                        operation: Operation::Toggle,
                        start_point: Point { x: p1.0, y: p1.1 },
                        end_point: Point { x: p2.0, y: p2.1 },
                    },
                ),
                _ => Err(ParseInstructionError {  }),
            }
        } else if bounds.len() == 5 {
            let t0 = s.substring_char(bounds[0].0, bounds[0].1);
            let t1 = s.substring_char(bounds[1].0, bounds[1].1);
            let t3 = s.substring_char(bounds[3].0, bounds[3].1);
            if !(str_eq(t0, "turn") && str_eq(t3, "through")) {
                return Err(ParseInstructionError {  });
            }
            let on = str_eq(t1, "on");
            if !(on || str_eq(t1, "off")) {
                return Err(ParseInstructionError {  });
            }
            let c1 = s.substring_char(bounds[2].0, bounds[2].1);
            let c2 = s.substring_char(bounds[4].0, bounds[4].1);
            match (parse_coord(c1), parse_coord(c2)) {
                (Some(p1), Some(p2)) => Ok(
                    LightInstruction {
                        operation: if on {
                            Operation::TurnOn
                        } else {
                            Operation::TurnOff
                        },
                        start_point: Point { x: p1.0, y: p1.1 },
                        end_point: Point { x: p2.0, y: p2.1 },
                    },
                ),
                _ => Err(ParseInstructionError {  }),
            }
        } else {
            Err(ParseInstructionError {  })
        }
    }
}

} // verus!
