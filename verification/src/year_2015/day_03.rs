//! Delivering presents on an infinite grid of houses: one or more couriers
//! take turns following direction characters, and every house visited at
//! least once is counted.

use vstd::prelude::*;

verus! {

/// A position in the grid.
#[derive(Clone, Copy, Debug, PartialEq, Eq, Structural)]
pub struct Position {
    pub x: i64,
    pub y: i64,
}

/// The position one step in the given direction, if the direction character
/// is valid and the step stays within the coordinate range. At the far ends
/// of the range a move is ignored rather than wrapped.
pub open spec fn moved(p: Position, direction: char) -> Option<Position> {
    if direction == '^' {
        if p.y == i64::MAX {
            None
        } else {
            Some(Position { x: p.x, y: (p.y + 1) as i64 })
        }
    } else if direction == 'v' {
        if p.y == i64::MIN {
            None
        } else {
            Some(Position { x: p.x, y: (p.y - 1) as i64 })
        }
    } else if direction == '>' {
        if p.x == i64::MAX {
            None
        } else {
            Some(Position { x: (p.x + 1) as i64, y: p.y })
        }
    } else if direction == '<' {
        if p.x == i64::MIN {
            None
        } else {
            Some(Position { x: (p.x - 1) as i64, y: p.y })
        }
    } else {
        None
    }
}

impl Position {
    /// The origin.
    pub fn new() -> (p: Position)
        ensures
            p == (Position { x: 0, y: 0 }),
    {
        Position { x: 0, y: 0 }
    }

    /// Returns the position one step in the provided direction, or `None`
    /// for an invalid direction.
    ///
    /// Moves are always exactly one to the north `^`, south `v`, east `>`,
    /// or west `<`.
    pub fn move_direction(&self, direction: char) -> (r: Option<Position>)
        ensures
            r == moved(*self, direction),
    {
        if direction == '^' {
            if self.y == i64::MAX {
                None
            } else {
                Some(Position { x: self.x, y: self.y + 1 })
            }
        } else if direction == 'v' {
            if self.y == i64::MIN {
                None
            } else {
                Some(Position { x: self.x, y: self.y - 1 })
            }
        } else if direction == '>' {
            if self.x == i64::MAX {
                None
            } else {
                Some(Position { x: self.x + 1, y: self.y })
            }
        } else if direction == '<' {
            if self.x == i64::MIN {
                None
            } else {
                Some(Position { x: self.x - 1, y: self.y })
            }
        } else {
            None
        }
    }
}

/// The set of houses visited so far.
///
/// Relies on `hashbrown::HashSet` with coordinate-pair keys: two keys
/// collide exactly when they are the same pair, so the set behaves as a
/// mathematical set of positions.
#[verifier::external_body]
pub struct PositionSet {
    set: hashbrown::HashSet<(i64, i64)>,
}

/// The positions the set holds.
pub uninterp spec fn position_set_view(s: PositionSet) -> Set<(int, int)>;

impl PositionSet {
    /// Relies on `hashbrown::HashSet::new`: the new set is empty.
    #[verifier::external_body]
    pub fn new() -> (r: PositionSet)
        ensures
            position_set_view(r) =~= Set::<(int, int)>::empty(),
            position_set_view(r).finite(),
    {
        PositionSet { set: hashbrown::HashSet::new() }
    }

    /// Relies on `hashbrown::HashSet::len`: the number of distinct elements
    /// held.
    #[verifier::external_body]
    pub fn len(&self) -> (r: usize)
        requires
            position_set_view(*self).finite(),
        ensures
            r == position_set_view(*self).len(),
    {
        self.set.len()
    }
}

/// Relies on `hashbrown::HashSet::insert`: afterwards the element is in the
/// set, and nothing else changed.
#[verifier::external_body]
fn position_set_insert(s: &mut PositionSet, x: i64, y: i64)
    ensures
        position_set_view(*final(s)) == position_set_view(*old(s)).insert((x as int, y as int)),
{
    s.set.insert((x, y));
}

/// An infinite grid of houses and the couriers moving over it.
pub struct InfiniteGrid {
    pub current_positions: Vec<Position>,
    pub past_positions: PositionSet,
    pub turn: usize,
}

impl InfiniteGrid {
    /// The houses visited so far, as a set of coordinates.
    pub open spec fn visited_set(&self) -> Set<(int, int)> {
        position_set_view(self.past_positions)
    }

    /// The couriers take turns in order; `turn` stays in range.
    pub open spec fn grid_ok(&self) -> bool {
        &&& (self.current_positions@.len() == 0 ==> self.turn == 0)
        &&& (self.current_positions@.len() > 0 ==> self.turn < self.current_positions@.len())
        &&& self.visited_set().finite()
    }

    /// Constructs a grid with the provided number of couriers at the origin.
    /// If `parallel` is more than one, they will take turns moving.
    pub fn new(parallel: usize) -> (g: InfiniteGrid)
        ensures
            g.grid_ok(),
            g.current_positions@.len() == parallel,
            forall|i: int|
                0 <= i < parallel ==> #[trigger] g.current_positions@[i] == (Position {
                    x: 0,
                    y: 0,
                }),
            g.turn == 0,
            g.visited_set() == Set::<(int, int)>::empty().insert((0, 0)),
    {
        let mut past_positions = PositionSet::new();
        position_set_insert(&mut past_positions, 0, 0);
        let mut current_positions: Vec<Position> = Vec::new();
        let mut i: usize = 0;
        while i < parallel
            invariant
                i <= parallel,
                current_positions@.len() == i,
                forall|j: int|
                    0 <= j < i ==> #[trigger] current_positions@[j] == (Position { x: 0, y: 0 }),
            decreases parallel - i,
        {
            current_positions.push(Position::new());
            i = i + 1;
        }
        InfiniteGrid { current_positions, past_positions, turn: 0 }
    }

    /// Moves the courier whose turn it is one step in the provided
    /// direction, marking the house it reaches as visited. An invalid
    /// direction moves nobody and does not use up the turn.
    pub fn move_position(&mut self, direction: char)
        requires
            old(self).grid_ok(),
        ensures
            final(self).grid_ok(),
            final(self).current_positions@.len() == old(self).current_positions@.len(),
            match (if old(self).current_positions@.len() == 0 {
                None
            } else {
                moved(old(self).current_positions@[old(self).turn as int], direction)
            }) {
                Some(np) => final(self).current_positions@ == old(self).current_positions@.update(old(self).turn as int, np) && final(self).turn == (old(self).turn + 1) as int % old(self).current_positions@.len() as int && final(self).visited_set()
                    == old(self).visited_set().insert((np.x as int, np.y as int)),
                None => final(self).current_positions@ == old(self).current_positions@ && final(self).turn == old(self).turn && final(self).visited_set() == old(self).visited_set(),
            },
    {
        if self.current_positions.len() == 0 {
            return ;
        }
        let position = self.current_positions[self.turn];
        if let Some(new_position) = position.move_direction(direction) {
            position_set_insert(&mut self.past_positions, new_position.x, new_position.y);
            self.current_positions.set(self.turn, new_position);
            self.turn = (self.turn + 1) % self.current_positions.len();
        }
    }

    /// Returns the number of unique positions visited. The starting location
    /// counts as one visited position.
    pub fn visited(&self) -> (r: usize)
        requires
            self.grid_ok(),
        ensures
            r == self.visited_set().len(),
    {
        self.past_positions.len()
    }
}

} // verus!
