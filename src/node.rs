use vstd::prelude::*;

verus! {

/// A grid position `(x, y)`: `x` grows eastward, `y` grows southward.
pub type Position = (usize, usize);

/// Whether `a` and `b` are the same position.
pub(crate) fn same_position(a: Position, b: Position) -> (r: bool)
    ensures
        r == (a == b),
{
    a.0 == b.0 && a.1 == b.1
}

/// The eight direction labels under which a node may hold an edge.
#[derive(Debug, Clone, Copy, PartialEq, Eq, Hash, Ord, PartialOrd, Structural)]
pub enum Direction {
    North,
    South,
    West,
    East,
    NorthEast,
    NorthWest,
    SouthEast,
    SouthWest,
}

/// Number of direction labels, and so of edge slots in a node.
pub const DIRECTION_COUNT: usize = 8;

impl Direction {
    /// The slot of this direction in a node's edge table.
    pub open spec fn slot(self) -> int {
        match self {
            Direction::North => 0,
            Direction::South => 1,
            Direction::West => 2,
            Direction::East => 3,
            Direction::NorthEast => 4,
            Direction::NorthWest => 5,
            Direction::SouthEast => 6,
            Direction::SouthWest => 7,
        }
    }

    /// The direction whose slot is `i`.
    pub open spec fn of_slot(i: int) -> Direction {
        if i == 0 {
            Direction::North
        } else if i == 1 {
            Direction::South
        } else if i == 2 {
            Direction::West
        } else if i == 3 {
            Direction::East
        } else if i == 4 {
            Direction::NorthEast
        } else if i == 5 {
            Direction::NorthWest
        } else if i == 6 {
            Direction::SouthEast
        } else {
            Direction::SouthWest
        }
    }

    /// The slot of this direction in a node's edge table.
    pub fn index(self) -> (r: usize)
        ensures
            r as int == self.slot(),
            r < DIRECTION_COUNT,
    {
        match self {
            Direction::North => 0,
            Direction::South => 1,
            Direction::West => 2,
            Direction::East => 3,
            Direction::NorthEast => 4,
            Direction::NorthWest => 5,
            Direction::SouthEast => 6,
            Direction::SouthWest => 7,
        }
    }

    /// The direction whose slot is `i`.
    pub fn from_index(i: usize) -> (r: Direction)
        requires
            i < DIRECTION_COUNT,
        ensures
            r.slot() == i as int,
            r == Direction::of_slot(i as int),
    {
        if i == 0 {
            Direction::North
        } else if i == 1 {
            Direction::South
        } else if i == 2 {
            Direction::West
        } else if i == 3 {
            Direction::East
        } else if i == 4 {
            Direction::NorthEast
        } else if i == 5 {
            Direction::NorthWest
        } else if i == 6 {
            Direction::SouthEast
        } else {
            Direction::SouthWest
        }
    }
}

/// Slots and directions correspond one to one.
pub proof fn lemma_slot_round_trip(d: Direction)
    ensures
        0 <= d.slot() < DIRECTION_COUNT,
        Direction::of_slot(d.slot()) == d,
{
}

/// One cell of the map: its position, whether it can be entered, and a table
/// of directed edges. Slot `d.slot()` of `neighbors` is `None` when the node
/// has no edge labelled `d`, `Some(None)` when the label is present without a
/// target, and `Some(Some(p))` when the edge leads to `p`.
#[derive(Debug, Clone, Copy, PartialEq, Eq)]
pub struct Node {
    pub x: usize,
    pub y: usize,
    pub is_blocked: bool,
    pub neighbors: [Option<Option<Position>>; 8],
}

/// The edge that a node at `(x, y)` of a grid with largest coordinates
/// `(max_x, max_y)` holds by default under direction `d`: one step in each of
/// the four basic directions that stays within the grid, nothing else.
pub open spec fn default_edge(x: usize, y: usize, max_x: usize, max_y: usize, d: Direction) -> Option<Option<Position>> {
    match d {
        Direction::North => if y > 0 { Some(Some((x, (y - 1) as usize))) } else { None },
        Direction::South => if y < max_y { Some(Some((x, (y + 1) as usize))) } else { None },
        Direction::West => if x > 0 { Some(Some(((x - 1) as usize, y))) } else { None },
        Direction::East => if x < max_x { Some(Some(((x + 1) as usize, y))) } else { None },
        _ => None,
    }
}

impl Node {
    /// The entry of the edge table under direction `d`.
    pub open spec fn edge(self, d: Direction) -> Option<Option<Position>> {
        self.neighbors@[d.slot()]
    }

    /// The node leads to `p` under some direction.
    pub open spec fn leads_to(self, p: Position) -> bool {
        exists|d: Direction| #[trigger] self.edge(d) == Some(Some(p))
    }

    /// The directions present in slots `0 .. n`, in slot order.
    pub open spec fn directions_below(self, n: int) -> Seq<Direction>
        decreases n,
    {
        if n <= 0 {
            Seq::empty()
        } else {
            let before = self.directions_below(n - 1);
            if self.neighbors@[n - 1] is Some {
                before.push(Direction::of_slot(n - 1))
            } else {
                before
            }
        }
    }

    /// The directions under which the node holds an edge entry, in slot order.
    pub open spec fn directions(self) -> Seq<Direction> {
        self.directions_below(DIRECTION_COUNT as int)
    }

    /// Creates a node at `(x, y)` with an edge to each of its four basic
    /// neighbours that lie within a grid whose largest coordinates are
    /// `(max_x, max_y)`.
    pub fn new(x: usize, y: usize, is_blocked: bool, max_x: usize, max_y: usize) -> (r: Node)
        ensures
            r.x == x,
            r.y == y,
            r.is_blocked == is_blocked,
            forall|d: Direction| #[trigger] r.edge(d) == default_edge(x, y, max_x, max_y, d),
    {
        let north = if y > 0 { Some(Some((x, y - 1))) } else { None };
        let south = if y < max_y { Some(Some((x, y + 1))) } else { None };
        let west = if x > 0 { Some(Some((x - 1, y))) } else { None };
        let east = if x < max_x { Some(Some((x + 1, y))) } else { None };
        let r = Node {
            x,
            y,
            is_blocked,
            neighbors: [north, south, west, east, None, None, None, None],
        };
        assert forall|d: Direction| #[trigger] r.edge(d) == default_edge(x, y, max_x, max_y, d) by {
            match d {
                Direction::North => {},
                Direction::South => {},
                Direction::West => {},
                Direction::East => {},
                Direction::NorthEast => {},
                Direction::NorthWest => {},
                Direction::SouthEast => {},
                Direction::SouthWest => {},
            }
        }
        r
    }

    /// The entry under direction `d`: `None` when the direction is absent.
    pub fn neighbor(&self, d: Direction) -> (r: Option<Option<Position>>)
        ensures
            r == self.edge(d),
    {
        self.neighbors[d.index()]
    }

    /// Whether the node holds an entry under direction `d`.
    pub fn has_neighbor(&self, d: Direction) -> (r: bool)
        ensures
            r == self.edge(d) is Some,
    {
        self.neighbors[d.index()].is_some()
    }

    /// Sets the entry under direction `direction` to `neighbor_pos`.
    pub fn set_neighbor(&mut self, direction: Direction, neighbor_pos: Option<Position>)
        ensures
            final(self).x == old(self).x,
            final(self).y == old(self).y,
            final(self).is_blocked == old(self).is_blocked,
            forall|d: Direction| #[trigger] final(self).edge(d) == if d == direction {
                Some(neighbor_pos)
            } else {
                old(self).edge(d)
            },
    {
        let i = direction.index();
        self.neighbors[i] = Some(neighbor_pos);
        assert forall|d: Direction| #[trigger] self.edge(d) == if d == direction {
            Some(neighbor_pos)
        } else {
            old(self).edge(d)
        } by {
            lemma_slot_round_trip(d);
            lemma_slot_round_trip(direction);
        }
    }

    /// Removes the entry under direction `direction`.
    pub fn remove_neighbor(&mut self, direction: Direction)
        ensures
            final(self).x == old(self).x,
            final(self).y == old(self).y,
            final(self).is_blocked == old(self).is_blocked,
            forall|d: Direction| #[trigger] final(self).edge(d) == if d == direction {
                None
            } else {
                old(self).edge(d)
            },
    {
        let i = direction.index();
        self.neighbors[i] = None;
        assert forall|d: Direction| #[trigger] self.edge(d) == if d == direction {
            None
        } else {
            old(self).edge(d)
        } by {
            lemma_slot_round_trip(d);
            lemma_slot_round_trip(direction);
        }
    }

    /// Marks the node as blocked or open.
    pub fn set_blocked(&mut self, blocked: bool)
        ensures
            final(self).x == old(self).x,
            final(self).y == old(self).y,
            final(self).is_blocked == blocked,
            final(self).neighbors == old(self).neighbors,
    {
        self.is_blocked = blocked;
    }

    /// The directions under which the node holds an entry, in the order
    /// north, south, west, east, north-east, north-west, south-east, south-west.
    pub fn get_directions(&self) -> (r: Vec<Direction>)
        ensures
            r@ == self.directions(),
    {
        let mut r: Vec<Direction> = Vec::new();
        let mut i: usize = 0;
        while i < DIRECTION_COUNT
            invariant
                i <= DIRECTION_COUNT,
                r@ == self.directions_below(i as int),
            decreases DIRECTION_COUNT - i,
        {
            if self.neighbors[i].is_some() {
                r.push(Direction::from_index(i));
            }
            i = i + 1;
        }
        r
    }
}

} // verus!
