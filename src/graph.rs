use std::collections::HashMap;
use vstd::prelude::*;
use crate::node::{default_edge, same_position, Direction, Node, Position};

verus! {

broadcast use vstd::std_specs::hash::group_hash_axioms;

/// Positions are stored in hash tables under a single integer: `x` in the
/// high 64 bits, `y` in the low 64 bits.
pub const KEY_SHIFT: u128 = 0x1_0000_0000_0000_0000;

/// The hash-table key of position `p`.
pub open spec fn key_of(p: Position) -> u128 {
    (p.0 as int * KEY_SHIFT as int + p.1 as int) as u128
}

/// A key fits in 128 bits.
pub proof fn lemma_key_bounds(p: Position)
    ensures
        0 <= p.0 as int * KEY_SHIFT as int + p.1 as int <= u128::MAX,
{
    let a = p.0 as int;
    let b = p.1 as int;
    assert(0 <= a < KEY_SHIFT);
    assert(0 <= b < KEY_SHIFT);
    assert(0 <= a * KEY_SHIFT + b <= (KEY_SHIFT - 1) * KEY_SHIFT + KEY_SHIFT - 1) by (nonlinear_arith)
        requires
            0 <= a < KEY_SHIFT,
            0 <= b < KEY_SHIFT,
    ;
}

/// Distinct positions have distinct keys.
pub proof fn lemma_key_injective(p: Position, q: Position)
    ensures
        key_of(p) == key_of(q) <==> p == q,
{
    lemma_key_bounds(p);
    lemma_key_bounds(q);
    let (a, b, c, d) = (p.0 as int, p.1 as int, q.0 as int, q.1 as int);
    let s = KEY_SHIFT as int;
    if a * s + b == c * s + d {
        assert(a == c && b == d) by (nonlinear_arith)
            requires
                a * s + b == c * s + d,
                0 <= b < s,
                0 <= d < s,
                0 <= a,
                0 <= c,
        ;
    }
}

/// Computes the hash-table key of position `p`.
pub fn position_key(p: Position) -> (k: u128)
    ensures
        k == key_of(p),
{
    proof {
        lemma_key_bounds(p);
    }
    (p.0 as u128) * KEY_SHIFT + (p.1 as u128)
}


/// A map from positions to nodes: the graph that a search runs over. Each
/// node is stored under its own position.
pub struct Graph {
    nodes: HashMap<u128, Node>,
}

/// The position that a node stands at.
pub open spec fn position_of(n: Node) -> Position {
    (n.x, n.y)
}

impl View for Graph {
    type V = Map<Position, Node>;

    closed spec fn view(&self) -> Map<Position, Node> {
        Map::new(
            |p: Position| self.nodes@.contains_key(key_of(p)),
            |p: Position| self.nodes@[key_of(p)],
        )
    }
}

impl Graph {
    /// Each node is stored under the key of its own position. Every graph
    /// that this library builds has this property, and keeps it.
    pub closed spec fn wf(self) -> bool {
        forall|k: u128| #[trigger]
            self.nodes@.contains_key(k) ==> k == key_of(position_of(self.nodes@[k]))
    }

    /// The graph has as many positions as its table has keys, finitely many.
    proof fn lemma_dom_size(&self)
        requires
            self.wf(),
        ensures
            self@.dom().finite(),
            self@.dom().len() == self.nodes@.dom().len(),
    {
        let keys = self.nodes@.dom();
        let at = |k: u128| position_of(self.nodes@[k]);
        assert forall|k1: u128, k2: u128|
            keys.contains(k1) && keys.contains(k2) && #[trigger] at(k1) == #[trigger] at(k2)
            implies k1 == k2 by {
        }
        assert(keys.map(at) =~= self@.dom()) by {
            assert forall|p: Position| #[trigger] self@.dom().contains(p) implies keys.map(at).contains(p) by {
                let n = self.nodes@[key_of(p)];
                lemma_key_injective(p, position_of(n));
                assert(at(key_of(p)) == p);
            }
        }
        vstd::set_lib::lemma_map_size(keys, self@.dom(), at);
    }

    /// Creates a graph without nodes.
    pub fn new() -> (r: Graph)
        ensures
            r.wf(),
            r@ == Map::<Position, Node>::empty(),
    {
        let r = Graph { nodes: HashMap::new() };
        assert(r@ =~= Map::<Position, Node>::empty());
        r
    }

    /// Stores `node` at its own position, replacing any node there.
    pub fn insert(&mut self, node: Node)
        requires
            old(self).wf(),
        ensures
            final(self).wf(),
            final(self)@ == old(self)@.insert(position_of(node), node),
    {
        let k = position_key((node.x, node.y));
        self.nodes.insert(k, node);
        proof {
            assert forall|p: Position| key_of(p) == k <==> p == position_of(node) by {
                lemma_key_injective(p, position_of(node));
            }
        }
        assert(self@ =~= old(self)@.insert(position_of(node), node));
    }

    /// The node at `pos`, if any.
    pub fn get(&self, pos: Position) -> (r: Option<&Node>)
        ensures
            match r {
                Some(n) => self@.contains_key(pos) && *n == self@[pos],
                None => !self@.contains_key(pos),
            },
    {
        let k = position_key(pos);
        self.nodes.get(&k)
    }

    /// Whether a node stands at `pos`.
    pub fn contains(&self, pos: Position) -> (r: bool)
        ensures
            r == self@.contains_key(pos),
    {
        let k = position_key(pos);
        self.nodes.contains_key(&k)
    }

    /// The number of nodes.
    pub fn len(&self) -> (r: usize)
        requires
            self.wf(),
        ensures
            r == self@.len(),
            self@.dom().finite(),
    {
        proof {
            self.lemma_dom_size();
        }
        self.nodes.len()
    }
    /// Marks the node at `pos` as blocked or open; does nothing when no node
    /// stands there.
    pub fn set_blocked(&mut self, pos: Position, blocked: bool)
        requires
            old(self).wf(),
        ensures
            final(self).wf(),
            old(self)@.contains_key(pos) ==> final(self)@ == old(self)@.insert(
                pos,
                Node { is_blocked: blocked, ..old(self)@[pos] },
            ),
            !old(self)@.contains_key(pos) ==> final(self)@ == old(self)@,
    {
        match self.get(pos) {
            Some(n) => {
                let mut node = *n;
                node.set_blocked(blocked);
                proof {
                    self.lemma_stored_at(pos);
                }
                self.insert(node);
                assert(node == Node { is_blocked: blocked, ..old(self)@[pos] });
            },
            None => {},
        }
    }

    /// Sets the edge of the node at `pos` under `direction` to `target`; does
    /// nothing when no node stands there.
    pub fn set_edge(&mut self, pos: Position, direction: Direction, target: Option<Position>)
        requires
            old(self).wf(),
        ensures
            final(self).wf(),
            final(self)@.dom() == old(self)@.dom(),
            forall|q: Position| q != pos ==> #[trigger] final(self)@.get(q) == old(self)@.get(q),
            old(self)@.contains_key(pos) ==> {
                let (was, now) = (old(self)@[pos], final(self)@[pos]);
                &&& now.x == was.x
                &&& now.y == was.y
                &&& now.is_blocked == was.is_blocked
                &&& forall|d: Direction| #[trigger] now.edge(d) == if d == direction {
                    Some(target)
                } else {
                    was.edge(d)
                }
            },
    {
        match self.get(pos) {
            Some(n) => {
                let mut node = *n;
                node.set_neighbor(direction, target);
                proof {
                    self.lemma_stored_at(pos);
                }
                self.insert(node);
                assert(self@.dom() =~= old(self)@.dom());
            },
            None => {},
        }
    }

    /// Removes the edge of the node at `pos` under `direction`; does nothing
    /// when no node stands there.
    pub fn remove_edge(&mut self, pos: Position, direction: Direction)
        requires
            old(self).wf(),
        ensures
            final(self).wf(),
            final(self)@.dom() == old(self)@.dom(),
            forall|q: Position| q != pos ==> #[trigger] final(self)@.get(q) == old(self)@.get(q),
            old(self)@.contains_key(pos) ==> {
                let (was, now) = (old(self)@[pos], final(self)@[pos]);
                &&& now.x == was.x
                &&& now.y == was.y
                &&& now.is_blocked == was.is_blocked
                &&& forall|d: Direction| #[trigger] now.edge(d) == if d == direction {
                    None
                } else {
                    was.edge(d)
                }
            },
    {
        match self.get(pos) {
            Some(n) => {
                let mut node = *n;
                node.remove_neighbor(direction);
                proof {
                    self.lemma_stored_at(pos);
                }
                self.insert(node);
                assert(self@.dom() =~= old(self)@.dom());
            },
            None => {},
        }
    }

    /// A node of a well-formed graph stands at the position it is stored under.
    pub proof fn lemma_stored_at(&self, pos: Position)
        requires
            self.wf(),
            self@.contains_key(pos),
        ensures
            position_of(self@[pos]) == pos,
    {
        lemma_key_injective(pos, position_of(self@[pos]));
    }
}

/// Node `n` is the one that a grid map builds for the cell at `p`: it stands
/// at `p`, is blocked exactly when the cell holds `1`, and has the default
/// four-directional edges within the grid's extents, which are taken from the
/// number of rows and the length of the first row.
pub open spec fn is_cell_node(grid: Seq<Vec<i32>>, p: Position, n: Node) -> bool {
    &&& position_of(n) == p
    &&& n.is_blocked == (grid[p.1 as int]@[p.0 as int] == 1)
    &&& forall|d: Direction| #[trigger] n.edge(d) == default_edge(
        p.0,
        p.1,
        (grid[0]@.len() - 1) as usize,
        (grid.len() - 1) as usize,
        d,
    )
}

/// `p` names a cell of the grid: row `p.1` exists and is long enough.
pub open spec fn is_cell(grid: Seq<Vec<i32>>, p: Position) -> bool {
    p.1 < grid.len() && p.0 < grid[p.1 as int]@.len()
}

impl Node {
    /// Builds the graph of a grid map: one node per cell, at `(x, y)` for the
    /// cell `grid[y][x]`, blocked where the cell holds `1`.
    pub fn grid_to_nodes(grid: &[Vec<i32>]) -> (r: Graph)
        requires
            grid@.len() > 0,
            grid@[0]@.len() > 0,
        ensures
            r.wf(),
            forall|p: Position| #[trigger] r@.contains_key(p) <==> is_cell(grid@, p),
            forall|p: Position| #[trigger] r@.contains_key(p) ==> is_cell_node(grid@, p, r@[p]),
    {
        let mut r = Graph::new();
        let max_x = grid[0].len() - 1;
        let max_y = grid.len() - 1;
        let mut y: usize = 0;
        while y < grid.len()
            invariant
                y <= grid@.len(),
                max_x == grid@[0]@.len() - 1,
                max_y == grid@.len() - 1,
                r.wf(),
                forall|p: Position| #[trigger]
                    r@.contains_key(p) <==> is_cell(grid@, p) && p.1 < y,
                forall|p: Position| #[trigger]
                    r@.contains_key(p) ==> is_cell_node(grid@, p, r@[p]),
            decreases grid@.len() - y,
        {
            let row = &grid[y];
            let mut x: usize = 0;
            while x < row.len()
                invariant
                    y < grid@.len(),
                    x <= row@.len(),
                    *row == grid@[y as int],
                    max_x == grid@[0]@.len() - 1,
                    max_y == grid@.len() - 1,
                    r.wf(),
                    forall|p: Position| #[trigger]
                        r@.contains_key(p) <==> is_cell(grid@, p) && (p.1 < y || (p.1 == y && p.0 < x)),
                    forall|p: Position| #[trigger]
                        r@.contains_key(p) ==> is_cell_node(grid@, p, r@[p]),
                decreases row@.len() - x,
            {
                let node = Node::new(x, y, row[x] == 1, max_x, max_y);
                r.insert(node);
                x = x + 1;
            }
            y = y + 1;
        }
        r
    }
}

/// The symbol that shows cell `(x, y)`: with a route, `'o'` on the route,
/// `'#'` on a cell that holds `1`, `'.'` elsewhere; without a route, `'.'`.
pub open spec fn cell_symbol(grid: Seq<Vec<i32>>, path: Option<Seq<Position>>, x: int, y: int) -> char {
    match path {
        None => '.',
        Some(p) => if p.contains((x as usize, y as usize)) {
            'o'
        } else if grid[y]@[x] == 1 {
            '#'
        } else {
            '.'
        },
    }
}

fn path_contains(path: &Vec<Position>, p: Position) -> (r: bool)
    ensures
        r == path@.contains(p),
{
    let mut i: usize = 0;
    while i < path.len()
        invariant
            i <= path@.len(),
            forall|j: int| 0 <= j < i ==> path@[j] != p,
        decreases path@.len() - i,
    {
        if same_position(path[i], p) {
            return true;
        }
        i = i + 1;
    }
    false
}

impl Node {
    /// The rows of symbols that show the grid and, if given, a route on it:
    /// `r[y][x]` shows the cell `grid[y][x]`.
    pub fn render_grid(grid: &[Vec<i32>], path: &Option<Vec<Position>>) -> (r: Vec<Vec<char>>)
        ensures
            r@.len() == grid@.len(),
            forall|y: int| 0 <= y < grid@.len() ==> (#[trigger] r@[y])@.len() == grid@[y]@.len(),
            forall|y: int, x: int|
                0 <= y < grid@.len() && 0 <= x < grid@[y]@.len() ==> (#[trigger] r@[y]@[x])
                    == cell_symbol(
                    grid@,
                    match path {
                        Some(p) => Some(p@),
                        None => None,
                    },
                    x,
                    y,
                ),
    {
        let ghost pv = match path {
            Some(p) => Some(p@),
            None => None,
        };
        let mut r: Vec<Vec<char>> = Vec::new();
        let mut y: usize = 0;
        while y < grid.len()
            invariant
                y <= grid@.len(),
                r@.len() == y,
                pv == match path {
                    Some(p) => Some(p@),
                    None => None,
                },
                forall|j: int| 0 <= j < y ==> (#[trigger] r@[j])@.len() == grid@[j]@.len(),
                forall|j: int, x: int|
                    0 <= j < y && 0 <= x < grid@[j]@.len() ==> (#[trigger] r@[j]@[x]) == cell_symbol(
                        grid@,
                        pv,
                        x,
                        j,
                    ),
            decreases grid@.len() - y,
        {
            let row = &grid[y];
            let mut line: Vec<char> = Vec::new();
            let mut x: usize = 0;
            while x < row.len()
                invariant
                    y < grid@.len(),
                    *row == grid@[y as int],
                    pv == match path {
                        Some(p) => Some(p@),
                        None => None,
                    },
                    x <= row@.len(),
                    line@.len() == x,
                    forall|i: int| 0 <= i < x ==> #[trigger] line@[i] == cell_symbol(grid@, pv, i, y as int),
                decreases row@.len() - x,
            {
                let symbol = match path {
                    None => '.',
                    Some(p) => if path_contains(p, (x, y)) {
                        'o'
                    } else if row[x] == 1 {
                        '#'
                    } else {
                        '.'
                    },
                };
                line.push(symbol);
                x = x + 1;
            }
            r.push(line);
            y = y + 1;
        }
        r
    }
}

} // verus!
