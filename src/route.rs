use vstd::prelude::*;
use crate::graph::is_cell_node;
use crate::node::{default_edge, Direction, Node, Position};

verus! {

/// A node stands at `p` and is not blocked.
pub open spec fn is_open_cell(g: Map<Position, Node>, p: Position) -> bool {
    g.contains_key(p) && !g[p].is_blocked
}

/// One move of a search: the node at `u` has an edge to `v`, and `v` is an
/// open cell.
pub open spec fn is_step(g: Map<Position, Node>, u: Position, v: Position) -> bool {
    g.contains_key(u) && g[u].leads_to(v) && is_open_cell(g, v)
}

/// `q` is a route from `s` to `t`: it starts at the open cell `s`, ends at
/// `t`, and each position follows from the one before by a step.
pub open spec fn is_path(g: Map<Position, Node>, q: Seq<Position>, s: Position, t: Position) -> bool {
    &&& q.len() > 0
    &&& q[0] == s
    &&& q.last() == t
    &&& is_open_cell(g, s)
    &&& forall|i: int| 0 <= i < q.len() - 1 ==> #[trigger] is_step(g, q[i], q[i + 1])
}

pub open spec fn reachable(g: Map<Position, Node>, s: Position, t: Position) -> bool {
    exists|q: Seq<Position>| is_path(g, q, s, t)
}

/// No route from `s` to `t` has fewer positions than `path`.
pub open spec fn is_shortest(g: Map<Position, Node>, path: Seq<Position>, s: Position, t: Position) -> bool {
    forall|q: Seq<Position>| is_path(g, q, s, t) ==> path.len() <= q.len()
}

pub open spec fn abs_diff(a: usize, b: usize) -> nat {
    if a >= b {
        (a - b) as nat
    } else {
        (b - a) as nat
    }
}

/// The Manhattan distance `|dx| + |dy|`, the search's estimate of the
/// remaining cost.
pub open spec fn manhattan(a: Position, b: Position) -> nat {
    abs_diff(a.0, b.0) + abs_diff(a.1, b.1)
}

/// The estimate towards `goal` drops by at most the unit cost of a step along
/// every step of `g`. This holds on every graph whose edges join cells one
/// row or one column apart, as the default edges do.
pub open spec fn heuristic_consistent(g: Map<Position, Node>, goal: Position) -> bool {
    forall|u: Position, v: Position| #[trigger]
        is_step(g, u, v) ==> manhattan(u, goal) <= manhattan(v, goal) + 1
}

/// The estimate changes by at most one per step along a run of steps.
pub(crate) proof fn lemma_estimate_along(g: Map<Position, Node>, goal: Position, q: Seq<Position>, j: int)
    requires
        heuristic_consistent(g, goal),
        0 <= j < q.len(),
        forall|i: int| 0 <= i < q.len() - 1 ==> #[trigger] is_step(g, q[i], q[i + 1]),
    ensures
        manhattan(q[j], goal) <= (q.len() - 1 - j) + manhattan(q.last(), goal),
    decreases q.len() - j,
{
    if j < q.len() - 1 {
        assert(is_step(g, q[j], q[j + 1]));
        lemma_estimate_along(g, goal, q, j + 1);
    }
}

/// A non-empty prefix of a route is a route to its last position.
pub(crate) proof fn lemma_prefix_path(g: Map<Position, Node>, q: Seq<Position>, s: Position, t: Position, j: int)
    requires
        is_path(g, q, s, t),
        0 < j <= q.len(),
    ensures
        is_path(g, q.take(j), s, q[j - 1]),
{
    let p = q.take(j);
    assert forall|i: int| 0 <= i < p.len() - 1 implies #[trigger] is_step(g, p[i], p[i + 1]) by {
        assert(is_step(g, q[i], q[i + 1]));
    }
}

/// The first position of `q`, from index `k` on, that lies outside `inside`.
pub(crate) proof fn lemma_first_outside(q: Seq<Position>, inside: Set<Position>, k: int) -> (j: int)
    requires
        0 <= k < q.len(),
        !inside.contains(q.last()),
        forall|m: int| 0 <= m < k ==> inside.contains(#[trigger] q[m]),
    ensures
        k <= j < q.len(),
        !inside.contains(q[j]),
        forall|m: int| 0 <= m < j ==> inside.contains(#[trigger] q[m]),
    decreases q.len() - k,
{
    if !inside.contains(q[k]) {
        k
    } else {
        lemma_first_outside(q, inside, k + 1)
    }
}

/// On a graph whose nodes are the cells of a grid map, as `grid_to_nodes`
/// builds it, the Manhattan estimate towards any goal is consistent, so every
/// route that a search returns there is a shortest one.
pub proof fn lemma_grid_estimate_consistent(grid: Seq<Vec<i32>>, g: Map<Position, Node>, goal: Position)
    requires
        forall|p: Position| #[trigger] g.contains_key(p) ==> is_cell_node(grid, p, g[p]),
    ensures
        heuristic_consistent(g, goal),
{
    assert forall|u: Position, v: Position| #[trigger] is_step(g, u, v) implies manhattan(u, goal)
        <= manhattan(v, goal) + 1 by {
        let n = g[u];
        assert(is_cell_node(grid, u, n));
        let d = choose|d: Direction| #[trigger] n.edge(d) == Some(Some(v));
        assert(n.edge(d) == default_edge(
            u.0,
            u.1,
            (grid[0]@.len() - 1) as usize,
            (grid.len() - 1) as usize,
            d,
        ));
    }
}

pub(crate) fn manhattan_distance(start: Position, goal: Position) -> (r: u128)
    ensures
        r == manhattan(start, goal),
{
    let dx = if start.0 >= goal.0 { start.0 - goal.0 } else { goal.0 - start.0 };
    let dy = if start.1 >= goal.1 { start.1 - goal.1 } else { goal.1 - start.1 };
    dx as u128 + dy as u128
}

} // verus!
