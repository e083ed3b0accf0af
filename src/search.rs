use std::collections::{HashMap, HashSet};
use vstd::prelude::*;
use crate::astar::{result_view, AStarError};
use crate::graph::{key_of, lemma_key_injective, position_key, Graph};
use crate::node::{same_position, Direction, Node, Position, DIRECTION_COUNT};
use crate::priority_queue::{comes_before, holds_position, is_first, pop_index, with_entry, PriorityQueue, State};
use crate::route::{
    heuristic_consistent, is_open_cell, is_path, is_shortest, is_step, lemma_estimate_along,
    lemma_first_outside, lemma_prefix_path, manhattan, manhattan_distance, reachable,
};

verus! {

broadcast use vstd::std_specs::hash::group_hash_axioms;

/// The open cells that `node`'s edges in slots `0 .. n` lead to, in slot
/// order.
pub open spec fn neighbors_below(g: Map<Position, Node>, node: Node, n: int) -> Seq<Position>
    decreases n,
{
    if n <= 0 {
        Seq::empty()
    } else {
        let before = neighbors_below(g, node, n - 1);
        match node.neighbors@[n - 1] {
            Some(Some(v)) => if is_open_cell(g, v) {
                before.push(v)
            } else {
                before
            },
            _ => before,
        }
    }
}

/// The open cells that `node`'s edges lead to, in slot order.
pub open spec fn neighbor_list(g: Map<Position, Node>, node: Node) -> Seq<Position> {
    neighbors_below(g, node, DIRECTION_COUNT as int)
}

/// The records of a search in the middle of its run: best costs and
/// predecessors by position key, the keys of the expanded positions, and the
/// frontier.
pub type SearchRecords = (Map<u128, usize>, Map<u128, Position>, Set<u128>, Seq<State>);

/// The records when a search from `start` towards `goal` begins.
pub open spec fn initial_records(start: Position, goal: Position) -> SearchRecords {
    (
        Map::<u128, usize>::empty().insert(key_of(start), 0),
        Map::<u128, Position>::empty(),
        Set::<u128>::empty(),
        seq![State { cost: manhattan(start, goal) as u128, position: start }],
    )
}

/// The records after relaxing the step from `u` to `v`: unless `v` is
/// expanded, a route through `u` that is cheaper than `v`'s record replaces
/// it, and `v`'s frontier entry takes the new priority.
pub open spec fn relax(m: SearchRecords, u: Position, v: Position, goal: Position) -> SearchRecords {
    let (g_score, came_from, closed, open) = m;
    let kv = key_of(v);
    let tentative = g_score[key_of(u)] + 1;
    if closed.contains(kv) || (g_score.contains_key(kv) && tentative >= g_score[kv]) {
        m
    } else {
        (
            g_score.insert(kv, tentative as usize),
            came_from.insert(kv, u),
            closed,
            with_entry(open, State { cost: (tentative + manhattan(v, goal)) as u128, position: v }),
        )
    }
}

/// The records after relaxing the steps from `u` to each of `vs` in turn.
pub open spec fn relax_all(m: SearchRecords, u: Position, vs: Seq<Position>, goal: Position) -> SearchRecords
    decreases vs.len(),
{
    if vs.len() == 0 {
        m
    } else {
        relax(relax_all(m, u, vs.drop_last(), goal), u, vs.last(), goal)
    }
}

/// `cur` followed by `n` predecessors, each from the one before.
pub open spec fn back_chain(came_from: Map<u128, Position>, cur: Position, n: nat) -> Seq<Position>
    decreases n,
{
    if n == 0 {
        seq![cur]
    } else {
        seq![cur] + back_chain(came_from, came_from[key_of(cur)], (n - 1) as nat)
    }
}

/// What the search returns from the records `m`, with at most `fuel` more
/// expansions: take the first frontier entry; at the goal, the predecessor
/// chain back to the start, reversed; elsewhere, expand it and go on.
pub open spec fn run(
    g: Map<Position, Node>,
    start: Position,
    goal: Position,
    m: SearchRecords,
    fuel: nat,
) -> Result<Seq<Position>, AStarError>
    decreases fuel,
{
    let (g_score, came_from, closed, open) = m;
    if fuel == 0 || open.len() == 0 {
        Err(AStarError::PathNotFound)
    } else {
        let i = pop_index(open);
        let u = open[i].position;
        if u == goal {
            Ok(back_chain(came_from, goal, g_score[key_of(goal)] as nat).reverse())
        } else {
            let expanded = (g_score, came_from, closed.insert(key_of(u)), open.remove(i));
            run(g, start, goal, relax_all(expanded, u, neighbor_list(g, g[u]), goal), (fuel - 1) as nat)
        }
    }
}

/// The records of one search: the best known cost from the start of each
/// reached position (`g_score`), its predecessor on that best route
/// (`came_from`), the expanded positions (`closed`, modelled by `visited`),
/// and the frontier (`open_set`).
struct SearchState {
    g_score: HashMap<u128, usize>,
    came_from: HashMap<u128, Position>,
    closed: HashSet<u128>,
    open_set: PriorityQueue,
    visited: Ghost<Set<Position>>,
}

impl SearchState {
    spec fn records(&self) -> SearchRecords {
        (self.g_score@, self.came_from@, self.closed@, self.open_set@)
    }

    spec fn has_g(&self, p: Position) -> bool {
        self.g_score@.contains_key(key_of(p))
    }

    spec fn g_of(&self, p: Position) -> int {
        self.g_score@[key_of(p)] as int
    }

    spec fn pred_of(&self, p: Position) -> Position {
        self.came_from@[key_of(p)]
    }

    spec fn is_closed(&self, p: Position) -> bool {
        self.visited@.contains(p)
    }

    /// Every step out of the expanded position `w` leads to an expanded
    /// position, or to one whose recorded cost is at most one more than `w`'s.
    spec fn settled(&self, g: Map<Position, Node>, w: Position) -> bool {
        forall|v: Position| #[trigger]
            is_step(g, w, v) ==> self.is_closed(v) || (self.has_g(v) && self.g_of(v) <= self.g_of(w) + 1)
    }

    /// The cost records, predecessors and expanded set agree with each other.
    spec fn records_ok(&self, g: Map<Position, Node>, start: Position, goal: Position) -> bool {
        &&& self.visited@.finite()
        &&& forall|p: Position| #[trigger] self.closed@.contains(key_of(p)) <==> self.is_closed(p)
        &&& !self.is_closed(goal)
        &&& self.has_g(start)
        &&& self.g_of(start) == 0
        &&& forall|p: Position| #[trigger]
            self.has_g(p) ==> is_open_cell(g, p) && self.g_of(p) <= self.visited@.len()
        &&& forall|p: Position| #[trigger]
            self.is_closed(p) ==> self.has_g(p) && self.g_of(p) < self.visited@.len()
        &&& forall|p: Position| #[trigger]
            self.has_g(p) && p != start ==> {
                &&& self.came_from@.contains_key(key_of(p))
                &&& self.is_closed(self.pred_of(p))
                &&& is_step(g, self.pred_of(p), p)
                &&& self.g_of(p) == self.g_of(self.pred_of(p)) + 1
            }
        &&& heuristic_consistent(g, goal) ==> forall|w: Position, q: Seq<Position>| #[trigger]
            is_path(g, q, start, w) && self.is_closed(w) ==> self.g_of(w) + 1 <= q.len()
    }

    /// The frontier holds each reached, unexpanded position once, with its
    /// cost plus its estimate as priority.
    spec fn open_ok(&self, goal: Position) -> bool {
        let q = self.open_set@;
        &&& forall|i: int| 0 <= i < q.len() ==> {
            let p = (#[trigger] q[i]).position;
            &&& self.has_g(p)
            &&& !self.is_closed(p)
            &&& q[i].cost == self.g_of(p) + manhattan(p, goal)
        }
        &&& forall|p: Position| #[trigger] self.has_g(p) && !self.is_closed(p) ==> holds_position(q, p)
        &&& forall|i: int, j: int|
            0 <= i < q.len() && 0 <= j < q.len() && i != j ==> (#[trigger] q[i]).position != (#[trigger] q[j]).position
    }

    spec fn inv(&self, g: Map<Position, Node>, start: Position, goal: Position) -> bool {
        &&& self.records_ok(g, start, goal)
        &&& self.open_ok(goal)
        &&& forall|w: Position| #[trigger] self.is_closed(w) ==> self.settled(g, w)
    }
}

/// Being settled survives growth of the expanded set and lower costs
/// elsewhere.
proof fn lemma_settled_kept(a: SearchState, b: SearchState, g: Map<Position, Node>, w: Position)
    requires
        a.settled(g, w),
        forall|p: Position| #[trigger] a.is_closed(p) ==> b.is_closed(p),
        forall|p: Position| #[trigger] a.has_g(p) ==> b.has_g(p) && b.g_of(p) <= a.g_of(p),
        b.g_of(w) == a.g_of(w),
    ensures
        b.settled(g, w),
{
    assert forall|v: Position| #[trigger] is_step(g, w, v) implies b.is_closed(v) || (b.has_g(v)
        && b.g_of(v) <= b.g_of(w) + 1) by {
        if !a.is_closed(v) {
            assert(a.has_g(v));
        }
    }
}

/// The entry taken out of the frontier has a recorded cost no greater than
/// that of any route to it, when the estimate is consistent.
proof fn lemma_taken_is_shortest(
    st: SearchState,
    g: Map<Position, Node>,
    start: Position,
    goal: Position,
    i: int,
)
    requires
        st.inv(g, start, goal),
        heuristic_consistent(g, goal),
        0 <= i < st.open_set@.len(),
        is_first(st.open_set@[i], st.open_set@),
    ensures
        forall|q: Seq<Position>| #[trigger]
            is_path(g, q, start, st.open_set@[i].position) ==> st.g_of(st.open_set@[i].position) + 1
                <= q.len(),
{
    let oq = st.open_set@;
    let u = oq[i].position;
    assert(st.has_g(u) && !st.is_closed(u));
    assert forall|q: Seq<Position>| #[trigger] is_path(g, q, start, u) implies st.g_of(u) + 1 <= q.len() by {
        let j = lemma_first_outside(q, st.visited@, 0);
        let x = q[j];
        if j == 0 {
            assert(x == start);
        } else {
            let w = q[j - 1];
            assert(st.is_closed(w));
            assert(is_step(g, q[j - 1], q[j - 1 + 1]));
            assert(st.settled(g, w));
            lemma_prefix_path(g, q, start, u, j);
            assert(is_path(g, q.take(j), start, w));
        }
        assert(st.has_g(x) && st.g_of(x) <= j);
        assert(holds_position(oq, x));
        let k = choose|k: int| 0 <= k < oq.len() && (#[trigger] oq[k]).position == x;
        assert(comes_before(oq[i], oq[k]));
        lemma_estimate_along(g, goal, q, j);
    }
}

/// Once the frontier is empty, the goal cannot be reached.
proof fn lemma_exhausted(st: SearchState, g: Map<Position, Node>, start: Position, goal: Position)
    requires
        st.inv(g, start, goal),
        st.open_set@.len() == 0,
    ensures
        !reachable(g, start, goal),
{
    assert forall|q: Seq<Position>| !is_path(g, q, start, goal) by {
        if is_path(g, q, start, goal) {
            lemma_route_stays_closed(st, g, start, goal, q, q.len() - 1);
            assert(st.is_closed(q.last()));
        }
    }
}

/// Along a route from the start, every position is expanded once the
/// frontier is empty.
proof fn lemma_route_stays_closed(
    st: SearchState,
    g: Map<Position, Node>,
    start: Position,
    goal: Position,
    q: Seq<Position>,
    k: int,
)
    requires
        st.inv(g, start, goal),
        st.open_set@.len() == 0,
        is_path(g, q, start, goal),
        0 <= k < q.len(),
    ensures
        st.is_closed(q[k]),
    decreases k,
{
    if !st.is_closed(q[k]) {
        if k > 0 {
            lemma_route_stays_closed(st, g, start, goal, q, k - 1);
            assert(is_step(g, q[k - 1], q[k - 1 + 1]));
            assert(st.settled(g, q[k - 1]));
        }
        assert(st.has_g(q[k]));
        assert(holds_position(st.open_set@, q[k]));
    }
}

impl SearchState {
    /// The records at the outset: only the start is reached, at cost zero,
    /// and it is the one entry of the frontier.
    fn new(start: Position, goal: Position, Ghost(g): Ghost<Map<Position, Node>>) -> (r: SearchState)
        requires
            is_open_cell(g, start),
            start != goal,
        ensures
            r.inv(g, start, goal),
            r.visited@ == Set::<Position>::empty(),
            r.records() == initial_records(start, goal),
    {
        let mut g_score: HashMap<u128, usize> = HashMap::new();
        g_score.insert(position_key(start), 0);
        let mut open_set = PriorityQueue::new();
        open_set.push(State { cost: manhattan_distance(start, goal), position: start });
        let r = SearchState {
            g_score,
            came_from: HashMap::new(),
            closed: HashSet::new(),
            open_set,
            visited: Ghost(Set::empty()),
        };
        assert forall|p: Position| #[trigger] r.has_g(p) <==> p == start by {
            lemma_key_injective(p, start);
        }
        assert(r.open_set@[0].position == start);
        assert(r.open_set@ =~= seq![State { cost: manhattan(start, goal) as u128, position: start }]);
        r
    }

    /// Marks `u`, just taken out of the frontier, as expanded.
    fn close(
        &mut self,
        u: Position,
        Ghost(g): Ghost<Map<Position, Node>>,
        Ghost(start): Ghost<Position>,
        Ghost(goal): Ghost<Position>,
    )
        requires
            old(self).records_ok(g, start, goal),
            old(self).has_g(u),
            !old(self).is_closed(u),
            u != goal,
            heuristic_consistent(g, goal) ==> forall|q: Seq<Position>| #[trigger]
                is_path(g, q, start, u) ==> old(self).g_of(u) + 1 <= q.len(),
        ensures
            final(self).records_ok(g, start, goal),
            final(self).visited@ == old(self).visited@.insert(u),
            final(self).closed@ == old(self).closed@.insert(key_of(u)),
            final(self).g_score@ == old(self).g_score@,
            final(self).came_from@ == old(self).came_from@,
            final(self).open_set@ == old(self).open_set@,
    {
        let k = position_key(u);
        self.closed.insert(k);
        self.visited = Ghost(self.visited@.insert(u));
        assert forall|p: Position| #[trigger] self.closed@.contains(key_of(p)) <==> self.is_closed(p) by {
            lemma_key_injective(p, u);
            assert(old(self).closed@.contains(key_of(p)) <==> old(self).is_closed(p));
        }
        assert(self.visited@.len() == old(self).visited@.len() + 1);
        assert forall|p: Position| #[trigger] self.has_g(p) && p != start implies {
            &&& self.came_from@.contains_key(key_of(p))
            &&& self.is_closed(self.pred_of(p))
            &&& is_step(g, self.pred_of(p), p)
            &&& self.g_of(p) == self.g_of(self.pred_of(p)) + 1
        } by {
            assert(old(self).has_g(p));
        }
        assert forall|p: Position| #[trigger] self.is_closed(p) implies self.has_g(p) && self.g_of(p)
            < self.visited@.len() by {
            if p != u {
                assert(old(self).is_closed(p));
            }
        }
        assert forall|p: Position| #[trigger] self.has_g(p) implies is_open_cell(g, p) && self.g_of(p)
            <= self.visited@.len() by {
            assert(old(self).has_g(p));
        }
        proof {
            if heuristic_consistent(g, goal) {
                assert forall|w: Position, q: Seq<Position>| #[trigger]
                    is_path(g, q, start, w) && self.is_closed(w) implies self.g_of(w) + 1 <= q.len() by {
                    if w != u {
                        assert(old(self).is_closed(w));
                    }
                }
            }
        }
    }
}

/// Taking entry `i` out of the frontier and expanding its position keeps the
/// frontier in order.
proof fn lemma_frontier_after_take(
    a: SearchState,
    b: SearchState,
    goal: Position,
    i: int,
)
    requires
        a.open_ok(goal),
        0 <= i < a.open_set@.len(),
        b.open_set@ == a.open_set@.remove(i),
        b.visited@ == a.visited@.insert(a.open_set@[i].position),
        b.g_score@ == a.g_score@,
    ensures
        b.open_ok(goal),
{
    let (qa, qb) = (a.open_set@, b.open_set@);
    let u = qa[i].position;
    assert forall|k: int| 0 <= k < qb.len() implies (#[trigger] qb[k]).position != u by {
        if k < i {
            assert(qa[k] == qb[k]);
        } else {
            assert(qa[k + 1] == qb[k]);
        }
    }
    assert forall|k: int| 0 <= k < qb.len() implies {
        let p = (#[trigger] qb[k]).position;
        &&& b.has_g(p)
        &&& !b.is_closed(p)
        &&& qb[k].cost == b.g_of(p) + manhattan(p, goal)
    } by {
        if k < i {
            assert(qa[k] == qb[k]);
        } else {
            assert(qa[k + 1] == qb[k]);
        }
    }
    assert forall|p: Position| #[trigger] b.has_g(p) && !b.is_closed(p) implies holds_position(qb, p) by {
        assert(a.has_g(p) && !a.is_closed(p));
        let k = choose|k: int| 0 <= k < qa.len() && (#[trigger] qa[k]).position == p;
        if k < i {
            assert(qb[k] == qa[k]);
        } else {
            assert(k != i);
            assert(qb[k - 1] == qa[k]);
        }
    }
    assert forall|k: int, m: int|
        0 <= k < qb.len() && 0 <= m < qb.len() && k != m implies (#[trigger] qb[k]).position
        != (#[trigger] qb[m]).position by {
        let k2 = if k < i { k } else { k + 1 };
        let m2 = if m < i { m } else { m + 1 };
        assert(qb[k] == qa[k2]);
        assert(qb[m] == qa[m2]);
    }
}

impl SearchState {
    /// Relaxes the step from the expanded position `u` to `v`: when the route
    /// through `u` is cheaper than any recorded for `v`, it becomes `v`'s
    /// record and `v`'s frontier entry takes the new priority.
    fn process_neighbor(
        &mut self,
        u: Position,
        v: Position,
        goal: Position,
        Ghost(g): Ghost<Map<Position, Node>>,
        Ghost(start): Ghost<Position>,
    )
        requires
            old(self).records_ok(g, start, goal),
            old(self).open_ok(goal),
            old(self).is_closed(u),
            !old(self).is_closed(v),
            is_step(g, u, v),
            old(self).visited@.len() <= usize::MAX,
        ensures
            final(self).records_ok(g, start, goal),
            final(self).open_ok(goal),
            final(self).visited@ == old(self).visited@,
            final(self).records() == relax(old(self).records(), u, v, goal),
            final(self).has_g(v),
            final(self).g_of(v) <= old(self).g_of(u) + 1,
            forall|p: Position| #[trigger]
                old(self).has_g(p) ==> final(self).has_g(p) && final(self).g_of(p) <= old(self).g_of(p),
            forall|p: Position| p != v ==> #[trigger] final(self).g_of(p) == old(self).g_of(p),
    {
        let ku = position_key(u);
        let kv = position_key(v);
        let gu = *self.g_score.get(&ku).unwrap();
        let tentative = gu + 1;
        let better = match self.g_score.get(&kv) {
            Some(gv) => tentative < *gv,
            None => true,
        };
        if !better {
            return;
        }
        let ghost was = *self;
        proof {
            assert forall|p: Position| key_of(p) == kv <==> p == v by {
                lemma_key_injective(p, v);
            }
            assert(v != start) by {
                if v == start {
                    assert(was.g_of(start) == 0);
                }
            }
            assert(holds_position(was.open_set@, v) <==> was.has_g(v)) by {
                if holds_position(was.open_set@, v) {
                    let k = choose|k: int|
                        0 <= k < was.open_set@.len() && (#[trigger] was.open_set@[k]).position == v;
                }
            }
        }
        self.came_from.insert(kv, u);
        self.g_score.insert(kv, tentative);
        let f = tentative as u128 + manhattan_distance(v, goal);
        let entry = State { cost: f, position: v };
        self.open_set.insert_or_update(entry);
        proof {
            let (qa, qb) = (was.open_set@, self.open_set@);
            assert forall|p: Position| p != v implies #[trigger] self.has_g(p) == was.has_g(p)
                && self.g_of(p) == was.g_of(p) && self.came_from@.get(key_of(p)) == was.came_from@.get(
                key_of(p),
            ) by {}
            assert(self.has_g(v) && self.g_of(v) == gu + 1 && self.pred_of(v) == u);
            if holds_position(qa, v) {
                let i = choose|i: int| crate::priority_queue::first_at(qa, v, i) && qb == qa.update(
                    i,
                    State {
                        cost: if f < qa[i].cost { f } else { qa[i].cost },
                        position: v,
                    },
                );
                assert(qa[i].cost == was.g_of(v) + manhattan(v, goal));
                assert(qb[i] == entry);
                assert forall|k: int| 0 <= k < qb.len() && k != i implies (#[trigger] qb[k]).position
                    != v by {
                    assert(qa[k] == qb[k]);
                }
            } else {
                assert(qb == qa.push(entry));
                assert(qb[qa.len() as int] == entry);
                assert forall|k: int| 0 <= k < qa.len() implies (#[trigger] qb[k]) == qa[k] && qa[k].position != v by {
                }
            }
            assert forall|k: int| 0 <= k < qb.len() implies {
                let p = (#[trigger] qb[k]).position;
                &&& self.has_g(p)
                &&& !self.is_closed(p)
                &&& qb[k].cost == self.g_of(p) + manhattan(p, goal)
            } by {
                if qb[k] != entry {
                    assert(qb[k].position != v);
                }
            }
            assert forall|p: Position| #[trigger] self.has_g(p) && !self.is_closed(p) implies holds_position(qb, p) by {
                if p != v {
                    assert(was.has_g(p));
                    let k = choose|k: int| 0 <= k < qa.len() && (#[trigger] qa[k]).position == p;
                    assert(qb[k].position == p);
                }
            }
            assert forall|p: Position| #[trigger] self.has_g(p) && p != start implies {
                &&& self.came_from@.contains_key(key_of(p))
                &&& self.is_closed(self.pred_of(p))
                &&& is_step(g, self.pred_of(p), p)
                &&& self.g_of(p) == self.g_of(self.pred_of(p)) + 1
            } by {
                if p != v {
                    assert(was.has_g(p));
                    assert(was.is_closed(was.pred_of(p)));
                }
            }
            assert forall|p: Position| #[trigger] self.has_g(p) implies is_open_cell(g, p) && self.g_of(p)
                <= self.visited@.len() by {
                if p != v {
                    assert(was.has_g(p));
                }
            }
            assert forall|p: Position| #[trigger] self.is_closed(p) implies self.has_g(p) && self.g_of(p)
                < self.visited@.len() by {
                assert(was.is_closed(p));
            }
            if heuristic_consistent(g, goal) {
                assert forall|w: Position, q: Seq<Position>| #[trigger]
                    is_path(g, q, start, w) && self.is_closed(w) implies self.g_of(w) + 1 <= q.len() by {
                    assert(was.is_closed(w));
                }
            }
            assert forall|p: Position| #[trigger]
                was.has_g(p) implies self.has_g(p) && self.g_of(p) <= was.g_of(p) by {}
        }
    }
}

impl SearchState {
    /// Follows the predecessors back from `goal` to `start` and returns the
    /// route in order from `start` to `goal`.
    fn reconstruct_path(
        &self,
        start: Position,
        goal: Position,
        Ghost(g): Ghost<Map<Position, Node>>,
    ) -> (r: Vec<Position>)
        requires
            self.records_ok(g, start, goal),
            self.has_g(goal),
        ensures
            is_path(g, r@, start, goal),
            r@.len() == self.g_of(goal) + 1,
            r@ == back_chain(self.came_from@, goal, self.g_of(goal) as nat).reverse(),
    {
        let mut back: Vec<Position> = vec![goal];
        let mut current = goal;
        while !same_position(current, start)
            invariant
                self.records_ok(g, start, goal),
                self.has_g(current),
                back@.len() > 0,
                back@[0] == goal,
                back@.last() == current,
                back@.len() + self.g_of(current) == self.g_of(goal) + 1,
                back@ + back_chain(self.came_from@, current, self.g_of(current) as nat).drop_first()
                    == back_chain(self.came_from@, goal, self.g_of(goal) as nat),
                forall|k: int| 0 <= k < back@.len() - 1 ==> #[trigger] is_step(g, back@[k + 1], back@[k]),
            decreases self.g_of(current),
        {
            let k = position_key(current);
            let pred = *self.came_from.get(&k).unwrap();
            assert(self.is_closed(pred));
            let ghost (was_back, was_current) = (back@, current);
            current = pred;
            back.push(pred);
            proof {
                let rest = back_chain(self.came_from@, pred, self.g_of(pred) as nat);
                assert(back_chain(self.came_from@, was_current, self.g_of(was_current) as nat)
                    == seq![was_current] + rest);
                assert((seq![was_current] + rest).drop_first() =~= rest);
                assert(rest == seq![pred] + rest.drop_first()) by {
                    if self.g_of(pred) == 0 {
                        assert(rest =~= seq![pred] + rest.drop_first());
                    } else {
                        assert(rest =~= seq![pred] + rest.drop_first());
                    }
                }
                assert(back@ + rest.drop_first() =~= was_back + rest);
            }
        }
        let mut path: Vec<Position> = Vec::new();
        let mut i: usize = back.len();
        while i > 0
            invariant
                i <= back@.len(),
                path@.len() == back@.len() - i,
                forall|m: int| 0 <= m < path@.len() ==> #[trigger] path@[m] == back@[back@.len() - 1 - m],
            decreases i,
        {
            i = i - 1;
            path.push(back[i]);
        }
        let ghost n = back@.len();
        assert forall|m: int| 0 <= m < path@.len() - 1 implies #[trigger] is_step(g, path@[m], path@[m + 1]) by {
            let k = n - 2 - m;
            assert(is_step(g, back@[k + 1], back@[k]));
            assert(path@[m] == back@[n - 1 - m]);
            assert(path@[m + 1] == back@[n - 1 - (m + 1)]);
        }
        assert(path@[0] == back@[n - 1]);
        assert(path@.last() == back@[0]);
        assert(back_chain(self.came_from@, start, 0) == seq![start]);
        assert(back@ =~= back_chain(self.came_from@, goal, self.g_of(goal) as nat));
        assert(path@ =~= back@.reverse());
        path
    }
}

/// The record invariant depends on the records alone, not on the frontier.
proof fn lemma_records_kept(
    a: SearchState,
    b: SearchState,
    g: Map<Position, Node>,
    start: Position,
    goal: Position,
)
    requires
        a.records_ok(g, start, goal),
        a.g_score@ == b.g_score@,
        a.came_from@ == b.came_from@,
        a.closed@ == b.closed@,
        a.visited@ == b.visited@,
    ensures
        b.records_ok(g, start, goal),
{
    assert forall|p: Position| #[trigger] b.closed@.contains(key_of(p)) <==> b.is_closed(p) by {
        assert(a.closed@.contains(key_of(p)) <==> a.is_closed(p));
    }
    assert forall|p: Position| #[trigger] b.has_g(p) implies is_open_cell(g, p) && b.g_of(p)
        <= b.visited@.len() by {
        assert(a.has_g(p));
    }
    assert forall|p: Position| #[trigger] b.is_closed(p) implies b.has_g(p) && b.g_of(p)
        < b.visited@.len() by {
        assert(a.is_closed(p));
    }
    assert forall|p: Position| #[trigger] b.has_g(p) && p != start implies {
        &&& b.came_from@.contains_key(key_of(p))
        &&& b.is_closed(b.pred_of(p))
        &&& is_step(g, b.pred_of(p), p)
        &&& b.g_of(p) == b.g_of(b.pred_of(p)) + 1
    } by {
        assert(a.has_g(p));
        assert(a.is_closed(a.pred_of(p)));
    }
    if heuristic_consistent(g, goal) {
        assert forall|w: Position, q: Seq<Position>| #[trigger]
            is_path(g, q, start, w) && b.is_closed(w) implies b.g_of(w) + 1 <= q.len() by {
            assert(a.is_closed(w));
        }
    }
}

impl SearchState {
    /// Relaxes every step out of the expanded position `u`, whose open
    /// neighbours are `neighbors`; `u` is settled afterwards.
    fn expand(
        &mut self,
        u: Position,
        node: &Node,
        neighbors: &Vec<Position>,
        goal: Position,
        Ghost(g): Ghost<Map<Position, Node>>,
        Ghost(start): Ghost<Position>,
    )
        requires
            old(self).records_ok(g, start, goal),
            old(self).open_ok(goal),
            old(self).is_closed(u),
            g.contains_key(u),
            *node == g[u],
            forall|v: Position| #[trigger] neighbors@.contains(v) <==> node.leads_to(v) && is_open_cell(g, v),
            forall|w: Position| #[trigger] old(self).is_closed(w) && w != u ==> old(self).settled(g, w),
            old(self).visited@.len() <= usize::MAX,
        ensures
            final(self).inv(g, start, goal),
            final(self).visited@ == old(self).visited@,
            final(self).records() == relax_all(old(self).records(), u, neighbors@, goal),
    {
        let ghost expanded = *self;
        let mut k: usize = 0;
        while k < neighbors.len()
            invariant
                self.records_ok(g, start, goal),
                self.open_ok(goal),
                self.visited@ == expanded.visited@,
                self.visited@.len() <= usize::MAX,
                self.is_closed(u),
                g.contains_key(u),
                *node == g[u],
                forall|v: Position| #[trigger] neighbors@.contains(v) <==> node.leads_to(v) && is_open_cell(g, v),
                k <= neighbors@.len(),
                self.records() == relax_all(expanded.records(), u, neighbors@.take(k as int), goal),
                forall|w: Position| #[trigger]
                    expanded.has_g(w) ==> self.has_g(w) && self.g_of(w) <= expanded.g_of(w),
                forall|w: Position| #[trigger] self.is_closed(w) ==> self.g_of(w) == expanded.g_of(w),
                forall|m: int| 0 <= m < k ==> {
                    let v = #[trigger] neighbors@[m];
                    self.is_closed(v) || (self.has_g(v) && self.g_of(v) <= self.g_of(u) + 1)
                },
            decreases neighbors@.len() - k,
        {
            let v = neighbors[k];
            assert(neighbors@.contains(v));
            assert(neighbors@.take(k + 1).drop_last() =~= neighbors@.take(k as int));
            if !self.closed.contains(&position_key(v)) {
                let ghost prev = *self;
                self.process_neighbor(u, v, goal, Ghost(g), Ghost(start));
                assert forall|m: int| 0 <= m < k + 1 implies {
                    let x = #[trigger] neighbors@[m];
                    self.is_closed(x) || (self.has_g(x) && self.g_of(x) <= self.g_of(u) + 1)
                } by {
                    let x = neighbors@[m];
                    if m < k && !self.is_closed(x) {
                        assert(prev.has_g(x));
                    }
                }
                assert forall|w: Position| #[trigger] expanded.has_g(w) implies self.has_g(w)
                    && self.g_of(w) <= expanded.g_of(w) by {
                    assert(prev.has_g(w));
                }
                assert forall|w: Position| #[trigger] self.is_closed(w) implies self.g_of(w)
                    == expanded.g_of(w) by {
                    assert(prev.is_closed(w));
                    assert(prev.g_of(w) == self.g_of(w));
                }
            }
            k = k + 1;
        }
        assert(neighbors@.take(neighbors@.len() as int) =~= neighbors@);
        assert(self.records() == relax_all(expanded.records(), u, neighbors@, goal));
        assert(expanded.records() == old(self).records());
        assert forall|w: Position| #[trigger] self.is_closed(w) implies self.settled(g, w) by {
            if w != u {
                assert(expanded.is_closed(w));
                lemma_settled_kept(expanded, *self, g, w);
            } else {
                assert forall|v: Position| #[trigger] is_step(g, u, v) implies self.is_closed(v) || (
                self.has_g(v) && self.g_of(v) <= self.g_of(u) + 1) by {
                    assert(neighbors@.contains(v));
                    let m = choose|m: int| 0 <= m < neighbors@.len() && neighbors@[m] == v;
                }
            }
        }
    }
}

/// The targets of `current_node`'s edges that hold open cells, in the
/// order of the node's edge slots.
fn find_neighbors(nodes: &Graph, current_node: &Node) -> (r: Vec<Position>)
    ensures
        r@ == neighbor_list(nodes@, *current_node),
        forall|v: Position|
            #[trigger] r@.contains(v) <==> current_node.leads_to(v) && is_open_cell(nodes@, v),
{
    let mut r: Vec<Position> = Vec::new();
    let mut i: usize = 0;
    while i < DIRECTION_COUNT
        invariant
            i <= DIRECTION_COUNT,
            r@ == neighbors_below(nodes@, *current_node, i as int),
            forall|v: Position|
                r@.contains(v) <==> (exists|j: int|
                    0 <= j < i && #[trigger] current_node.neighbors@[j] == Some(Some(v)))
                    && is_open_cell(nodes@, v),
        decreases DIRECTION_COUNT - i,
    {
        let ghost before = r@;
        match current_node.neighbors[i] {
            Some(Some(v)) => {
                match nodes.get(v) {
                    Some(n) => {
                        if !n.is_blocked {
                            r.push(v);
                        }
                    },
                    None => {},
                }
            },
            _ => {},
        }
        assert forall|v: Position|
            r@.contains(v) <==> (exists|j: int|
                0 <= j < i + 1 && #[trigger] current_node.neighbors@[j] == Some(Some(v)))
                && is_open_cell(nodes@, v) by {
            if r@.contains(v) && !before.contains(v) {
                assert(r@.last() == v);
            }
            if before.contains(v) {
                let k = choose|k: int| 0 <= k < before.len() && before[k] == v;
                assert(r@[k] == v);
            }
            if current_node.neighbors@[i as int] == Some(Some(v)) && is_open_cell(nodes@, v) {
                assert(r@.last() == v);
            }
        }
        i = i + 1;
    }
    assert forall|v: Position| #[trigger] current_node.leads_to(v) implies exists|j: int|
        0 <= j < DIRECTION_COUNT && #[trigger] current_node.neighbors@[j] == Some(Some(v)) by {
        let d = choose|d: Direction| #[trigger] current_node.edge(d) == Some(Some(v));
        assert(current_node.neighbors@[d.slot()] == Some(Some(v)));
    }
    assert forall|v: Position| (exists|j: int|
        0 <= j < DIRECTION_COUNT && #[trigger] current_node.neighbors@[j] == Some(Some(v))) implies
        current_node.leads_to(v) by {
        let j = choose|j: int| 0 <= j < DIRECTION_COUNT && #[trigger] current_node.neighbors@[j] == Some(Some(v));
        let d = Direction::of_slot(j);
        assert(d.slot() == j);
        assert(current_node.edge(d) == Some(Some(v)));
    }
    r
}

/// Runs the search between two distinct open cells.
pub(crate) fn search(nodes: &Graph, start: Position, goal: Position) -> (r: Result<Vec<Position>, AStarError>)
    requires
        nodes.wf(),
        is_open_cell(nodes@, start),
        is_open_cell(nodes@, goal),
        start != goal,
    ensures
        match r {
            Ok(path) => is_path(nodes@, path@, start, goal) && (heuristic_consistent(nodes@, goal)
                ==> is_shortest(nodes@, path@, start, goal)),
            Err(e) => e == AStarError::PathNotFound && !reachable(nodes@, start, goal),
        },
        result_view(r) == run(nodes@, start, goal, initial_records(start, goal), (nodes@.dom().len() + 1) as nat),
{
    let ghost g = nodes@;
    let ghost fuel = (g.dom().len() + 1) as nat;
    let total = nodes.len();
    let mut st = SearchState::new(start, goal, Ghost(g));
    loop
        invariant
            nodes.wf(),
            g == nodes@,
            total == g.dom().len(),
            g.dom().finite(),
            st.inv(g, start, goal),
            st.visited@.subset_of(g.dom()),
            fuel == g.dom().len() + 1,
            st.visited@.len() <= g.dom().len(),
            run(g, start, goal, initial_records(start, goal), fuel) == run(
                g,
                start,
                goal,
                st.records(),
                (fuel - st.visited@.len()) as nat,
            ),
        decreases g.dom().len() - st.visited@.len(),
    {
        proof {
            vstd::set_lib::lemma_len_subset(st.visited@, g.dom());
        }
        let ghost before = st;
        match st.open_set.pop() {
            None => {
                proof {
                    lemma_exhausted(before, g, start, goal);
                }
                return Err(AStarError::PathNotFound);
            },
            Some(entry) => {
                let u = entry.position;
                let ghost i = choose|i: int|
                    0 <= i < before.open_set@.len() && before.open_set@[i] == entry
                        && st.open_set@ == before.open_set@.remove(i) && is_first(
                        entry,
                        before.open_set@,
                    );
                proof {
                    if heuristic_consistent(g, goal) {
                        lemma_taken_is_shortest(before, g, start, goal, i);
                    }
                }
                if same_position(u, goal) {
                    proof {
                        lemma_records_kept(before, st, g, start, goal);
                    }
                    let path = st.reconstruct_path(start, goal, Ghost(g));
                    return Ok(path);
                }
                proof {
                    lemma_records_kept(before, st, g, start, goal);
                }
                st.close(u, Ghost(g), Ghost(start), Ghost(goal));
                proof {
                    assert(st.visited@.subset_of(g.dom()));
                    vstd::set_lib::lemma_len_subset(st.visited@, g.dom());
                    lemma_frontier_after_take(before, st, goal, i);
                    assert forall|w: Position| #[trigger] st.is_closed(w) && w != u implies st.settled(g, w) by {
                        assert(before.is_closed(w));
                        lemma_settled_kept(before, st, g, w);
                    }
                }
                let node = nodes.get(u).unwrap();
                let neighbors = find_neighbors(nodes, node);
                let ghost closed_records = st.records();
                st.expand(u, node, &neighbors, goal, Ghost(g), Ghost(start));
                proof {
                    assert(closed_records == (
                        before.g_score@,
                        before.came_from@,
                        before.closed@.insert(key_of(u)),
                        before.open_set@.remove(pop_index(before.open_set@)),
                    ));
                    assert(st.visited@.len() == before.visited@.len() + 1);
                }
            },
        }
    }
}

} // verus!
