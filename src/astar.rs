use vstd::prelude::*;
use crate::graph::Graph;
use crate::node::{same_position, Node, Position};
use crate::route::{heuristic_consistent, is_path, is_shortest, reachable};
use crate::search::{initial_records, run, search};

verus! {

/// Why a search gave no path.
#[derive(Debug, Clone, Copy, PartialEq, Eq, Structural)]
pub enum AStarError {
    /// The start position holds a blocked node.
    StartNodeBlocked,
    /// The goal position holds a blocked node.
    GoalNodeBlocked,
    /// The start or the goal position holds no node.
    NodeNotFound,
    /// Both ends are open but no path joins them.
    PathNotFound,
}

impl AStarError {
    /// A sentence that describes the error.
    pub fn message(&self) -> (r: &'static str)
        ensures
            *self == AStarError::StartNodeBlocked ==> r@ == "The start node is blocked!"@,
            *self == AStarError::GoalNodeBlocked ==> r@ == "The goal node is blocked!"@,
            *self == AStarError::NodeNotFound ==> r@ == "One of the nodes is not found!"@,
            *self == AStarError::PathNotFound ==> r@ == "No path could be found!"@,
    {
        match self {
            AStarError::StartNodeBlocked => "The start node is blocked!",
            AStarError::GoalNodeBlocked => "The goal node is blocked!",
            AStarError::NodeNotFound => "One of the nodes is not found!",
            AStarError::PathNotFound => "No path could be found!",
        }
    }
}

/// What a search from `start` to `goal` over `g` may return.
/// An unknown end gives `NodeNotFound`; then a blocked start gives
/// `StartNodeBlocked`, and a blocked goal `GoalNodeBlocked`. Equal ends give
/// the path of that one position. Otherwise the result is a route from
/// `start` to `goal`, a shortest one where the estimate is consistent, and it
/// is `PathNotFound` exactly when no route exists.
pub open spec fn is_search_outcome(
    g: Map<Position, Node>,
    start: Position,
    goal: Position,
    r: Result<Seq<Position>, AStarError>,
) -> bool {
    if !g.contains_key(start) || !g.contains_key(goal) {
        r == Err::<Seq<Position>, AStarError>(AStarError::NodeNotFound)
    } else if g[start].is_blocked {
        r == Err::<Seq<Position>, AStarError>(AStarError::StartNodeBlocked)
    } else if g[goal].is_blocked {
        r == Err::<Seq<Position>, AStarError>(AStarError::GoalNodeBlocked)
    } else if start == goal {
        r == Ok::<Seq<Position>, AStarError>(seq![start])
    } else {
        match r {
            Ok(path) => is_path(g, path, start, goal) && (heuristic_consistent(g, goal)
                ==> is_shortest(g, path, start, goal)),
            Err(e) => e == AStarError::PathNotFound && !reachable(g, start, goal),
        }
    }
}

/// A search result with the route as a sequence.
pub open spec fn result_view(r: Result<Vec<Position>, AStarError>) -> Result<Seq<Position>, AStarError> {
    match r {
        Ok(v) => Ok(v@),
        Err(e) => Err(e),
    }
}

/// The result of `find_shortest_path(start, goal)` on the graph `g`.
pub open spec fn astar_outcome(g: Map<Position, Node>, start: Position, goal: Position) -> Result<
    Seq<Position>,
    AStarError,
> {
    if !g.contains_key(start) || !g.contains_key(goal) {
        Err(AStarError::NodeNotFound)
    } else if g[start].is_blocked {
        Err(AStarError::StartNodeBlocked)
    } else if g[goal].is_blocked {
        Err(AStarError::GoalNodeBlocked)
    } else if start == goal {
        Ok(seq![start])
    } else {
        run(g, start, goal, initial_records(start, goal), (g.dom().len() + 1) as nat)
    }
}

/// Searching twice with the same ends over the same graph gives the same
/// result: `find_shortest_path` returns `astar_outcome` of its graph and
/// ends, and leaves the graph as it was.
pub proof fn lemma_search_deterministic(
    g: Map<Position, Node>,
    start: Position,
    goal: Position,
    r1: Result<Seq<Position>, AStarError>,
    r2: Result<Seq<Position>, AStarError>,
)
    requires
        r1 == astar_outcome(g, start, goal),
        r2 == astar_outcome(g, start, goal),
    ensures
        r1 == r2,
{
}

/// The A* search over a graph of nodes.
pub struct AStar {
    nodes: Graph,
}

impl View for AStar {
    type V = Map<Position, Node>;

    closed spec fn view(&self) -> Map<Position, Node> {
        self.nodes@
    }
}

impl AStar {
    /// The graph is well formed; every `AStar` that `new` builds is.
    pub closed spec fn wf(&self) -> bool {
        self.nodes.wf()
    }

    /// Creates a search over `nodes`.
    pub fn new(nodes: Graph) -> (r: AStar)
        requires
            nodes.wf(),
        ensures
            r.wf(),
            r@ == nodes@,
    {
        AStar { nodes }
    }

    /// Finds a route from `start` to `goal`: each consecutive pair of the
    /// result is joined by an edge into an open cell. Where the Manhattan
    /// estimate is consistent with the graph's steps (as on the default grid
    /// edges), the route is a shortest one. The graph is left as it was.
    pub fn find_shortest_path(&mut self, start: Position, goal: Position) -> (r: Result<
        Vec<Position>,
        AStarError,
    >)
        requires
            old(self).wf(),
        ensures
            final(self).wf(),
            final(self)@ == old(self)@,
            is_search_outcome(old(self)@, start, goal, result_view(r)),
            result_view(r) == astar_outcome(old(self)@, start, goal),
    {
        let (start_node, goal_node) = (self.nodes.get(start), self.nodes.get(goal));
        match (start_node, goal_node) {
            (Some(s), Some(t)) => {
                if s.is_blocked {
                    Err(AStarError::StartNodeBlocked)
                } else if t.is_blocked {
                    Err(AStarError::GoalNodeBlocked)
                } else if same_position(start, goal) {
                    let r = vec![start];
                    assert(r@ == seq![start]);
                    Ok(r)
                } else {
                    search(&self.nodes, start, goal)
                }
            },
            _ => Err(AStarError::NodeNotFound),
        }
    }
}

} // verus!
