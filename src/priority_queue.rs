use vstd::prelude::*;
use crate::node::{same_position, Position};

verus! {

/// An entry of the open set: a position and its priority.
#[derive(Debug, Clone, Copy, PartialEq, Eq)]
pub struct State {
    pub cost: u128,
    pub position: Position,
}

/// `a` is taken out no later than `b`: by lower cost, then by smaller `y`,
/// then by smaller `x`.
pub open spec fn comes_before(a: State, b: State) -> bool {
    ||| a.cost < b.cost
    ||| a.cost == b.cost && a.position.1 < b.position.1
    ||| a.cost == b.cost && a.position.1 == b.position.1 && a.position.0 <= b.position.0
}

/// `s` comes before every entry of `entries`.
pub open spec fn is_first(s: State, entries: Seq<State>) -> bool {
    forall|j: int| 0 <= j < entries.len() ==> comes_before(s, #[trigger] entries[j])
}

/// The first index of `entries` whose entry stands at `p`, if any.
pub open spec fn first_at(entries: Seq<State>, p: Position, i: int) -> bool {
    &&& 0 <= i < entries.len()
    &&& entries[i].position == p
    &&& forall|j: int| 0 <= j < i ==> (#[trigger] entries[j]).position != p
}

pub open spec fn holds_position(entries: Seq<State>, p: Position) -> bool {
    exists|i: int| 0 <= i < entries.len() && (#[trigger] entries[i]).position == p
}

/// The index of the first entry among `entries[0 .. n]` that comes before all
/// the others there.
pub open spec fn first_index_below(entries: Seq<State>, n: int) -> int
    decreases n,
{
    if n <= 1 {
        0
    } else {
        let b = first_index_below(entries, n - 1);
        if comes_before(entries[b], entries[n - 1]) {
            b
        } else {
            n - 1
        }
    }
}

/// The index of the entry that `pop` takes out.
pub open spec fn pop_index(entries: Seq<State>) -> int {
    first_index_below(entries, entries.len() as int)
}

/// The entries after `insert_or_update(s)`.
pub open spec fn with_entry(entries: Seq<State>, s: State) -> Seq<State> {
    if holds_position(entries, s.position) {
        let i = choose|i: int| first_at(entries, s.position, i);
        entries.update(
            i,
            State {
                cost: if s.cost < entries[i].cost {
                    s.cost
                } else {
                    entries[i].cost
                },
                position: s.position,
            },
        )
    } else {
        entries.push(s)
    }
}

proof fn lemma_first_at_unique(entries: Seq<State>, p: Position, i: int, j: int)
    requires
        first_at(entries, p, i),
        first_at(entries, p, j),
    ensures
        i == j,
{
    if i < j {
        assert(entries[i].position != p);
    } else if j < i {
        assert(entries[j].position != p);
    }
}

fn precedes(a: &State, b: &State) -> (r: bool)
    ensures
        r == comes_before(*a, *b),
{
    a.cost < b.cost || (a.cost == b.cost && (a.position.1 < b.position.1 || (a.position.1
        == b.position.1 && a.position.0 <= b.position.0)))
}

/// The open set of a search: entries taken out by lowest cost first, ties
/// going to the smaller `y` and then the smaller `x`. Its view is the
/// sequence of entries in the order they were added.
#[derive(Debug)]
pub struct PriorityQueue {
    entries: Vec<State>,
}

impl View for PriorityQueue {
    type V = Seq<State>;

    closed spec fn view(&self) -> Seq<State> {
        self.entries@
    }
}

impl PriorityQueue {
    /// Creates an empty queue.
    pub fn new() -> (r: PriorityQueue)
        ensures
            r@ == Seq::<State>::empty(),
    {
        PriorityQueue { entries: Vec::new() }
    }

    /// Adds `state` as a new entry.
    pub fn push(&mut self, state: State)
        ensures
            final(self)@ == old(self)@.push(state),
    {
        self.entries.push(state);
    }

    /// Takes out the entry that comes before all others, or returns `None`
    /// when the queue is empty.
    pub fn pop(&mut self) -> (r: Option<State>)
        ensures
            match r {
                None => old(self)@.len() == 0 && final(self)@ == old(self)@,
                Some(s) => {
                    &&& s == old(self)@[pop_index(old(self)@)]
                    &&& final(self)@ == old(self)@.remove(pop_index(old(self)@))
                    &&& is_first(s, old(self)@)
                    &&& exists|i: int|
                        0 <= i < old(self)@.len() && old(self)@[i] == s && final(self)@ == old(
                            self,
                        )@.remove(i)
                },
            },
    {
        if self.entries.len() == 0 {
            return None;
        }
        let mut best: usize = 0;
        let mut i: usize = 1;
        while i < self.entries.len()
            invariant
                0 <= best < i <= self.entries@.len(),
                self.entries@ == old(self).entries@,
                best as int == first_index_below(self.entries@, i as int),
                forall|j: int| 0 <= j < i ==> comes_before(self.entries@[best as int], #[trigger] self.entries@[j]),
            decreases self.entries@.len() - i,
        {
            if !precedes(&self.entries[best], &self.entries[i]) {
                best = i;
            }
            i = i + 1;
        }
        let s = self.entries.remove(best);
        assert(old(self)@[best as int] == s && is_first(s, old(self)@));
        assert(self@ == old(self)@.remove(best as int));
        Some(s)
    }

    /// Adds `state` unless an entry already stands at its position; in that
    /// case the first such entry takes the lower of the two costs.
    pub fn insert_or_update(&mut self, state: State)
        ensures
            final(self)@ == with_entry(old(self)@, state),
            !holds_position(old(self)@, state.position) ==> final(self)@ == old(self)@.push(state),
            holds_position(old(self)@, state.position) ==> exists|i: int|
                first_at(old(self)@, state.position, i) && final(self)@ == old(self)@.update(
                    i,
                    State {
                        cost: if state.cost < old(self)@[i].cost {
                            state.cost
                        } else {
                            old(self)@[i].cost
                        },
                        position: state.position,
                    },
                ),
    {
        let mut i: usize = 0;
        while i < self.entries.len()
            invariant
                i <= self.entries@.len(),
                self.entries@ == old(self).entries@,
                forall|j: int| 0 <= j < i ==> (#[trigger] self.entries@[j]).position != state.position,
            decreases self.entries@.len() - i,
        {
            if same_position(self.entries[i].position, state.position) {
                if state.cost < self.entries[i].cost {
                    self.entries.set(i, state);
                }
                assert(first_at(old(self)@, state.position, i as int));
                proof {
                    let j = choose|j: int| first_at(old(self)@, state.position, j);
                    lemma_first_at_unique(old(self)@, state.position, i as int, j);
                }
                return;
            }
            i = i + 1;
        }
        self.entries.push(state);
    }

    /// Whether the queue holds no entry.
    pub fn is_empty(&self) -> (r: bool)
        ensures
            r == (self@.len() == 0),
    {
        self.entries.len() == 0
    }
}

} // verus!
