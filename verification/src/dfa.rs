//! The DFA the patterns of a parser are compiled into.

use crate::StateId;
use vstd::prelude::*;

pub mod action;
pub mod bounds;
pub mod builder;
pub mod captures;
pub mod laws;
pub mod model;
pub mod parser;
pub mod plan;
pub mod range;
pub mod table;
pub mod trie;
pub mod walk;

pub use builder::DfaBuilder;
pub use model::{ANY_INPUT, ANY_STATE, Edge, INIT_STATE};
use model::Auto;

verus! {

/// A transition of a DFA: the state it leaves, the input it reads, the state
/// it leads to and the action it carries, if it carries one.
pub type Transition<A> = (StateId, u16, StateId, Option<A>);

/// The DFA the patterns of a parser are compiled into.
///
/// It is injected into the BPF parser program as a table of transitions,
/// indexed by state and input, which is why states are shared between patterns
/// wherever possible. A transition names the action it carries by the index it
/// is held under in a table of its own, so that an action can say more than
/// the 16 bits of a transition have room for.
pub struct Dfa<A> {
    /// The number of states, including [`INIT_STATE`] and [`ANY_STATE`].
    num_states: u16,

    /// The transitions of the DFA, no two of which leave the same state with
    /// the same input.
    transitions: Vec<Transition<A>>,
}

/// The edges a list of transitions spells out.
pub open spec fn edges_of<A>(ts: Seq<Transition<A>>) -> Map<(StateId, u16), Edge<A>>
    decreases ts.len(),
{
    if ts.len() == 0 {
        Map::empty()
    } else {
        let t = ts.last();
        edges_of(ts.drop_last()).insert((t.0, t.1), Edge { to: t.2, action: t.3 })
    }
}

/// Whether no two of the transitions leave the same state with the same input.
pub open spec fn deterministic<A>(ts: Seq<Transition<A>>) -> bool {
    forall|i: int, j: int|
        0 <= i < j < ts.len() ==> (#[trigger] ts[i]).0 != (#[trigger] ts[j]).0 || ts[i].1
            != ts[j].1
}

/// What a list of transitions spells out, each of them once.
pub(crate) proof fn lemma_edges_of<A>(ts: Seq<Transition<A>>)
    requires
        deterministic(ts),
    ensures
        edges_of(ts).dom().finite(),
        edges_of(ts).dom().len() == ts.len(),
        forall|i: int|
            0 <= i < ts.len() ==> edges_of(ts).contains_key(
                ((#[trigger] ts[i]).0, ts[i].1),
            ) && edges_of(ts)[(ts[i].0, ts[i].1)] == (Edge { to: ts[i].2, action: ts[i].3 }),
        forall|from: StateId, input: u16| #[trigger]
            edges_of(ts).contains_key((from, input)) ==> exists|i: int|
                0 <= i < ts.len() && (#[trigger] ts[i]).0 == from && ts[i].1 == input,
    decreases ts.len(),
{
    if ts.len() > 0 {
        let rest = ts.drop_last();
        lemma_edges_of(rest);
        assert forall|from: StateId, input: u16| #[trigger]
            edges_of(ts).contains_key((from, input)) implies exists|i: int|
            0 <= i < ts.len() && (#[trigger] ts[i]).0 == from && ts[i].1 == input by {
            if edges_of(rest).contains_key((from, input)) {
                let i = choose|i: int|
                    0 <= i < rest.len() && (#[trigger] rest[i]).0 == from && rest[i].1 == input;
                assert(ts[i] == rest[i]);
            } else {
                assert(ts[ts.len() - 1] == ts.last());
            }
        }
        assert forall|i: int| 0 <= i < ts.len() implies edges_of(ts).contains_key(
            ((#[trigger] ts[i]).0, ts[i].1),
        ) && edges_of(ts)[(ts[i].0, ts[i].1)] == (Edge { to: ts[i].2, action: ts[i].3 }) by {
            if i < rest.len() {
                assert(rest[i] == ts[i]);
            }
        }
        if edges_of(rest).contains_key((ts.last().0, ts.last().1)) {
            let i = choose|i: int|
                0 <= i < rest.len() && (#[trigger] rest[i]).0 == ts.last().0 && rest[i].1
                    == ts.last().1;
            assert(ts[i] == rest[i]);
            assert(false);
        }
    }
}

proof fn lemma_edges_of_update<A>(ts: Seq<Transition<A>>, i: int, t: Transition<A>)
    requires
        deterministic(ts),
        0 <= i < ts.len(),
        t.0 == ts[i].0,
        t.1 == ts[i].1,
    ensures
        deterministic(ts.update(i, t)),
        edges_of(ts.update(i, t)) == edges_of(ts).insert(
            (t.0, t.1),
            Edge { to: t.2, action: t.3 },
        ),
    decreases ts.len(),
{
    let us = ts.update(i, t);
    assert forall|j: int, k: int| 0 <= j < k < us.len() implies (#[trigger] us[j]).0 != (
    #[trigger] us[k]).0 || us[j].1 != us[k].1 by {
        assert(ts[j].0 != ts[k].0 || ts[j].1 != ts[k].1);
    }
    if i == ts.len() - 1 {
        assert(us.drop_last() =~= ts.drop_last());
    } else {
        lemma_edges_of_update(ts.drop_last(), i, t);
        assert(us.drop_last() =~= ts.drop_last().update(i, t));
        assert(us.last() == ts.last());
        assert(ts[i].0 != ts[ts.len() - 1].0 || ts[i].1 != ts[ts.len() - 1].1);
        let e = Edge { to: t.2, action: t.3 };
        let l = Edge { to: ts.last().2, action: ts.last().3 };
        let m = edges_of(ts.drop_last());
        assert(m.insert((t.0, t.1), e).insert((ts.last().0, ts.last().1), l) =~= m.insert(
            (ts.last().0, ts.last().1),
            l,
        ).insert((t.0, t.1), e));
    }
}

impl<A> View for Dfa<A> {
    type V = Auto<A>;

    closed spec fn view(&self) -> Auto<A> {
        Auto { num_states: self.num_states as int, edges: edges_of(self.transitions@) }
    }
}

impl<A: Copy> Dfa<A> {
    /// Whether the DFA is one: no state has two transitions for an input, and
    /// the states every DFA has are there.
    pub closed spec fn wf(&self) -> bool {
        &&& self.num_states >= 2
        &&& deterministic(self.transitions@)
    }

    /// Creates a DFA that holds nothing but [`INIT_STATE`] and [`ANY_STATE`].
    pub fn new() -> (dfa: Dfa<A>)
        ensures
            dfa.wf(),
            dfa@ == Auto::<A>::fresh(2),
    {
        Dfa::with_reserved_states(2)
    }

    /// Creates a DFA that leaves the first `reserved` state ids to the caller.
    pub fn with_reserved_states(reserved: u16) -> (dfa: Dfa<A>)
        ensures
            dfa.wf(),
            dfa@ == Auto::<A>::fresh(
                if reserved < 2 {
                    2
                } else {
                    reserved as int
                },
            ),
    {
        let num_states = if reserved < 2 {
            2
        } else {
            reserved
        };
        Dfa { num_states, transitions: Vec::new() }
    }

    /// Returns the number of states the DFA has, the reserved ones included.
    pub fn num_states(&self) -> (n: u16)
        ensures
            n == self@.num_states,
    {
        self.num_states
    }

    /// Returns the number of edges the DFA has.
    pub fn num_edges(&self) -> (n: usize)
        requires
            self.wf(),
        ensures
            self@.edges.dom().finite(),
            n == self@.edges.dom().len(),
    {
        proof {
            lemma_edges_of(self.transitions@);
        }
        self.transitions.len()
    }

    /// Returns the position the transition out of `from` that reads `input` is
    /// held at.
    fn position(&self, from: StateId, input: u16) -> (r: Option<usize>)
        requires
            self.wf(),
        ensures
            r is Some <==> self@.has(from, input),
            r matches Some(i) ==> {
                &&& i < self.transitions@.len()
                &&& self.transitions@[i as int].0 == from
                &&& self.transitions@[i as int].1 == input
                &&& self.transitions@[i as int].2 == self@.to(from, input)
                &&& self.transitions@[i as int].3 == self@.action(from, input)
            },
    {
        proof {
            lemma_edges_of(self.transitions@);
        }
        let mut i: usize = 0;
        while i < self.transitions.len()
            invariant
                i <= self.transitions@.len(),
                forall|j: int|
                    0 <= j < i ==> (#[trigger] self.transitions@[j]).0 != from
                        || self.transitions@[j].1 != input,
                forall|j: int|
                    0 <= j < self.transitions@.len() ==> self@.edges.contains_key(
                        ((#[trigger] self.transitions@[j]).0, self.transitions@[j].1),
                    ) && self@.edges[(self.transitions@[j].0, self.transitions@[j].1)] == (Edge {
                        to: self.transitions@[j].2,
                        action: self.transitions@[j].3,
                    }),
            decreases self.transitions@.len() - i,
        {
            if self.transitions[i].0 == from && self.transitions[i].1 == input {
                return Some(i);
            }
            i += 1;
        }
        None
    }

    /// Returns the state the transition out of `from` that reads `input` leads
    /// to, if there is one.
    pub(crate) fn successor(&self, from: StateId, input: u16) -> (r: Option<StateId>)
        requires
            self.wf(),
        ensures
            match r {
                Some(to) => self@.has(from, input) && self@.to(from, input) == to,
                None => !self@.has(from, input),
            },
    {
        match self.position(from, input) {
            Some(i) => Some(self.transitions[i].2),
            None => None,
        }
    }

    /// Returns an unused state id.
    pub(crate) fn new_state(&mut self) -> (id: StateId)
        requires
            old(self).wf(),
            old(self)@.num_states < u16::MAX,
        ensures
            final(self).wf(),
            id == old(self)@.num_states,
            final(self)@ == (Auto { num_states: old(self)@.num_states + 1, ..old(self)@ }),
    {
        let id = self.num_states;
        self.num_states = self.num_states + 1;
        id
    }

    /// Queries the edges to retrieve the next state from given state and
    /// input. Creates a new state if none exists.
    pub(crate) fn next_state(&mut self, from: StateId, input: u16) -> (id: StateId)
        requires
            old(self).wf(),
            !old(self)@.has(from, input) ==> old(self)@.num_states < u16::MAX,
        ensures
            final(self).wf(),
            old(self)@.has(from, input) ==> id == old(self)@.to(from, input) && final(self)@
                == old(self)@,
            !old(self)@.has(from, input) ==> id == old(self)@.num_states && final(self)@ == (Auto {
                num_states: old(self)@.num_states + 1,
                ..old(self)@
            }),
    {
        match self.position(from, input) {
            Some(i) => self.transitions[i].2,
            None => self.new_state(),
        }
    }

    /// Inserts an edge from `from` to `to`, matching `input`.
    ///
    /// `action` is the action the edge carries. Patterns share their
    /// transitions wherever they run alongside each other, so one walking over
    /// a transition another already laid down leaves the action on it alone.
    ///
    /// `from` must not have an edge for `input` yet that leads somewhere else,
    /// as that would make the automaton non-deterministic, or that carries
    /// another action.
    pub fn insert_edge(&mut self, from: StateId, input: u16, to: StateId, action: Option<A>)
        requires
            old(self).wf(),
            old(self)@.accepts(from, input, to, action),
        ensures
            final(self).wf(),
            final(self)@ == old(self)@.insert(from, input, to, action),
    {
        match self.position(from, input) {
            Some(i) => {
                if action.is_some() {
                    proof {
                        lemma_edges_of_update(self.transitions@, i as int, (from, input, to, action));
                    }
                    self.transitions.set(i, (from, input, to, action));
                } else {
                    proof {
                        let k = (from, input);
                        assert(self@.edges.insert(k, self@.edges[k]) =~= self@.edges);
                    }
                }
            },
            None => {
                let ghost before = self.transitions@;
                proof {
                    lemma_edges_of(self.transitions@);
                }
                self.transitions.push((from, input, to, action));
                proof {
                    assert(self.transitions@.drop_last() =~= before);
                    assert forall|i: int, j: int| 0 <= i < j < self.transitions@.len() implies (
                    #[trigger] self.transitions@[i]).0 != (#[trigger] self.transitions@[j]).0
                        || self.transitions@[i].1 != self.transitions@[j].1 by {
                        assert(self.transitions@[i] == before[i]);
                    }
                }
            },
        }
    }

    /// Adds an action to an existing edge, which must not carry another one
    /// yet.
    pub(crate) fn add_action(&mut self, from: StateId, input: u16, action: A)
        requires
            old(self).wf(),
            old(self)@.has(from, input),
            old(self)@.takes_action(from, input, action),
        ensures
            final(self).wf(),
            final(self)@ == old(self)@.set_action(from, input, action),
    {
        if let Some(i) = self.position(from, input) {
            let to = self.transitions[i].2;
            proof {
                lemma_edges_of_update(self.transitions@, i as int, (from, input, to, Some(action)));
            }
            self.transitions.set(i, (from, input, to, Some(action)));
        }
    }

    /// Returns the transitions of the DFA, each with the action it carries.
    pub fn iter_transitions(&self) -> (ts: Vec<Transition<A>>)
        requires
            self.wf(),
        ensures
            deterministic(ts@),
            edges_of(ts@) == self@.edges,
    {
        let mut ts: Vec<Transition<A>> = Vec::new();
        let mut i: usize = 0;
        while i < self.transitions.len()
            invariant
                i <= self.transitions@.len(),
                ts@ == self.transitions@.take(i as int),
            decreases self.transitions@.len() - i,
        {
            ts.push(self.transitions[i]);
            i += 1;
        }
        assert(ts@ =~= self.transitions@);
        ts
    }
}

} // verus!
