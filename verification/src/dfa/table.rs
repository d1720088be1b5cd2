//! The tables a DFA is injected into a parser program as.
//!
//! A parser program holds a table of transitions, a row for every state and a
//! column for every input, and a table of actions. A transition names its
//! action by the index it is held under, and index 0 stands for doing nothing.

use super::action::Comparable;
use super::model::{Auto, Edge};
use super::{deterministic, edges_of, lemma_edges_of, Dfa, Transition};
use crate::text::format_decimal;
use crate::text::decimal;
use crate::StateId;
use vstd::prelude::*;
use vstd::string::*;

verus! {

/// The room the tables of a parser program have.
#[derive(Clone, Copy, Debug, PartialEq, Eq, Structural)]
pub struct Limits {
    /// The number of rows of the table of transitions.
    pub states: usize,

    /// The number of columns of the table of transitions.
    pub inputs: usize,

    /// The number of actions, the one that does nothing included.
    pub actions: usize,
}

/// Why a DFA does not fit into the tables of a parser program.
#[derive(Clone, Copy, Debug, PartialEq, Eq, Structural)]
pub enum TableError {
    /// The patterns take more states than the parser program holds.
    States { needed: usize, held: usize },

    /// The patterns take more actions than the parser program holds.
    Actions { held: usize },

    /// The patterns read an input the parser program has no column for.
    Input(usize),
}

impl TableError {
    /// The sentence that says what does not fit.
    pub open spec fn message(self) -> Seq<char> {
        match self {
            TableError::States { needed, held } => "the patterns take "@ + decimal(needed as nat)
                + " states, the parser holds "@ + decimal(held as nat),
            TableError::Actions { held } => "the patterns take more actions than the "@ + decimal(
                held as nat,
            ) + " the parser holds"@,
            TableError::Input(input) => "the patterns read inputs the parser has no column for: "@
                + decimal(input as nat),
        }
    }

    /// Returns the sentence that says what does not fit.
    pub fn to_string(&self) -> (r: String)
        ensures
            r@ == self.message(),
    {
        match self {
            TableError::States { needed, held } => {
                let mut s = "the patterns take ".to_owned();
                s.append(format_decimal(*needed).as_str());
                s.append(" states, the parser holds ");
                s.append(format_decimal(*held).as_str());
                s
            },
            TableError::Actions { held } => {
                let mut s = "the patterns take more actions than the ".to_owned();
                s.append(format_decimal(*held).as_str());
                s.append(" the parser holds");
                s
            },
            TableError::Input(input) => {
                let mut s = "the patterns read inputs the parser has no column for: ".to_owned();
                s.append(format_decimal(*input).as_str());
                s
            },
        }
    }
}

/// A cell of the table of transitions: the row and the column it is in, the
/// state it leads to and the index of the action it carries.
pub type Cell = (StateId, u16, StateId, u16);

/// What to write into the tables of a parser program.
pub struct Tables<A> {
    /// The cells of the table of transitions that are not empty.
    pub cells: Vec<Cell>,

    /// The actions, the first of which is held under index 1.
    pub actions: Vec<A>,
}

/// The action held under an index.
pub open spec fn action_at<A>(actions: Seq<A>, index: u16) -> Option<A> {
    if index == 0 {
        None
    } else {
        Some(actions[index - 1])
    }
}

/// The transitions the cells stand for.
pub open spec fn read_cells<A>(cells: Seq<Cell>, actions: Seq<A>) -> Seq<Transition<A>> {
    cells.map_values(|c: Cell| (c.0, c.1, c.2, action_at(actions, c.3)))
}

/// The actions the transitions of an automaton carry.
pub open spec fn actions_of<A>(auto: Auto<A>) -> Set<A> {
    Set::new(
        |a: A|
            exists|from: StateId, input: u16| #[trigger]
                auto.has(from, input) && auto.action(from, input) == Some(a),
    )
}

impl<A> Auto<A> {
    /// Whether the table of actions has room for the actions of the automaton.
    pub open spec fn actions_fit(self, limit: int) -> bool {
        self.edges.dom() =~= Set::empty() || actions_of(self).len() < limit
    }

    /// Whether the table of transitions has a column for every input.
    pub open spec fn inputs_fit(self, limit: int) -> bool {
        forall|from: StateId, input: u16| #[trigger] self.has(from, input) ==> input < limit
    }

    /// Whether `err` says truly why the automaton does not fit. The states are counted
    /// first; if there are both too many actions and inputs without a column,
    /// it may name either.
    pub open spec fn refused_with(self, limits: Limits, err: TableError) -> bool {
        match err {
            TableError::States { needed, held } => {
                &&& needed == self.num_states
                &&& held == limits.states
                &&& needed > held
            },
            TableError::Actions { held } => {
                &&& self.num_states <= limits.states
                &&& !self.actions_fit(limits.actions as int)
                &&& held == limits.actions
            },
            TableError::Input(input) => {
                &&& self.num_states <= limits.states
                &&& limits.inputs <= input <= u16::MAX
                &&& exists|from: StateId| #[trigger] self.has(from, input as u16)
            },
        }
    }

    /// Whether every transition leaves a state of the automaton.
    pub open spec fn rows_in_bounds(self) -> bool {
        forall|from: StateId, input: u16| #[trigger]
            self.has(from, input) ==> from < self.num_states
    }
}

impl<A> Tables<A> {
    /// The transitions a parser program reads out of the tables.
    pub open spec fn edges(&self) -> Map<(StateId, u16), Edge<A>> {
        edges_of(read_cells(self.cells@, self.actions@))
    }

    /// Whether the tables can be written into a parser program: every cell is in
    /// a row and a column it has and names an action it holds, and no cell and
    /// no action is written twice.
    pub open spec fn fits(&self, limits: Limits) -> bool {
        &&& self.cells@.len() > 0 ==> self.actions@.len() < limits.actions
        &&& self.actions@.no_duplicates()
        &&& forall|i: int|
            0 <= i < self.cells@.len() ==> {
                &&& (#[trigger] self.cells@[i]).0 < limits.states
                &&& self.cells@[i].1 < limits.inputs
                &&& self.cells@[i].3 <= self.actions@.len()
            }
        &&& deterministic(read_cells(self.cells@, self.actions@))
    }
}

/// A parser program finds every transition in the cell of the row of the state it
/// leaves and the column of the input it reads. The cell says the state the
/// transition leads to, and how many actions of the table there are up to the one
/// it carries, or 0 if it carries none. There are no other cells.
pub proof fn law_cells_are_the_transitions<A>(
    tables: Tables<A>,
    limits: Limits,
    from: StateId,
    input: u16,
)
    requires
        tables.fits(limits),
    ensures
        tables.edges().contains_key((from, input)) <==> exists|i: int|
            0 <= i < tables.cells@.len() && (#[trigger] tables.cells@[i]).0 == from
                && tables.cells@[i].1 == input,
        forall|i: int|
            0 <= i < tables.cells@.len() && (#[trigger] tables.cells@[i]).0 == from
                && tables.cells@[i].1 == input ==> {
                let edge = tables.edges()[(from, input)];
                let n = tables.cells@[i].3;
                &&& edge.to == tables.cells@[i].2
                &&& edge.action is None <==> n == 0
                &&& edge.action matches Some(action) ==> {
                    &&& 1 <= n <= tables.actions@.len()
                    &&& tables.actions@.take(n as int).last() == action
                }
            },
{
    let ts = read_cells(tables.cells@, tables.actions@);
    lemma_edges_of(ts);
    assert forall|i: int|
        0 <= i < tables.cells@.len() && (#[trigger] tables.cells@[i]).0 == from
            && tables.cells@[i].1 == input implies {
        let edge = tables.edges()[(from, input)];
        let n = tables.cells@[i].3;
        &&& tables.edges().contains_key((from, input))
        &&& edge.to == tables.cells@[i].2
        &&& edge.action is None <==> n == 0
        &&& edge.action matches Some(action) ==> {
            &&& 1 <= n <= tables.actions@.len()
            &&& tables.actions@.take(n as int).last() == action
        }
    } by {
        assert(ts[i].0 == from && ts[i].1 == input);
    }
    if tables.edges().contains_key((from, input)) {
        let i = choose|i: int|
            0 <= i < ts.len() && (#[trigger] ts[i]).0 == from && ts[i].1 == input;
        assert(tables.cells@[i].0 == from && tables.cells@[i].1 == input);
    }
}

/// The tables hold an automaton if and only if there is a row for every state, a
/// column for every input and an index for every action besides 0, which is kept
/// for there being none.
pub proof fn law_action_indices_suffice<A>(auto: Auto<A>, limit: int, actions: Seq<A>)
    requires
        !(auto.edges.dom() =~= Set::empty()),
        actions.no_duplicates(),
        forall|a: A|
            actions.contains(a) <==> exists|from: StateId, input: u16| #[trigger]
                auto.has(from, input) && auto.action(from, input) == Some(a),
    ensures
        auto.actions_fit(limit) <==> actions.len() + 1 <= limit,
{
    actions.unique_seq_to_set();
    assert(actions.to_set() =~= actions_of(auto)) by {
        assert forall|a: A| actions.to_set().contains(a) <==> actions_of(auto).contains(a) by {
            assert(actions.contains(a) <==> actions.to_set().contains(a));
        }
    }
}

/// The actions of the first `n` of the transitions.
spec fn first_actions<A>(ts: Seq<Transition<A>>, n: int) -> Set<A> {
    Set::new(|a: A| exists|i: int| 0 <= i < n && (#[trigger] ts[i]).3 == Some(a))
}

/// The actions of some of the transitions are no more than those of all of
/// them.
proof fn lemma_first_actions<A>(
    auto: Auto<A>,
    ts: Seq<Transition<A>>,
    n: int,
    actions: Seq<A>,
)
    requires
        deterministic(ts),
        edges_of(ts) == auto.edges,
        0 <= n <= ts.len(),
        actions.no_duplicates(),
        actions.to_set() == first_actions(ts, n),
    ensures
        actions_of(auto).finite(),
        actions.len() <= actions_of(auto).len(),
        n == ts.len() ==> actions.len() == actions_of(auto).len(),
{
    lemma_edges_of(ts);
    actions.unique_seq_to_set();
    let all = first_actions(ts, ts.len() as int);
    assert(actions_of(auto) =~= all) by {
        assert forall|a: A| actions_of(auto).contains(a) implies all.contains(a) by {
            let (from, input) = choose|from: StateId, input: u16| #[trigger]
                auto.has(from, input) && auto.action(from, input) == Some(a);
            assert(edges_of(ts).contains_key((from, input)));
            let i = choose|i: int|
                0 <= i < ts.len() && (#[trigger] ts[i]).0 == from && ts[i].1 == input;
            assert(ts[i].3 == Some(a));
        }
        assert forall|a: A| all.contains(a) implies actions_of(auto).contains(a) by {
            let i = choose|i: int| 0 <= i < ts.len() && (#[trigger] ts[i]).3 == Some(a);
            assert(auto.has(ts[i].0, ts[i].1));
        }
    }
    lemma_actions_finite(ts, ts.len() as int);
    assert(first_actions(ts, n).subset_of(all));
    vstd::set_lib::lemma_len_subset(first_actions(ts, n), all);
}

proof fn lemma_actions_finite<A>(ts: Seq<Transition<A>>, n: int)
    requires
        0 <= n <= ts.len(),
    ensures
        first_actions(ts, n).finite(),
    decreases n,
{
    if n == 0 {
        assert(first_actions(ts, n) =~= Set::empty());
    } else {
        lemma_actions_finite(ts, n - 1);
        match ts[n - 1].3 {
            Some(a) => {
                assert(first_actions(ts, n) =~= first_actions(ts, n - 1).insert(a)) by {
                    assert forall|b: A| first_actions(ts, n).contains(b) implies first_actions(
                        ts,
                        n - 1,
                    ).insert(a).contains(b) by {
                        let i = choose|i: int| 0 <= i < n && (#[trigger] ts[i]).3 == Some(b);
                        if i < n - 1 {
                            assert(ts[i].3 == Some(b));
                        }
                    }
                    assert(ts[n - 1].3 == Some(a));
                }
            },
            None => {
                assert(first_actions(ts, n) =~= first_actions(ts, n - 1));
            },
        }
    }
}

/// Returns the position of `action` in `actions`.
fn position_of<A: Comparable>(actions: &Vec<A>, action: &A) -> (r: Option<usize>)
    ensures
        match r {
            Some(i) => i < actions@.len() && actions@[i as int] == *action,
            None => !actions@.contains(*action),
        },
{
    let mut i: usize = 0;
    while i < actions.len()
        invariant
            i <= actions@.len(),
            forall|j: int| 0 <= j < i ==> actions@[j] != *action,
        decreases actions@.len() - i,
    {
        if actions[i].same(action) {
            return Some(i);
        }
        i += 1;
    }
    None
}

impl<A: Comparable> Dfa<A> {
    /// Returns what to write into the tables of a parser program that have the
    /// room `limits` says, so that it walks the DFA.
    ///
    /// # Errors
    ///
    /// Returns an error if the tables do not have the room.
    pub fn inject(&self, limits: Limits) -> (r: Result<Tables<A>, TableError>)
        requires
            self.wf(),
            self@.rows_in_bounds(),
            limits.actions <= 0x10000,
        ensures
            r is Ok <==> {
                &&& self@.num_states <= limits.states
                &&& self@.actions_fit(limits.actions as int)
                &&& self@.inputs_fit(limits.inputs as int)
            },
            match r {
                Ok(tables) => tables.fits(limits) && tables.edges() == self@.edges,
                Err(err) => self@.refused_with(limits, err),
            },
    {
        let num_states = self.num_states() as usize;
        if num_states > limits.states {
            return Err(TableError::States { needed: num_states, held: limits.states });
        }
        let ts = self.iter_transitions();
        proof {
            lemma_edges_of(ts@);
        }

        // action index 0 is reserved for the noop action
        let mut actions: Vec<A> = Vec::new();
        let mut cells: Vec<Cell> = Vec::new();
        let mut i: usize = 0;
        assert(actions@.to_set() =~= first_actions(ts@, 0));
        while i < ts.len()
            invariant
                self.wf(),
                self@.rows_in_bounds(),
                limits.actions <= 0x10000,
                self@.num_states <= limits.states,
                deterministic(ts@),
                edges_of(ts@) == self@.edges,
                i <= ts@.len(),
                forall|j: int|
                    0 <= j < ts@.len() ==> self@.edges.contains_key(
                        ((#[trigger] ts@[j]).0, ts@[j].1),
                    ),
                i > 0 ==> actions@.len() < limits.actions,
                i == 0 ==> actions@.len() == 0,
                actions@.no_duplicates(),
                actions@.to_set() == first_actions(ts@, i as int),
                cells@.len() == i,
                forall|j: int|
                    0 <= j < i ==> {
                        &&& (#[trigger] cells@[j]).0 == ts@[j].0
                        &&& cells@[j].1 == ts@[j].1
                        &&& cells@[j].2 == ts@[j].2
                        &&& cells@[j].3 <= actions@.len()
                        &&& action_at(actions@, cells@[j].3) == ts@[j].3
                        &&& cells@[j].0 < limits.states
                        &&& cells@[j].1 < limits.inputs
                    },
            decreases ts@.len() - i,
        {
            let (from, input, to, action) = ts[i];
            let ghost before = actions@;
            assert(self@.has(ts@[i as int].0, ts@[i as int].1));
            let index: usize = match &action {
                None => 0,
                Some(action) => match position_of(&actions, action) {
                    Some(k) => k + 1,
                    None => {
                        actions.push(*action);
                        actions.len()
                    },
                },
            };
            proof {
                lemma_push_action(ts@, i as int, before, actions@);
                lemma_first_actions(self@, ts@, i + 1, actions@);
            }
            if index >= limits.actions {
                return Err(TableError::Actions { held: limits.actions });
            }
            if input as usize >= limits.inputs {
                assert(self@.has(from, (input as usize) as u16));
                return Err(TableError::Input(input as usize));
            }
            cells.push((from, input, to, index as u16));
            i += 1;
        }
        proof {
            lemma_first_actions(self@, ts@, ts@.len() as int, actions@);
            assert(read_cells(cells@, actions@) =~= ts@);
            if ts@.len() == 0 {
                assert(self@.edges.dom() =~= Set::empty());
            }
            assert forall|from: StateId, input: u16| #[trigger]
                self@.has(from, input) implies input < limits.inputs by {
                assert(edges_of(ts@).contains_key((from, input)));
                let j = choose|j: int|
                    0 <= j < ts@.len() && (#[trigger] ts@[j]).0 == from && ts@[j].1 == input;
                assert(cells@[j].1 == ts@[j].1);
            }
        }
        Ok(Tables { cells, actions })
    }
}

/// What one more transition adds to the actions.
proof fn lemma_push_action<A>(ts: Seq<Transition<A>>, i: int, before: Seq<A>, after: Seq<A>)
    requires
        0 <= i < ts.len(),
        before.no_duplicates(),
        before.to_set() == first_actions(ts, i),
        match ts[i].3 {
            None => after == before,
            Some(a) => if before.contains(a) {
                after == before
            } else {
                after == before.push(a)
            },
        },
    ensures
        after.no_duplicates(),
        after.to_set() == first_actions(ts, i + 1),
{
    assert forall|b: A| first_actions(ts, i + 1).contains(b) <==> first_actions(ts, i).contains(b)
        || ts[i].3 == Some(b) by {
        if first_actions(ts, i + 1).contains(b) {
            let j = choose|j: int| 0 <= j < i + 1 && (#[trigger] ts[j]).3 == Some(b);
            if j < i {
                assert(ts[j].3 == Some(b));
            }
        }
        if first_actions(ts, i).contains(b) {
            let j = choose|j: int| 0 <= j < i && (#[trigger] ts[j]).3 == Some(b);
            assert(ts[j].3 == Some(b));
        }
    }
    assert forall|b: A| #[trigger] after.to_set().contains(b) <==> first_actions(
        ts,
        i + 1,
    ).contains(b) by {
        assert(before.to_set().contains(b) <==> before.contains(b));
        match ts[i].3 {
            Some(a) => {
                if !before.contains(a) {
                    if before.contains(b) {
                        let k = choose|k: int| 0 <= k < before.len() && before[k] == b;
                        assert(after[k] == b);
                    }
                    if after.contains(b) {
                        let k = choose|k: int| 0 <= k < after.len() && after[k] == b;
                        if k < before.len() {
                            assert(before[k] == b);
                        }
                    }
                    assert(after[before.len() as int] == a);
                }
            },
            None => {},
        }
    }
    assert(after.to_set() =~= first_actions(ts, i + 1));
}

} // verus!
