//! Builds patterns into a [`Dfa`].

use super::model::{
    longest_of, lower, other_case, upper, Auto, Draft, Edge, ANY_INPUT, ANY_STATE,
};
use super::range::{limits, Bound};
use super::{deterministic, edges_of, lemma_edges_of, Dfa};
use crate::text::{clone_bytes_of, same_bytes};
use crate::StateId;
use vstd::prelude::*;
use vstd::string::*;

verus! {

/// Builds a single pattern into a [`Dfa`].
///
/// The builder walks the DFA from the state the pattern is anchored at,
/// inserting states and edges as it goes. Patterns share their states, so
/// pushing an input another pattern already pushed reuses its state instead of
/// creating a new one.
pub struct DfaBuilder<'a, A> {
    /// The DFA the pattern is built into.
    pub dfa: &'a mut Dfa<A>,

    /// How far it has been built.
    pub progress: Progress,
}

/// How far a pattern has been built.
pub struct Progress {
    /// The state the pattern has been built up to.
    state: StateId,

    /// The states the pattern may be left from as well, because what leads
    /// from them to the state the pattern has been built up to may be skipped.
    skipped: Vec<StateId>,

    /// Strings that may appear before the next input. They are only built into
    /// the DFA once that input is known, as each of them has to lead back to
    /// the state it branched off of.
    optional_prefixes: Vec<(Vec<u8>, bool)>,
}

impl<A> Draft<A> {
    /// Whether `later` fits only if `self` did, and then has all of its
    /// transitions, with the actions on them.
    pub open spec fn grows_into(self, later: Draft<A>) -> bool {
        later.fits ==> {
            &&& self.fits
            &&& self.auto.kept_by(later.auto)
            &&& self.auto.actions_kept_by(later.auto)
        }
    }

    pub(crate) proof fn lemma_edge(self, from: StateId, input: u16, to: Option<StateId>, case_sensitive: bool)
        ensures
            ({
                let e = self.edge(from, input, to, case_sensitive);
                &&& self.grows_into(e)
                &&& e.auto.has(from, input)
                &&& e.fits ==> e.auto.to(from, input) == self.target(from, input, to)
            }),
    {
    }

    pub(crate) proof fn lemma_detour(
        self,
        home: StateId,
        from: StateId,
        input: Seq<u8>,
        case_sensitive: bool,
    )
        ensures
            ({
                let e = self.detour(home, from, input, case_sensitive);
                &&& self.grows_into(e)
                &&& e.state == self.state
                &&& e.skipped == self.skipped
                &&& e.optional == self.optional
            }),
        decreases input.len(),
    {
        if input.len() > 0 {
            let b = input[0] as u16;
            if input.len() == 1 {
                self.lemma_edge(from, b, Some(home), case_sensitive);
            } else {
                self.lemma_edge(from, b, None, case_sensitive);
                self.edge(from, b, None, case_sensitive).lemma_detour(
                    home,
                    self.target(from, b, None),
                    input.drop_first(),
                    case_sensitive,
                );
            }
        }
    }

    pub(crate) proof fn lemma_detours(self, n: nat, input: Seq<u8>, case_sensitive: bool)
        ensures
            ({
                let e = self.detours(n, input, case_sensitive);
                &&& self.grows_into(e)
                &&& e.state == self.state
                &&& e.skipped == self.skipped
                &&& e.optional == self.optional
            }),
        decreases n,
    {
        if n == 0 {
            self.lemma_detour(self.state, self.state, input, case_sensitive);
        } else {
            let home = self.skipped[n - 1];
            self.lemma_detours((n - 1) as nat, input, case_sensitive);
            self.detours((n - 1) as nat, input, case_sensitive).lemma_detour(
                home,
                home,
                input,
                case_sensitive,
            );
        }
    }

    /// What fits with the detours of more states fitted with those of fewer.
    pub(crate) proof fn lemma_detours_less(self, m: nat, n: nat, input: Seq<u8>, case_sensitive: bool)
        requires
            m <= n,
        ensures
            self.detours(m, input, case_sensitive).grows_into(
                self.detours(n, input, case_sensitive),
            ),
        decreases n,
    {
        if m < n {
            self.lemma_detours_less(m, (n - 1) as nat, input, case_sensitive);
            self.detours((n - 1) as nat, input, case_sensitive).lemma_detour(
                self.skipped[n - 1],
                self.skipped[n - 1],
                input,
                case_sensitive,
            );
        }
    }

    pub(crate) proof fn lemma_lay(self, n: nat)
        ensures
            ({
                let e = self.lay(n);
                &&& self.grows_into(e)
                &&& e.state == self.state
                &&& e.skipped == self.skipped
                &&& e.optional == self.optional
            }),
        decreases n,
    {
        if n > 0 {
            let (input, case_sensitive) = self.optional[n - 1];
            self.lemma_detours(self.skipped.len(), input, case_sensitive);
            self.detours(self.skipped.len(), input, case_sensitive).lemma_lay((n - 1) as nat);
        }
    }

    /// Building in the optional strings keeps what was built before.
    pub proof fn lemma_settle(self)
        ensures
            ({
                let e = self.settle();
                &&& self.grows_into(e)
                &&& e.state == self.state
                &&& e.skipped == self.skipped
                &&& e.optional.len() == 0
                &&& self.optional.len() == 0 ==> e == self
            }),
    {
        self.lemma_lay(self.optional.len());
        let l = self.lay(self.optional.len());
        let e = self.settle();
        if self.optional.len() == 0 {
            assert(e =~= self);
        }
    }

    pub(crate) proof fn lemma_join(self, n: nat, input: u16, to: StateId, case_sensitive: bool)
        ensures
            ({
                let e = self.join(n, input, to, case_sensitive);
                &&& self.grows_into(e)
                &&& e.state == self.state
                &&& e.skipped == self.skipped
                &&& e.optional == self.optional
            }),
        decreases n,
    {
        if n > 0 {
            let from = self.skipped[n - 1];
            self.lemma_join((n - 1) as nat, input, to, case_sensitive);
            let before = self.join((n - 1) as nat, input, to, case_sensitive);
            before.lemma_edge(from, input, Some(to), case_sensitive);
            let e = before.edge(from, input, Some(to), case_sensitive);
            let r = self.join(n, input, to, case_sensitive);
        }
    }

    proof fn lemma_join_less(self, m: nat, n: nat, input: u16, to: StateId, case_sensitive: bool)
        requires
            m <= n,
        ensures
            self.join(m, input, to, case_sensitive).grows_into(
                self.join(n, input, to, case_sensitive),
            ),
        decreases n,
    {
        if m < n {
            self.lemma_join_less(m, (n - 1) as nat, input, to, case_sensitive);
            self.join((n - 1) as nat, input, to, case_sensitive).lemma_edge(
                self.skipped[n - 1],
                input,
                Some(to),
                case_sensitive,
            );
        }
    }

    /// One more input keeps what was built before.
    pub proof fn lemma_step(self, input: u16, to: Option<StateId>, case_sensitive: bool)
        ensures
            ({
                let e = self.step(input, to, case_sensitive);
                &&& self.grows_into(e)
                &&& self.settle().grows_into(e)
                &&& self.settle().edge(self.state, input, to, case_sensitive).grows_into(e)
                &&& e.fits ==> e.auto.has(self.state, input) && e.auto.to(self.state, input)
                    == e.state
                &&& e.skipped.len() == 0
                &&& e.optional.len() == 0
            }),
    {
        self.lemma_settle();
        let d = self.settle();
        d.lemma_edge(d.state, input, to, case_sensitive);
        let target = d.target(d.state, input, to);
        let e = d.edge(d.state, input, to, case_sensitive);
        e.lemma_join(e.skipped.len(), input, target, case_sensitive);
    }

    /// Pushing a string keeps what was built before.
    pub proof fn lemma_steps(self, input: Seq<u8>, end: Option<StateId>, case_sensitive: bool)
        ensures
            ({
                let e = self.steps(input, end, case_sensitive);
                &&& self.grows_into(e)
                &&& input.len() > 0 ==> {
                    &&& e.skipped.len() == 0
                    &&& e.optional.len() == 0
                    &&& end matches Some(s) ==> e.state == s
                }
            }),
        decreases input.len(),
    {
        if input.len() > 0 {
            let to = if input.len() == 1 {
                end
            } else {
                None
            };
            self.lemma_step(input[0] as u16, to, case_sensitive);
            self.step(input[0] as u16, to, case_sensitive).lemma_steps(
                input.drop_first(),
                end,
                case_sensitive,
            );
        }
    }

    proof fn lemma_any_steps(self, n: nat)
        ensures
            ({
                let e = self.any_steps(n);
                &&& self.grows_into(e)
            }),
        decreases n,
    {
        if n > 0 {
            self.lemma_any_steps((n - 1) as nat);
            self.any_steps((n - 1) as nat).lemma_step(ANY_INPUT, None, true);
        }
    }

    proof fn lemma_any_steps_less(self, m: nat, n: nat)
        requires
            m <= n,
        ensures
            self.any_steps(m).grows_into(self.any_steps(n)),
        decreases n,
    {
        if m < n {
            self.lemma_any_steps_less(m, (n - 1) as nat);
            self.any_steps((n - 1) as nat).lemma_step(ANY_INPUT, None, true);
        }
    }

    pub(crate) proof fn lemma_any_or_none(self)
        ensures
            ({
                let e = self.any_or_none();
                &&& self.grows_into(e)
            }),
    {
        self.lemma_settle();
        let d = self.settle();
        d.lemma_edge(d.state, ANY_INPUT, None, true);
        let g = d.edge(d.state, ANY_INPUT, None, true);
        let e = self.any_or_none();
    }

    pub(crate) proof fn lemma_any_or_nones(self, n: nat)
        ensures
            ({
                let e = self.any_or_nones(n);
                &&& self.grows_into(e)
            }),
        decreases n,
    {
        if n > 0 {
            self.lemma_any_or_nones((n - 1) as nat);
            self.any_or_nones((n - 1) as nat).lemma_any_or_none();
        }
    }

    proof fn lemma_any_or_nones_less(self, m: nat, n: nat)
        requires
            m <= n,
        ensures
            self.any_or_nones(m).grows_into(self.any_or_nones(n)),
        decreases n,
    {
        if m < n {
            self.lemma_any_or_nones_less(m, (n - 1) as nat);
            self.any_or_nones((n - 1) as nat).lemma_any_or_none();
        }
    }

    /// Pushing bytes of any value keeps what was built before.
    pub proof fn lemma_any(self, min: nat, max: Option<nat>)
        ensures
            ({
                let e = self.any(min, max);
                &&& self.grows_into(e)
            }),
    {
        self.lemma_any_steps(min);
        let d = self.any_steps(min);
        match max {
            Some(max) => {
                d.lemma_any_or_nones((max - min) as nat);
            },
            None => {
                d.lemma_edge(d.state, ANY_INPUT, Some(d.state), true);
                let g = d.edge(d.state, ANY_INPUT, Some(d.state), true);
                let e = self.any(min, max);
            },
        }
    }

    /// Pushing one of several strings keeps what was built before.
    pub(crate) proof fn lemma_branches(
        self,
        start: Draft<A>,
        longest: Seq<u8>,
        inputs: Seq<Seq<u8>>,
        n: nat,
        case_sensitive: bool,
    )
        ensures
            ({
                let e = self.branches(start, longest, inputs, n, case_sensitive);
                &&& self.grows_into(e)
                &&& e.fits ==> e.state == self.state
            }),
        decreases n,
    {
        if n > 0 {
            self.lemma_branches(start, longest, inputs, (n - 1) as nat, case_sensitive);
            let d = self.branches(start, longest, inputs, (n - 1) as nat, case_sensitive);
            let input = inputs[n - 1];
            if input != longest {
                let back = Draft {
                    state: start.state,
                    skipped: start.skipped,
                    fits: d.fits && input.len() > 0,
                    ..d
                };
                back.lemma_steps(input, Some(d.state), case_sensitive);
                let e = back.steps(input, Some(d.state), case_sensitive);
                let r = self.branches(start, longest, inputs, n, case_sensitive);
            }
        }
    }

    pub(crate) proof fn lemma_branches_less(
        self,
        start: Draft<A>,
        longest: Seq<u8>,
        inputs: Seq<Seq<u8>>,
        m: nat,
        n: nat,
        case_sensitive: bool,
    )
        requires
            m <= n,
        ensures
            self.branches(start, longest, inputs, m, case_sensitive).grows_into(
                self.branches(start, longest, inputs, n, case_sensitive),
            ),
        decreases n,
    {
        if m < n {
            self.lemma_branches_less(start, longest, inputs, m, (n - 1) as nat, case_sensitive);
            let d = self.branches(start, longest, inputs, (n - 1) as nat, case_sensitive);
            let input = inputs[n - 1];
            if input != longest {
                let back = Draft {
                    state: start.state,
                    skipped: start.skipped,
                    fits: d.fits && input.len() > 0,
                    ..d
                };
                back.lemma_steps(input, Some(d.state), case_sensitive);
            }
        }
    }

    /// Pushing one of several strings keeps what was built before.
    pub proof fn lemma_choice(self, inputs: Seq<Seq<u8>>, case_sensitive: bool)
        ensures
            ({
                let e = self.choice(inputs, case_sensitive);
                &&& self.grows_into(e)
            }),
    {
        if inputs.len() > 0 {
            let longest = inputs[longest_of(inputs, inputs.len())];
            self.lemma_steps(longest, None, case_sensitive);
            self.steps(longest, None, case_sensitive).lemma_branches(
                self,
                longest,
                inputs,
                inputs.len(),
                case_sensitive,
            );
        }
    }

    pub(crate) proof fn lemma_lead(self, from: StateId, input: Seq<u8>)
        ensures
            ({
                let e = self.lead(from, input);
                &&& self.grows_into(e)
                &&& e.state == self.state
                &&& e.skipped == self.skipped
                &&& e.optional == self.optional
            }),
        decreases input.len(),
    {
        if input.len() > 0 {
            let b = input[0] as u16;
            self.lemma_edge(from, b, None, false);
            self.edge(from, b, None, false).lemma_lead(
                self.target(from, b, None),
                input.drop_first(),
            );
        }
    }

    /// Restarting keeps what was built before.
    pub proof fn lemma_restart(self, input: Seq<u8>)
        ensures
            ({
                let e = self.restart(input);
                &&& self.grows_into(e)
            }),
    {
        self.lemma_lead(ANY_STATE, input);
        self.lead(ANY_STATE, input).lemma_steps(
            input,
            Some(self.lead_end(ANY_STATE, input)),
            false,
        );
    }

    /// An action leads no transition elsewhere.
    pub(crate) proof fn lemma_mark(self, action: A)
        ensures
            ({
                let e = self.mark(action);
                &&& self.auto.kept_by(e.auto)
                &&& e.auto.kept_by(self.auto)
                &&& forall|from: StateId, input: u16| #[trigger]
                    e.auto.has(from, input) ==> e.auto.action(from, input) == if self.ends_in(
                        self.auto.to(from, input),
                    ) {
                        Some(action)
                    } else {
                        self.auto.action(from, input)
                    }
            }),
    {
        let e = self.mark(action);
        assert forall|from: StateId, input: u16| #[trigger] self.auto.has(from, input) implies {
            &&& e.auto.has(from, input)
            &&& e.auto.to(from, input) == self.auto.to(from, input)
        } by {
            assert(e.auto.edges.contains_key((from, input)));
        }
        assert forall|from: StateId, input: u16| #[trigger] e.auto.has(from, input) implies {
            &&& self.auto.has(from, input)
            &&& self.auto.to(from, input) == e.auto.to(from, input)
        } by {
            assert(self.auto.edges.contains_key((from, input)));
        }
    }

    /// An action changes no transition but those it is put on, and leads none
    /// of them elsewhere.
    pub proof fn lemma_with(self, action: A)
        ensures
            ({
                let e = self.with(action);
                &&& e.fits <==> self.settle().fits && self.settle().takes_action(action)
                &&& e.fits ==> self.fits
                &&& self.grows_into(e)
                &&& e.state == self.state
                &&& e.skipped == self.skipped
                &&& e.optional.len() == 0
            }),
    {
        self.lemma_settle();
        self.settle().lemma_mark(action);
    }
}

impl<A> Draft<A> {
    /// Whether nothing of the pattern may be skipped or is still to be built.
    pub open spec fn plain(self) -> bool {
        &&& self.skipped.len() == 0
        &&& self.optional.len() == 0
    }

    /// A step of a plain draft lays one edge.
    pub proof fn lemma_plain_step(self, input: u16, to: Option<StateId>, case_sensitive: bool)
        requires
            self.plain(),
        ensures
            self.settle() == self,
            self.step(input, to, case_sensitive) == (Draft {
                state: self.target(self.state, input, to),
                ..self.edge(self.state, input, to, case_sensitive)
            }),
            self.step(input, to, case_sensitive).plain(),
    {
        self.lemma_settle();
        assert(self.step(input, to, case_sensitive).skipped =~= self.skipped);
    }

    /// Pushing a string of one byte is a single step.
    pub proof fn lemma_steps_one(self, a: u8, end: Option<StateId>, case_sensitive: bool)
        ensures
            self.steps(seq![a], end, case_sensitive) == self.step(a as u16, end, case_sensitive),
    {
        reveal_with_fuel(Draft::steps, 2);
        assert(seq![a].drop_first() =~= Seq::<u8>::empty());
    }

    /// Pushing a string of two bytes is two steps.
    pub proof fn lemma_steps_two(self, a: u8, b: u8, end: Option<StateId>, case_sensitive: bool)
        ensures
            self.steps(seq![a, b], end, case_sensitive) == self.step(
                a as u16,
                None,
                case_sensitive,
            ).step(b as u16, end, case_sensitive),
    {
        reveal_with_fuel(Draft::steps, 2);
        assert(seq![a, b].drop_first() =~= seq![b]);
        self.step(a as u16, None, case_sensitive).lemma_steps_one(b, end, case_sensitive);
    }

    /// Pushing a string keeps a plain draft plain.
    pub proof fn lemma_plain_steps(self, input: Seq<u8>, case_sensitive: bool)
        requires
            self.plain(),
        ensures
            self.steps(input, None, case_sensitive).plain(),
        decreases input.len(),
    {
        if input.len() > 0 {
            self.lemma_plain_step(input[0] as u16, None, case_sensitive);
            self.step(input[0] as u16, None, case_sensitive).lemma_plain_steps(
                input.drop_first(),
                case_sensitive,
            );
        }
    }

    /// A step over an edge that is there already changes nothing but the state
    /// the pattern has been built up to.
    pub proof fn lemma_old_step(self, input: u16)
        requires
            self.plain(),
            self.auto.has(self.state, input),
        ensures
            self.step(input, None, true) == (Draft {
                state: self.auto.to(self.state, input),
                ..self
            }),
    {
        self.lemma_plain_step(input, None, true);
        assert(self.edge(self.state, input, None, true).auto.edges =~= self.auto.edges);
    }

    /// A new edge out of the state a plain draft is in.
    pub proof fn lemma_new_step(self, input: u16, to: Option<StateId>)
        requires
            self.plain(),
            !self.auto.has(self.state, input),
            to is None ==> 0 <= self.auto.num_states < u16::MAX,
        ensures
            self.step(input, to, true) == (Draft {
                auto: Auto {
                    num_states: if to is None {
                        self.auto.num_states + 1
                    } else {
                        self.auto.num_states
                    },
                    edges: self.auto.edges.insert(
                        (self.state, input),
                        Edge { to: self.target(self.state, input, to), action: None },
                    ),
                },
                state: self.target(self.state, input, to),
                ..self
            }),
    {
        self.lemma_plain_step(input, to, true);
        self.lemma_new_edge(self.state, input, to, true);
    }

    /// Any number of bytes of any value, at least one, out of a state of a
    /// plain draft that has no edge for them yet.
    pub proof fn lemma_new_any(self)
        requires
            self.plain(),
            !self.auto.has(self.state, ANY_INPUT),
            self.state < self.auto.num_states < u16::MAX,
            !self.auto.has(self.auto.num_states as u16, ANY_INPUT),
        ensures
            ({
                let q = self.auto.num_states as u16;
                self.any(1, None) == (Draft {
                    auto: Auto {
                        num_states: self.auto.num_states + 1,
                        edges: self.auto.edges.insert(
                            (self.state, ANY_INPUT),
                            Edge { to: q, action: None },
                        ).insert((q, ANY_INPUT), Edge { to: q, action: None }),
                    },
                    state: q,
                    ..self
                })
            }),
    {
        let q = self.auto.num_states as u16;
        reveal_with_fuel(Draft::any_steps, 2);
        self.lemma_new_step(ANY_INPUT, None);
        let d = self.step(ANY_INPUT, None, true);
        assert(self.any_steps(1) == d);
        d.lemma_new_edge(q, ANY_INPUT, Some(q), true);
    }

    /// An edge for an input that is not read yet, and has one case only, takes
    /// nothing but itself and the state it may lead to.
    pub proof fn lemma_new_edge(
        self,
        from: StateId,
        input: u16,
        to: Option<StateId>,
        case_sensitive: bool,
    )
        requires
            !self.auto.has(from, input),
            case_sensitive || other_case(input) == input,
            to is None ==> self.auto.num_states < u16::MAX,
        ensures
            self.edge(from, input, to, case_sensitive) == (Draft {
                auto: Auto {
                    num_states: if to is None {
                        self.auto.num_states + 1
                    } else {
                        self.auto.num_states
                    },
                    edges: self.auto.edges.insert(
                        (from, input),
                        Edge { to: self.target(from, input, to), action: None },
                    ),
                },
                ..self
            }),
    {
    }

    /// What [`Draft::with`] makes of a plain draft: the transitions that lead
    /// into its state are in `keys`, which carry no other action.
    pub proof fn lemma_with_keys(self, keys: Set<(StateId, u16)>, action: A)
        requires
            self.plain(),
            forall|from: StateId, input: u16| #[trigger]
                self.auto.has(from, input) ==> {
                    &&& self.auto.to(from, input) == self.state <==> keys.contains((from, input))
                    &&& keys.contains((from, input)) ==> self.auto.takes_action(
                        from,
                        input,
                        action,
                    )
                },
        ensures
            ({
                let e = self.with(action);
                &&& e == (Draft { auto: e.auto, ..self })
                &&& e.auto.num_states == self.auto.num_states
                &&& e.auto.edges.dom() == self.auto.edges.dom()
                &&& forall|key: (StateId, u16)| #[trigger]
                    self.auto.edges.contains_key(key) ==> e.auto.edges[key] == if keys.contains(
                        key,
                    ) {
                        Edge { action: Some(action), ..self.auto.edges[key] }
                    } else {
                        self.auto.edges[key]
                    }
            }),
    {
        self.lemma_settle();
        assert forall|from: StateId, input: u16| #[trigger]
            self.auto.has(from, input) && self.ends_in(
                self.auto.to(from, input),
            ) implies self.auto.takes_action(from, input, action) by {
        }
        let e = self.with(action);
        assert(e.auto.edges.dom() =~= self.auto.edges.dom());
        assert forall|key: (StateId, u16)| #[trigger] self.auto.edges.contains_key(
            key,
        ) implies e.auto.edges[key] == if keys.contains(key) {
            Edge { action: Some(action), ..self.auto.edges[key] }
        } else {
            self.auto.edges[key]
        } by {
            assert(self.auto.has(key.0, key.1));
        }
    }
}

/// The bytes each of the strings is spelled with.
pub open spec fn spellings(inputs: Seq<&str>) -> Seq<Seq<u8>> {
    inputs.map_values(|s: &str| s.spec_bytes())
}

/// Returns the lower case of an input.
fn to_lower(input: u16) -> (r: u16)
    ensures
        r == lower(input),
{
    if 0x41 <= input && input <= 0x5A {
        input + 0x20
    } else {
        input
    }
}

/// Returns the upper case of an input.
fn to_upper(input: u16) -> (r: u16)
    ensures
        r == upper(input),
{
    if 0x61 <= input && input <= 0x7A {
        input - 0x20
    } else {
        input
    }
}

impl<A: Copy> Dfa<A> {
    /// Starts a new pattern anchored at `state`, which the caller has to have
    /// reserved with [`Dfa::with_reserved_states`].
    pub fn start_pattern<'a>(&'a mut self, state: StateId) -> (b: DfaBuilder<'a, A>)
        requires
            old(self).wf(),
        ensures
            b.wf(),
            b@ == Draft::start(old(self)@, state),
            *final(b.dfa) == *final(self),
    {
        DfaBuilder::new(self, state)
    }
}

impl<'a, A> View for DfaBuilder<'a, A> {
    type V = Draft<A>;

    closed spec fn view(&self) -> Draft<A> {
        Draft {
            auto: self.dfa@,
            state: self.progress.state,
            skipped: self.progress.skipped@,
            optional: self.progress.optional_prefixes@.map_values(|p: (Vec<u8>, bool)| (p.0@, p.1)),
            fits: true,
        }
    }
}

impl<'a, A: Copy> DfaBuilder<'a, A> {
    /// Whether the DFA the pattern is built into is one.
    pub closed spec fn wf(&self) -> bool {
        self.dfa.wf()
    }

    /// What the builder has built so far is what its DFA is.
    pub proof fn lemma_view(&self)
        ensures
            self@.auto == old(self.dfa)@,
            self@.fits,
            self.wf() ==> old(self.dfa).wf(),
    {
    }

    fn new(dfa: &'a mut Dfa<A>, state: StateId) -> (b: DfaBuilder<'a, A>)
        requires
            old(dfa).wf(),
        ensures
            b.wf(),
            b@ == Draft::start(old(dfa)@, state),
            *final(b.dfa) == *final(dfa),
    {
        let progress = Progress {
            state,
            skipped: Vec::new(),
            optional_prefixes: Vec::new(),
        };
        let b = DfaBuilder { dfa, progress };
        assert(b@ =~= Draft::start(b.dfa@, state));
        b
    }

    /// Returns the state the pattern has been built up to.
    pub fn state(&self) -> (s: StateId)
        ensures
            s == self@.state,
    {
        self.progress.state
    }

    /// Inserts an edge for `input`, for both the lower and the upper case of
    /// it unless its case matters, and returns the state it leads to. If `to`
    /// is `None`, the edge leads to the state the DFA already has for `input`,
    /// or to a new one.
    fn push_edge_from(
        &mut self,
        from: StateId,
        input: u16,
        to: Option<StateId>,
        case_sensitive: bool,
    ) -> (target: StateId)
        requires
            old(self).wf(),
            old(self)@.edge(from, input, to, case_sensitive).fits,
        ensures
            final(self).wf(),
            final(self)@ == old(self)@.edge(from, input, to, case_sensitive),
            target == old(self)@.target(from, input, to),
            *final(final(self).dfa) == *final(old(self).dfa),
            final(self).progress.state == old(self).progress.state,
            final(self).progress.skipped == old(self).progress.skipped,
            final(self).progress.optional_prefixes == old(self).progress.optional_prefixes,
    {
        let ghost before = self@;
        proof {
            before.lemma_edge(from, input, to, case_sensitive);
        }
        let target = match to {
            Some(to) => to,
            None => self.dfa.next_state(from, input),
        };

        self.dfa.insert_edge(from, input, target, None);
        if !case_sensitive {
            let other = if 0x61 <= input && input <= 0x7A {
                to_upper(input)
            } else {
                to_lower(input)
            };
            if other != input {
                self.dfa.insert_edge(from, other, target, None);
            }
        }
        assert(self@ =~= before.edge(from, input, to, case_sensitive));
        target
    }

    /// Lays `input` out of `home`, its last byte leading back into it.
    fn push_detour(&mut self, home: StateId, input: &[u8], case_sensitive: bool)
        requires
            old(self).wf(),
            old(self)@.detour(home, home, input@, case_sensitive).fits,
        ensures
            final(self).wf(),
            final(self)@ == old(self)@.detour(home, home, input@, case_sensitive),
            *final(final(self).dfa) == *final(old(self).dfa),
            final(self).progress.state == old(self).progress.state,
            final(self).progress.skipped == old(self).progress.skipped,
            final(self).progress.optional_prefixes == old(self).progress.optional_prefixes,
    {
        let ghost goal = self@.detour(home, home, input@, case_sensitive);
        let mut from = home;
        let mut i: usize = 0;
        assert(input@.skip(0) =~= input@);
        while i < input.len()
            invariant
                i <= input@.len(),
                self.wf(),
                goal == self@.detour(home, from, input@.skip(i as int), case_sensitive),
                goal.fits,
                *final(self.dfa) == *final(old(self).dfa),
                self.progress.state == old(self).progress.state,
                self.progress.skipped == old(self).progress.skipped,
                self.progress.optional_prefixes == old(self).progress.optional_prefixes,
            decreases input@.len() - i,
        {
            let b = input[i] as u16;
            let ghost before = self@;
            let ghost rest = input@.skip(i as int);
            assert(rest[0] == input@[i as int]);
            assert(rest.drop_first() =~= input@.skip(i + 1));
            if i == input.len() - 1 {
                proof {
                    before.lemma_edge(from, b, Some(home), case_sensitive);
                    before.lemma_detour(home, from, rest, case_sensitive);
                }
                self.push_edge_from(from, b, Some(home), case_sensitive);
                assert(self@ =~= before.detour(home, from, rest, case_sensitive));
                assert(input@.skip(i + 1).len() == 0);
            } else {
                proof {
                    before.edge(from, b, None, case_sensitive).lemma_detour(
                        home,
                        before.target(from, b, None),
                        rest.drop_first(),
                        case_sensitive,
                    );
                }
                from = self.push_edge_from(from, b, None, case_sensitive);
            }
            i += 1;
        }
    }

    /// Builds the optional prefixes that were pushed since the last input, each
    /// of them leading back into the state it branched off of.
    fn push_optional_prefixes(&mut self)
        requires
            old(self).wf(),
            old(self)@.settle().fits,
        ensures
            final(self).wf(),
            final(self)@ == old(self)@.settle(),
            *final(final(self).dfa) == *final(old(self).dfa),
            final(self).progress.state == old(self).progress.state,
            final(self).progress.skipped == old(self).progress.skipped,
    {
        let ghost start = self@;
        let ghost goal = self@.lay(self@.optional.len());
        let mut n: usize = self.progress.optional_prefixes.len();
        while n > 0
            invariant
                n <= self.progress.optional_prefixes@.len(),
                self.wf(),
                goal == self@.lay(n as nat),
                goal.fits,
                *final(self.dfa) == *final(old(self).dfa),
                self.progress.state == old(self).progress.state,
                self.progress.skipped == old(self).progress.skipped,
            decreases n,
        {
            n -= 1;
            let ghost before = self@;
            let input = clone_bytes(&self.progress.optional_prefixes[n].0);
            let case_sensitive = self.progress.optional_prefixes[n].1;
            assert(before.optional[n as int] == (input@, case_sensitive));
            let ghost laid = before.detours(before.skipped.len(), input@, case_sensitive);
            proof {
                laid.lemma_lay(n as nat);
                before.lemma_detours_less(0, before.skipped.len(), input@, case_sensitive);
            }
            let home = self.progress.state;
            self.push_detour(home, input.as_slice(), case_sensitive);
            let mut k: usize = 0;
            while k < self.progress.skipped.len()
                invariant
                    k <= self.progress.skipped@.len(),
                    self.wf(),
                    self.progress.skipped@ == before.skipped,
                    self@ == before.detours(k as nat, input@, case_sensitive),
                    laid == before.detours(before.skipped.len(), input@, case_sensitive),
                    laid.fits,
                    *final(self.dfa) == *final(old(self).dfa),
                    self.progress.state == old(self).progress.state,
                    self.progress.skipped == old(self).progress.skipped,
                    self.progress.optional_prefixes@.len() > n,
                decreases self.progress.skipped@.len() - k,
            {
                proof {
                    before.lemma_detours_less(
                        (k + 1) as nat,
                        before.skipped.len(),
                        input@,
                        case_sensitive,
                    );
                }
                let home = self.progress.skipped[k];
                self.push_detour(home, input.as_slice(), case_sensitive);
                k += 1;
            }
        }
        proof {
            start.lemma_settle();
        }
        self.progress.optional_prefixes = Vec::new();
        assert(self@ =~= start.settle());
    }

    /// Attaches `action` to every transition that leads into the state the
    /// pattern has been built up to, whichever pattern laid it. Where bytes may
    /// be left out at the end of the pattern, it has been built up to every
    /// state it may be left from.
    ///
    /// None of the transitions may carry another action yet.
    pub fn with(&mut self, action: A) -> (r: &mut Self)
        requires
            old(self).wf(),
            old(self)@.with(action).fits,
        ensures
            r.wf(),
            r@ == old(self)@.with(action),
            *final(r.dfa) == *final(old(self).dfa),
            *final(self) == *final(r),
    {
        proof {
            self@.lemma_with(action);
        }
        // an optional prefix loops back into the current state, so it is one of
        // the routes into it and has to carry the action too
        self.push_optional_prefixes();
        let ghost start = self@;
        let transitions = self.dfa.iter_transitions();
        let ghost ts = transitions@;
        proof {
            lemma_edges_of(ts);
            start.lemma_mark(action);
        }
        let mut i: usize = 0;
        while i < transitions.len()
            invariant
                i <= ts.len(),
                ts == transitions@,
                self.wf(),
                deterministic(ts),
                start.auto.edges == edges_of(ts),
                start.takes_action(action),
                forall|k: int|
                    0 <= k < ts.len() ==> start.auto.has((#[trigger] ts[k]).0, ts[k].1)
                        && start.auto.to(ts[k].0, ts[k].1) == ts[k].2,
                self@ == (Draft { auto: self@.auto, ..start }),
                self@.auto.num_states == start.auto.num_states,
                self@.auto.edges.dom() == start.auto.edges.dom(),
                forall|k: int|
                    0 <= k < ts.len() ==> self@.auto.edges[((#[trigger] ts[k]).0, ts[k].1)] == if k
                        < i {
                        start.mark(action).auto.edges[(ts[k].0, ts[k].1)]
                    } else {
                        start.auto.edges[(ts[k].0, ts[k].1)]
                    },
                *final(self.dfa) == *final(old(self).dfa),
            decreases ts.len() - i,
        {
            let (from, input, to, _) = transitions[i];
            let ghost before = self@;
            proof {
                assert(ts[i as int] == transitions@[i as int]);
                assert(start.auto.has(from, input));
                assert(self@.auto.has(from, input));
            }
            if self.ends_in(to) {
                self.dfa.add_action(from, input, action);
            }
            proof {
                assert(self@.auto.edges.dom() =~= start.auto.edges.dom());
                assert forall|k: int| 0 <= k < ts.len() implies self@.auto.edges[((
                #[trigger] ts[k]).0, ts[k].1)] == if k < i + 1 {
                    start.mark(action).auto.edges[(ts[k].0, ts[k].1)]
                } else {
                    start.auto.edges[(ts[k].0, ts[k].1)]
                } by {
                    assert(start.auto.has(ts[k].0, ts[k].1));
                    if k != i {
                        assert(ts[k].0 != from || ts[k].1 != input);
                        assert(self@.auto.edges[(ts[k].0, ts[k].1)] == before.auto.edges[(
                            ts[k].0,
                            ts[k].1,
                        )]);
                    }
                }
            }
            i += 1;
        }
        proof {
            let goal = start.mark(action).auto.edges;
            assert forall|key: (StateId, u16)| #[trigger]
                self@.auto.edges.contains_key(key) implies self@.auto.edges[key] == goal[key] by {
                assert(edges_of(ts).contains_key((key.0, key.1)));
                let k = choose|k: int|
                    0 <= k < ts.len() && (#[trigger] ts[k]).0 == key.0 && ts[k].1 == key.1;
                assert(self@.auto.edges[(ts[k].0, ts[k].1)] == goal[(ts[k].0, ts[k].1)]);
            }
            assert(self@.auto.edges =~= goal);
            assert(self@ =~= start.mark(action));
        }
        self
    }

    /// Returns whether the pattern has been built up to `state`.
    fn ends_in(&self, state: StateId) -> (r: bool)
        ensures
            r == self@.ends_in(state),
    {
        if state == self.progress.state {
            return true;
        }
        let mut i: usize = 0;
        while i < self.progress.skipped.len()
            invariant
                i <= self.progress.skipped@.len(),
                forall|j: int| 0 <= j < i ==> self.progress.skipped@[j] != state,
                state != self.progress.state,
            decreases self.progress.skipped@.len() - i,
        {
            if self.progress.skipped[i] == state {
                assert(self@.skipped[i as int] == state);
                return true;
            }
            i += 1;
        }
        false
    }

    /// Appends a single input to the pattern, first building the optional
    /// prefixes that were pushed since the last input.
    fn push_edge(&mut self, input: u16, to: Option<StateId>, case_sensitive: bool)
        requires
            old(self).wf(),
            old(self)@.step(input, to, case_sensitive).fits,
        ensures
            final(self).wf(),
            final(self)@ == old(self)@.step(input, to, case_sensitive),
            *final(final(self).dfa) == *final(old(self).dfa),
    {
        let ghost before = self@;
        let ghost goal = self@.step(input, to, case_sensitive);
        proof {
            self@.lemma_step(input, to, case_sensitive);
        }
        self.push_optional_prefixes();
        let ghost d = self@;
        proof {
            d.lemma_edge(d.state, input, to, case_sensitive);
        }
        let start = self.progress.state;
        let target = self.push_edge_from(start, input, to, case_sensitive);
        let ghost e = Draft {
            ..d.edge(d.state, input, to, case_sensitive)
        };
        assert(self@ =~= e);
        let mut k: usize = 0;
        while k < self.progress.skipped.len()
            invariant
                k <= self.progress.skipped@.len(),
                self.wf(),
                self.progress.skipped@ == e.skipped,
                self@ == e.join(k as nat, input, target, case_sensitive),
                e.join(e.skipped.len(), input, target, case_sensitive).fits,
                *final(self.dfa) == *final(old(self).dfa),
            decreases self.progress.skipped@.len() - k,
        {
            proof {
                e.lemma_join_less((k + 1) as nat, e.skipped.len(), input, target, case_sensitive);
                e.lemma_join((k + 1) as nat, input, target, case_sensitive);
            }
            let from = self.progress.skipped[k];
            let ghost j = self@;
            proof {
                j.lemma_edge(from, input, Some(target), case_sensitive);
            }
            self.push_edge_from(from, input, Some(target), case_sensitive);
            assert(self@ =~= e.join((k + 1) as nat, input, target, case_sensitive));
            k += 1;
        }
        self.progress.state = target;
        self.progress.skipped = Vec::new();
        assert(self@ =~= goal);
    }

    /// Appends `input` to the pattern, one edge per character. Characters are
    /// matched case sensitively.
    pub fn push(&mut self, input: &str) -> (r: &mut Self)
        requires
            old(self).wf(),
            old(self)@.steps(input.spec_bytes(), None, true).fits,
        ensures
            r.wf(),
            r@ == old(self)@.steps(input.spec_bytes(), None, true),
            *final(r.dfa) == *final(old(self).dfa),
            *final(self) == *final(r),
    {
        self.push_inner(input.as_bytes(), true)
    }

    /// Same as [`DfaBuilder::push`], but accepts raw bytes.
    pub fn push_bytes(&mut self, input: &[u8]) -> (r: &mut Self)
        requires
            old(self).wf(),
            old(self)@.steps(input@, None, true).fits,
        ensures
            r.wf(),
            r@ == old(self)@.steps(input@, None, true),
            *final(r.dfa) == *final(old(self).dfa),
            *final(self) == *final(r),
    {
        self.push_inner(input, true)
    }

    /// Same as [`DfaBuilder::push`], but characters are matched case
    /// insensitively.
    pub fn push_ci(&mut self, input: &str) -> (r: &mut Self)
        requires
            old(self).wf(),
            old(self)@.steps(input.spec_bytes(), None, false).fits,
        ensures
            r.wf(),
            r@ == old(self)@.steps(input.spec_bytes(), None, false),
            *final(r.dfa) == *final(old(self).dfa),
            *final(self) == *final(r),
    {
        self.push_inner(input.as_bytes(), false)
    }

    /// Appends the bytes of `input` to the pattern.
    pub fn push_inner(&mut self, input: &[u8], case_sensitive: bool) -> (r: &mut Self)
        requires
            old(self).wf(),
            old(self)@.steps(input@, None, case_sensitive).fits,
        ensures
            r.wf(),
            r@ == old(self)@.steps(input@, None, case_sensitive),
            *final(r.dfa) == *final(old(self).dfa),
            *final(self) == *final(r),
    {
        self.push_until(input, None, case_sensitive);
        self
    }

    /// Same as [`DfaBuilder::push`], but the last character leads to `end`.
    pub fn push_to(&mut self, input: &str, end: StateId) -> (r: &mut Self)
        requires
            old(self).wf(),
            old(self)@.steps(input.spec_bytes(), Some(end), true).fits,
        ensures
            r.wf(),
            r@ == old(self)@.steps(input.spec_bytes(), Some(end), true),
            *final(r.dfa) == *final(old(self).dfa),
            *final(self) == *final(r),
    {
        self.push_until(input.as_bytes(), Some(end), true);
        self
    }

    /// Appends the bytes of `input`, the last of which leads to `end` if it is
    /// given.
    fn push_until(&mut self, input: &[u8], end: Option<StateId>, case_sensitive: bool)
        requires
            old(self).wf(),
            old(self)@.steps(input@, end, case_sensitive).fits,
        ensures
            final(self).wf(),
            final(self)@ == old(self)@.steps(input@, end, case_sensitive),
            *final(final(self).dfa) == *final(old(self).dfa),
    {
        let ghost goal = self@.steps(input@, end, case_sensitive);
        let mut i: usize = 0;
        assert(input@.skip(0) =~= input@);
        while i < input.len()
            invariant
                i <= input@.len(),
                self.wf(),
                goal == self@.steps(input@.skip(i as int), end, case_sensitive),
                goal.fits,
                *final(self.dfa) == *final(old(self).dfa),
            decreases input@.len() - i,
        {
            let ghost rest = input@.skip(i as int);
            let to = if i == input.len() - 1 {
                end
            } else {
                None
            };
            proof {
                assert(rest[0] == input@[i as int]);
                assert(rest.drop_first() =~= input@.skip(i + 1));
                self@.step(rest[0] as u16, to, case_sensitive).lemma_steps(
                    rest.drop_first(),
                    end,
                    case_sensitive,
                );
            }
            self.push_edge(input[i] as u16, to, case_sensitive);
            i += 1;
        }
    }

    /// Allows any byte to appear as often as the two bounds allow.
    pub fn push_any_within(&mut self, start: Bound, end: Bound) -> (r: &mut Self)
        requires
            old(self).wf(),
            start != Bound::Excluded(usize::MAX),
            end.most() matches Some(max) ==> start.least() <= max,
            old(self)@.any(start.least() as nat, most_of(end)).fits,
        ensures
            r.wf(),
            r@ == old(self)@.any(start.least() as nat, most_of(end)),
            *final(r.dfa) == *final(old(self).dfa),
            *final(self) == *final(r),
    {
        let (min, max) = limits(start, end);
        self.push_any(min, max)
    }

    /// Allows any byte to appear at least `min` and at most `max` times, or
    /// any number of times that is at least `min` if there is no `max`.
    pub fn push_any(&mut self, min: usize, max: Option<usize>) -> (r: &mut Self)
        requires
            old(self).wf(),
            max matches Some(m) ==> min <= m,
            old(self)@.any(min as nat, upper_bound(max)).fits,
        ensures
            r.wf(),
            r@ == old(self)@.any(min as nat, upper_bound(max)),
            *final(r.dfa) == *final(old(self).dfa),
            *final(self) == *final(r),
    {
        let ghost start = self@;
        let ghost goal = self@.any(min as nat, upper_bound(max));
        let ghost d = self@.any_steps(min as nat);
        proof {
            match upper_bound(max) {
                Some(m) => d.lemma_any_or_nones((m - min) as nat),
                None => d.lemma_edge(d.state, ANY_INPUT, Some(d.state), true),
            }
        }
        let mut i: usize = 0;
        while i < min
            invariant
                i <= min,
                self.wf(),
                self@ == start.any_steps(i as nat),
                start.any_steps(min as nat).fits,
                *final(self.dfa) == *final(old(self).dfa),
            decreases min - i,
        {
            proof {
                start.lemma_any_steps_less((i + 1) as nat, min as nat);
            }
            self.push_edge(ANY_INPUT, None, true);
            i += 1;
        }

        match max {
            Some(max) => {
                let mut i: usize = 0;
                while i < max - min
                    invariant
                        min <= max,
                        i <= max - min,
                        self.wf(),
                        self@ == d.any_or_nones(i as nat),
                        d.any_or_nones((max - min) as nat).fits,
                        *final(self.dfa) == *final(old(self).dfa),
                    decreases max - min - i,
                {
                    proof {
                        d.lemma_any_or_nones_less((i + 1) as nat, (max - min) as nat);
                    }
                    self.push_any_or_none();
                    i += 1;
                }
            },
            None => {
                // the loop leads back into the state the repetition ends in, so
                // it is one of the routes into it
                let state = self.progress.state;
                proof {
                    start.lemma_any(min as nat, None);
                }
                self.push_edge_from(state, ANY_INPUT, Some(state), true);
                assert(self@ =~= goal);
            },
        }
        self
    }

    /// Appends a byte of any value to the pattern, but allows it to be left
    /// out.
    fn push_any_or_none(&mut self)
        requires
            old(self).wf(),
            old(self)@.any_or_none().fits,
        ensures
            final(self).wf(),
            final(self)@ == old(self)@.any_or_none(),
            *final(final(self).dfa) == *final(old(self).dfa),
    {
        let ghost goal = self@.any_or_none();
        proof {
            self@.lemma_any_or_none();
            self@.lemma_settle();
            self@.settle().lemma_edge(self@.state, ANY_INPUT, None, true);
        }
        self.push_optional_prefixes();
        let from = self.progress.state;
        let target = self.push_edge_from(from, ANY_INPUT, None, true);
        self.progress.skipped.push(from);
        self.progress.state = target;
        assert(self@ =~= goal);
    }

    /// Same as [`DfaBuilder::push_options_inner`], but case insensitive.
    pub fn push_options_ci(&mut self, inputs: &[&str]) -> (r: &mut Self)
        requires
            old(self).wf(),
            old(self)@.choice(spellings(inputs@), false).fits,
        ensures
            r.wf(),
            r@ == old(self)@.choice(spellings(inputs@), false),
            *final(r.dfa) == *final(old(self).dfa),
            *final(self) == *final(r),
    {
        self.push_options_inner(inputs, false)
    }

    /// Appends one of `inputs` to the pattern, whichever of them it is. None
    /// of them may be empty, unless all of them are.
    pub fn push_options_inner(&mut self, inputs: &[&str], case_sensitive: bool) -> (r: &mut Self)
        requires
            old(self).wf(),
            old(self)@.choice(spellings(inputs@), case_sensitive).fits,
        ensures
            r.wf(),
            r@ == old(self)@.choice(spellings(inputs@), case_sensitive),
            *final(r.dfa) == *final(old(self).dfa),
            *final(self) == *final(r),
    {
        if inputs.len() == 0 {
            return self;
        }
        let ghost options = spellings(inputs@);
        let mut at: usize = 0;
        let mut n: usize = 1;
        while n < inputs.len()
            invariant
                1 <= n <= inputs@.len(),
                at < n,
                options == spellings(inputs@),
                at == longest_of(options, n as nat),
            decreases inputs@.len() - n,
        {
            assert(options[n as int] == inputs@[n as int].spec_bytes());
            assert(options[at as int] == inputs@[at as int].spec_bytes());
            if inputs[n].as_bytes().len() >= inputs[at].as_bytes().len() {
                at = n;
            }
            n += 1;
        }
        let longest = inputs[at].as_bytes();
        assert(options[at as int] == longest@);

        // the longest option is pushed normally, its final state is the one
        // all the other options have to end in as well
        let ghost start = self@;
        let ghost first = start.steps(longest@, None, case_sensitive);
        proof {
            first.lemma_branches(start, longest@, options, options.len(), case_sensitive);
        }
        let from = self.progress.state;
        let skipped = clone_states(&self.progress.skipped);
        self.push_inner(longest, case_sensitive);
        let ghost mut d = first;
        let mut i: usize = 0;
        while i < inputs.len()
            invariant
                i <= inputs@.len(),
                options == spellings(inputs@),
                from == start.state,
                skipped@ == start.skipped,
                d == first.branches(start, longest@, options, i as nat, case_sensitive),
                first.branches(start, longest@, options, options.len(), case_sensitive).fits,
                d.fits,
                self.wf(),
                self@ == d,
                *final(self.dfa) == *final(old(self).dfa),
            decreases inputs@.len() - i,
        {
            let input = inputs[i].as_bytes();
            assert(options[i as int] == input@);
            let ghost next = first.branches(
                start,
                longest@,
                options,
                (i + 1) as nat,
                case_sensitive,
            );
            proof {
                first.lemma_branches_less(
                    start,
                    longest@,
                    options,
                    (i + 1) as nat,
                    options.len(),
                    case_sensitive,
                );
                first.lemma_branches(start, longest@, options, (i + 1) as nat, case_sensitive);
            }
            if !same_bytes(input, longest) {
                let end = self.progress.state;
                self.progress.state = from;
                self.progress.skipped = clone_states(&skipped);
                let ghost back = Draft {
                    state: start.state,
                    skipped: start.skipped,
                    fits: d.fits && input@.len() > 0,
                    ..d
                };
                proof {
                    back.lemma_steps(input@, Some(d.state), case_sensitive);
                }
                assert(self@ =~= back);
                self.push_until(input, Some(end), case_sensitive);
                assert(self@ =~= next);
            }
            proof {
                d = next;
            }
            i += 1;
        }
        assert(self@ =~= d);
        self
    }

    /// Appends `input` to the pattern, but allows it to be skipped, or to
    /// appear more than once.
    pub fn push_optional(&mut self, input: &str, case_sensitive: bool) -> (r: &mut Self)
        requires
            old(self).wf(),
        ensures
            r.wf(),
            r@ == old(self)@.option(input.spec_bytes(), case_sensitive),
            *final(r.dfa) == *final(old(self).dfa),
            *final(self) == *final(r),
    {
        let ghost before = self@;
        let bytes = clone_bytes_of(input.as_bytes());
        self.progress.optional_prefixes.push((bytes, case_sensitive));
        assert(self@ =~= before.option(input.spec_bytes(), case_sensitive));
        self
    }

    /// Matches the given input string but sets the final state to the state
    /// the DFA would be in if it started from [`ANY_STATE`].
    pub fn restart_with(&mut self, input: &str)
        requires
            old(self).wf(),
            old(self)@.restart(input.spec_bytes()).fits,
        ensures
            final(self).wf(),
            final(self)@ == old(self)@.restart(input.spec_bytes()),
            *final(final(self).dfa) == *final(old(self).dfa),
    {
        let ghost start = self@;
        let bytes = input.as_bytes();
        let ghost end = start.lead_end(ANY_STATE, bytes@);
        let ghost led = start.lead(ANY_STATE, bytes@);
        proof {
            led.lemma_steps(bytes@, Some(end), false);
        }
        let mut state = ANY_STATE;
        let mut i: usize = 0;
        assert(bytes@.skip(0) =~= bytes@);
        while i < bytes.len()
            invariant
                i <= bytes@.len(),
                self.wf(),
                led == self@.lead(state, bytes@.skip(i as int)),
                end == self@.lead_end(state, bytes@.skip(i as int)),
                led.fits,
                *final(self.dfa) == *final(old(self).dfa),
            decreases bytes@.len() - i,
        {
            let ghost rest = bytes@.skip(i as int);
            let b = bytes[i] as u16;
            proof {
                assert(rest[0] == bytes@[i as int]);
                assert(rest.drop_first() =~= bytes@.skip(i + 1));
                self@.edge(state, b, None, false).lemma_lead(
                    self@.target(state, b, None),
                    rest.drop_first(),
                );
            }
            state = self.push_edge_from(state, b, None, false);
            i += 1;
        }
        self.push_until(bytes, Some(state), false);
    }
}

/// How often something may appear if `end` is its upper bound.
pub open spec fn most_of(end: Bound) -> Option<nat> {
    match end.most() {
        Some(max) => Some(max as nat),
        None => None,
    }
}

/// The upper bound of a repetition, if it has one.
pub open spec fn upper_bound(max: Option<usize>) -> Option<nat> {
    match max {
        Some(m) => Some(m as nat),
        None => None,
    }
}

/// Returns a copy of the bytes.
fn clone_bytes(bytes: &Vec<u8>) -> (r: Vec<u8>)
    ensures
        r@ == bytes@,
{
    clone_bytes_of(bytes.as_slice())
}

/// Returns a copy of the states.
fn clone_states(states: &Vec<StateId>) -> (r: Vec<StateId>)
    ensures
        r@ == states@,
{
    let mut r: Vec<StateId> = Vec::new();
    let mut i: usize = 0;
    while i < states.len()
        invariant
            i <= states@.len(),
            r@ == states@.take(i as int),
        decreases states@.len() - i,
    {
        r.push(states[i]);
        i += 1;
    }
    assert(r@ =~= states@);
    r
}

} // verus!
