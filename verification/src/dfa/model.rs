//! The mathematical model of the automaton and of building a pattern into it.
//!
//! An [`Auto`] is what a [`Dfa`](crate::dfa::Dfa) stands for, a [`Draft`] what
//! a [`DfaBuilder`](crate::dfa::DfaBuilder) stands for in the middle of a
//! pattern. Every step of the builder is a function from one draft to the
//! next.

use crate::StateId;
use vstd::prelude::*;

verus! {

/// The state a message is parsed from. Only patterns that must appear at the
/// very beginning of a message are anchored here.
pub const INIT_STATE: StateId = 0;

/// The state input that matches no pattern leads back to. Patterns that may
/// appear anywhere in the header block are anchored here.
pub const ANY_STATE: StateId = 1;

/// The input a state matches any byte with. It lies outside of the bytes, so
/// that no byte of a pattern is mistaken for it. The parser only follows it if
/// the state has no transition for the byte it read.
pub const ANY_INPUT: u16 = 256;

/// What a transition leads to.
pub struct Edge<A> {
    /// The state the transition leads to.
    pub to: StateId,

    /// The action it carries, if it carries one.
    pub action: Option<A>,
}

/// The lower case of an input, which is the input itself if it is no upper
/// case ASCII letter.
pub open spec fn lower(input: u16) -> u16 {
    if 0x41 <= input <= 0x5A {
        (input + 0x20) as u16
    } else {
        input
    }
}

/// The upper case of an input, which is the input itself if it is no lower
/// case ASCII letter.
pub open spec fn upper(input: u16) -> u16 {
    if 0x61 <= input <= 0x7A {
        (input - 0x20) as u16
    } else {
        input
    }
}

/// The other case of an input, which is the input itself if it is no ASCII
/// letter.
pub open spec fn other_case(input: u16) -> u16 {
    if 0x61 <= input <= 0x7A {
        upper(input)
    } else {
        lower(input)
    }
}

/// A deterministic automaton: from a state and an input to at most one edge.
#[verifier::ext_equal]
pub struct Auto<A> {
    /// The number of state ids that are taken.
    pub num_states: int,

    /// The transitions, by the state they leave and the input they read.
    pub edges: Map<(StateId, u16), Edge<A>>,
}

impl<A> Auto<A> {
    /// The automaton that has nothing but `reserved` states.
    pub open spec fn fresh(reserved: int) -> Auto<A> {
        Auto { num_states: reserved, edges: Map::empty() }
    }

    /// Whether there is a transition out of `from` that reads `input`.
    pub open spec fn has(self, from: StateId, input: u16) -> bool {
        self.edges.contains_key((from, input))
    }

    /// The state the transition out of `from` that reads `input` leads to.
    pub open spec fn to(self, from: StateId, input: u16) -> StateId {
        self.edges[(from, input)].to
    }

    /// The action the transition out of `from` that reads `input` carries.
    pub open spec fn action(self, from: StateId, input: u16) -> Option<A> {
        self.edges[(from, input)].action
    }

    /// Whether a transition to `to` that carries `action` can be inserted
    /// without making the automaton ambiguous.
    pub open spec fn accepts(
        self,
        from: StateId,
        input: u16,
        to: StateId,
        action: Option<A>,
    ) -> bool {
        self.has(from, input) ==> {
            &&& self.to(from, input) == to
            &&& self.action(from, input) is Some && action is Some ==> self.action(from, input)
                == action
        }
    }

    /// The automaton with a transition inserted. One that is there already
    /// keeps the action it carries.
    pub open spec fn insert(
        self,
        from: StateId,
        input: u16,
        to: StateId,
        action: Option<A>,
    ) -> Auto<A> {
        let action = if action is None && self.has(from, input) {
            self.action(from, input)
        } else {
            action
        };
        Auto { edges: self.edges.insert((from, input), Edge { to, action }), ..self }
    }

    /// Whether a transition can be made to carry `action`: it carries no other.
    pub open spec fn takes_action(self, from: StateId, input: u16, action: A) -> bool {
        self.action(from, input) is None || self.action(from, input) == Some(action)
    }

    /// The automaton with an action put on a transition.
    pub open spec fn set_action(self, from: StateId, input: u16, action: A) -> Auto<A> {
        Auto {
            edges: self.edges.insert(
                (from, input),
                Edge { to: self.to(from, input), action: Some(action) },
            ),
            ..self
        }
    }

    /// Whether every state a transition leaves or leads to is one of the
    /// automaton.
    pub open spec fn in_bounds(self) -> bool {
        forall|from: StateId, input: u16| #[trigger]
            self.has(from, input) ==> from < self.num_states && self.to(from, input)
                < self.num_states
    }

    /// Whether every transition of `self` is one of `later`, leading to the
    /// same state.
    pub open spec fn kept_by(self, later: Auto<A>) -> bool {
        &&& self.num_states <= later.num_states
        &&& forall|from: StateId, input: u16| #[trigger]
            self.has(from, input) ==> later.has(from, input) && later.to(from, input) == self.to(
                from,
                input,
            )
    }

    /// Whether every action of `self` is still on its transition in `later`.
    pub open spec fn actions_kept_by(self, later: Auto<A>) -> bool {
        forall|from: StateId, input: u16| #[trigger]
            self.has(from, input) && self.action(from, input) is Some ==> later.has(from, input)
                && later.action(from, input) == self.action(from, input)
    }

    /// The state a run of exact inputs out of `from` ends in, if there is a
    /// transition for each of them.
    pub open spec fn follow(self, from: StateId, inputs: Seq<u8>) -> Option<StateId>
        decreases inputs.len(),
    {
        if inputs.len() == 0 {
            Some(from)
        } else if !self.has(from, inputs[0] as u16) {
            None
        } else {
            self.follow(self.to(from, inputs[0] as u16), inputs.drop_first())
        }
    }
}

/// A pattern that is being built into an automaton.
#[verifier::ext_equal]
pub struct Draft<A> {
    /// The automaton built so far.
    pub auto: Auto<A>,

    /// The state the pattern has been built up to.
    pub state: StateId,

    /// The states the pattern may be left from as well, because what leads
    /// from them to `state` may be skipped.
    pub skipped: Seq<StateId>,

    /// The strings that may appear before the next input, any number of times,
    /// and whether their case matters.
    pub optional: Seq<(Seq<u8>, bool)>,

    /// Whether the automaton had room for all of it: no transition had to lead
    /// to two states or to carry two actions, and no state was left without an
    /// id.
    pub fits: bool,
}

impl<A> Draft<A> {
    /// The pattern that begins at `state`.
    pub open spec fn start(auto: Auto<A>, state: StateId) -> Draft<A> {
        Draft {
            auto,
            state,
            skipped: Seq::empty(),
            optional: Seq::empty(),
            fits: true,
        }
    }

    /// Another pattern of the same automaton, which begins at `state`.
    pub open spec fn again(self, state: StateId) -> Draft<A> {
        Draft { state, skipped: Seq::empty(), optional: Seq::empty(), ..self }
    }

    /// The state an edge out of `from` that reads `input` is to lead to: `to`,
    /// if it is given, or else the one the automaton already leads to, or else
    /// a new one.
    pub open spec fn target(self, from: StateId, input: u16, to: Option<StateId>) -> StateId {
        match to {
            Some(to) => to,
            None => if self.auto.has(from, input) {
                self.auto.to(from, input)
            } else {
                self.auto.num_states as u16
            },
        }
    }

    /// Whether the edge out of `from` that reads `input` takes a new state.
    pub open spec fn takes_state(self, from: StateId, input: u16, to: Option<StateId>) -> bool {
        to is None && !self.auto.has(from, input)
    }

    /// The draft with an edge from `from` to [`Draft::target`], for either
    /// case of `input` unless its case matters.
    pub open spec fn edge(
        self,
        from: StateId,
        input: u16,
        to: Option<StateId>,
        case_sensitive: bool,
    ) -> Draft<A> {
        let target = self.target(from, input, to);
        let grown = Auto {
            num_states: if self.takes_state(from, input, to) {
                self.auto.num_states + 1
            } else {
                self.auto.num_states
            },
            ..self.auto
        };
        let one = grown.insert(from, input, target, None);
        let other = other_case(input);
        let both = if case_sensitive || other == input {
            one
        } else {
            one.insert(from, other, target, None)
        };
        Draft {
            auto: both,
            fits: {
                &&& self.fits
                &&& self.takes_state(from, input, to) ==> self.auto.num_states < u16::MAX
                &&& grown.accepts(from, input, target, None)
                &&& case_sensitive || other == input || one.accepts(from, other, target, None)
            },
            ..self
        }
    }

    /// The draft with `input` laid out of `from`, its last byte leading back
    /// to `home`.
    pub open spec fn detour(
        self,
        home: StateId,
        from: StateId,
        input: Seq<u8>,
        case_sensitive: bool,
    ) -> Draft<A>
        decreases input.len(),
    {
        if input.len() == 0 {
            self
        } else {
            let b = input[0] as u16;
            if input.len() == 1 {
                self.edge(from, b, Some(home), case_sensitive)
            } else {
                self.edge(from, b, None, case_sensitive).detour(
                    home,
                    self.target(from, b, None),
                    input.drop_first(),
                    case_sensitive,
                )
            }
        }
    }

    /// The draft with a detour over `input` at every state the pattern may be
    /// left from: `state` and the first `n` of `skipped`.
    pub open spec fn detours(self, n: nat, input: Seq<u8>, case_sensitive: bool) -> Draft<A>
        decreases n,
    {
        if n == 0 {
            self.detour(self.state, self.state, input, case_sensitive)
        } else {
            let home = self.skipped[n - 1];
            self.detours((n - 1) as nat, input, case_sensitive).detour(
                home,
                home,
                input,
                case_sensitive,
            )
        }
    }

    /// The draft with the first `n` of `optional` built into it, the last of
    /// them first.
    pub open spec fn lay(self, n: nat) -> Draft<A>
        decreases n,
    {
        if n == 0 {
            self
        } else {
            let (input, case_sensitive) = self.optional[n - 1];
            self.detours(self.skipped.len(), input, case_sensitive).lay((n - 1) as nat)
        }
    }

    /// The draft with the strings that may appear before the next input built
    /// into it.
    pub open spec fn settle(self) -> Draft<A> {
        Draft { optional: Seq::empty(), ..self.lay(self.optional.len()) }
    }

    /// The draft with an edge to `to` out of the first `n` of `skipped`.
    pub open spec fn join(self, n: nat, input: u16, to: StateId, case_sensitive: bool) -> Draft<A>
        decreases n,
    {
        if n == 0 {
            self
        } else {
            let from = self.skipped[n - 1];
            let before = self.join((n - 1) as nat, input, to, case_sensitive);
            before.edge(from, input, Some(to), case_sensitive)
        }
    }

    /// The draft with one more input.
    pub open spec fn step(self, input: u16, to: Option<StateId>, case_sensitive: bool) -> Draft<A> {
        let d = self.settle();
        let target = d.target(d.state, input, to);
        let e = d.edge(d.state, input, to, case_sensitive);
        let j = e.join(e.skipped.len(), input, target, case_sensitive);
        Draft { state: target, skipped: Seq::empty(), ..j }
    }

    /// The draft with the bytes of `input` pushed one after the other, the
    /// last one leading to `end` if it is given.
    pub open spec fn steps(self, input: Seq<u8>, end: Option<StateId>, case_sensitive: bool) -> Draft<
        A,
    >
        decreases input.len(),
    {
        if input.len() == 0 {
            self
        } else {
            let to = if input.len() == 1 {
                end
            } else {
                None
            };
            self.step(input[0] as u16, to, case_sensitive).steps(
                input.drop_first(),
                end,
                case_sensitive,
            )
        }
    }

    /// The draft with `n` bytes of any value pushed.
    pub open spec fn any_steps(self, n: nat) -> Draft<A>
        decreases n,
    {
        if n == 0 {
            self
        } else {
            self.any_steps((n - 1) as nat).step(ANY_INPUT, None, true)
        }
    }

    /// The draft with one more byte of any value, which may be left out.
    pub open spec fn any_or_none(self) -> Draft<A> {
        let d = self.settle();
        let e = d.edge(d.state, ANY_INPUT, None, true);
        Draft {
            state: d.target(d.state, ANY_INPUT, None),
            skipped: d.skipped.push(d.state),
            ..e
        }
    }

    /// The draft with up to `n` more bytes of any value.
    pub open spec fn any_or_nones(self, n: nat) -> Draft<A>
        decreases n,
    {
        if n == 0 {
            self
        } else {
            self.any_or_nones((n - 1) as nat).any_or_none()
        }
    }

    /// The draft with at least `min` and at most `max` bytes of any value
    /// pushed, or with any number of at least `min` if there is no `max`.
    pub open spec fn any(self, min: nat, max: Option<nat>) -> Draft<A> {
        let d = self.any_steps(min);
        match max {
            Some(max) => d.any_or_nones((max - min) as nat),
            None => d.edge(d.state, ANY_INPUT, Some(d.state), true),
        }
    }

    /// The draft with `input` allowed before the next input.
    pub open spec fn option(self, input: Seq<u8>, case_sensitive: bool) -> Draft<A> {
        Draft { optional: self.optional.push((input, case_sensitive)), ..self }
    }

    /// The draft with the first `n` of `inputs` leading from where `start`
    /// was to the state the pattern has been built up to. One that spells
    /// `longest` is there already.
    pub open spec fn branches(
        self,
        start: Draft<A>,
        longest: Seq<u8>,
        inputs: Seq<Seq<u8>>,
        n: nat,
        case_sensitive: bool,
    ) -> Draft<A>
        decreases n,
    {
        if n == 0 {
            self
        } else {
            let d = self.branches(start, longest, inputs, (n - 1) as nat, case_sensitive);
            let input = inputs[n - 1];
            if input == longest {
                d
            } else {
                let back = Draft {
                    state: start.state,
                    skipped: start.skipped,
                    fits: d.fits && input.len() > 0,
                    ..d
                };
                back.steps(input, Some(d.state), case_sensitive)
            }
        }
    }

    /// The draft with one of `inputs` pushed, whichever it is.
    pub open spec fn choice(self, inputs: Seq<Seq<u8>>, case_sensitive: bool) -> Draft<A> {
        if inputs.len() == 0 {
            self
        } else {
            let longest = inputs[longest_of(inputs, inputs.len())];
            self.steps(longest, None, case_sensitive).branches(
                self,
                longest,
                inputs,
                inputs.len(),
                case_sensitive,
            )
        }
    }

    /// The draft with the transitions for `input` out of `from` ensured, in
    /// either case.
    pub open spec fn lead(self, from: StateId, input: Seq<u8>) -> Draft<A>
        decreases input.len(),
    {
        if input.len() == 0 {
            self
        } else {
            let b = input[0] as u16;
            self.edge(from, b, None, false).lead(self.target(from, b, None), input.drop_first())
        }
    }

    /// The state [`Draft::lead`] ends in.
    pub open spec fn lead_end(self, from: StateId, input: Seq<u8>) -> StateId
        decreases input.len(),
    {
        if input.len() == 0 {
            from
        } else {
            let b = input[0] as u16;
            self.edge(from, b, None, false).lead_end(self.target(from, b, None), input.drop_first())
        }
    }

    /// The draft with `input` pushed in either case, its last byte leading to
    /// where `input` leads from [`ANY_STATE`].
    pub open spec fn restart(self, input: Seq<u8>) -> Draft<A> {
        self.lead(ANY_STATE, input).steps(input, Some(self.lead_end(ANY_STATE, input)), false)
    }

    /// Whether the pattern has been built up to `state`: it is the state of the
    /// draft or one the pattern may be left from as well.
    pub open spec fn ends_in(self, state: StateId) -> bool {
        state == self.state || self.skipped.contains(state)
    }

    /// Whether no transition that leads into the state the pattern has been
    /// built up to carries another action.
    pub open spec fn takes_action(self, action: A) -> bool {
        forall|from: StateId, input: u16| #[trigger]
            self.auto.has(from, input) && self.ends_in(self.auto.to(from, input))
                ==> self.auto.takes_action(from, input, action)
    }

    /// The draft with `action` on every transition that leads into the state
    /// the pattern has been built up to.
    pub open spec fn mark(self, action: A) -> Draft<A> {
        Draft {
            auto: Auto {
                edges: Map::new(
                    |key: (StateId, u16)| self.auto.edges.contains_key(key),
                    |key: (StateId, u16)|
                        {
                            let edge = self.auto.edges[key];
                            if self.ends_in(edge.to) {
                                Edge { action: Some(action), ..edge }
                            } else {
                                edge
                            }
                        },
                ),
                ..self.auto
            },
            fits: self.fits && self.takes_action(action),
            ..self
        }
    }

    /// The draft with the strings that may appear before the next input built
    /// into it and `action` on every transition that leads into the state the
    /// pattern has been built up to.
    pub open spec fn with(self, action: A) -> Draft<A> {
        self.settle().mark(action)
    }
}

/// The position of the longest of the first `n` of `inputs`, of the last one
/// if there are several.
pub open spec fn longest_of(inputs: Seq<Seq<u8>>, n: nat) -> int
    decreases n,
{
    if n <= 1 {
        0
    } else {
        let i = longest_of(inputs, (n - 1) as nat);
        if inputs[n - 1].len() >= inputs[i].len() {
            n - 1
        } else {
            i
        }
    }
}

} // verus!
