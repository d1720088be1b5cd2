//! Building a pattern leads to no state the automaton does not have.

use super::model::{longest_of, Auto, Draft, ANY_INPUT, ANY_STATE};
use crate::StateId;
use vstd::prelude::*;

verus! {

/// Whether the state an edge is to lead to is one of the automaton.
pub open spec fn target_in<A>(auto: Auto<A>, to: Option<StateId>) -> bool {
    match to {
        Some(to) => to < auto.num_states,
        None => true,
    }
}

impl<A> Draft<A> {
    /// Whether every state the automaton or the pattern speaks of is one of the
    /// automaton.
    pub open spec fn bounded(self) -> bool {
        &&& self.auto.in_bounds()
        &&& self.state < self.auto.num_states <= u16::MAX
        &&& forall|i: int|
            0 <= i < self.skipped.len() ==> #[trigger] self.skipped[i] < self.auto.num_states
    }

    /// Whether `later` has the states of `self`, and is bounded if `self` is.
    pub open spec fn stays_bounded(self, later: Draft<A>) -> bool {
        self.bounded() && later.fits ==> later.bounded() && self.auto.num_states
            <= later.auto.num_states
    }

    proof fn lemma_edge_bounded(
        self,
        from: StateId,
        input: u16,
        to: Option<StateId>,
        case_sensitive: bool,
    )
        requires
            from < self.auto.num_states,
            target_in(self.auto, to),
        ensures
            ({
                let e = self.edge(from, input, to, case_sensitive);
                &&& self.stays_bounded(e)
                &&& self.bounded() && e.fits ==> self.target(from, input, to) < e.auto.num_states
            }),
    {
        let e = self.edge(from, input, to, case_sensitive);
        if self.bounded() && e.fits {
            assert forall|f: StateId, i: u16| #[trigger] e.auto.has(f, i) implies f
                < e.auto.num_states && e.auto.to(f, i) < e.auto.num_states by {
                if self.auto.has(f, i) {
                }
                if self.auto.has(from, input) {
                }
            }
            assert(self.auto.has(from, input) || !self.auto.has(from, input));
            assert forall|i: int| 0 <= i < e.skipped.len() implies #[trigger] e.skipped[i]
                < e.auto.num_states by {
                assert(self.skipped[i] < self.auto.num_states);
            }
        }
    }

    proof fn lemma_detour_bounded(
        self,
        home: StateId,
        from: StateId,
        input: Seq<u8>,
        case_sensitive: bool,
    )
        requires
            self.bounded(),
            home < self.auto.num_states,
            from < self.auto.num_states,
        ensures
            self.stays_bounded(self.detour(home, from, input, case_sensitive)),
        decreases input.len(),
    {
        if input.len() > 0 {
            let b = input[0] as u16;
            if input.len() == 1 {
                self.lemma_edge_bounded(from, b, Some(home), case_sensitive);
            } else {
                self.lemma_edge_bounded(from, b, None, case_sensitive);
                let e = self.edge(from, b, None, case_sensitive);
                e.lemma_detour(home, self.target(from, b, None), input.drop_first(), case_sensitive);
                if e.fits {
                    e.lemma_detour_bounded(
                        home,
                        self.target(from, b, None),
                        input.drop_first(),
                        case_sensitive,
                    );
                }
            }
        }
    }

    proof fn lemma_detours_bounded(self, n: nat, input: Seq<u8>, case_sensitive: bool)
        requires
            self.bounded(),
            n <= self.skipped.len(),
        ensures
            self.stays_bounded(self.detours(n, input, case_sensitive)),
        decreases n,
    {
        if n == 0 {
            self.lemma_detour_bounded(self.state, self.state, input, case_sensitive);
        } else {
            let home = self.skipped[n - 1];
            self.lemma_detours((n - 1) as nat, input, case_sensitive);
            self.lemma_detours_bounded((n - 1) as nat, input, case_sensitive);
            let d = self.detours((n - 1) as nat, input, case_sensitive);
            d.lemma_detour(home, home, input, case_sensitive);
            if d.fits {
                d.lemma_detour_bounded(home, home, input, case_sensitive);
            }
        }
    }

    proof fn lemma_lay_bounded(self, n: nat)
        requires
            self.bounded(),
        ensures
            self.stays_bounded(self.lay(n)),
        decreases n,
    {
        if n > 0 {
            let (input, case_sensitive) = self.optional[n - 1];
            let d = self.detours(self.skipped.len(), input, case_sensitive);
            self.lemma_detours_bounded(self.skipped.len(), input, case_sensitive);
            d.lemma_lay((n - 1) as nat);
            if d.fits {
                d.lemma_lay_bounded((n - 1) as nat);
            }
        }
    }

    proof fn lemma_settle_bounded(self)
        requires
            self.bounded(),
        ensures
            self.stays_bounded(self.settle()),
    {
        self.lemma_lay_bounded(self.optional.len());
    }

    proof fn lemma_join_bounded(self, n: nat, input: u16, to: StateId, case_sensitive: bool)
        requires
            self.bounded(),
            to < self.auto.num_states,
            n <= self.skipped.len(),
        ensures
            self.stays_bounded(self.join(n, input, to, case_sensitive)),
        decreases n,
    {
        if n > 0 {
            let from = self.skipped[n - 1];
            self.lemma_join((n - 1) as nat, input, to, case_sensitive);
            self.lemma_join_bounded((n - 1) as nat, input, to, case_sensitive);
            let before = self.join((n - 1) as nat, input, to, case_sensitive);
            before.lemma_edge(from, input, Some(to), case_sensitive);
            if before.fits {
                before.lemma_edge_bounded(from, input, Some(to), case_sensitive);
            }
        }
    }

    /// One more input leads to no state the automaton does not have.
    pub proof fn lemma_step_bounded(self, input: u16, to: Option<StateId>, case_sensitive: bool)
        requires
            self.bounded(),
            target_in(self.auto, to),
        ensures
            self.stays_bounded(self.step(input, to, case_sensitive)),
    {
        self.lemma_step(input, to, case_sensitive);
        self.lemma_settle();
        self.lemma_settle_bounded();
        let d = self.settle();
        if d.fits {
            let target = d.target(d.state, input, to);
            d.lemma_edge_bounded(d.state, input, to, case_sensitive);
            let e = d.edge(d.state, input, to, case_sensitive);
            e.lemma_join(e.skipped.len(), input, target, case_sensitive);
            if e.fits {
                e.lemma_join_bounded(e.skipped.len(), input, target, case_sensitive);
            }
        }
    }

    /// Pushing a string leads to no state the automaton does not have.
    pub proof fn lemma_steps_bounded(
        self,
        input: Seq<u8>,
        end: Option<StateId>,
        case_sensitive: bool,
    )
        requires
            self.bounded(),
            target_in(self.auto, end),
        ensures
            self.stays_bounded(self.steps(input, end, case_sensitive)),
        decreases input.len(),
    {
        if input.len() > 0 {
            let to = if input.len() == 1 {
                end
            } else {
                None
            };
            let d = self.step(input[0] as u16, to, case_sensitive);
            self.lemma_step_bounded(input[0] as u16, to, case_sensitive);
            d.lemma_steps(input.drop_first(), end, case_sensitive);
            if d.fits {
                d.lemma_steps_bounded(input.drop_first(), end, case_sensitive);
            }
        }
    }

    proof fn lemma_any_steps_bounded(self, n: nat)
        requires
            self.bounded(),
        ensures
            self.stays_bounded(self.any_steps(n)),
        decreases n,
    {
        if n > 0 {
            self.lemma_any_steps_bounded((n - 1) as nat);
            let d = self.any_steps((n - 1) as nat);
            d.lemma_step(ANY_INPUT, None, true);
            if d.fits {
                d.lemma_step_bounded(ANY_INPUT, None, true);
            }
        }
    }

    proof fn lemma_any_or_nones_bounded(self, n: nat)
        requires
            self.bounded(),
        ensures
            self.stays_bounded(self.any_or_nones(n)),
        decreases n,
    {
        if n > 0 {
            self.lemma_any_or_nones_bounded((n - 1) as nat);
            let d = self.any_or_nones((n - 1) as nat);
            let e = d.any_or_none();
            d.lemma_any_or_none();
            d.lemma_settle();
            if e.fits {
                d.lemma_settle_bounded();
                let s = d.settle();
                s.lemma_edge(s.state, ANY_INPUT, None, true);
                s.lemma_edge_bounded(s.state, ANY_INPUT, None, true);
                assert forall|i: int| 0 <= i < e.skipped.len() implies #[trigger] e.skipped[i]
                    < e.auto.num_states by {
                    if i < s.skipped.len() {
                        assert(s.skipped[i] < s.auto.num_states);
                    }
                }
            }
        }
    }

    /// Pushing bytes of any value leads to no state the automaton does not
    /// have.
    pub proof fn lemma_any_bounded(self, min: nat, max: Option<nat>)
        requires
            self.bounded(),
        ensures
            self.stays_bounded(self.any(min, max)),
    {
        self.lemma_any(min, max);
        self.lemma_any_steps_bounded(min);
        let d = self.any_steps(min);
        match max {
            Some(max) => {
                d.lemma_any_or_nones((max - min) as nat);
                if d.fits {
                    d.lemma_any_or_nones_bounded((max - min) as nat);
                }
            },
            None => {
                d.lemma_edge(d.state, ANY_INPUT, Some(d.state), true);
                if d.fits {
                    d.lemma_edge_bounded(d.state, ANY_INPUT, Some(d.state), true);
                }
            },
        }
    }

    proof fn lemma_branches_bounded(
        self,
        start: Draft<A>,
        longest: Seq<u8>,
        inputs: Seq<Seq<u8>>,
        n: nat,
        case_sensitive: bool,
    )
        requires
            self.bounded(),
            start.bounded(),
            start.auto.num_states <= self.auto.num_states,
        ensures
            self.stays_bounded(self.branches(start, longest, inputs, n, case_sensitive)),
        decreases n,
    {
        if n > 0 {
            self.lemma_branches_bounded(start, longest, inputs, (n - 1) as nat, case_sensitive);
            let d = self.branches(start, longest, inputs, (n - 1) as nat, case_sensitive);
            let input = inputs[n - 1];
            if input != longest {
                let back = Draft {
                    state: start.state,
                    skipped: start.skipped,
                    fits: d.fits && input.len() > 0,
                    ..d
                };
                back.lemma_steps(input, Some(d.state), case_sensitive);
                if back.fits {
                    assert forall|i: int| 0 <= i < back.skipped.len() implies #[trigger]
                        back.skipped[i] < back.auto.num_states by {
                        assert(start.skipped[i] < start.auto.num_states);
                    }
                    back.lemma_steps_bounded(input, Some(d.state), case_sensitive);
                }
            }
        }
    }

    /// Pushing one of several strings leads to no state the automaton does not
    /// have.
    pub proof fn lemma_choice_bounded(self, inputs: Seq<Seq<u8>>, case_sensitive: bool)
        requires
            self.bounded(),
        ensures
            self.stays_bounded(self.choice(inputs, case_sensitive)),
    {
        if inputs.len() > 0 {
            let longest = inputs[longest_of(inputs, inputs.len())];
            let d = self.steps(longest, None, case_sensitive);
            self.lemma_steps_bounded(longest, None, case_sensitive);
            d.lemma_branches(self, longest, inputs, inputs.len(), case_sensitive);
            if d.fits {
                d.lemma_branches_bounded(self, longest, inputs, inputs.len(), case_sensitive);
            }
        }
    }

    proof fn lemma_lead_bounded(self, from: StateId, input: Seq<u8>)
        requires
            self.bounded(),
            from < self.auto.num_states,
        ensures
            self.stays_bounded(self.lead(from, input)),
            self.lead(from, input).fits ==> self.lead_end(from, input) < self.lead(
                from,
                input,
            ).auto.num_states,
        decreases input.len(),
    {
        if input.len() > 0 {
            let b = input[0] as u16;
            let e = self.edge(from, b, None, false);
            self.lemma_edge_bounded(from, b, None, false);
            e.lemma_lead(self.target(from, b, None), input.drop_first());
            if e.fits {
                e.lemma_lead_bounded(self.target(from, b, None), input.drop_first());
            }
        }
    }

    /// Restarting leads to no state the automaton does not have.
    pub proof fn lemma_restart_bounded(self, input: Seq<u8>)
        requires
            self.bounded(),
            self.auto.num_states >= 2,
        ensures
            self.stays_bounded(self.restart(input)),
    {
        let led = self.lead(ANY_STATE, input);
        let end = self.lead_end(ANY_STATE, input);
        self.lemma_lead(ANY_STATE, input);
        self.lemma_lead_bounded(ANY_STATE, input);
        led.lemma_steps(input, Some(end), false);
        if led.fits {
            led.lemma_steps_bounded(input, Some(end), false);
        }
    }

    /// An action leads no transition elsewhere.
    pub proof fn lemma_with_bounded(self, action: A)
        requires
            self.bounded(),
        ensures
            self.stays_bounded(self.with(action)),
    {
        self.lemma_settle();
        self.lemma_settle_bounded();
        let d = self.settle();
        let e = self.with(action);
        d.lemma_mark(action);
        if d.fits {
            assert forall|f: StateId, i: u16| #[trigger] e.auto.has(f, i) implies f
                < e.auto.num_states && e.auto.to(f, i) < e.auto.num_states by {
                assert(d.auto.has(f, i));
            }
        }
    }
}

} // verus!
