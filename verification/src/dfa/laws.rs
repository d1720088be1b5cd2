//! What the steps of a builder make of an automaton, in terms of the strings it
//! reads.

use super::model::{
    longest_of, lower, other_case, upper, Auto, Draft, Edge, ANY_INPUT, ANY_STATE, INIT_STATE,
};
use crate::StateId;
use vstd::prelude::*;

verus! {

impl<A> Auto<A> {
    /// A transition that is inserted, or an action that is added to one, leads no
    /// transition elsewhere and leaves the actions alone that were there before.
    pub proof fn law_edges_keep_actions(
        self,
        from: StateId,
        input: u16,
        to: StateId,
        action: Option<A>,
        added: A,
    )
        ensures
            self.accepts(from, input, to, action) ==> {
                &&& self.kept_by(self.insert(from, input, to, action))
                &&& self.actions_kept_by(self.insert(from, input, to, action))
            },
            self.has(from, input) && self.takes_action(from, input, added) ==> {
                &&& self.kept_by(self.set_action(from, input, added))
                &&& self.actions_kept_by(self.set_action(from, input, added))
            },
    {
    }

    /// A transition that is inserted is there, with the action it is to carry, and
    /// no other is. One that is there already can be inserted if and only if it
    /// leads to the same state and carries no other action.
    pub proof fn law_inserted_edge_is_there(
        self,
        from: StateId,
        input: u16,
        to: StateId,
        action: Option<A>,
        s: StateId,
        i: u16,
    )
        ensures
            ({
                let later = self.insert(from, input, to, action);
                &&& later.has(from, input) && later.to(from, input) == to
                &&& action is Some ==> later.action(from, input) == action
                &&& later.has(s, i) <==> self.has(s, i) || (s, i) == (from, input)
                &&& self.has(s, i) && (s, i) != (from, input) ==> later.edges[(s, i)]
                    == self.edges[(s, i)]
                &&& later.num_states == self.num_states
            }),
            !self.has(from, input) ==> self.accepts(from, input, to, action)
                && self.insert(from, input, to, action).action(from, input) == action,
            self.has(from, input) && self.to(from, input) != to ==> !self.accepts(
                from,
                input,
                to,
                action,
            ),
            self.has(from, input) && self.action(from, input) is Some && action is Some
                && self.action(from, input) != action ==> !self.accepts(from, input, to, action),
    {
    }
}

impl<A> Draft<A> {
    /// Whatever is built into a pattern leads no transition elsewhere and leaves
    /// the actions alone that were there before, if there is room for it.
    pub proof fn law_building_keeps_actions(
        self,
        input: Seq<u8>,
        end: Option<StateId>,
        case_sensitive: bool,
        min: nat,
        max: Option<nat>,
        inputs: Seq<Seq<u8>>,
        action: A,
    )
        ensures
            self.grows_into(self.steps(input, end, case_sensitive)),
            self.grows_into(self.any(min, max)),
            self.grows_into(self.choice(inputs, case_sensitive)),
            self.grows_into(self.option(input, case_sensitive)),
            self.grows_into(self.restart(input)),
            self.grows_into(self.with(action)),
    {
        self.lemma_steps(input, end, case_sensitive);
        self.lemma_any(min, max);
        self.lemma_choice(inputs, case_sensitive);
        self.lemma_restart(input);
        self.lemma_with(action);
    }

    /// An action is put on every transition that leads into the state a pattern
    /// has been built up to, and on no other. Which of them were laid by the
    /// pattern does not matter.
    pub proof fn law_action_is_put_on_every_transition_into_the_state(
        self,
        action: A,
        from: StateId,
        input: u16,
    )
        ensures
            ({
                let d = self.settle();
                let e = self.with(action);
                &&& e.auto.has(from, input) <==> d.auto.has(from, input)
                &&& e.auto.has(from, input) ==> {
                    &&& e.auto.to(from, input) == d.auto.to(from, input)
                    &&& e.auto.action(from, input) == if self.ends_in(e.auto.to(from, input)) {
                        Some(action)
                    } else {
                        d.auto.action(from, input)
                    }
                }
                &&& self.optional.len() == 0 ==> d == self
                &&& self.skipped.len() == 0 ==> forall|state: StateId| #[trigger]
                    self.ends_in(state) <==> state == self.state
            }),
    {
        self.lemma_settle();
        self.settle().lemma_mark(action);
    }
}

/// Whether the two are one ASCII letter in upper and in lower case, which are 0x20
/// apart.
pub open spec fn same_letter(a: int, b: int) -> bool {
    ||| 0x41 <= a <= 0x5A && b == a + 0x20
    ||| 0x41 <= b <= 0x5A && a == b + 0x20
}

/// Whether the two strings differ in nothing but the case of ASCII letters.
pub open spec fn alike(s: Seq<u8>, t: Seq<u8>) -> bool {
    &&& s.len() == t.len()
    &&& forall|i: int|
        0 <= i < s.len() ==> #[trigger] s[i] == t[i] || same_letter(s[i] as int, t[i] as int)
}

/// The case of an input is that of ASCII: two inputs are the same in lower case,
/// and in upper case, if and only if they are the same or one letter in either
/// case, and what is in the lower case is no upper case letter, and the other way
/// round.
pub proof fn law_case_is_that_of_ascii(a: u16, b: u16)
    ensures
        lower(a) == lower(b) <==> a == b || same_letter(a as int, b as int),
        upper(a) == upper(b) <==> a == b || same_letter(a as int, b as int),
        other_case(a) == b && a != b <==> same_letter(a as int, b as int),
        !(0x41 <= lower(a) <= 0x5A),
        !(0x61 <= upper(a) <= 0x7A),
{
}

impl<A> Draft<A> {
    /// A string that is pushed case insensitively is read in whichever case each
    /// of its letters is spelled, and leads to the same state.
    pub proof fn law_letters_are_read_in_either_case(
        self,
        input: Seq<u8>,
        end: Option<StateId>,
        s: Seq<u8>,
    )
        requires
            self.steps(input, end, false).fits,
            alike(s, input),
        ensures
            self.steps(input, end, false).auto.follow(self.state, s) == Some(
                self.steps(input, end, false).state,
            ),
    {
        assert forall|i: int| 0 <= i < s.len() implies #[trigger] s[i] == input[i] || s[i] as u16
            == other_case(input[i] as u16) by {
            law_case_is_that_of_ascii(input[i] as u16, s[i] as u16);
        }
        self.law_pushed_string_is_read(input, end, false, s);
    }

    /// Pushing a string adds no transition but for its bytes, and for the other
    /// case of its letters if it is pushed case insensitively.
    pub proof fn law_pushed_string_reads_nothing_else(
        self,
        input: Seq<u8>,
        end: Option<StateId>,
        case_sensitive: bool,
        from: StateId,
        i: u16,
    )
        requires
            self.plain(),
            self.steps(input, end, case_sensitive).auto.has(from, i),
            !self.auto.has(from, i),
        ensures
            exists|k: int|
                0 <= k < input.len() && (#[trigger] input[k] == i || (!case_sensitive
                    && same_letter(input[k] as int, i as int))),
        decreases input.len(),
    {
        if input.len() > 0 {
            let to = if input.len() == 1 {
                end
            } else {
                None
            };
            let b = input[0] as u16;
            let rest = input.drop_first();
            let d = self.step(b, to, case_sensitive);
            self.lemma_plain_step(b, to, case_sensitive);
            if d.auto.has(from, i) {
                law_case_is_that_of_ascii(b, i);
                assert(i == b || (!case_sensitive && i == other_case(b)));
                assert(input[0] == i || (!case_sensitive && same_letter(
                    input[0] as int,
                    i as int,
                )));
            } else {
                d.law_pushed_string_reads_nothing_else(rest, end, case_sensitive, from, i);
                let k = choose|k: int|
                    0 <= k < rest.len() && (#[trigger] rest[k] == i || (!case_sensitive
                        && same_letter(rest[k] as int, i as int)));
                assert(input[k + 1] == rest[k]);
            }
        }
    }
}

/// Whether `s` spells `input`, in whichever case unless its case matters.
pub open spec fn spells(s: Seq<u8>, input: Seq<u8>, case_sensitive: bool) -> bool {
    &&& s.len() == input.len()
    &&& forall|i: int|
        0 <= i < s.len() ==> #[trigger] s[i] == input[i] || (!case_sensitive && s[i] as u16
            == other_case(input[i] as u16))
}

/// The rest of what spells a string spells the rest of it.
proof fn lemma_spells_rest(s: Seq<u8>, input: Seq<u8>, case_sensitive: bool)
    requires
        spells(s, input, case_sensitive),
        s.len() > 0,
    ensures
        spells(s.drop_first(), input.drop_first(), case_sensitive),
        s[0] == input[0] || (!case_sensitive && s[0] as u16 == other_case(input[0] as u16)),
{
    let t = s.drop_first();
    let rest = input.drop_first();
    assert forall|i: int| 0 <= i < t.len() implies #[trigger] t[i] == rest[i] || (!case_sensitive
        && t[i] as u16 == other_case(rest[i] as u16)) by {
        assert(s[i + 1] == input[i + 1] || (!case_sensitive && s[i + 1] as u16 == other_case(
            input[i + 1] as u16,
        )));
    }
}

/// A string repeated `n` times.
pub open spec fn repeated(s: Seq<u8>, n: nat) -> Seq<u8>
    decreases n,
{
    if n == 0 {
        Seq::empty()
    } else {
        s + repeated(s, (n - 1) as nat)
    }
}

impl<A> Auto<A> {
    /// A run over two strings is a run over one and then over the other.
    pub proof fn lemma_follow_both(self, from: StateId, a: Seq<u8>, b: Seq<u8>)
        ensures
            self.follow(from, a + b) == match self.follow(from, a) {
                Some(s) => self.follow(s, b),
                None => None,
            },
        decreases a.len(),
    {
        if a.len() == 0 {
            assert(a + b =~= b);
        } else {
            assert((a + b)[0] == a[0]);
            assert((a + b).drop_first() =~= a.drop_first() + b);
            if self.has(from, a[0] as u16) {
                self.lemma_follow_both(self.to(from, a[0] as u16), a.drop_first(), b);
            }
        }
    }

    /// A string that leads back to where it is read does so however often it is
    /// read.
    proof fn lemma_follow_repeated(self, from: StateId, s: Seq<u8>, n: nat)
        requires
            self.follow(from, s) == Some(from),
        ensures
            self.follow(from, repeated(s, n)) == Some(from),
        decreases n,
    {
        if n > 0 {
            self.lemma_follow_repeated(from, s, (n - 1) as nat);
            self.lemma_follow_both(from, s, repeated(s, (n - 1) as nat));
        }
    }

    /// The state a run of `n` bytes out of `from` ends in that are read as any
    /// byte, if there is a transition for each of them.
    pub open spec fn follow_any(self, from: StateId, n: nat) -> Option<StateId>
        decreases n,
    {
        if n == 0 {
            Some(from)
        } else {
            match self.follow_any(from, (n - 1) as nat) {
                Some(s) => if self.has(s, ANY_INPUT) {
                    Some(self.to(s, ANY_INPUT))
                } else {
                    None
                },
                None => None,
            }
        }
    }

    /// The transitions a run over any bytes follows are followed still if none
    /// of them is lost.
    proof fn lemma_follow_any_kept(self, later: Auto<A>, from: StateId, n: nat)
        requires
            self.kept_by(later),
            self.follow_any(from, n) is Some,
        ensures
            later.follow_any(from, n) == self.follow_any(from, n),
        decreases n,
    {
        if n > 0 {
            self.lemma_follow_any_kept(later, from, (n - 1) as nat);
        }
    }
}

impl<A> Draft<A> {
    /// One more input is read in whichever case it may be.
    proof fn lemma_step_reads(self, input: u16, to: Option<StateId>, case_sensitive: bool, i: u16)
        requires
            self.step(input, to, case_sensitive).fits,
            i == input || (!case_sensitive && i == other_case(input)),
        ensures
            ({
                let e = self.step(input, to, case_sensitive);
                e.auto.has(self.state, i) && e.auto.to(self.state, i) == e.state
            }),
    {
        self.lemma_settle();
        self.lemma_step(input, to, case_sensitive);
        let d = self.settle();
        let g = d.edge(self.state, input, to, case_sensitive);
        assert(g.auto.has(self.state, i));
        assert(g.auto.to(self.state, i) == d.target(self.state, input, to));
    }

    /// A string that was pushed is read, in whichever case it may be spelled, and
    /// leads to where the pattern has been built up to.
    pub proof fn law_pushed_string_is_read(
        self,
        input: Seq<u8>,
        end: Option<StateId>,
        case_sensitive: bool,
        s: Seq<u8>,
    )
        requires
            self.steps(input, end, case_sensitive).fits,
            spells(s, input, case_sensitive),
        ensures
            self.steps(input, end, case_sensitive).auto.follow(self.state, s) == Some(
                self.steps(input, end, case_sensitive).state,
            ),
        decreases input.len(),
    {
        if input.len() > 0 {
            let to = if input.len() == 1 {
                end
            } else {
                None
            };
            let b = input[0] as u16;
            let d = self.step(b, to, case_sensitive);
            d.lemma_steps(input.drop_first(), end, case_sensitive);
            lemma_spells_rest(s, input, case_sensitive);
            self.lemma_step_reads(b, to, case_sensitive, s[0] as u16);
            d.law_pushed_string_is_read(input.drop_first(), end, case_sensitive, s.drop_first());
        }
    }

    /// Whichever of several strings is read leads to one state.
    pub proof fn law_every_option_leads_to_one_state(
        self,
        inputs: Seq<Seq<u8>>,
        case_sensitive: bool,
        k: int,
        s: Seq<u8>,
    )
        requires
            self.choice(inputs, case_sensitive).fits,
            0 <= k < inputs.len(),
            spells(s, inputs[k], case_sensitive),
        ensures
            self.choice(inputs, case_sensitive).auto.follow(self.state, s) == Some(
                self.choice(inputs, case_sensitive).state,
            ),
    {
        let n = inputs.len();
        let longest = inputs[longest_of(inputs, n)];
        let d = self.steps(longest, None, case_sensitive);
        let e = d.branches(self, longest, inputs, n, case_sensitive);
        d.lemma_branches(self, longest, inputs, n, case_sensitive);
        if inputs[k] == longest {
            self.law_pushed_string_is_read(longest, None, case_sensitive, s);
            d.auto.lemma_follow_kept(e.auto, self.state, s);
        } else {
            let before = d.branches(self, longest, inputs, k as nat, case_sensitive);
            let after = d.branches(self, longest, inputs, (k + 1) as nat, case_sensitive);
            d.lemma_branches_less(self, longest, inputs, (k + 1) as nat, n, case_sensitive);
            d.lemma_branches(self, longest, inputs, k as nat, case_sensitive);
            d.lemma_branches(self, longest, inputs, (k + 1) as nat, case_sensitive);
            let back = Draft {
                state: self.state,
                skipped: self.skipped,
                fits: before.fits && inputs[k].len() > 0,
                ..before
            };
            back.law_pushed_string_is_read(inputs[k], Some(before.state), case_sensitive, s);
            after.auto.lemma_follow_kept(e.auto, self.state, s);
        }
    }

    /// A string that is laid out of a state leads where it is to.
    proof fn lemma_detour_reads(
        self,
        home: StateId,
        from: StateId,
        input: Seq<u8>,
        case_sensitive: bool,
        s: Seq<u8>,
    )
        requires
            self.detour(home, from, input, case_sensitive).fits,
            input.len() > 0,
            spells(s, input, case_sensitive),
        ensures
            self.detour(home, from, input, case_sensitive).auto.follow(from, s) == Some(home),
        decreases input.len(),
    {
        let b = input[0] as u16;
        let e = self.detour(home, from, input, case_sensitive);
        lemma_spells_rest(s, input, case_sensitive);
        if input.len() == 1 {
            assert(s.drop_first() =~= Seq::empty());
            reveal_with_fuel(Auto::follow, 2);
        } else {
            let d = self.edge(from, b, None, case_sensitive);
            let to = self.target(from, b, None);
            self.lemma_edge(from, b, None, case_sensitive);
            d.lemma_detour(home, to, input.drop_first(), case_sensitive);
            assert(d.auto.has(from, s[0] as u16) && d.auto.to(from, s[0] as u16) == to);
            d.lemma_detour_reads(home, to, input.drop_first(), case_sensitive, s.drop_first());
        }
    }

    /// The first `n` of the strings that may appear lead back to where they are
    /// read.
    proof fn lemma_lay_reads(self, n: nat, k: int, s: Seq<u8>)
        requires
            self.lay(n).fits,
            n <= self.optional.len(),
            0 <= k < n,
            self.optional[k].0.len() > 0,
            spells(s, self.optional[k].0, self.optional[k].1),
        ensures
            self.lay(n).auto.follow(self.state, s) == Some(self.state),
        decreases n,
    {
        let (input, case_sensitive) = self.optional[n - 1];
        let d = self.detours(self.skipped.len(), input, case_sensitive);
        self.lemma_detours(self.skipped.len(), input, case_sensitive);
        d.lemma_lay((n - 1) as nat);
        if k == n - 1 {
            let one = self.detours(0, input, case_sensitive);
            self.lemma_detours_less(0, self.skipped.len(), input, case_sensitive);
            self.lemma_detour_reads(self.state, self.state, input, case_sensitive, s);
            one.auto.lemma_follow_kept(d.auto, self.state, s);
            d.auto.lemma_follow_kept(self.lay(n).auto, self.state, s);
        } else {
            d.lemma_lay_reads((n - 1) as nat, k, s);
        }
    }

    /// A string that may appear before another one may be left out, and may
    /// appear any number of times.
    pub proof fn law_optional_string_may_be_repeated(
        self,
        optional: Seq<u8>,
        optional_case: bool,
        input: Seq<u8>,
        case_sensitive: bool,
        n: nat,
    )
        requires
            optional.len() > 0,
            input.len() > 0,
            self.option(optional, optional_case).steps(input, None, case_sensitive).fits,
        ensures
            ({
                let e = self.option(optional, optional_case).steps(input, None, case_sensitive);
                e.auto.follow(self.state, repeated(optional, n) + input) == Some(e.state)
            }),
    {
        let d = self.option(optional, optional_case);
        let e = d.steps(input, None, case_sensitive);
        let first = d.step(input[0] as u16, None, case_sensitive);
        first.lemma_steps(input.drop_first(), None, case_sensitive);
        d.lemma_step(input[0] as u16, None, case_sensitive);
        d.law_pushed_string_is_read(input, None, case_sensitive, input);
        let last = self.optional.len();
        let laid = d.lay(last + 1);
        assert(d.optional[last as int] == (optional, optional_case));
        d.lemma_lay_reads(last + 1, last as int, optional);
        laid.auto.lemma_follow_kept(first.auto, self.state, optional);
        first.auto.lemma_follow_kept(e.auto, self.state, optional);
        e.auto.lemma_follow_repeated(self.state, optional, n);
        e.auto.lemma_follow_both(self.state, repeated(optional, n), input);
    }

    /// The transitions that are ensured lead where they are to.
    proof fn lemma_lead_reads(self, from: StateId, input: Seq<u8>, s: Seq<u8>)
        requires
            self.lead(from, input).fits,
            spells(s, input, false),
        ensures
            self.lead(from, input).auto.follow(from, s) == Some(self.lead_end(from, input)),
        decreases input.len(),
    {
        if input.len() > 0 {
            let b = input[0] as u16;
            let d = self.edge(from, b, None, false);
            let to = self.target(from, b, None);
            lemma_spells_rest(s, input, false);
            self.lemma_edge(from, b, None, false);
            d.lemma_lead(to, input.drop_first());
            assert(d.auto.has(from, s[0] as u16) && d.auto.to(from, s[0] as u16) == to);
            d.lemma_lead_reads(to, input.drop_first(), s.drop_first());
        }
    }

    /// A pattern that starts over leads to the state the automaton would be in
    /// had it read the end of the pattern from [`ANY_STATE`].
    pub proof fn law_restart_leads_where_it_would_from_anywhere(self, input: Seq<u8>, s: Seq<u8>)
        requires
            self.restart(input).fits,
            input.len() > 0,
            spells(s, input, false),
        ensures
            self.restart(input).auto.follow(self.state, s) == Some(self.restart(input).state),
            self.restart(input).auto.follow(ANY_STATE, s) == Some(self.restart(input).state),
    {
        let d = self.lead(ANY_STATE, input);
        let end = self.lead_end(ANY_STATE, input);
        self.lemma_lead(ANY_STATE, input);
        d.lemma_steps(input, Some(end), false);
        d.law_pushed_string_is_read(input, Some(end), false, s);
        self.lemma_lead_reads(ANY_STATE, input, s);
        d.auto.lemma_follow_kept(self.restart(input).auto, ANY_STATE, s);
    }

    /// Bytes of any value that must appear lead to where the pattern has been
    /// built up to.
    proof fn lemma_any_steps_read(self, n: nat)
        requires
            self.any_steps(n).fits,
        ensures
            self.any_steps(n).auto.follow_any(self.state, n) == Some(self.any_steps(n).state),
        decreases n,
    {
        if n > 0 {
            let d = self.any_steps((n - 1) as nat);
            let e = self.any_steps(n);
            d.lemma_step(ANY_INPUT, None, true);
            self.lemma_any_steps_read((n - 1) as nat);
            d.auto.lemma_follow_any_kept(e.auto, self.state, (n - 1) as nat);
        }
    }

    /// Any number of bytes of any value that is large enough leads to where the
    /// pattern has been built up to, if there is no limit to it.
    pub proof fn law_any_bytes_may_go_on(self, min: nat, n: nat)
        requires
            self.any(min, None).fits,
            min <= n,
        ensures
            self.any(min, None).auto.follow_any(self.state, n) == Some(self.any(min, None).state),
        decreases n,
    {
        let d = self.any_steps(min);
        let e = self.any(min, None);
        d.lemma_edge(d.state, ANY_INPUT, Some(d.state), true);
        if n == min {
            self.lemma_any_steps_read(min);
            d.auto.lemma_follow_any_kept(e.auto, self.state, min);
        } else {
            self.law_any_bytes_may_go_on(min, (n - 1) as nat);
        }
    }

    /// Bytes of any value that may be left out lead to where the pattern has
    /// been built up to, or to where it may be left from as well.
    proof fn lemma_any_or_nones_read(self, from: StateId, at: nat, n: nat, k: nat)
        requires
            self.plain(),
            self.any_or_nones(n).fits,
            self.auto.follow_any(from, at) == Some(self.state),
            k <= n,
        ensures
            ({
                let e = self.any_or_nones(n);
                &&& e.optional.len() == 0
                &&& e.auto.follow_any(from, at + n) == Some(e.state)
                &&& k < n ==> {
                    &&& e.auto.follow_any(from, at + k) matches Some(s)
                    &&& e.skipped.contains(s)
                }
            }),
        decreases n,
    {
        if n > 0 {
            let m = (n - 1) as nat;
            let d = self.any_or_nones(m);
            let e = self.any_or_nones(n);
            d.lemma_any_or_none();
            self.lemma_any_or_nones_read(
                from,
                at,
                m,
                if k < m {
                    k
                } else {
                    m
                },
            );
            d.lemma_settle();
            d.lemma_edge(d.state, ANY_INPUT, None, true);
            d.auto.lemma_follow_any_kept(e.auto, from, at + m);
            assert(at + n == (at + m) + 1);
            assert(e.skipped == d.skipped.push(d.state));
            assert(e.skipped[d.skipped.len() as int] == d.state);
            if k < m {
                d.auto.lemma_follow_any_kept(e.auto, from, at + k);
                let s = d.auto.follow_any(from, at + k)->0;
                let i = choose|i: int| 0 <= i < d.skipped.len() && d.skipped[i] == s;
                assert(e.skipped[i] == s);
            }
        }
    }

    /// Any number of bytes of any value within the limits leads to a state the
    /// pattern goes on from.
    pub proof fn law_any_bytes_stay_within_limits(self, min: nat, max: nat, n: nat)
        requires
            self.plain(),
            self.any(min, Some(max)).fits,
            min <= n <= max,
        ensures
            ({
                let e = self.any(min, Some(max));
                &&& e.auto.follow_any(self.state, n) matches Some(s)
                &&& s == e.state || e.skipped.contains(s)
                &&& n == max ==> s == e.state
            }),
    {
        let d = self.any_steps(min);
        let k = (max - min) as nat;
        d.lemma_any_or_nones(k);
        self.lemma_any_steps_read(min);
        self.lemma_any_steps_plain(min);
        d.lemma_any_or_nones_read(self.state, min, k, (n - min) as nat);
    }

    proof fn lemma_any_steps_plain(self, n: nat)
        requires
            self.plain(),
        ensures
            self.any_steps(n).plain(),
        decreases n,
    {
        if n > 0 {
            self.lemma_any_steps_plain((n - 1) as nat);
            self.any_steps((n - 1) as nat).lemma_plain_step(ANY_INPUT, None, true);
        }
    }
}

/// A message is parsed from state 0, and input that matches nothing leads to state
/// 1. What reads any byte is the first number that is no byte.
pub proof fn law_reserved_numbers()
    ensures
        INIT_STATE == 0,
        ANY_STATE == 1,
        ANY_INPUT == u8::MAX + 1,
{
}

impl<A> Draft<A> {
    /// The state behind the `n`th byte of any value out of the state of a draft
    /// that has read none yet.
    spec fn nth(self, n: int) -> StateId {
        if n == 0 {
            self.state
        } else {
            (self.auto.num_states + n - 1) as u16
        }
    }

    /// Whether a state is behind fewer than `n` of the bytes.
    spec fn is_before(self, s: StateId, n: nat) -> bool {
        ||| s == self.state && n > 0
        ||| self.auto.num_states <= s < self.auto.num_states + n - 1
    }

    /// The transitions of the draft with those of `n` bytes of any value.
    spec fn chain(self, n: nat) -> Map<(StateId, u16), Edge<A>> {
        Map::new(
            |key: (StateId, u16)|
                self.auto.edges.contains_key(key) || key.1 == ANY_INPUT && self.is_before(key.0, n),
            |key: (StateId, u16)|
                if self.auto.edges.contains_key(key) {
                    self.auto.edges[key]
                } else if key.0 == self.state {
                    Edge { to: self.auto.num_states as u16, action: None }
                } else {
                    Edge { to: (key.0 + 1) as u16, action: None }
                },
        )
    }

    /// Whether the draft has not read a byte of any value yet, and has room for
    /// `n` of them.
    pub open spec fn reads_no_byte_yet(self, n: nat) -> bool {
        &&& self.plain()
        &&& self.fits
        &&& self.bounded()
        &&& !self.auto.has(self.state, ANY_INPUT)
        &&& self.auto.num_states + n <= u16::MAX
    }

    /// One more byte takes one more transition.
    proof fn lemma_chain(self, n: nat)
        requires
            self.reads_no_byte_yet(n + 1),
        ensures
            !self.chain(n).contains_key((self.nth(n as int), ANY_INPUT)),
            self.chain(n + 1) == self.chain(n).insert(
                (self.nth(n as int), ANY_INPUT),
                Edge { to: self.nth((n + 1) as int), action: None },
            ),
    {
        assert forall|s: StateId, i: u16| #[trigger] self.auto.edges.contains_key((s, i)) implies s
            < self.auto.num_states by {
            assert(self.auto.has(s, i));
        }
        assert(!self.auto.edges.contains_key((self.state, ANY_INPUT)));
        assert(self.chain(n + 1) =~= self.chain(n).insert(
            (self.nth(n as int), ANY_INPUT),
            Edge { to: self.nth((n + 1) as int), action: None },
        ));
    }

    proof fn lemma_any_steps_chain(self, n: nat)
        requires
            self.reads_no_byte_yet(n),
        ensures
            self.any_steps(n) == (Draft {
                auto: Auto { num_states: self.auto.num_states + n, edges: self.chain(n) },
                state: self.nth(n as int),
                ..self
            }),
        decreases n,
    {
        if n == 0 {
            assert(self.chain(0) =~= self.auto.edges);
        } else {
            let m = (n - 1) as nat;
            self.lemma_any_steps_chain(m);
            self.lemma_chain(m);
            let d = self.any_steps(m);
            assert(!d.auto.has(d.state, ANY_INPUT));
            d.lemma_new_step(ANY_INPUT, None);
            assert(d.target(d.state, ANY_INPUT, None) == self.nth(n as int));
        }
    }

    proof fn lemma_any_or_nones_chain(self, min: nat, k: nat)
        requires
            self.reads_no_byte_yet(min + k),
        ensures
            self.any_steps(min).any_or_nones(k) == (Draft {
                auto: Auto {
                    num_states: self.auto.num_states + min + k,
                    edges: self.chain(min + k),
                },
                state: self.nth((min + k) as int),
                skipped: Seq::new(k, |j: int| self.nth(min + j)),
                ..self
            }),
        decreases k,
    {
        let start = self.any_steps(min);
        self.lemma_any_steps_chain(min);
        if k == 0 {
            assert(start.skipped =~= Seq::new(k, |j: int| self.nth(min + j)));
        } else {
            let m = (k - 1) as nat;
            self.lemma_any_or_nones_chain(min, m);
            self.lemma_chain(min + m);
            let d = start.any_or_nones(m);
            assert(!d.auto.has(d.state, ANY_INPUT));
            d.lemma_settle();
            d.lemma_new_edge(d.state, ANY_INPUT, None, true);
            let e = d.any_or_none();
            assert(min + k == (min + m) + 1);
            assert(e.skipped =~= Seq::new(k, |j: int| self.nth(min + j)));
        }
    }

    /// A number of bytes of any value is one the pattern goes on behind if and only
    /// if it is within the limits: fewer lead to a state the pattern has not been
    /// built up to, and more are not read. There is room for them if there is a
    /// state id for every one there may be.
    pub proof fn law_any_bytes_are_counted(self, min: nat, max: nat, n: nat)
        requires
            self.reads_no_byte_yet(max),
            min <= max,
        ensures
            ({
                let e = self.any(min, Some(max));
                &&& e.fits
                &&& e.auto.num_states == self.auto.num_states + max
                &&& n <= max <==> e.auto.follow_any(self.state, n) is Some
                &&& e.auto.follow_any(self.state, n) matches Some(s) ==> (e.ends_in(s) <==> min <= n
                    <= max)
            }),
    {
        let k = (max - min) as nat;
        let e = self.any(min, Some(max));
        self.lemma_any_or_nones_chain(min, k);
        assert(min + k == max);
        self.lemma_follow_chain(e.auto, max, n);
        if n <= max {
            let s = self.nth(n as int);
            if min <= n < max {
                assert(e.skipped[n - min] == s);
            }
            if n < min {
                assert(s != e.state);
                assert forall|j: int| 0 <= j < e.skipped.len() implies e.skipped[j] != s by {
                    assert(e.skipped[j] == self.nth(min + j));
                }
            }
        }
    }

    /// Without a limit, a number of bytes of any value is one the pattern goes on
    /// behind if and only if it is large enough.
    pub proof fn law_any_bytes_have_to_appear(self, min: nat, n: nat)
        requires
            self.reads_no_byte_yet(min),
        ensures
            ({
                let e = self.any(min, None);
                &&& e.fits
                &&& e.auto.num_states == self.auto.num_states + min
                &&& e.auto.follow_any(self.state, n) matches Some(s)
                &&& e.ends_in(s) <==> min <= n
            }),
    {
        let d = self.any_steps(min);
        let e = self.any(min, None);
        self.lemma_any_steps_chain(min);
        self.lemma_follow_chain(d.auto, min, min + 1);
        assert(d.auto.follow_any(self.state, min + 1) is None);
        self.lemma_follow_chain(d.auto, min, min);
        assert(!d.auto.has(d.state, ANY_INPUT));
        d.lemma_new_edge(d.state, ANY_INPUT, Some(d.state), true);
        d.lemma_edge(d.state, ANY_INPUT, Some(d.state), true);
        if n < min {
            self.lemma_follow_chain(d.auto, min, n);
            d.auto.lemma_follow_any_kept(e.auto, self.state, n);
            assert(self.nth(n as int) != self.nth(min as int));
        } else {
            self.law_any_bytes_may_go_on(min, n);
        }
    }

    proof fn lemma_follow_chain(self, auto: Auto<A>, max: nat, n: nat)
        requires
            self.reads_no_byte_yet(max),
            auto.edges == self.chain(max),
        ensures
            n <= max ==> auto.follow_any(self.state, n) == Some(self.nth(n as int)),
            n > max ==> auto.follow_any(self.state, n) is None,
        decreases n,
    {
        if n > 0 {
            let m = (n - 1) as nat;
            let key = (self.nth(m as int), ANY_INPUT);
            self.lemma_follow_chain(auto, max, m);
            if m <= max {
                if self.auto.has(key.0, key.1) {
                    assert(key.0 < self.auto.num_states);
                }
                assert(!self.auto.edges.contains_key(key));
                assert(self.chain(max).contains_key(key) <==> m < max);
            }
        }
    }
}

impl<A> Draft<A> {
    /// A string that is to lead to a state does so, and one that is pushed without
    /// one leads to where it is built up to, from where the pattern goes on.
    pub proof fn law_pushed_string_leads_to_the_given_state(
        self,
        input: Seq<u8>,
        to: StateId,
        case_sensitive: bool,
    )
        requires
            self.steps(input, Some(to), case_sensitive).fits,
            input.len() > 0,
        ensures
            self.steps(input, Some(to), case_sensitive).state == to,
            self.steps(input, Some(to), case_sensitive).auto.follow(self.state, input) == Some(to),
    {
        self.lemma_steps_state(input, to, case_sensitive);
        self.law_pushed_string_is_read(input, Some(to), case_sensitive, input);
    }

    proof fn lemma_steps_state(self, input: Seq<u8>, to: StateId, case_sensitive: bool)
        requires
            input.len() > 0,
        ensures
            self.steps(input, Some(to), case_sensitive).state == to,
        decreases input.len(),
    {
        if input.len() > 1 {
            self.step(input[0] as u16, None, case_sensitive).lemma_steps_state(
                input.drop_first(),
                to,
                case_sensitive,
            );
        } else {
            reveal_with_fuel(Draft::steps, 2);
        }
    }
}

} // verus!
