//! The automaton the patterns of a RESP2 parser are compiled into.

use super::model::{commands, crlf, edge, element_edges, patterns};
use super::parser::MAX_ARGS;
use crate::dfa::action::Action;
use crate::dfa::model::{Auto, Draft, Edge, ANY_INPUT, ANY_STATE, INIT_STATE};
use crate::{MatchId, StateId};
use crate::text::digits;
use vstd::prelude::*;

verus! {

/// The state behind the `*` that announces an array.
pub const STAR: StateId = 2;

/// The number of states the arrays of up to `n` elements take.
pub open spec fn states_of(n: int) -> int
    decreases n,
{
    if n <= 0 {
        3
    } else {
        states_of(n - 1) + 3 + 12 * n
    }
}

/// The state the `k`th element of an array of `n` begins in, or the one behind
/// the last of them.
pub open spec fn slot_of(n: int, k: int) -> int {
    if k == 0 {
        states_of(n - 1) + 2
    } else {
        element_base(n, k - 1) + 5
    }
}

/// The first of the states of the `k`th element of an array of `n`.
pub open spec fn element_base(n: int, k: int) -> int {
    states_of(n - 1) + 3 + 12 * k
}

/// Whether the automaton has all of the transitions.
pub open spec fn includes(auto: Auto<Action>, edges: Map<(StateId, u16), Edge<Action>>) -> bool {
    forall|from: StateId, input: u16| #[trigger]
        edges.contains_key((from, input)) ==> auto.edges.contains_key((from, input))
            && auto.edges[(from, input)] == edges[(from, input)]
}

/// Whether no transition but those for `inputs` leaves the state.
pub open spec fn reads_only(auto: Auto<Action>, state: StateId, inputs: Set<u16>) -> bool {
    forall|input: u16| #[trigger] auto.has(state, input) ==> inputs.contains(input)
}

/// The first bytes an element can have.
pub open spec fn kinds() -> Set<u16> {
    set![0x24u16, 0x2Bu16, 0x2Du16, 0x3Au16]
}

/// Whether an element begins in `slot`.
pub open spec fn begins_element(
    auto: Auto<Action>,
    slot: int,
    b: int,
    mid: Option<MatchId>,
    done: bool,
) -> bool {
    &&& includes(auto, element_edges(slot as u16, b, mid, done))
    &&& reads_only(auto, b as u16, set![ANY_INPUT, 0x2Du16])
    &&& reads_only(auto, (b + 1) as u16, set![ANY_INPUT, 0x0Du16])
    &&& reads_only(auto, (b + 9) as u16, set![ANY_INPUT])
    &&& reads_only(auto, (b + 10) as u16, set![ANY_INPUT, 0x0Du16])
}

/// Whether an element begins in `slot`, and nothing else does.
pub open spec fn has_element(
    auto: Auto<Action>,
    slot: int,
    b: int,
    mid: Option<MatchId>,
    done: bool,
) -> bool {
    &&& begins_element(auto, slot, b, mid, done)
    &&& reads_only(auto, slot as u16, kinds())
}

/// Whether the `k`th element of an array of `n` begins where it is to.
pub open spec fn has_element_of(
    auto: Auto<Action>,
    args: Seq<Option<MatchId>>,
    n: int,
    k: int,
) -> bool {
    has_element(auto, slot_of(n, k), element_base(n, k), args[k], k == n - 1)
}

/// Whether an array of `n` elements is announced behind the `*`, followed by
/// its elements.
pub open spec fn has_array(auto: Auto<Action>, args: Seq<Option<MatchId>>, n: int) -> bool {
    let c = states_of(n - 1);
    &&& auto.edges.contains_key((STAR, (0x30 + n) as u16))
    &&& auto.edges[(STAR, (0x30 + n) as u16)] == edge(c, None)
    &&& auto.edges.contains_key((c as u16, 0x0Du16))
    &&& auto.edges[(c as u16, 0x0Du16)] == edge(c + 1, None)
    &&& reads_only(auto, c as u16, set![0x0Du16])
    &&& auto.edges.contains_key(((c + 1) as u16, 0x0Au16))
    &&& auto.edges[((c + 1) as u16, 0x0Au16)] == edge(c + 2, None)
    &&& forall|k: int| 0 <= k < n ==> #[trigger] has_element_of(auto, args, n, k)
}

/// The bytes that can follow the `*` if the arrays of up to `n` elements are
/// announced.
pub open spec fn counts(n: int) -> Set<u16> {
    Set::new(|input: u16| 0x31 <= input <= 0x30 + n)
}

/// Whether the automaton is that of the arrays of up to `n` elements.
pub open spec fn has_arrays(auto: Auto<Action>, args: Seq<Option<MatchId>>, n: int) -> bool {
    &&& auto.in_bounds()
    &&& auto.num_states == states_of(n)
    &&& auto.edges.contains_key((INIT_STATE, 0x2Au16))
    &&& auto.edges[(INIT_STATE, 0x2Au16)] == edge(STAR as int, None)
    &&& reads_only(auto, INIT_STATE, set![0x2Au16])
    &&& reads_only(auto, ANY_STATE, set![])
    &&& reads_only(auto, STAR, counts(n))
    &&& forall|m: int| 1 <= m <= n ==> #[trigger] has_array(auto, args, m)
}

/// Whether `later` has the transitions of `auto`, and no others out of its
/// states but out of those `touched`.
pub open spec fn kept(auto: Auto<Action>, later: Auto<Action>, touched: Set<StateId>) -> bool {
    &&& auto.num_states <= later.num_states
    &&& includes(later, auto.edges)
    &&& forall|from: StateId, input: u16|
        from < auto.num_states && !touched.contains(from) && #[trigger] later.has(from, input)
            ==> auto.has(from, input)
}

proof fn lemma_kept_element(
    auto: Auto<Action>,
    later: Auto<Action>,
    touched: Set<StateId>,
    slot: int,
    b: int,
    mid: Option<MatchId>,
    done: bool,
)
    requires
        kept(auto, later, touched),
        0 <= slot < auto.num_states <= u16::MAX,
        0 <= b <= auto.num_states - 12,
        forall|s: StateId|
            touched.contains(s) ==> s != slot && (s < b || s == b + 5 || s >= b + 12),
        has_element(auto, slot, b, mid, done),
    ensures
        has_element(later, slot, b, mid, done),
{
    lemma_kept_reads(auto, later, touched, slot as u16, kinds());
    lemma_kept_reads(auto, later, touched, b as u16, set![ANY_INPUT, 0x2Du16]);
    lemma_kept_reads(auto, later, touched, (b + 1) as u16, set![ANY_INPUT, 0x0Du16]);
    lemma_kept_reads(auto, later, touched, (b + 9) as u16, set![ANY_INPUT]);
    lemma_kept_reads(auto, later, touched, (b + 10) as u16, set![ANY_INPUT, 0x0Du16]);
}

proof fn lemma_kept_reads(
    auto: Auto<Action>,
    later: Auto<Action>,
    touched: Set<StateId>,
    state: StateId,
    inputs: Set<u16>,
)
    requires
        kept(auto, later, touched),
        state < auto.num_states,
        !touched.contains(state),
        reads_only(auto, state, inputs),
    ensures
        reads_only(later, state, inputs),
{
    assert forall|input: u16| #[trigger] later.has(state, input) implies inputs.contains(input) by {
        assert(auto.has(state, input));
    }
}

/// The states of a new element read nothing but what its transitions read.
proof fn lemma_begins_element(
    auto: Auto<Action>,
    later: Auto<Action>,
    slot: StateId,
    mid: Option<MatchId>,
    done: bool,
)
    requires
        auto.in_bounds(),
        slot < auto.num_states <= u16::MAX - 12,
        later.edges == auto.edges.union_prefer_right(
            element_edges(slot, auto.num_states, mid, done),
        ),
    ensures
        begins_element(later, slot as int, auto.num_states, mid, done),
{
    let b = auto.num_states;
    let new = element_edges(slot, b, mid, done);
    assert forall|from: StateId, input: u16| from >= b && #[trigger] later.has(
        from,
        input,
    ) implies new.contains_key((from, input)) by {
        assert(!auto.has(from, input));
    }
    assert forall|input: u16| #[trigger] later.has(b as u16, input) implies set![
        ANY_INPUT,
        0x2Du16,
    ].contains(input) by {
        assert(new.contains_key((b as u16, input)));
    }
    assert forall|input: u16| #[trigger] later.has((b + 1) as u16, input) implies set![
        ANY_INPUT,
        0x0Du16,
    ].contains(input) by {
        assert(new.contains_key(((b + 1) as u16, input)));
    }
    assert forall|input: u16| #[trigger] later.has((b + 9) as u16, input) implies set![
        ANY_INPUT,
    ].contains(input) by {
        assert(new.contains_key(((b + 9) as u16, input)));
    }
    assert forall|input: u16| #[trigger] later.has((b + 10) as u16, input) implies set![
        ANY_INPUT,
        0x0Du16,
    ].contains(input) by {
        assert(new.contains_key(((b + 10) as u16, input)));
    }
}

pub proof fn lemma_states_of(n: int)
    requires
        1 <= n <= 8,
    ensures
        states_of(n - 1) + 3 + 12 * n == states_of(n),
        3 <= states_of(n - 1) < states_of(n) <= 459,
        states_of(0) == 3,
        states_of(8) == 459,
{
    reveal_with_fuel(states_of, 9);
}

proof fn lemma_kept_array(
    auto: Auto<Action>,
    later: Auto<Action>,
    touched: Set<StateId>,
    args: Seq<Option<MatchId>>,
    n: int,
)
    requires
        kept(auto, later, touched),
        1 <= n <= 8,
        states_of(n) <= auto.num_states <= u16::MAX,
        forall|s: StateId| touched.contains(s) ==> s < 3 || s >= states_of(n),
        has_array(auto, args, n),
    ensures
        has_array(later, args, n),
{
    lemma_states_of(n);
    let c = states_of(n - 1);
    assert forall|input: u16| #[trigger] later.has(c as u16, input) implies set![0x0Du16].contains(
        input,
    ) by {
        assert(auto.has(c as u16, input));
    }
    assert(auto.edges.contains_key((STAR, (0x30 + n) as u16)));
    assert(auto.edges.contains_key((c as u16, 0x0Du16)));
    assert(auto.edges.contains_key(((c + 1) as u16, 0x0Au16)));
    assert forall|k: int| 0 <= k < n implies #[trigger] has_element_of(later, args, n, k) by {
        assert(has_element_of(auto, args, n, k));
        lemma_kept_element(
            auto,
            later,
            touched,
            slot_of(n, k),
            element_base(n, k),
            args[k],
            k == n - 1,
        );
    }
}

impl Draft<Action> {
    /// What the patterns of the elements of an array are compiled into.
    proof fn lemma_elements(self, args: Seq<Option<MatchId>>, n: nat, k: nat)
        requires
            1 <= n <= 8,
            k <= n <= args.len(),
            self.fits,
            self.auto.in_bounds(),
            self.auto.num_states == states_of(n - 1) + 3,
            self.state == slot_of(n as int, 0),
            reads_only(self.auto, self.state, set![]),
        ensures
            ({
                let r = self.elements(args, n, k);
                &&& r.fits
                &&& r.auto.in_bounds()
                &&& r.auto.num_states == self.auto.num_states + 12 * k
                &&& r.state == slot_of(n as int, k as int)
                &&& reads_only(r.auto, r.state, set![])
                &&& kept(self.auto, r.auto, set![self.state])
                &&& forall|j: int|
                    0 <= j < k ==> #[trigger] has_element_of(r.auto, args, n as int, j)
            }),
        decreases k,
    {
        lemma_states_of(n as int);
        if k > 0 {
            self.lemma_elements(args, n, (k - 1) as nat);
            let d = self.elements(args, n, (k - 1) as nat);
            let slot = d.state;
            let b = d.auto.num_states;
            assert(!d.auto.has(slot, 0x24));
            assert(!d.auto.has(slot, 0x2B));
            assert(!d.auto.has(slot, 0x2D));
            assert(!d.auto.has(slot, 0x3A));
            d.lemma_element(slot, args[k - 1], k == n);
            let r = self.elements(args, n, k);
            let new = element_edges(slot, b, args[k - 1], k == n);
            assert(b == element_base(n as int, k - 1));
            assert forall|from: StateId, input: u16| #[trigger]
                d.auto.edges.contains_key((from, input)) implies r.auto.edges.contains_key(
                (from, input),
            ) && r.auto.edges[(from, input)] == d.auto.edges[(from, input)] by {
                assert(d.auto.has(from, input));
                assert(from < b && from != slot);
                assert(!new.contains_key((from, input)));
            }
            assert forall|from: StateId, input: u16|
                from < d.auto.num_states && from != slot && #[trigger] r.auto.has(
                    from,
                    input,
                ) implies d.auto.has(from, input) by {
                assert(!new.contains_key((from, input)));
            }
            assert(kept(d.auto, r.auto, set![slot]));
            assert forall|input: u16| #[trigger] r.auto.has(slot, input) implies kinds().contains(
                input,
            ) by {
                assert(!d.auto.has(slot, input));
                assert(new.contains_key((slot, input)));
            }
            lemma_begins_element(d.auto, r.auto, slot, args[k - 1], k == n);
            assert(has_element(r.auto, slot as int, b, args[k - 1], k == n));
            assert forall|input: u16| !#[trigger] r.auto.has(r.state, input) by {
                assert(!d.auto.has(r.state, input));
                assert(!new.contains_key((r.state, input)));
            }
            assert forall|j: int| 0 <= j < k implies #[trigger] has_element_of(
                r.auto,
                args,
                n as int,
                j,
            ) by {
                if j < k - 1 {
                    assert(has_element_of(d.auto, args, n as int, j));
                    lemma_kept_element(
                        d.auto,
                        r.auto,
                        set![slot],
                        slot_of(n as int, j),
                        element_base(n as int, j),
                        args[j],
                        j == n - 1,
                    );
                }
            }
            assert(kept(self.auto, r.auto, set![self.state])) by {
                assert forall|from: StateId, input: u16| #[trigger]
                    self.auto.edges.contains_key((from, input)) implies r.auto.edges.contains_key(
                    (from, input),
                ) && r.auto.edges[(from, input)] == self.auto.edges[(from, input)] by {
                    assert(d.auto.edges.contains_key((from, input)));
                }
                assert forall|from: StateId, input: u16|
                    from < self.auto.num_states && from != self.state && #[trigger] r.auto.has(
                        from,
                        input,
                    ) implies self.auto.has(from, input) by {
                    assert(from != slot);
                    assert(d.auto.has(from, input));
                }
            }
        }
    }

    /// What the pattern of the announcement of an array is compiled into.
    proof fn lemma_array_header(self, n: nat)
        requires
            1 <= n <= 8,
            self.fits,
            self.auto.in_bounds(),
            reads_only(self.auto, INIT_STATE, set![0x2Au16]),
            n == 1 ==> self.auto == Auto::<Action>::fresh(2),
            n > 1 ==> {
                &&& self.auto.num_states == states_of(n - 1)
                &&& self.auto.edges.contains_key((INIT_STATE, 0x2Au16))
                &&& self.auto.edges[(INIT_STATE, 0x2Au16)] == edge(STAR as int, None)
                &&& !self.auto.has(STAR, (0x30 + n) as u16)
            },
        ensures
            ({
                let c = states_of(n - 1);
                let r = self.array_header(n);
                &&& r.fits
                &&& r.state == c + 2
                &&& r.auto.num_states == c + 3
                &&& r.auto.edges == self.auto.edges.insert(
                    (INIT_STATE, 0x2Au16),
                    edge(STAR as int, None),
                ).insert((STAR, (0x30 + n) as u16), edge(c, None)).insert(
                    (c as u16, 0x0Du16),
                    edge(c + 1, None),
                ).insert(((c + 1) as u16, 0x0Au16), edge(c + 2, None))
            }),
    {
        lemma_states_of(n as int);
        let c = states_of(n - 1);
        assert forall|from: StateId, input: u16| from >= self.auto.num_states implies !(
        #[trigger] self.auto.edges.contains_key((from, input))) by {
            assert(self.auto.has(from, input) ==> from < self.auto.num_states);
        }
        let digit = (0x30 + n) as u8;
        assert(digits(n) =~= seq![digit]);
        let d0 = self.again(INIT_STATE);
        let d1 = d0.steps(seq![0x2A], None, true);
        d0.lemma_steps_one(0x2A, None, true);
        if n == 1 {
            assert(!d0.auto.has(INIT_STATE, 0x2A));
            d0.lemma_new_step(0x2A, None);
        } else {
            d0.lemma_old_step(0x2A);
            assert(d0.auto.edges =~= d0.auto.edges.insert(
                (INIT_STATE, 0x2Au16),
                edge(STAR as int, None),
            ));
        }
        assert(d1.state == STAR);
        assert(d1.auto.num_states == c);
        let d2 = d1.steps(digits(n), None, true);
        d1.lemma_steps_one(digit, None, true);
        d1.lemma_new_step(digit as u16, None);
        let d3 = d2.steps(crlf(), None, true);
        d2.lemma_steps_two(0x0D, 0x0A, None, true);
        d2.lemma_new_step(0x0D, None);
        d2.step(0x0D, None, true).lemma_new_step(0x0A, None);
    }

    /// What the patterns of the arrays of up to `n` elements are compiled into.
    proof fn lemma_arrays(self, args: Seq<Option<MatchId>>, n: nat)
        requires
            self.fits,
            self.auto == Auto::<Action>::fresh(2),
            n <= 8 <= args.len(),
        ensures
            self.arrays(args, n).fits,
            n >= 1 ==> has_arrays(self.arrays(args, n).auto, args, n as int),
        decreases n,
    {
        if n >= 1 {
            self.lemma_arrays(args, (n - 1) as nat);
            lemma_states_of(n as int);
            let c = states_of(n - 1);
            let d = self.arrays(args, (n - 1) as nat);
            if n > 1 {
                lemma_states_of(n - 1);
                assert(!d.auto.has(STAR, (0x30 + n) as u16));
            }
            d.lemma_array_header(n);
            let h = d.array_header(n);
            assert(h.auto.in_bounds()) by {
                assert forall|from: StateId, input: u16| #[trigger]
                    h.auto.has(from, input) implies from < h.auto.num_states && h.auto.to(
                    from,
                    input,
                ) < h.auto.num_states by {
                    if d.auto.has(from, input) {
                    }
                }
            }
            assert forall|input: u16| !#[trigger] h.auto.has(h.state, input) by {
                assert(!d.auto.has(h.state, input));
            }
            h.lemma_elements(args, n, n);
            let r = h.elements(args, n, n);
            let a = r.auto;
            assert(h.auto.edges.contains_key((INIT_STATE, 0x2Au16)));
            assert(h.auto.edges.contains_key((STAR, (0x30 + n) as u16)));
            assert(h.auto.edges.contains_key((c as u16, 0x0Du16)));
            assert(h.auto.edges.contains_key(((c + 1) as u16, 0x0Au16)));
            assert forall|input: u16| #[trigger] a.has(INIT_STATE, input) implies set![
                0x2Au16,
            ].contains(input) by {
                assert(h.auto.has(INIT_STATE, input));
                assert(input != 0x2A ==> d.auto.has(INIT_STATE, input));
            }
            assert forall|input: u16| !#[trigger] a.has(ANY_STATE, input) by {
                assert(a.has(ANY_STATE, input) ==> h.auto.has(ANY_STATE, input));
                assert(h.auto.has(ANY_STATE, input) ==> d.auto.has(ANY_STATE, input));
            }
            assert forall|input: u16| #[trigger] a.has(STAR, input) implies counts(
                n as int,
            ).contains(input) by {
                assert(h.auto.has(STAR, input));
                assert(input != 0x30 + n ==> d.auto.has(STAR, input));
            }
            assert forall|input: u16| #[trigger] a.has(c as u16, input) implies set![
                0x0Du16,
            ].contains(input) by {
                assert(h.auto.has(c as u16, input));
                assert(!d.auto.has(c as u16, input));
            }
            assert(has_array(a, args, n as int));
            assert forall|m: int| 1 <= m <= n implies #[trigger] has_array(a, args, m) by {
                if m < n {
                    assert(has_array(d.auto, args, m));
                    lemma_states_between(m, n as int);
                    assert(kept(d.auto, h.auto, set![STAR])) by {
                        assert forall|from: StateId, input: u16| #[trigger]
                            d.auto.edges.contains_key(
                                (from, input),
                            ) implies h.auto.edges.contains_key((from, input))
                            && h.auto.edges[(from, input)] == d.auto.edges[(from, input)] by {
                            assert(d.auto.has(from, input));
                        }
                    }
                    lemma_kept_array(d.auto, h.auto, set![STAR], args, m);
                    lemma_kept_array(h.auto, a, set![h.state], args, m);
                }
            }
        }
    }
}

proof fn lemma_states_between(m: int, n: int)
    requires
        1 <= m < n <= 8,
    ensures
        states_of(m) <= states_of(n - 1),
    decreases n,
{
    if m < n - 1 {
        lemma_states_between(m, n - 1);
    }
}

/// The first of the states a reply takes that is a single element.
pub const REPLY: StateId = 459;

/// The first of the states a null array takes.
pub const NULL_ARRAY: StateId = 471;

/// The first of the states an empty array takes.
pub const EMPTY_ARRAY: StateId = 475;

/// The number of states a parser takes.
pub const NUM_STATES: u16 = 478;

/// The transitions of the arrays that carry nothing.
pub open spec fn empty_edges() -> Map<(StateId, u16), Edge<Action>> {
    map![
        (STAR, 0x2Du16) => edge(471, None),
        (471u16, 0x31u16) => edge(472, None),
        (472u16, 0x0Du16) => edge(473, None),
        (473u16, 0x0Au16) => edge(474, Some(Action::Done)),
        (STAR, 0x30u16) => edge(475, None),
        (475u16, 0x0Du16) => edge(476, None),
        (476u16, 0x0Au16) => edge(477, Some(Action::Done))
    ]
}

/// The bytes that can follow the `*`.
pub open spec fn all_counts() -> Set<u16> {
    Set::new(|input: u16| 0x30 <= input <= 0x38 || input == 0x2D)
}

/// The bytes a message can begin with.
pub open spec fn first_bytes() -> Set<u16> {
    set![0x24u16, 0x2Bu16, 0x2Du16, 0x3Au16, 0x2Au16]
}

/// Whether the automaton is that of a parser that captures `args` and `reply`.
pub open spec fn has_shape(
    auto: Auto<Action>,
    args: Seq<Option<MatchId>>,
    reply: Option<MatchId>,
) -> bool {
    &&& auto.in_bounds()
    &&& auto.num_states == NUM_STATES
    &&& auto.edges.contains_key((INIT_STATE, 0x2Au16))
    &&& auto.edges[(INIT_STATE, 0x2Au16)] == edge(STAR as int, None)
    &&& reads_only(auto, INIT_STATE, first_bytes())
    &&& reads_only(auto, ANY_STATE, set![])
    &&& reads_only(auto, STAR, all_counts())
    &&& forall|m: int| 1 <= m <= 8 ==> #[trigger] has_array(auto, args, m)
    &&& begins_element(auto, INIT_STATE as int, REPLY as int, reply, true)
    &&& includes(auto, empty_edges())
}

impl Draft<Action> {
    /// What the pattern of an array that carries nothing is compiled into.
    proof fn lemma_empty_array(self, spelling: Seq<u8>)
        requires
            self.fits,
            self.auto.in_bounds(),
            self.auto.num_states <= u16::MAX - 4,
            STAR < self.auto.num_states,
            self.auto.has(INIT_STATE, 0x2A),
            self.auto.to(INIT_STATE, 0x2A) == STAR,
            spelling == seq![0x2Au8, 0x2D, 0x31] || spelling == seq![0x2Au8, 0x30],
            !self.auto.has(STAR, spelling[1] as u16),
        ensures
            ({
                let b = self.auto.num_states;
                let r = self.empty_array(spelling);
                &&& r.fits
                &&& r.auto.in_bounds()
                &&& spelling.len() == 3 ==> {
                    &&& r.auto.num_states == b + 4
                    &&& r.auto.edges == self.auto.edges.insert(
                        (STAR, 0x2Du16),
                        edge(b, None),
                    ).insert((b as u16, 0x31u16), edge(b + 1, None)).insert(
                        ((b + 1) as u16, 0x0Du16),
                        edge(b + 2, None),
                    ).insert(((b + 2) as u16, 0x0Au16), edge(b + 3, Some(Action::Done)))
                }
                &&& spelling.len() == 2 ==> {
                    &&& r.auto.num_states == b + 3
                    &&& r.auto.edges == self.auto.edges.insert(
                        (STAR, 0x30u16),
                        edge(b, None),
                    ).insert((b as u16, 0x0Du16), edge(b + 1, None)).insert(
                        ((b + 1) as u16, 0x0Au16),
                        edge(b + 2, Some(Action::Done)),
                    )
                }
            }),
    {
        let b = self.auto.num_states;
        assert forall|from: StateId, input: u16| #[trigger]
            self.auto.edges.contains_key((from, input)) implies from < b
            && self.auto.edges[(from, input)].to < b by {
            assert(self.auto.has(from, input));
        }
        reveal_with_fuel(Draft::steps, 2);
        let d0 = self.again(INIT_STATE);
        d0.lemma_old_step(0x2A);
        let d1 = d0.step(0x2A, None, true);
        let d2 = d0.steps(spelling, None, true);
        if spelling.len() == 3 {
            assert(spelling.drop_first() =~= seq![0x2Du8, 0x31]);
            d1.lemma_steps_two(0x2D, 0x31, None, true);
            d1.lemma_new_step(0x2D, None);
            d1.step(0x2D, None, true).lemma_new_step(0x31, None);
        } else {
            assert(spelling.drop_first() =~= seq![0x30u8]);
            d1.lemma_steps_one(0x30, None, true);
            d1.lemma_new_step(0x30, None);
        }
        let d3 = d2.steps(crlf(), None, true);
        d2.lemma_steps_two(0x0D, 0x0A, None, true);
        d2.lemma_new_step(0x0D, None);
        d2.step(0x0D, None, true).lemma_new_step(0x0A, None);
        let r = d3.with(Action::Done);
        d3.lemma_with_keys(set![((d3.state - 1) as u16, 0x0Au16)], Action::Done);
        if spelling.len() == 3 {
            assert(r.auto.edges =~= self.auto.edges.insert((STAR, 0x2Du16), edge(b, None)).insert(
                (b as u16, 0x31u16),
                edge(b + 1, None),
            ).insert(((b + 1) as u16, 0x0Du16), edge(b + 2, None)).insert(
                ((b + 2) as u16, 0x0Au16),
                edge(b + 3, Some(Action::Done)),
            ));
        } else {
            assert(r.auto.edges =~= self.auto.edges.insert((STAR, 0x30u16), edge(b, None)).insert(
                (b as u16, 0x0Du16),
                edge(b + 1, None),
            ).insert(((b + 1) as u16, 0x0Au16), edge(b + 2, Some(Action::Done))));
        }
        assert forall|from: StateId, input: u16| #[trigger]
            r.auto.has(from, input) implies from < r.auto.num_states && r.auto.to(from, input)
            < r.auto.num_states by {
            if self.auto.has(from, input) {
            }
        }
    }
}

/// The states the transitions of an element leave.
proof fn lemma_element_keys(slot: StateId, b: int, mid: Option<MatchId>, done: bool)
    requires
        slot < b <= u16::MAX - 12,
    ensures
        forall|from: StateId, input: u16| #[trigger]
            element_edges(slot, b, mid, done).contains_key((from, input)) ==> (from == slot
                && kinds().contains(input)) || b <= from < b + 12,
{
}

/// The states the transitions of the arrays that carry nothing leave.
proof fn lemma_empty_keys()
    ensures
        forall|from: StateId, input: u16| #[trigger]
            empty_edges().contains_key((from, input)) ==> (from == STAR && (input == 0x2D || input
                == 0x30)) || NULL_ARRAY <= from < NUM_STATES,
{
}

/// What the patterns of replies are compiled into.
proof fn lemma_replies(c: Draft<Action>, args: Seq<Option<MatchId>>, reply: Option<MatchId>)
    requires
        c.fits,
        has_arrays(c.auto, args, 8),
    ensures
        c.replies(reply).fits,
        c.replies(reply).auto.in_bounds(),
        c.replies(reply).auto.num_states == NUM_STATES,
        c.replies(reply).auto.edges == c.auto.edges.union_prefer_right(
            element_edges(INIT_STATE, REPLY as int, reply, true),
        ).union_prefer_right(empty_edges()),
{
    lemma_states_of(8);
    assert(!c.auto.has(INIT_STATE, 0x24));
    assert(!c.auto.has(INIT_STATE, 0x2B));
    assert(!c.auto.has(INIT_STATE, 0x2D));
    assert(!c.auto.has(INIT_STATE, 0x3A));
    c.lemma_element(INIT_STATE, reply, true);
    let e = c.element(INIT_STATE, reply, true);
    let new = element_edges(INIT_STATE, REPLY as int, reply, true);
    lemma_element_keys(INIT_STATE, REPLY as int, reply, true);
    let spell_null = seq![0x2Au8, 0x2D, 0x31];
    let spell_empty = seq![0x2Au8, 0x30];
    assert(!new.contains_key((INIT_STATE, 0x2Au16)));
    assert(e.auto.has(INIT_STATE, 0x2A));
    assert(!c.auto.has(STAR, 0x2D));
    assert(!new.contains_key((STAR, 0x2Du16)));
    assert(!e.auto.has(STAR, 0x2D));
    e.lemma_empty_array(spell_null);
    let n = e.empty_array(spell_null);
    assert(n.auto.has(INIT_STATE, 0x2A));
    assert(!c.auto.has(STAR, 0x30));
    assert(!new.contains_key((STAR, 0x30u16)));
    assert(!n.auto.has(STAR, 0x30));
    n.lemma_empty_array(spell_empty);
    assert(c.replies(reply) == n.empty_array(spell_empty));
    assert(n.empty_array(spell_empty).auto.edges =~= e.auto.edges.union_prefer_right(
        empty_edges(),
    ));
}

/// The patterns of a parser fit, whatever it captures, and are compiled into
/// the automaton of that shape.
pub proof fn lemma_patterns(args: Seq<Option<MatchId>>, reply: Option<MatchId>)
    requires
        args.len() == MAX_ARGS,
    ensures
        commands(args).fits,
        has_arrays(commands(args).auto, args, 8),
        patterns(args, reply).fits,
        has_shape(patterns(args, reply).auto, args, reply),
{
    let start = Draft::start(Auto::<Action>::fresh(2), INIT_STATE);
    start.lemma_arrays(args, 8);
    lemma_states_of(8);
    let c = commands(args);
    lemma_replies(c, args, reply);
    let new = element_edges(INIT_STATE, REPLY as int, reply, true);
    let empty = empty_edges();
    lemma_element_keys(INIT_STATE, REPLY as int, reply, true);
    lemma_empty_keys();
    let a = patterns(args, reply).auto;
    let e = Auto { num_states: 471, edges: c.auto.edges.union_prefer_right(new) };
    lemma_begins_element(c.auto, e, INIT_STATE, reply, true);
    assert(begins_element(a, INIT_STATE as int, REPLY as int, reply, true)) by {
        assert forall|from: StateId, input: u16| REPLY <= from < 471 && #[trigger] a.has(
            from,
            input,
        ) implies e.has(from, input) by {
            assert(!empty.contains_key((from, input)));
        }
        assert forall|from: StateId, input: u16| #[trigger]
            new.contains_key((from, input)) implies a.edges.contains_key((from, input))
            && a.edges[(from, input)] == new[(from, input)] by {
            assert(!empty.contains_key((from, input)));
        }
    }
    assert forall|from: StateId, input: u16| #[trigger]
        c.auto.edges.contains_key((from, input)) implies a.edges.contains_key((from, input))
        && a.edges[(from, input)] == c.auto.edges[(from, input)] by {
        assert(c.auto.has(from, input));
        assert(from == INIT_STATE ==> input == 0x2A);
        assert(from == STAR ==> counts(8).contains(input));
        assert(!new.contains_key((from, input)));
        assert(!empty.contains_key((from, input)));
    }
    let touched = set![INIT_STATE, STAR];
    assert forall|from: StateId, input: u16|
        from < c.auto.num_states && !touched.contains(from) && #[trigger] a.has(
            from,
            input,
        ) implies c.auto.has(from, input) by {
        assert(!new.contains_key((from, input)));
        assert(!empty.contains_key((from, input)));
    }
    assert(kept(c.auto, a, touched));
    assert forall|m: int| 1 <= m <= 8 implies #[trigger] has_array(a, args, m) by {
        assert(has_array(c.auto, args, m));
        if m < 8 {
            lemma_states_between(m, 8);
        }
        lemma_kept_array(c.auto, a, touched, args, m);
    }
    assert forall|input: u16| #[trigger] a.has(INIT_STATE, input) implies first_bytes().contains(
        input,
    ) by {
        assert(!empty.contains_key((INIT_STATE, input)));
        assert(new.contains_key((INIT_STATE, input)) || c.auto.has(INIT_STATE, input));
    }
    assert forall|input: u16| !#[trigger] a.has(ANY_STATE, input) by {
        assert(!c.auto.has(ANY_STATE, input));
        assert(!new.contains_key((ANY_STATE, input)));
        assert(!empty.contains_key((ANY_STATE, input)));
    }
    assert forall|input: u16| #[trigger] a.has(STAR, input) implies all_counts().contains(
        input,
    ) by {
        if !empty.contains_key((STAR, input)) {
            assert(!new.contains_key((STAR, input)));
            assert(c.auto.has(STAR, input));
        }
    }
}

} // verus!
