//! The field representations of HPACK, and its static table.

use super::action::{
    Action, Kind, F_ADD_DT, F_CONT, F_HUFF, S_DEAD, S_FIELD, S_IDX4_CONT, S_IDX6_CONT,
    S_IDX7_CONT, S_KEY_LEN, S_KEY_LEN_CONT, S_KEY_LEN_CONT_HUFF, S_NAME, S_RESERVED, S_STG_CONT,
    S_VAL_LEN, S_VAL_LEN_CONT, S_VAL_LEN_CONT_HUFF,
};
use crate::dfa::model::{Auto, Edge};
use crate::dfa::Dfa;
use crate::StateId;
use vstd::prelude::*;

verus! {

/// An action without flags.
pub open spec fn plain(kind: Kind, val: int) -> Action {
    Action { kind, val: val as u16, flags: 0 }
}

/// An integer whose `prefix` is the low bits of the first byte, the largest of
/// which is `max`: what the byte leads to and what it carries if the integer
/// fits into it, and where it goes on otherwise. See section 5.1 of RFC 7541.
pub open spec fn integer(
    prefix: int,
    max: int,
    kind: Kind,
    flags: u8,
    to: StateId,
    cont: StateId,
) -> (StateId, Action) {
    if prefix < max {
        (to, Action { kind, val: prefix as u16, flags })
    } else {
        (cont, plain(Kind::IntStart, max))
    }
}

/// What the first byte of a representation leads to, see section 6 of RFC 7541.
pub open spec fn field(b: u8) -> (StateId, Action) {
    if b >= 0x80 {
        // an indexed field, 7 bit prefix. The index 0 is not used
        if b == 0x80 {
            (S_DEAD, plain(Kind::Malformed, 0))
        } else {
            integer(b - 0x80, 0x7F, Kind::Indexed, 0, S_FIELD, S_IDX7_CONT)
        }
    } else if b >= 0x40 {
        // a literal field that is added to the dynamic table, 6 bit prefix
        if b == 0x40 {
            (S_KEY_LEN, Action { kind: Kind::LitName, val: 0, flags: F_ADD_DT })
        } else {
            integer(b - 0x40, 0x3F, Kind::IdxName, F_ADD_DT, S_VAL_LEN, S_IDX6_CONT)
        }
    } else if b >= 0x20 {
        // a dynamic table size update, 5 bit prefix
        integer(b - 0x20, 0x1F, Kind::TableSize, 0, S_FIELD, S_STG_CONT)
    } else {
        // a literal field that is not, 4 bit prefix
        let prefix = b % 0x10;
        if prefix == 0 {
            (S_KEY_LEN, plain(Kind::LitName, 0))
        } else {
            integer(prefix as int, 0x0F, Kind::IdxName, 0, S_VAL_LEN, S_IDX4_CONT)
        }
    }
}

/// What the byte announcing the length of a string leads to, see section 5.2 of
/// RFC 7541. It carries the Huffman bit in its top bit and a 7 bit prefix.
pub open spec fn length(b: u8, kind: Kind, to: StateId, cont: StateId, cont_huff: StateId) -> (
    StateId,
    Action,
) {
    if b < 0x80 {
        integer(b as int, 0x7F, kind, 0, to, cont)
    } else {
        integer(b - 0x80, 0x7F, kind, F_HUFF, to, cont_huff)
    }
}

/// What a byte of an integer leads to that did not fit into the prefix of its
/// first byte, see section 5.1 of RFC 7541. The top bit says whether another
/// follows.
pub open spec fn continuation(from: StateId, b: u8, kind: Kind, to: StateId, flags: u8) -> (
    StateId,
    Action,
) {
    if b < 0x80 {
        (to, Action { kind, val: 0, flags: (flags + F_CONT) as u8 })
    } else {
        (from, plain(Kind::IntCont, 0))
    }
}

/// Whether a representation is walked with the state. The transitions of
/// [`S_DEAD`] and [`S_NAME`] are left to the patterns.
pub open spec fn walks_representation(state: StateId) -> bool {
    S_FIELD <= state < S_RESERVED && state != S_NAME
}

/// What a byte leads to in a state a representation is walked with.
pub open spec fn representation(state: StateId, b: u8) -> (StateId, Action) {
    if state == S_FIELD {
        field(b)
    } else if state == S_KEY_LEN {
        length(b, Kind::KeyLen, S_NAME, S_KEY_LEN_CONT, S_KEY_LEN_CONT_HUFF)
    } else if state == S_VAL_LEN {
        length(b, Kind::ValLen, S_FIELD, S_VAL_LEN_CONT, S_VAL_LEN_CONT_HUFF)
    } else if state == S_IDX7_CONT {
        continuation(state, b, Kind::Indexed, S_FIELD, 0)
    } else if state == S_IDX6_CONT {
        continuation(state, b, Kind::IdxName, S_VAL_LEN, F_ADD_DT)
    } else if state == S_IDX4_CONT {
        continuation(state, b, Kind::IdxName, S_VAL_LEN, 0)
    } else if state == S_STG_CONT {
        continuation(state, b, Kind::TableSize, S_FIELD, 0)
    } else if state == S_KEY_LEN_CONT {
        continuation(state, b, Kind::KeyLen, S_NAME, 0)
    } else if state == S_KEY_LEN_CONT_HUFF {
        continuation(state, b, Kind::KeyLen, S_NAME, F_HUFF)
    } else if state == S_VAL_LEN_CONT {
        continuation(state, b, Kind::ValLen, S_FIELD, 0)
    } else {
        continuation(state, b, Kind::ValLen, S_FIELD, F_HUFF)
    }
}

/// Whether a representation has a transition out of the state for the input.
pub open spec fn represents(key: (StateId, u16)) -> bool {
    walks_representation(key.0) && key.1 < 256
}

/// The transition a representation has out of the state for the input.
pub open spec fn represented(key: (StateId, u16)) -> Edge<Action> {
    let (to, action) = representation(key.0, key.1 as u8);
    Edge { to, action: Some(action) }
}

/// The transitions of every field representation of RFC 7541.
pub open spec fn representations() -> Map<(StateId, u16), Edge<Action>> {
    Map::new(|key: (StateId, u16)| represents(key), |key: (StateId, u16)| represented(key))
}

/// The automaton with the transitions of those representations that are in
/// `keys`.
spec fn with_keys(auto: Auto<Action>, keys: Set<(StateId, u16)>) -> Auto<Action> {
    Auto {
        edges: auto.edges.union_prefer_right(
            Map::new(|key: (StateId, u16)| keys.contains(key), |key: (StateId, u16)| represented(key)),
        ),
        ..auto
    }
}

/// Whether the automaton has no transitions out of the state that are in the way
/// of those of the representations.
pub open spec fn has_room_in(auto: Auto<Action>, state: StateId) -> bool {
    forall|input: u16| #[trigger]
        represents((state, input)) ==> auto.accepts(
            state,
            input,
            represented((state, input)).to,
            represented((state, input)).action,
        )
}

/// Whether the automaton has no transitions that are in the way of those of the
/// representations.
pub open spec fn has_room(auto: Auto<Action>) -> bool {
    forall|state: StateId| walks_representation(state) ==> #[trigger] has_room_in(auto, state)
}

/// Inserts a transition of a representation.
fn insert(
    dfa: &mut Dfa<Action>,
    from: StateId,
    input: u8,
    to: StateId,
    action: Action,
    Ghost(auto): Ghost<Auto<Action>>,
    Ghost(keys): Ghost<Set<(StateId, u16)>>,
)
    requires
        old(dfa).wf(),
        has_room_in(auto, from),
        old(dfa)@ == with_keys(auto, keys),
        walks_representation(from),
        representation(from, input) == (to, action),
    ensures
        final(dfa).wf(),
        final(dfa)@ == with_keys(auto, keys.insert((from, input as u16))),
{
    assert(represents((from, input as u16)));
    dfa.insert_edge(from, input as u16, to, Some(action));
    assert(dfa@.edges =~= with_keys(auto, keys.insert((from, input as u16))).edges);
}

/// The transitions out of a state for the inputs from `lo` up to `hi`.
spec fn span(state: StateId, lo: int, hi: int) -> Set<(StateId, u16)> {
    Set::new(|key: (StateId, u16)| key.0 == state && lo <= key.1 < hi)
}

/// Inserts the transitions of the first byte of an integer whose prefix is what
/// the byte holds beyond `base`, from `first` up to `max`.
fn insert_integer(
    dfa: &mut Dfa<Action>,
    from: StateId,
    base: u8,
    first: u8,
    max: u8,
    kind: Kind,
    flags: u8,
    to: StateId,
    cont: StateId,
    Ghost(auto): Ghost<Auto<Action>>,
    Ghost(keys): Ghost<Set<(StateId, u16)>>,
)
    requires
        old(dfa).wf(),
        has_room_in(auto, from),
        old(dfa)@ == with_keys(auto, keys),
        walks_representation(from),
        first < max,
        base + max <= 0xFF,
        forall|b: u8|
            base + first <= b <= base + max ==> #[trigger] representation(from, b) == integer(
                b - base,
                max as int,
                kind,
                flags,
                to,
                cont,
            ),
    ensures
        final(dfa).wf(),
        final(dfa)@ == with_keys(
            auto,
            keys.union(span(from, base + first, base + max + 1)),
        ),
{
    let mut prefix: u8 = first;
    assert(keys.union(span(from, base + first, base + first)) =~= keys);
    while prefix < max
        invariant
            dfa.wf(),
            has_room_in(auto, from),
            dfa@ == with_keys(auto, keys.union(span(from, base + first, base + prefix))),
            walks_representation(from),
            first <= prefix <= max,
            base + max <= 0xFF,
            forall|b: u8|
                base + first <= b <= base + max ==> #[trigger] representation(from, b) == integer(
                    b - base,
                    max as int,
                    kind,
                    flags,
                    to,
                    cont,
                ),
        decreases max - prefix,
    {
        let ghost done = keys.union(span(from, base + first, base + prefix));
        insert(
            dfa,
            from,
            base + prefix,
            to,
            Action::new(kind, prefix as u16, flags),
            Ghost(auto),
            Ghost(done),
        );
        assert(done.insert((from, (base + prefix) as u16)) =~= keys.union(
            span(from, base + first, base + prefix + 1),
        ));
        prefix += 1;
    }
    let ghost done = keys.union(span(from, base + first, base + max));
    insert(
        dfa,
        from,
        base + max,
        cont,
        Action::new(Kind::IntStart, max as u16, 0),
        Ghost(auto),
        Ghost(done),
    );
    assert(done.insert((from, (base + max) as u16)) =~= keys.union(
        span(from, base + first, base + max + 1),
    ));
}

/// Builds the transitions of every field representation of RFC 7541 into
/// `dfa`, which has to have been created with [`S_RESERVED`] states reserved
/// for them.
pub fn insert_representations(dfa: &mut Dfa<Action>)
    requires
        old(dfa).wf(),
        has_room(old(dfa)@),
    ensures
        final(dfa).wf(),
        final(dfa)@ == (Auto {
            edges: old(dfa)@.edges.union_prefer_right(representations()),
            ..old(dfa)@
        }),
{
    let ghost auto = dfa@;
    assert(has_room_in(auto, S_FIELD));
    insert_field_row(dfa);
    let ghost d1 = dfa@;
    assert forall|state: StateId| walks_representation(state) && state != S_FIELD implies #[trigger]
        has_room_in(d1, state) by {
        assert(has_room_in(auto, state));
    }
    insert_length_rows(dfa);
    let ghost d2 = dfa@;
    assert forall|state: StateId| S_IDX7_CONT <= state < S_RESERVED implies #[trigger] has_room_in(
        d2,
        state,
    ) by {
        assert(has_room_in(d1, state));
    }
    insert_continuation_rows(dfa);
    assert(dfa@.edges =~= auto.edges.union_prefer_right(representations()));
}

/// Inserts the transitions of the first byte of a representation, see section 6
/// of RFC 7541.
fn insert_field_row(dfa: &mut Dfa<Action>)
    requires
        old(dfa).wf(),
        has_room_in(old(dfa)@, S_FIELD),
    ensures
        final(dfa).wf(),
        final(dfa)@ == with_keys(old(dfa)@, span(S_FIELD, 0, 256)),
{
    let ghost auto = dfa@;
    let ghost keys = Set::<(StateId, u16)>::empty();
    assert(dfa@.edges =~= with_keys(auto, keys).edges);
    // an indexed field, 7 bit prefix. The index 0 is not used
    insert(
        dfa,
        S_FIELD,
        0x80,
        S_DEAD,
        Action::new(Kind::Malformed, 0, 0),
        Ghost(auto),
        Ghost(keys),
    );
    let ghost k0 = keys.insert((S_FIELD, 0x80u16));
    insert_integer(
        dfa,
        S_FIELD,
        0x80,
        1,
        0x7F,
        Kind::Indexed,
        0,
        S_FIELD,
        S_IDX7_CONT,
        Ghost(auto),
        Ghost(k0),
    );
    let ghost k1 = k0.union(span(S_FIELD, 0x81, 0x100));

    // a literal field that is added to the dynamic table, 6 bit prefix
    insert(
        dfa,
        S_FIELD,
        0x40,
        S_KEY_LEN,
        Action::new(Kind::LitName, 0, F_ADD_DT),
        Ghost(auto),
        Ghost(k1),
    );
    let ghost k2 = k1.insert((S_FIELD, 0x40u16));
    insert_integer(
        dfa,
        S_FIELD,
        0x40,
        1,
        0x3F,
        Kind::IdxName,
        F_ADD_DT,
        S_VAL_LEN,
        S_IDX6_CONT,
        Ghost(auto),
        Ghost(k2),
    );
    let ghost k3 = k2.union(span(S_FIELD, 0x41, 0x80));

    // a dynamic table size update, 5 bit prefix
    insert_integer(
        dfa,
        S_FIELD,
        0x20,
        0,
        0x1F,
        Kind::TableSize,
        0,
        S_FIELD,
        S_STG_CONT,
        Ghost(auto),
        Ghost(k3),
    );
    let ghost k4 = k3.union(span(S_FIELD, 0x20, 0x40));

    // a literal field that is not, either because it is never to be indexed or
    // because it is only not indexed here, 4 bit prefix. Beeper reads both the
    // same way
    insert(
        dfa,
        S_FIELD,
        0x00,
        S_KEY_LEN,
        Action::new(Kind::LitName, 0, 0),
        Ghost(auto),
        Ghost(k4),
    );
    let ghost k5 = k4.insert((S_FIELD, 0x00u16));
    insert_integer(
        dfa,
        S_FIELD,
        0x00,
        1,
        0x0F,
        Kind::IdxName,
        0,
        S_VAL_LEN,
        S_IDX4_CONT,
        Ghost(auto),
        Ghost(k5),
    );
    let ghost k6 = k5.union(span(S_FIELD, 0x01, 0x10));
    insert(
        dfa,
        S_FIELD,
        0x10,
        S_KEY_LEN,
        Action::new(Kind::LitName, 0, 0),
        Ghost(auto),
        Ghost(k6),
    );
    let ghost k7 = k6.insert((S_FIELD, 0x10u16));
    insert_integer(
        dfa,
        S_FIELD,
        0x10,
        1,
        0x0F,
        Kind::IdxName,
        0,
        S_VAL_LEN,
        S_IDX4_CONT,
        Ghost(auto),
        Ghost(k7),
    );
    let ghost k8 = k7.union(span(S_FIELD, 0x11, 0x20));
    assert(k8 =~= span(S_FIELD, 0, 256));
}

/// Inserts the transitions of the byte announcing the length of a name and of
/// the one announcing the length of a value, see section 5.2 of RFC 7541. Both
/// carry the Huffman bit in their top bit and a 7 bit prefix.
fn insert_length_rows(dfa: &mut Dfa<Action>)
    requires
        old(dfa).wf(),
        has_room_in(old(dfa)@, S_KEY_LEN),
        has_room_in(old(dfa)@, S_VAL_LEN),
    ensures
        final(dfa).wf(),
        final(dfa)@ == with_keys(
            old(dfa)@,
            span(S_KEY_LEN, 0, 256).union(span(S_VAL_LEN, 0, 256)),
        ),
{
    let ghost auto = dfa@;
    let ghost keys = Set::<(StateId, u16)>::empty();
    assert(dfa@.edges =~= with_keys(auto, keys).edges);
    insert_integer(
        dfa,
        S_KEY_LEN,
        0x00,
        0,
        0x7F,
        Kind::KeyLen,
        0,
        S_NAME,
        S_KEY_LEN_CONT,
        Ghost(auto),
        Ghost(keys),
    );
    let ghost k0 = keys.union(span(S_KEY_LEN, 0x00, 0x80));
    insert_integer(
        dfa,
        S_KEY_LEN,
        0x80,
        0,
        0x7F,
        Kind::KeyLen,
        F_HUFF,
        S_NAME,
        S_KEY_LEN_CONT_HUFF,
        Ghost(auto),
        Ghost(k0),
    );
    let ghost k1 = k0.union(span(S_KEY_LEN, 0x80, 0x100));
    insert_integer(
        dfa,
        S_VAL_LEN,
        0x00,
        0,
        0x7F,
        Kind::ValLen,
        0,
        S_FIELD,
        S_VAL_LEN_CONT,
        Ghost(auto),
        Ghost(k1),
    );
    let ghost k2 = k1.union(span(S_VAL_LEN, 0x00, 0x80));
    insert_integer(
        dfa,
        S_VAL_LEN,
        0x80,
        0,
        0x7F,
        Kind::ValLen,
        F_HUFF,
        S_FIELD,
        S_VAL_LEN_CONT_HUFF,
        Ghost(auto),
        Ghost(k2),
    );
    let ghost k3 = k2.union(span(S_VAL_LEN, 0x80, 0x100));
    assert(k3 =~= span(S_KEY_LEN, 0, 256).union(span(S_VAL_LEN, 0, 256)));
}

/// The transitions of the bytes an integer is spread over.
spec fn continuations() -> Set<(StateId, u16)> {
    Set::new(|key: (StateId, u16)| S_IDX7_CONT <= key.0 < S_RESERVED && key.1 < 256)
}

/// Inserts the transitions of the bytes an integer that did not fit into the
/// prefix of its first byte is spread over, see section 5.1 of RFC 7541. The
/// top bit of every one of them says whether another follows.
fn insert_continuation_rows(dfa: &mut Dfa<Action>)
    requires
        old(dfa).wf(),
        forall|state: StateId|
            S_IDX7_CONT <= state < S_RESERVED ==> #[trigger] has_room_in(old(dfa)@, state),
    ensures
        final(dfa).wf(),
        final(dfa)@ == with_keys(old(dfa)@, continuations()),
{
    let ghost auto = dfa@;
    let ghost keys = Set::<(StateId, u16)>::empty();
    assert(dfa@.edges =~= with_keys(auto, keys).edges);
    let rows: [(StateId, Kind, StateId, u8); 8] = [
        (S_IDX7_CONT, Kind::Indexed, S_FIELD, 0),
        (S_IDX6_CONT, Kind::IdxName, S_VAL_LEN, F_ADD_DT),
        (S_IDX4_CONT, Kind::IdxName, S_VAL_LEN, 0),
        (S_STG_CONT, Kind::TableSize, S_FIELD, 0),
        (S_KEY_LEN_CONT, Kind::KeyLen, S_NAME, 0),
        (S_KEY_LEN_CONT_HUFF, Kind::KeyLen, S_NAME, F_HUFF),
        (S_VAL_LEN_CONT, Kind::ValLen, S_FIELD, 0),
        (S_VAL_LEN_CONT_HUFF, Kind::ValLen, S_FIELD, F_HUFF),
    ];
    let mut i: usize = 0;
    assert(keys.union(some_continuations(0)) =~= keys);
    assert(forall|j: int|
        0 <= j < 8 ==> (#[trigger] rows@[j]).0 == S_IDX7_CONT + j && rows@[j].3 <= 2);
    assert forall|j: int, b: u8| 0 <= j < 8 implies representation((#[trigger] rows@[j]).0, b)
        == #[trigger] continuation(rows@[j].0, b, rows@[j].1, rows@[j].2, rows@[j].3) by {
        assert(j == 0 || j == 1 || j == 2 || j == 3 || j == 4 || j == 5 || j == 6 || j == 7);
    }
    while i < 8
        invariant
            i <= 8,
            dfa.wf(),
            forall|state: StateId|
                S_IDX7_CONT <= state < S_RESERVED ==> #[trigger] has_room_in(auto, state),
            forall|j: int|
                0 <= j < 8 ==> (#[trigger] rows@[j]).0 == S_IDX7_CONT + j && rows@[j].3 <= 2,
            forall|j: int, b: u8|
                0 <= j < 8 ==> representation((#[trigger] rows@[j]).0, b)
                    == #[trigger] continuation(rows@[j].0, b, rows@[j].1, rows@[j].2, rows@[j].3),
            dfa@ == with_keys(auto, keys.union(some_continuations(i as int))),
        decreases 8 - i,
    {
        let (from, kind, to, flags) = rows[i];
        let ghost before = keys.union(some_continuations(i as int));
        let mut input: u8 = 0;
        assert(before.union(span(from, 0, 0)).union(span(from, 0x80, 0x80)) =~= before);
        while input < 0x80
            invariant
                input <= 0x80,
                dfa.wf(),
                has_room_in(auto, from),
                walks_representation(from),
                flags <= 2,
                forall|b: u8| representation(from, b) == #[trigger] continuation(
                    from,
                    b,
                    kind,
                    to,
                    flags,
                ),
                dfa@ == with_keys(
                    auto,
                    before.union(span(from, 0, input as int)).union(
                        span(from, 0x80, 0x80 + input),
                    ),
                ),
            decreases 0x80 - input,
        {
            let ghost k0 = before.union(span(from, 0, input as int)).union(
                span(from, 0x80, 0x80 + input),
            );
            assert(representation(from, input) == continuation(from, input, kind, to, flags));
            insert(
                dfa,
                from,
                input,
                to,
                Action::new(kind, 0, flags + F_CONT),
                Ghost(auto),
                Ghost(k0),
            );
            let ghost k1 = k0.insert((from, input as u16));
            assert(representation(from, (0x80 + input) as u8) == continuation(
                from,
                (0x80 + input) as u8,
                kind,
                to,
                flags,
            ));
            insert(
                dfa,
                from,
                0x80 + input,
                from,
                Action::new(Kind::IntCont, 0, 0),
                Ghost(auto),
                Ghost(k1),
            );
            assert(k1.insert((from, (0x80 + input) as u16)) =~= before.union(
                span(from, 0, input + 1),
            ).union(span(from, 0x80, 0x80 + input + 1)));
            input += 1;
        }
        assert(before.union(span(from, 0, 0x80)).union(span(from, 0x80, 0x100)) =~= keys.union(
            some_continuations(i + 1),
        ));
        i += 1;
    }
    assert(keys.union(some_continuations(8)) =~= continuations());
}

/// The transitions of the bytes an integer is spread over, out of the first `n`
/// of the states.
spec fn some_continuations(n: int) -> Set<(StateId, u16)> {
    Set::new(|key: (StateId, u16)| S_IDX7_CONT <= key.0 < S_IDX7_CONT + n && key.1 < 256)
}

/// Returns a DFA that walks every field representation of RFC 7541.
pub fn dfa() -> (dfa: Dfa<Action>)
    ensures
        dfa.wf(),
        dfa@ == (Auto { num_states: S_RESERVED as int, edges: representations() }),
{
    let mut dfa: Dfa<Action> = Dfa::with_reserved_states(S_RESERVED);
    assert(Map::<(StateId, u16), Edge<Action>>::empty().union_prefer_right(representations())
        =~= representations());
    insert_representations(&mut dfa);
    dfa
}

/// Every state a representation is walked with reads every byte.
pub proof fn law_every_representation_state_reads_every_byte(state: StateId, b: u8)
    requires
        walks_representation(state),
    ensures
        representations().contains_key((state, b as u16)),
{
}

/// Literal fields that are never to be indexed are read the same way as those
/// that are only not indexed here, and are not added to the dynamic table.
pub proof fn law_literals_that_are_not_indexed_are_read_alike(n: u16)
    requires
        n < 0x10,
    ensures
        representations()[(S_FIELD, n)] == representations()[(S_FIELD, (0x10 + n) as u16)],
        representations()[(S_FIELD, n)].action matches Some(action) && action.flags == 0,
{
    assert(represents((S_FIELD, n)));
    assert(represents((S_FIELD, (0x10 + n) as u16)));
}

/// Every transition of a representation carries an action.
pub proof fn law_every_representation_transition_carries_an_action(state: StateId, input: u16)
    requires
        representations().contains_key((state, input)),
    ensures
        representations()[(state, input)].action is Some,
{
}

/// No transition of a representation leads to a state without transitions,
/// other than to the ones the patterns give theirs.
pub proof fn law_no_representation_leads_nowhere(state: StateId, input: u16)
    requires
        representations().contains_key((state, input)),
    ensures
        ({
            let to = representations()[(state, input)].to;
            to == S_DEAD || to == S_NAME || walks_representation(to)
        }),
{
}

} // verus!
