//! The shape of an HPACK header field representation, compiled into
//! transitions.
//!
//! A field is a sequence of integers and strings, and which one comes next is
//! decided by the bytes read so far, so it can be walked with the same
//! automaton as the field names themselves. Section 6 of RFC 7541 spells the
//! representations out.
//!
//! The value an integer carries lives on the transition rather than in the
//! state it leads to, which is what keeps the automaton small: every index a
//! representation can carry is a transition of its own, but all of them lead to
//! the same handful of states.
//!
//! The state ids and action kinds below must stay in sync with the `S_*` and
//! `H2A_*` constants of h2/parser.bpf.c.

use crate::dfa::action::Comparable;
use crate::{MatchId, StateId};
use vstd::prelude::*;

verus! {

/// A field name that matched no pattern.
pub const S_DEAD: StateId = 2;

/// At the first byte of a field representation.
pub const S_FIELD: StateId = 3;

/// At the first byte of the length of a field name.
pub const S_KEY_LEN: StateId = 4;

/// At the first byte of the length of a field value.
pub const S_VAL_LEN: StateId = 5;

/// The root of the trie of the field names to capture.
pub const S_NAME: StateId = 6;

/// The continuation of the index of an indexed field.
pub const S_IDX7_CONT: StateId = 7;

/// The continuation of the name index of a field that is added to the dynamic
/// table.
pub const S_IDX6_CONT: StateId = 8;

/// The continuation of the name index of a field that is not.
pub const S_IDX4_CONT: StateId = 9;

/// The continuation of a dynamic table size update.
pub const S_STG_CONT: StateId = 10;

/// The continuation of the length of a field name.
pub const S_KEY_LEN_CONT: StateId = 11;

/// The continuation of the length of a Huffman coded field name.
pub const S_KEY_LEN_CONT_HUFF: StateId = 12;

/// The continuation of the length of a field value.
pub const S_VAL_LEN_CONT: StateId = 13;

/// The continuation of the length of a Huffman coded field value.
pub const S_VAL_LEN_CONT_HUFF: StateId = 14;

/// The number of state ids the ones above reserve.
pub const S_RESERVED: u16 = 15;

/// The string the action describes is Huffman coded.
pub const F_HUFF: u8 = 1;

/// The field the action describes is added to the dynamic table.
pub const F_ADD_DT: u8 = 2;

/// The integer the action describes is spread over several bytes, so the parser
/// takes it from its accumulator rather than from [`Action::val`].
pub const F_CONT: u8 = 4;

/// What the parser does upon taking a transition.
#[derive(Clone, Copy, Debug, PartialEq, Eq, Hash, Structural)]
pub enum Kind {
    /// A field spelled out by nothing but an index, which addresses the entry
    /// both its name and its value are read from.
    Indexed,

    /// A field whose name is an index and whose value is spelled out.
    IdxName,

    /// A field whose name is spelled out as well.
    LitName,

    /// The length of a field name.
    KeyLen,

    /// The length of a field value.
    ValLen,

    /// A dynamic table size update.
    TableSize,

    /// The first byte of an integer that does not fit into the prefix of that
    /// byte, carrying the prefix maximum the integer is counted from.
    IntStart,

    /// A byte of such an integer that is not its last one either.
    IntCont,

    /// The name of the field being read just matched a pattern.
    Capture,

    /// The representation is malformed.
    Malformed,
}

impl Kind {
    /// The number the parser program knows the kind by.
    pub open spec fn number(self) -> u8 {
        match self {
            Kind::Indexed => 1,
            Kind::IdxName => 2,
            Kind::LitName => 3,
            Kind::KeyLen => 4,
            Kind::ValLen => 5,
            Kind::TableSize => 6,
            Kind::IntStart => 7,
            Kind::IntCont => 8,
            Kind::Capture => 9,
            Kind::Malformed => 10,
        }
    }

    /// Returns the number the parser program knows the kind by.
    pub fn code(self) -> (r: u8)
        ensures
            r == self.number(),
    {
        match self {
            Kind::Indexed => 1,
            Kind::IdxName => 2,
            Kind::LitName => 3,
            Kind::KeyLen => 4,
            Kind::ValLen => 5,
            Kind::TableSize => 6,
            Kind::IntStart => 7,
            Kind::IntCont => 8,
            Kind::Capture => 9,
            Kind::Malformed => 10,
        }
    }
}

/// A single action of the automaton, as the BPF parser reads it.
///
/// `val` is an index, a length or a table size, depending on `kind`.
#[derive(Clone, Copy, Debug, PartialEq, Eq, Hash, Structural)]
pub struct Action {
    pub kind: Kind,
    pub val: u16,
    pub flags: u8,
}

impl Action {
    /// The action capturing the value of the field whose name the automaton
    /// just matched, under the id `mid`.
    pub open spec fn capturing(mid: MatchId) -> Action {
        Action { kind: Kind::Capture, val: mid.0 as u16, flags: 0 }
    }

    /// Returns the action of a transition of `kind` carrying `val`.
    pub fn new(kind: Kind, val: u16, flags: u8) -> (r: Action)
        ensures
            r == (Action { kind, val, flags }),
    {
        Action { kind, val, flags }
    }

    /// Returns the action capturing the value of the field whose name the
    /// automaton just matched, under the id `mid`.
    pub fn capture(mid: MatchId) -> (r: Action)
        ensures
            r == Action::capturing(mid),
    {
        Action::new(Kind::Capture, mid.0 as u16, 0)
    }

    /// The value, the kind and the flags the parser program encodes the action
    /// with.
    pub open spec fn encoding(self) -> (u16, u8, u8) {
        (self.val, self.kind.number(), self.flags)
    }

    /// Returns the value, the kind and the flags the parser program encodes the
    /// action with.
    pub fn encode(self) -> (r: (u16, u8, u8))
        ensures
            r == self.encoding(),
    {
        (self.val, self.kind.code(), self.flags)
    }
}

impl Comparable for Action {
    fn same(&self, other: &Self) -> (r: bool)
    {
        *self == *other
    }
}

/// The parser program reads the value of an action first, then the number of its
/// kind and then its flags.
pub proof fn law_encoding_carries_the_action(action: Action)
    ensures
        ({
            let (val, kind, flags) = action.encoding();
            &&& val == action.val
            &&& kind == action.kind.number()
            &&& flags == action.flags
        }),
{
}

/// The numbers of the kinds: those of what a field is come first, then those of
/// the lengths of its strings, those of integers, and those of what a name or a
/// representation turns out to be.
pub proof fn law_kinds_are_numbered_in_order(kind: Kind)
    ensures
        1 <= kind.number() <= 10,
        kind.number() <= 3 <==> kind is Indexed || kind is IdxName || kind is LitName,
        kind.number() == 1 <==> kind is Indexed,
        kind.number() == 3 <==> kind is LitName,
        kind.number() == 4 <==> kind is KeyLen,
        kind.number() == 5 <==> kind is ValLen,
        kind.number() == 6 <==> kind is TableSize,
        kind.number() == 7 <==> kind is IntStart,
        kind.number() == 8 <==> kind is IntCont,
        kind.number() == 9 <==> kind is Capture,
        kind.number() == 10 <==> kind is Malformed,
{
}

/// A name is captured with the kind that says so, under its id, and with nothing
/// said of strings, of the dynamic table or of integers.
pub proof fn law_capture_carries_the_id(mid: MatchId)
    ensures
        Action::capturing(mid).encoding() == (mid.0 as u16, 9u8, 0u8),
{
}

/// No two actions are encoded the same way, and none of them is encoded as
/// doing nothing, so the parser program can tell every action from every other
/// and from there being none.
pub proof fn law_actions_are_told_apart(a: Action, b: Action)
    ensures
        a.encoding() == b.encoding() ==> a == b,
        a.encoding() != (0u16, 0u8, 0u8),
{
}

/// The numbers the parser program knows the states by that a representation is
/// walked with. Those of names come behind them.
pub proof fn law_states_are_numbered_in_order()
    ensures
        S_DEAD == 2,
        S_FIELD == 3,
        S_KEY_LEN == 4,
        S_VAL_LEN == 5,
        S_NAME == 6,
        S_IDX7_CONT == 7,
        S_IDX6_CONT == 8,
        S_IDX4_CONT == 9,
        S_STG_CONT == 10,
        S_KEY_LEN_CONT == 11,
        S_KEY_LEN_CONT_HUFF == 12,
        S_VAL_LEN_CONT == 13,
        S_VAL_LEN_CONT_HUFF == 14,
        S_RESERVED == 15,
{
}

} // verus!
