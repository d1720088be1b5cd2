//! What a walk over a header block makes of the integers and strings of HPACK,
//! see sections 5 and 6 of RFC 7541.
//!
//! The parser program reads an integer off the action of its first byte if it
//! fits into the prefix of that byte, or else adds up what the bytes behind it
//! hold, seven bits each and the lowest ones first, to what the prefix holds.

use super::action::{Action, Kind};
use super::hpack::representations;
use super::parser::{capturing, has_room, law_captured_name_is_matched};
use crate::dfa::model::{Auto, Edge};
use crate::{MatchId, StateId};
use vstd::prelude::*;

verus! {

/// What is read of an integer: the state behind it, what it says, the integer
/// itself and the flags that are not about how it is spread over its bytes.
pub struct Reading {
    pub state: StateId,
    pub kind: Kind,
    pub value: nat,
    pub flags: int,
}

/// What the bytes from the `i`th on add up to that an integer goes on with, the
/// first of which counts `weight` times, if they come to an end.
pub open spec fn read_on(
    edges: Map<(StateId, u16), Edge<Action>>,
    state: StateId,
    bytes: Seq<u8>,
    i: int,
    sum: nat,
    weight: nat,
) -> Option<Reading>
    decreases bytes.len() - i,
{
    if !(0 <= i < bytes.len()) || !edges.contains_key((state, bytes[i] as u16)) {
        None
    } else {
        let edge = edges[(state, bytes[i] as u16)];
        let sum = sum + (bytes[i] as nat % 128) * weight;
        match edge.action {
            None => None,
            Some(action) => if action.kind == Kind::IntCont {
                read_on(edges, edge.to, bytes, i + 1, sum, weight * 128)
            } else if i + 1 < bytes.len() {
                None
            } else {
                Some(
                    Reading {
                        state: edge.to,
                        kind: action.kind,
                        // bit 2 says that the integer is the sum
                        value: if action.flags as int / 4 % 2 == 1 {
                            sum
                        } else {
                            action.val as nat
                        },
                        flags: action.flags as int % 4,
                    },
                )
            },
        }
    }
}

/// What is read of the bytes of an integer that begins in `state`, if it ends
/// where they do.
pub open spec fn read(
    edges: Map<(StateId, u16), Edge<Action>>,
    state: StateId,
    bytes: Seq<u8>,
) -> Option<Reading> {
    if bytes.len() == 0 || !edges.contains_key((state, bytes[0] as u16)) {
        None
    } else {
        let edge = edges[(state, bytes[0] as u16)];
        match edge.action {
            None => None,
            Some(action) => if action.kind == Kind::IntStart {
                read_on(edges, edge.to, bytes, 1, action.val as nat, 1)
            } else {
                read_on(edges, state, bytes, 0, 0, 1)
            },
        }
    }
}

/// The bytes an integer goes on with behind a prefix it does not fit into.
pub open spec fn tail(n: nat) -> Seq<u8>
    decreases n,
{
    if n < 128 {
        seq![n as u8]
    } else {
        seq![(128 + n % 128) as u8] + tail(n / 128)
    }
}

/// The bytes of the integer `n` whose prefix holds up to `max`, behind the bits
/// `pattern` of the first byte. See section 5.1 of RFC 7541.
pub open spec fn coded(n: nat, max: nat, pattern: nat) -> Seq<u8> {
    if n < max {
        seq![(pattern + n) as u8]
    } else {
        seq![(pattern + max) as u8] + tail((n - max) as nat)
    }
}

/// Whether the bytes out of `state` are those an integer is spread over: their
/// top bit says whether another one follows, and the last one says what the
/// integer is.
spec fn adds_up(state: StateId, to: StateId, kind: Kind, flags: int) -> bool {
    let edges = representations();
    forall|b: u8|
        #![trigger edges.contains_key((state, b as u16))]
        {
            &&& edges.contains_key((state, b as u16))
            &&& edges[(state, b as u16)].action matches Some(action)
            &&& b >= 128 ==> action.kind == Kind::IntCont && edges[(state, b as u16)].to == state
            &&& b < 128 ==> {
                &&& action.kind == kind
                &&& kind != Kind::IntCont
                &&& action.flags == 4 + flags
                &&& 0 <= flags < 4
                &&& edges[(state, b as u16)].to == to
            }
        }
}

/// What an integer goes on with adds up to it.
proof fn lemma_read_on(
    state: StateId,
    to: StateId,
    kind: Kind,
    flags: int,
    bytes: Seq<u8>,
    i: int,
    n: nat,
    sum: nat,
    weight: nat,
)
    requires
        adds_up(state, to, kind, flags),
        0 <= i <= bytes.len(),
        bytes.skip(i) == tail(n),
    ensures
        read_on(representations(), state, bytes, i, sum, weight) == Some(
            Reading { state: to, kind, value: sum + n * weight, flags },
        ),
    decreases n,
{
    let edges = representations();
    let rest = bytes.skip(i);
    assert(rest.len() > 0);
    assert(rest[0] == bytes[i]);
    assert(edges.contains_key((state, bytes[i] as u16)));
    if n < 128 {
        assert(bytes.len() == i + 1);
        assert(bytes[i] as nat % 128 == n);
    } else {
        let low = n % 128;
        let high = n / 128;
        assert(bytes[i] == 128 + low);
        assert(bytes[i] as nat % 128 == low);
        assert(bytes.skip(i + 1) =~= rest.drop_first());
        assert(rest.drop_first() =~= tail(high));
        lemma_read_on(state, to, kind, flags, bytes, i + 1, high, sum + low * weight, weight * 128);
        assert(low * weight + high * (weight * 128) == n * weight) by (nonlinear_arith)
            requires
                n == high * 128 + low,
        ;
        assert(sum + low * weight + high * (weight * 128) == sum + n * weight);
    }
}

/// An integer is read whose first byte and whose others are those of `state` and
/// `cont`.
proof fn lemma_read(
    state: StateId,
    cont: StateId,
    to: StateId,
    kind: Kind,
    flags: int,
    n: nat,
    max: nat,
    pattern: nat,
)
    requires
        pattern + max <= 255,
        0 <= flags < 4,
        kind != Kind::IntStart,
        kind != Kind::IntCont,
        adds_up(cont, to, kind, flags),
        n < max ==> representations().contains_key((state, (pattern + n) as u16))
            && representations()[(state, (pattern + n) as u16)] == (Edge {
            to,
            action: Some(Action { kind, val: n as u16, flags: flags as u8 }),
        }),
        n >= max ==> representations().contains_key((state, (pattern + max) as u16))
            && representations()[(state, (pattern + max) as u16)] == (Edge {
            to: cont,
            action: Some(Action { kind: Kind::IntStart, val: max as u16, flags: 0 }),
        }),
    ensures
        read(representations(), state, coded(n, max, pattern)) == Some(
            Reading { state: to, kind, value: n, flags },
        ),
{
    let bytes = coded(n, max, pattern);
    if n >= max {
        let rest = tail((n - max) as nat);
        assert(bytes[0] == pattern + max);
        assert(bytes.skip(1) =~= rest);
        lemma_read_on(cont, to, kind, flags, bytes, 1, (n - max) as nat, max, 1);
        assert((n - max) * 1 == n - max);
    } else {
        assert(bytes[0] == pattern + n);
    }
}

/// The byte 0x80 and what an integer of a prefix of seven bits adds to it is an
/// indexed field: it carries the index, leads to the next field and adds nothing
/// to the dynamic table. The index 0 is malformed. See section 6.1 of RFC 7541.
pub proof fn law_indexed_field_is_read(n: nat)
    ensures
        n > 0 ==> read(representations(), 3, coded(n, 127, 0x80)) == Some(
            Reading { state: 3, kind: Kind::Indexed, value: n, flags: 0 },
        ),
        n == 0 ==> read(representations(), 3, coded(n, 127, 0x80)) == Some(
            Reading { state: 2, kind: Kind::Malformed, value: 0, flags: 0 },
        ),
{
    assert(adds_up(7, 3, Kind::Indexed, 0));
    if n > 0 {
        lemma_read(3, 7, 3, Kind::Indexed, 0, n, 127, 0x80);
    }
}

/// The byte 0x40 and what an integer of a prefix of six bits adds to it is a
/// field that is added to the dynamic table. The integer is the index of its
/// name, behind which the length of its value comes, or 0 if the name is spelled
/// out, whose length comes first then. See section 6.2.1 of RFC 7541.
pub proof fn law_indexed_literal_is_read(n: nat)
    ensures
        n > 0 ==> read(representations(), 3, coded(n, 63, 0x40)) == Some(
            Reading { state: 5, kind: Kind::IdxName, value: n, flags: 2 },
        ),
        n == 0 ==> read(representations(), 3, coded(n, 63, 0x40)) == Some(
            Reading { state: 4, kind: Kind::LitName, value: 0, flags: 2 },
        ),
{
    assert(adds_up(8, 5, Kind::IdxName, 2));
    if n > 0 {
        lemma_read(3, 8, 5, Kind::IdxName, 2, n, 63, 0x40);
    }
}

/// The byte 0x00, or 0x10 if it is never to be indexed, and what an integer of a
/// prefix of four bits adds to it is a field that is not added to the dynamic
/// table, and read like one that is otherwise. See sections 6.2.2 and 6.2.3 of
/// RFC 7541.
pub proof fn law_literal_that_is_not_indexed_is_read(n: nat, pattern: nat)
    requires
        pattern == 0x00 || pattern == 0x10,
    ensures
        n > 0 ==> read(representations(), 3, coded(n, 15, pattern)) == Some(
            Reading { state: 5, kind: Kind::IdxName, value: n, flags: 0 },
        ),
        n == 0 ==> read(representations(), 3, coded(n, 15, pattern)) == Some(
            Reading { state: 4, kind: Kind::LitName, value: 0, flags: 0 },
        ),
{
    assert(adds_up(9, 5, Kind::IdxName, 0));
    if n > 0 {
        lemma_read(3, 9, 5, Kind::IdxName, 0, n, 15, pattern);
    }
}

/// The byte 0x20 and what an integer of a prefix of five bits adds to it is an
/// update of the size of the dynamic table, behind which the next field comes.
/// See section 6.3 of RFC 7541.
pub proof fn law_size_update_is_read(n: nat)
    ensures
        read(representations(), 3, coded(n, 31, 0x20)) == Some(
            Reading { state: 3, kind: Kind::TableSize, value: n, flags: 0 },
        ),
{
    assert(adds_up(10, 3, Kind::TableSize, 0));
    lemma_read(3, 10, 3, Kind::TableSize, 0, n, 31, 0x20);
}

/// The length of a name, and of a value, is an integer of a prefix of seven bits.
/// The string is Huffman coded if and only if the top bit of the first byte is
/// set. Behind the length of a name the name comes, behind that of a value the
/// next field. See section 5.2 of RFC 7541.
pub proof fn law_length_is_read(n: nat, huffman: bool)
    ensures
        read(
            representations(),
            4,
            coded(
                n,
                127,
                if huffman {
                    0x80
                } else {
                    0
                },
            ),
        ) == Some(
            Reading {
                state: 6,
                kind: Kind::KeyLen,
                value: n,
                flags: if huffman {
                    1
                } else {
                    0
                },
            },
        ),
        read(
            representations(),
            5,
            coded(
                n,
                127,
                if huffman {
                    0x80
                } else {
                    0
                },
            ),
        ) == Some(
            Reading {
                state: 3,
                kind: Kind::ValLen,
                value: n,
                flags: if huffman {
                    1
                } else {
                    0
                },
            },
        ),
{
    assert(adds_up(11, 6, Kind::KeyLen, 0));
    assert(adds_up(12, 6, Kind::KeyLen, 1));
    assert(adds_up(13, 3, Kind::ValLen, 0));
    assert(adds_up(14, 3, Kind::ValLen, 1));
    if huffman {
        lemma_read(4, 12, 6, Kind::KeyLen, 1, n, 127, 0x80);
        lemma_read(5, 14, 3, Kind::ValLen, 1, n, 127, 0x80);
    } else {
        lemma_read(4, 11, 6, Kind::KeyLen, 0, n, 127, 0);
        lemma_read(5, 13, 3, Kind::ValLen, 0, n, 127, 0);
    }
}

/// What every first byte of a literal field says: whether it is added to the
/// dynamic table, in bit 1, whether its name is spelled out, and the index of its
/// name otherwise, as far as the byte holds all of it.
pub proof fn law_first_byte_of_a_literal(b: u8)
    requires
        b < 0x20 || 0x40 <= b < 0x80,
    ensures
        ({
            let indexed = b >= 0x40;
            let prefix: int = if indexed {
                b as int % 0x40
            } else {
                b as int % 0x10
            };
            let edge = representations()[(3, b as u16)];
            &&& representations().contains_key((3, b as u16))
            &&& edge.action matches Some(action)
            &&& prefix == 0 ==> {
                &&& action.kind == Kind::LitName
                &&& edge.to == 4
                &&& action.flags as int / 2 % 2 == 1 <==> indexed
            }
            &&& 0 < prefix && b != 0x7F && b != 0x0F && b != 0x1F ==> {
                &&& action.kind == Kind::IdxName
                &&& action.val == prefix
                &&& edge.to == 5
                &&& action.flags as int / 2 % 2 == 1 <==> indexed
            }
        }),
{
    assert(representations().contains_key((3, b as u16)));
}

/// What every first byte of a length says that holds all of it: the length, in
/// its low seven bits, and whether the string is Huffman coded, in its top bit,
/// which is bit 0 of the flags.
pub proof fn law_first_byte_of_a_length(b: u8, state: StateId)
    requires
        state == 4 || state == 5,
        b as int % 0x80 < 0x7F,
    ensures
        ({
            let edge = representations()[(state, b as u16)];
            &&& representations().contains_key((state, b as u16))
            &&& edge.action matches Some(action)
            &&& action.val == b as int % 0x80
            &&& action.flags as int % 2 == 1 <==> b >= 0x80
            &&& action.flags < 2
            &&& state == 4 ==> action.kind == Kind::KeyLen && edge.to == 6
            &&& state == 5 ==> action.kind == Kind::ValLen && edge.to == 3
        }),
{
    assert(representations().contains_key((state, b as u16)));
}

/// Every byte an integer is spread over has a transition: one with the top bit set
/// leads back to where it is read, any other one ends the integer, which is the
/// sum of all of them, as bit 2 of the flags says. What is said of the integer
/// behind its last byte is what would have been said had it fit into the prefix.
pub proof fn law_bytes_of_an_integer(state: StateId, b: u8)
    requires
        7 <= state <= 14,
    ensures
        ({
            let edge = representations()[(state, b as u16)];
            &&& representations().contains_key((state, b as u16))
            &&& edge.action matches Some(action)
            &&& b >= 0x80 ==> action == (Action { kind: Kind::IntCont, val: 0, flags: 0 })
                && edge.to == state
            &&& b < 0x80 ==> {
                &&& action.val == 0
                &&& action.flags as int / 4 == 1
                &&& action.flags as int / 2 % 2 == 1 <==> state == 8
                &&& action.flags as int % 2 == 1 <==> state == 12 || state == 14
                &&& action.kind == Kind::Indexed <==> state == 7
                &&& action.kind == Kind::IdxName <==> state == 8 || state == 9
                &&& action.kind == Kind::TableSize <==> state == 10
                &&& action.kind == Kind::KeyLen <==> state == 11 || state == 12
                &&& action.kind == Kind::ValLen <==> state == 13 || state == 14
                &&& edge.to == 3 <==> state == 7 || state == 10 || state >= 13
                &&& edge.to == 5 <==> state == 8 || state == 9
                &&& edge.to == 6 <==> state == 11 || state == 12
            }
        }),
{
    assert(representations().contains_key((state, b as u16)));
}

/// The states a representation is walked with are those from 3 to 14 but for 6,
/// where names begin, and every one of them reads every byte, and nothing else.
pub proof fn law_representations_read_bytes(state: StateId, input: u16)
    ensures
        representations().contains_key((state, input)) <==> 3 <= state <= 14 && state != 6
            && input < 256,
{
}

/// The name that follows the length of one, whatever the length is and whether or
/// not it fits into its first byte, is matched against the captured names: where
/// the length ends the code of a captured name is read, and where that ends the
/// value of the field is captured under the id of the name.
pub proof fn law_name_behind_its_length_is_matched(
    auto: Auto<Action>,
    code: Seq<u8>,
    mid: MatchId,
    n: nat,
    huffman: bool,
)
    requires
        auto.in_bounds(),
        15 <= auto.num_states <= u16::MAX,
        has_room(auto, code, mid),
        code.len() > 0,
    ensures
        ({
            let bits: nat = if huffman {
                0x80
            } else {
                0
            };
            &&& read(representations(), 4, coded(n, 127, bits)) matches Some(reading)
            &&& capturing(auto, code, mid).auto.ends_with(reading.state, code) == Some(
                Action { kind: Kind::Capture, val: mid.0 as u16, flags: 0 },
            )
        }),
{
    law_length_is_read(n, huffman);
    law_captured_name_is_matched(auto, code, mid);
}

} // verus!
