//! What a RESP2 parser makes of a message.

use super::model::{crlf, element_edges, patterns};
use super::parser::MAX_ARGS;
use super::shape::{
    all_counts, begins_element, element_base, empty_edges, first_bytes, has_array, has_element_of,
    has_shape, kinds, lemma_patterns, lemma_states_of, reads_only, slot_of, states_of, NUM_STATES,
    REPLY, STAR,
};
use crate::dfa::action::Action;
use crate::dfa::model::{Auto, ANY_INPUT, ANY_STATE, INIT_STATE};
use crate::dfa::walk::{is_digit, Report, Run};
use crate::MatchId;
use crate::text::digits;
use vstd::prelude::*;

verus! {

/// A value of RESP2 that is no array.
pub enum Element {
    /// A bulk string, which may hold any byte.
    Bulk(Seq<u8>),

    /// A null bulk string.
    Null,

    /// A simple string, an error or an integer, which its first byte says, and
    /// what it carries.
    Simple(u8, Seq<u8>),
}

impl Element {
    /// Whether the element is one the parser can make out. What a simple string,
    /// an error or an integer carries runs up to the end of the line, so it
    /// cannot be empty and holds no carriage return behind its first byte.
    pub open spec fn wf(self) -> bool {
        match self {
            Element::Simple(kind, payload) => {
                &&& kind == 0x2B || kind == 0x2D || kind == 0x3A
                &&& payload.len() > 0
                &&& forall|i: int| 1 <= i < payload.len() ==> #[trigger] payload[i] != 0x0D
            },
            _ => true,
        }
    }

    /// The bytes the element is sent as.
    pub open spec fn wire(self) -> Seq<u8> {
        match self {
            Element::Bulk(payload) => seq![0x24u8] + digits(payload.len()) + crlf() + payload
                + crlf(),
            Element::Null => seq![0x24u8, 0x2D, 0x31] + crlf(),
            Element::Simple(kind, payload) => seq![kind] + payload + crlf(),
        }
    }

    /// What the element carries, if it carries something.
    pub open spec fn payload(self) -> Option<Seq<u8>> {
        match self {
            Element::Bulk(payload) => Some(payload),
            Element::Null => None,
            Element::Simple(_, payload) => Some(payload),
        }
    }
}

/// What is captured once the element is read, if it is captured under `mid`.
pub open spec fn capture(
    captures: Map<MatchId, Seq<u8>>,
    mid: Option<MatchId>,
    e: Element,
) -> Map<MatchId, Seq<u8>> {
    match (mid, e.payload()) {
        (Some(mid), Some(payload)) => captures.insert(mid, payload),
        _ => captures,
    }
}

/// What is captured of the first `k` elements of an array.
pub open spec fn captured(args: Seq<Option<MatchId>>, es: Seq<Element>, k: nat) -> Map<
    MatchId,
    Seq<u8>,
>
    decreases k,
{
    if k == 0 {
        Map::empty()
    } else {
        capture(captured(args, es, (k - 1) as nat), args[k - 1], es[k - 1])
    }
}

/// The bytes the first `k` elements are sent as.
pub open spec fn wires(es: Seq<Element>, k: nat) -> Seq<u8>
    decreases k,
{
    if k == 0 {
        Seq::empty()
    } else {
        wires(es, (k - 1) as nat) + es[k - 1].wire()
    }
}

/// The bytes an array of the elements is sent as, which is how a client sends a
/// command.
pub open spec fn array(es: Seq<Element>) -> Seq<u8> {
    seq![0x2Au8] + digits(es.len()) + crlf() + wires(es, es.len())
}

/// Whether `part` is in `msg` from its `i`th byte on.
pub open spec fn at(msg: Seq<u8>, i: int, part: Seq<u8>) -> bool {
    &&& 0 <= i <= msg.len() - part.len()
    &&& forall|j: int| 0 <= j < part.len() ==> #[trigger] msg[i + j] == part[j]
}

/// The number the digits spell behind those that spell `before`.
pub open spec fn number(before: nat, ds: Seq<u8>) -> nat
    decreases ds.len(),
{
    if ds.len() == 0 {
        before
    } else {
        number(before * 10 + (ds[0] - 0x30) as nat, ds.drop_first())
    }
}

proof fn lemma_number_push(before: nat, ds: Seq<u8>, d: u8)
    requires
        is_digit(d),
    ensures
        number(before, ds.push(d)) == number(before, ds) * 10 + (d - 0x30),
    decreases ds.len(),
{
    if ds.len() > 0 {
        assert(ds.push(d).drop_first() =~= ds.drop_first().push(d));
        lemma_number_push(before * 10 + (ds[0] - 0x30) as nat, ds.drop_first(), d);
    } else {
        assert(ds.push(d).drop_first() =~= Seq::<u8>::empty());
        reveal_with_fuel(number, 2);
    }
}

/// The digits of a number are at least one, and spell it.
pub proof fn lemma_digits(n: nat)
    ensures
        digits(n).len() > 0,
        forall|i: int| 0 <= i < digits(n).len() ==> is_digit(#[trigger] digits(n)[i]),
        number(0, digits(n)) == n,
    decreases n,
{
    let d = (0x30 + n % 10) as u8;
    if n < 10 {
        assert(digits(n) =~= Seq::<u8>::empty().push(d));
        lemma_number_push(0, Seq::empty(), d);
    } else {
        lemma_digits(n / 10);
        lemma_number_push(0, digits(n / 10), d);
    }
}

/// How far a walk has come that has read the element that begins at the `i`th
/// byte.
pub open spec fn run_after(run: Run, i: int, mid: Option<MatchId>, e: Element, next: int) -> Run {
    Run {
        state: next as u16,
        len: 0,
        starts: match (mid, e) {
            (Some(mid), Element::Simple(..)) => run.starts.insert(mid, i + 1),
            _ => run.starts,
        },
        captures: capture(run.captures, mid, e),
    }
}

/// Walking the digits of a length.
proof fn lemma_walk_digits(
    auto: Auto<Action>,
    msg: Seq<u8>,
    i: int,
    run: Run,
    slot: int,
    b: int,
    mid: Option<MatchId>,
    done: bool,
    ds: Seq<u8>,
)
    requires
        begins_element(auto, slot, b, mid, done),
        0 <= slot < b <= u16::MAX - 12,
        run.state == b || run.state == b + 1,
        ds.len() > 0,
        forall|j: int| 0 <= j < ds.len() ==> is_digit(#[trigger] ds[j]),
        at(msg, i, ds),
    ensures
        auto.walk_on(msg, i, run) == auto.walk_on(
            msg,
            i + ds.len(),
            Run { state: (b + 1) as u16, len: number(run.len, ds), ..run },
        ),
    decreases ds.len(),
{
    let edges = element_edges(slot as u16, b, mid, done);
    let c = ds[0];
    assert(msg[i + 0] == ds[0]);
    assert(is_digit(ds[0]));
    assert(edges.contains_key((b as u16, ANY_INPUT)));
    assert(edges.contains_key(((b + 1) as u16, ANY_INPUT)));
    assert(!auto.has(run.state, c as u16));
    assert(auto.has(run.state, ANY_INPUT));
    assert(auto.next(run.state, c) == ((b + 1) as u16, Some(Action::LenDigit)));
    let next = Run { state: (b + 1) as u16, len: run.len * 10 + (c - 0x30) as nat, ..run };
    assert(auto.walk_on(msg, i, run) == auto.walk_on(msg, i + 1, next));
    let rest = ds.drop_first();
    if rest.len() > 0 {
        assert forall|j: int| 0 <= j < rest.len() implies #[trigger] msg[i + 1 + j] == rest[j] by {
            assert(msg[i + (j + 1)] == ds[j + 1]);
        }
        assert forall|j: int| 0 <= j < rest.len() implies is_digit(#[trigger] rest[j]) by {
            assert(is_digit(ds[j + 1]));
        }
        lemma_walk_digits(auto, msg, i + 1, next, slot, b, mid, done, rest);
    } else {
        assert(number(next.len, rest) == next.len);
    }
}

/// Walking what a simple string, an error or an integer carries, of which at
/// least one byte has been walked.
proof fn lemma_walk_payload(
    auto: Auto<Action>,
    msg: Seq<u8>,
    i: int,
    run: Run,
    slot: int,
    b: int,
    mid: Option<MatchId>,
    done: bool,
    start: int,
    end: int,
)
    requires
        begins_element(auto, slot, b, mid, done),
        0 <= slot < b <= u16::MAX - 12,
        run.state == b + 10,
        0 <= start < i <= end <= msg.len(),
        forall|j: int| i <= j < end ==> #[trigger] msg[j] != 0x0D,
        mid matches Some(m) ==> {
            &&& run.start_of(m) == start
            &&& run.captures.contains_key(m)
            &&& run.captures[m] == msg.subrange(start, i)
        },
    ensures
        auto.walk_on(msg, i, run) == auto.walk_on(
            msg,
            end,
            run.captured(mid, msg.subrange(start, end)),
        ),
    decreases end - i,
{
    let edges = element_edges(slot as u16, b, mid, done);
    if i < end {
        let c = msg[i];
        assert(edges.contains_key(((b + 10) as u16, ANY_INPUT)));
        assert(!auto.has(run.state, c as u16));
        let close = match mid {
            Some(mid) => Some(Action::EndCapture(mid)),
            None => None,
        };
        assert(auto.next(run.state, c) == ((b + 10) as u16, close));
        let next = run.captured(mid, msg.subrange(start, i + 1));
        assert(next.at((b + 10) as u16) == next);
        assert(auto.walk_on(msg, i, run) == auto.walk_on(msg, i + 1, next));
        lemma_walk_payload(auto, msg, i + 1, next, slot, b, mid, done, start, end);
        assert(next.captured(mid, msg.subrange(start, end)) =~= run.captured(
            mid,
            msg.subrange(start, end),
        ));
    } else {
        assert(run.captured(mid, msg.subrange(start, end)) =~= run);
    }
}

/// What becomes of a walk that has come to the last byte of an element.
pub open spec fn behind(auto: Auto<Action>, msg: Seq<u8>, i: int, run: Run, done: bool) -> Option<
    Report,
> {
    if done {
        Some(Report { consumed: i, captures: run.captures })
    } else {
        auto.walk_on(msg, i, run)
    }
}

/// Walking an element reads all of it, captures what it carries under its match
/// id and leads to the state behind it, or ends the parse there.
pub proof fn lemma_walk_element(
    auto: Auto<Action>,
    msg: Seq<u8>,
    i: int,
    run: Run,
    slot: int,
    b: int,
    mid: Option<MatchId>,
    done: bool,
    e: Element,
)
    requires
        begins_element(auto, slot, b, mid, done),
        0 <= slot < b <= u16::MAX - 12,
        run.state == slot,
        run.len == 0,
        e.wf(),
        at(msg, i, e.wire()),
    ensures
        auto.walk_on(msg, i, run) == behind(
            auto,
            msg,
            i + e.wire().len(),
            run_after(run, i, mid, e, b + 5),
            done,
        ),
{
    let edges = element_edges(slot as u16, b, mid, done);
    let w = e.wire();
    let last = i + w.len();
    match e {
        Element::Bulk(payload) => {
            let ds = digits(payload.len());
            lemma_digits(payload.len());
            assert(w[0] == 0x24);
            assert(msg[i + 0] == w[0]);
            assert(edges.contains_key((slot as u16, 0x24u16)));
            let r0 = run.at(b as u16);
            assert(auto.walk_on(msg, i, run) == auto.walk_on(msg, i + 1, r0));
            assert forall|j: int| 0 <= j < ds.len() implies #[trigger] msg[i + 1 + j] == ds[j] by {
                assert(msg[i + (1 + j)] == w[1 + j]);
            }
            lemma_walk_digits(auto, msg, i + 1, r0, slot, b, mid, done, ds);
            let p = i + 1 + ds.len();
            let r1 = Run { state: (b + 1) as u16, len: payload.len(), ..run };
            assert(auto.walk_on(msg, i, run) == auto.walk_on(msg, p, r1));
            let k: int = 1 + ds.len() as int;
            assert(w[k] == 0x0D && msg[i + k] == w[k]);
            assert(w[k + 1] == 0x0A && msg[i + (k + 1)] == w[k + 1]);
            assert(edges.contains_key(((b + 1) as u16, 0x0Du16)));
            assert(edges.contains_key(((b + 2) as u16, 0x0Au16)));
            let r2 = r1.at((b + 2) as u16);
            assert(auto.walk_on(msg, p, r1) == auto.walk_on(msg, p + 1, r2));
            let from = p + 2;
            let to = from + payload.len();
            assert(msg.subrange(from, to) =~= payload) by {
                assert forall|j: int| 0 <= j < payload.len() implies msg.subrange(from, to)[j]
                    == payload[j] by {
                    assert(msg[i + (k + 2 + j)] == w[k + 2 + j]);
                }
            }
            let r3 = run.at((b + 3) as u16).captured(mid, payload);
            assert(auto.next(r2.state, 0x0A) == ((b + 3) as u16, Some(Action::Skip(mid))));
            assert(auto.walk_on(msg, p + 1, r2) == auto.walk_on(msg, to, r3));
            let m: int = k + 2 + payload.len();
            assert(w[m] == 0x0D && msg[i + m] == w[m]);
            assert(w[m + 1] == 0x0A && msg[i + (m + 1)] == w[m + 1]);
            assert(edges.contains_key(((b + 3) as u16, 0x0Du16)));
            assert(edges.contains_key(((b + 4) as u16, 0x0Au16)));
            let r4 = r3.at((b + 4) as u16);
            assert(auto.walk_on(msg, to, r3) == auto.walk_on(msg, to + 1, r4));
            assert(r4.at((b + 5) as u16) == run_after(run, i, mid, e, b + 5));
        },
        Element::Null => {
            assert(w =~= seq![0x24u8, 0x2D, 0x31, 0x0D, 0x0A]);
            assert(msg[i + 0] == w[0]);
            assert(msg[i + 1] == w[1]);
            assert(msg[i + 2] == w[2]);
            assert(msg[i + 3] == w[3]);
            assert(msg[i + 4] == w[4]);
            assert(edges.contains_key((slot as u16, 0x24u16)));
            assert(edges.contains_key((b as u16, 0x2Du16)));
            assert(edges.contains_key(((b + 6) as u16, 0x31u16)));
            assert(edges.contains_key(((b + 7) as u16, 0x0Du16)));
            assert(edges.contains_key(((b + 8) as u16, 0x0Au16)));
            let r0 = run.at(b as u16);
            let r1 = run.at((b + 6) as u16);
            let r2 = run.at((b + 7) as u16);
            let r3 = run.at((b + 8) as u16);
            assert(auto.walk_on(msg, i, run) == auto.walk_on(msg, i + 1, r0));
            assert(auto.walk_on(msg, i + 1, r0) == auto.walk_on(msg, i + 2, r1));
            assert(auto.walk_on(msg, i + 2, r1) == auto.walk_on(msg, i + 3, r2));
            assert(auto.walk_on(msg, i + 3, r2) == auto.walk_on(msg, i + 4, r3));
            assert(run.at((b + 5) as u16) == run_after(run, i, mid, e, b + 5));
        },
        Element::Simple(kind, payload) => {
            assert(w[0] == kind);
            assert(msg[i + 0] == w[0]);
            assert(edges.contains_key((slot as u16, 0x2Bu16)));
            assert(edges.contains_key((slot as u16, 0x2Du16)));
            assert(edges.contains_key((slot as u16, 0x3Au16)));
            let r0 = Run {
                state: (b + 9) as u16,
                starts: match mid {
                    Some(mid) => run.starts.insert(mid, i + 1),
                    None => run.starts,
                },
                ..run
            };
            assert(auto.walk_on(msg, i, run) == auto.walk_on(msg, i + 1, r0));
            let from = i + 1;
            let to = from + payload.len();
            assert(msg[i + 1] == w[1] && w[1] == payload[0]);
            assert(edges.contains_key(((b + 9) as u16, ANY_INPUT)));
            assert(!auto.has(r0.state, msg[from] as u16));
            let r1 = r0.at((b + 10) as u16).captured(mid, msg.subrange(from, from + 1));
            assert(auto.walk_on(msg, from, r0) == auto.walk_on(msg, from + 1, r1));
            assert forall|j: int| from + 1 <= j < to implies #[trigger] msg[j] != 0x0D by {
                assert(msg[i + (j - i)] == w[j - i]);
                assert(w[j - i] == payload[j - from]);
            }
            lemma_walk_payload(auto, msg, from + 1, r1, slot, b, mid, done, from, to);
            assert(msg.subrange(from, to) =~= payload) by {
                assert forall|j: int| 0 <= j < payload.len() implies msg.subrange(from, to)[j]
                    == payload[j] by {
                    assert(msg[i + (1 + j)] == w[1 + j]);
                }
            }
            let r2 = r1.captured(mid, payload);
            let k: int = 1 + payload.len() as int;
            assert(w[k] == 0x0D && msg[i + k] == w[k]);
            assert(w[k + 1] == 0x0A && msg[i + (k + 1)] == w[k + 1]);
            assert(edges.contains_key(((b + 10) as u16, 0x0Du16)));
            assert(edges.contains_key(((b + 11) as u16, 0x0Au16)));
            let r3 = r2.at((b + 11) as u16);
            assert(auto.walk_on(msg, to, r2) == auto.walk_on(msg, to + 1, r3));
            assert(r3.at((b + 5) as u16) =~= run_after(run, i, mid, e, b + 5));
        },
    }
}

/// How far a walk has come that has read the first `k` elements of an array.
spec fn run_at(args: Seq<Option<MatchId>>, es: Seq<Element>, k: nat) -> Run
    decreases k,
{
    let n = es.len() as int;
    if k == 0 {
        Run::start().at(slot_of(n, 0) as u16)
    } else {
        run_after(
            run_at(args, es, (k - 1) as nat),
            4int + wires(es, (k - 1) as nat).len(),
            args[k - 1],
            es[k - 1],
            slot_of(n, k as int),
        )
    }
}

/// The elements of an array are in a message where those before them end.
proof fn lemma_wires(msg: Seq<u8>, i: int, es: Seq<Element>, n: nat, k: int)
    requires
        at(msg, i, wires(es, n)),
        0 <= k < n,
    ensures
        at(msg, i + wires(es, k as nat).len(), es[k].wire()),
        wires(es, k as nat).len() + es[k].wire().len() <= wires(es, n).len(),
    decreases n,
{
    let w = wires(es, n);
    let before = wires(es, (n - 1) as nat);
    let last = es[n - 1].wire();
    if k < n - 1 {
        assert forall|j: int| 0 <= j < before.len() implies #[trigger] msg[i + j] == before[j] by {
            assert(msg[i + j] == w[j]);
        }
        lemma_wires(msg, i, es, (n - 1) as nat, k);
    } else {
        assert forall|j: int| 0 <= j < last.len() implies #[trigger] msg[i + before.len() + j]
            == last[j] by {
            assert(msg[i + (before.len() + j)] == w[before.len() + j]);
        }
    }
}

proof fn lemma_wires_prefix(msg: Seq<u8>, i: int, es: Seq<Element>, n: nat, k: nat)
    requires
        at(msg, i, wires(es, n)),
        k <= n,
    ensures
        at(msg, i, wires(es, k)),
    decreases n,
{
    if k < n {
        let w = wires(es, n);
        let before = wires(es, (n - 1) as nat);
        assert forall|j: int| 0 <= j < before.len() implies #[trigger] msg[i + j] == before[j] by {
            assert(msg[i + j] == w[j]);
        }
        lemma_wires_prefix(msg, i, es, (n - 1) as nat, k);
    }
}

/// Walking the elements of an array one after the other.
proof fn lemma_walk_elements(
    auto: Auto<Action>,
    args: Seq<Option<MatchId>>,
    reply: Option<MatchId>,
    msg: Seq<u8>,
    es: Seq<Element>,
    k: nat,
)
    requires
        has_shape(auto, args, reply),
        1 <= es.len() <= 8,
        k < es.len(),
        forall|j: int| 0 <= j < es.len() ==> (#[trigger] es[j]).wf(),
        at(msg, 4, wires(es, k)),
    ensures
        auto.walk_on(msg, 4, run_at(args, es, 0)) == auto.walk_on(
            msg,
            4int + wires(es, k).len(),
            run_at(args, es, k),
        ),
        run_at(args, es, k).state == slot_of(es.len() as int, k as int),
        run_at(args, es, k).len == 0,
        run_at(args, es, k).captures == captured(args, es, k),
        0 <= slot_of(es.len() as int, k as int) < element_base(es.len() as int, k as int)
            <= u16::MAX - 12,
    decreases k,
{
    let n = es.len() as int;
    lemma_states_of(n);
    if k > 0 {
        let j = (k - 1) as nat;
        lemma_wires_prefix(msg, 4, es, k, j);
        lemma_walk_elements(auto, args, reply, msg, es, j);
        let run = run_at(args, es, j);
        let i: int = 4int + wires(es, j).len();
        lemma_wires(msg, 4, es, k, j as int);
        assert(has_array(auto, args, n));
        assert(has_element_of(auto, args, n, j as int));
        assert(es[j as int].wf());
        lemma_walk_element(
            auto,
            msg,
            i,
            run,
            slot_of(n, j as int),
            element_base(n, j as int),
            args[j as int],
            false,
            es[j as int],
        );
    } else {
        assert(run_at(args, es, 0).captures =~= captured(args, es, 0));
    }
}

/// Walking what announces an array.
proof fn lemma_walk_header(
    auto: Auto<Action>,
    args: Seq<Option<MatchId>>,
    reply: Option<MatchId>,
    msg: Seq<u8>,
    n: nat,
)
    requires
        has_shape(auto, args, reply),
        1 <= n <= 8,
        at(msg, 0, seq![0x2Au8] + digits(n) + crlf()),
    ensures
        auto.walk(msg) == auto.walk_on(msg, 4, Run::start().at(slot_of(n as int, 0) as u16)),
{
    let w = seq![0x2Au8] + digits(n) + crlf();
    lemma_states_of(n as int);
    let c = states_of(n - 1);
    assert(has_array(auto, args, n as int));
    assert(digits(n) =~= seq![(0x30 + n) as u8]);
    assert(w =~= seq![0x2Au8, (0x30 + n) as u8, 0x0D, 0x0A]);
    assert(msg[0int + 0] == w[0]);
    assert(msg[0int + 1] == w[1]);
    assert(msg[0int + 2] == w[2]);
    assert(msg[0int + 3] == w[3]);
    let r = Run::start();
    let r0 = r.at(STAR);
    let r1 = r.at(c as u16);
    let r2 = r.at((c + 1) as u16);
    let r3 = r.at((c + 2) as u16);
    assert(auto.has(STAR, (0x30 + n) as u16));
    assert(auto.walk_on(msg, 0, r) == auto.walk_on(msg, 1, r0));
    assert(auto.walk_on(msg, 1, r0) == auto.walk_on(msg, 2, r1));
    assert(auto.walk_on(msg, 2, r1) == auto.walk_on(msg, 3, r2));
    assert(auto.walk_on(msg, 3, r2) == auto.walk_on(msg, 4, r3));
}

/// A command, or a reply that is an array, of up to [`MAX_ARGS`] elements is
/// parsed up to its end, whatever follows it, and the parser captures of it
/// what each of its elements carries that it was configured to capture, and
/// nothing else.
pub proof fn law_array_is_captured(
    args: Seq<Option<MatchId>>,
    reply: Option<MatchId>,
    es: Seq<Element>,
    rest: Seq<u8>,
)
    requires
        args.len() == MAX_ARGS,
        1 <= es.len() <= MAX_ARGS,
        forall|j: int| 0 <= j < es.len() ==> (#[trigger] es[j]).wf(),
    ensures
        patterns(args, reply).auto.walk(array(es) + rest) == Some(
            Report {
                consumed: array(es).len() as int,
                captures: captured(args, es, es.len()),
            },
        ),
{
    let n = es.len();
    let msg = array(es) + rest;
    let auto = patterns(args, reply).auto;
    lemma_patterns(args, reply);
    lemma_states_of(n as int);
    let head = seq![0x2Au8] + digits(n) + crlf();
    let body = wires(es, n);
    assert(digits(n) =~= seq![(0x30 + n) as u8]);
    assert(head.len() == 4);
    assert forall|j: int| 0 <= j < head.len() implies #[trigger] msg[0 + j] == head[j] by {}
    assert forall|j: int| 0 <= j < body.len() implies #[trigger] msg[4 + j] == body[j] by {}
    lemma_walk_header(auto, args, reply, msg, n);
    let k = (n - 1) as nat;
    lemma_wires_prefix(msg, 4, es, n, k);
    lemma_walk_elements(auto, args, reply, msg, es, k);
    lemma_wires(msg, 4, es, n, k as int);
    let run = run_at(args, es, k);
    let i: int = 4int + wires(es, k).len();
    assert(has_array(auto, args, n as int));
    assert(has_element_of(auto, args, n as int, k as int));
    assert(es[k as int].wf());
    lemma_walk_element(
        auto,
        msg,
        i,
        run,
        slot_of(n as int, k as int),
        element_base(n as int, k as int),
        args[k as int],
        true,
        es[k as int],
    );
}

/// A reply that is a single element is parsed up to its end, whatever follows
/// it, and what it carries is captured if replies are.
pub proof fn law_reply_is_captured(
    args: Seq<Option<MatchId>>,
    reply: Option<MatchId>,
    e: Element,
    rest: Seq<u8>,
)
    requires
        args.len() == MAX_ARGS,
        e.wf(),
    ensures
        patterns(args, reply).auto.walk(e.wire() + rest) == Some(
            Report {
                consumed: e.wire().len() as int,
                captures: capture(Map::empty(), reply, e),
            },
        ),
{
    let msg = e.wire() + rest;
    let auto = patterns(args, reply).auto;
    lemma_patterns(args, reply);
    let w = e.wire();
    assert forall|j: int| 0 <= j < w.len() implies #[trigger] msg[0 + j] == w[j] by {}
    lemma_walk_element(
        auto,
        msg,
        0,
        Run::start(),
        INIT_STATE as int,
        REPLY as int,
        reply,
        true,
        e,
    );
}

/// A null array and an empty array are parsed up to their end, whatever follows
/// them, and nothing of them is captured.
pub proof fn law_empty_array_captures_nothing(
    args: Seq<Option<MatchId>>,
    reply: Option<MatchId>,
    spelling: Seq<u8>,
    rest: Seq<u8>,
)
    requires
        args.len() == MAX_ARGS,
        spelling == seq![0x2Au8, 0x2D, 0x31] || spelling == seq![0x2Au8, 0x30],
    ensures
        patterns(args, reply).auto.walk(spelling + crlf() + rest) == Some(
            Report { consumed: spelling.len() + 2int, captures: Map::empty() },
        ),
{
    let msg = spelling + crlf() + rest;
    let auto = patterns(args, reply).auto;
    lemma_patterns(args, reply);
    let edges = empty_edges();
    let r = Run::start();
    assert(msg[0] == 0x2A);
    assert(auto.walk_on(msg, 0, r) == auto.walk_on(msg, 1, r.at(STAR)));
    if spelling.len() == 3 {
        assert(msg[1] == 0x2D && msg[2] == 0x31 && msg[3] == 0x0D && msg[4] == 0x0A);
        assert(edges.contains_key((STAR, 0x2Du16)));
        assert(edges.contains_key((471u16, 0x31u16)));
        assert(edges.contains_key((472u16, 0x0Du16)));
        assert(edges.contains_key((473u16, 0x0Au16)));
        assert(auto.walk_on(msg, 1, r.at(STAR)) == auto.walk_on(msg, 2, r.at(471)));
        assert(auto.walk_on(msg, 2, r.at(471)) == auto.walk_on(msg, 3, r.at(472)));
        assert(auto.walk_on(msg, 3, r.at(472)) == auto.walk_on(msg, 4, r.at(473)));
    } else {
        assert(msg[1] == 0x30 && msg[2] == 0x0D && msg[3] == 0x0A);
        assert(edges.contains_key((STAR, 0x30u16)));
        assert(edges.contains_key((475u16, 0x0Du16)));
        assert(edges.contains_key((476u16, 0x0Au16)));
        assert(auto.walk_on(msg, 1, r.at(STAR)) == auto.walk_on(msg, 2, r.at(475)));
        assert(auto.walk_on(msg, 2, r.at(475)) == auto.walk_on(msg, 3, r.at(476)));
    }
}

/// A message that begins like no command and no reply, such as an inline
/// command, is never parsed.
pub proof fn law_unknown_message_is_ignored(
    args: Seq<Option<MatchId>>,
    reply: Option<MatchId>,
    msg: Seq<u8>,
)
    requires
        args.len() == MAX_ARGS,
        msg.len() > 0,
        !first_bytes().contains(msg[0] as u16),
    ensures
        patterns(args, reply).auto.walk(msg) is None,
{
    let auto = patterns(args, reply).auto;
    lemma_patterns(args, reply);
    lemma_next_lost(auto, args, reply, INIT_STATE as int, msg[0], first_bytes());
    auto.lemma_walk_lost(msg, 1, Run::start().at(ANY_STATE));
}

/// A byte no transition out of a state reads is where the walk is lost.
proof fn lemma_next_lost(
    auto: Auto<Action>,
    args: Seq<Option<MatchId>>,
    reply: Option<MatchId>,
    state: int,
    c: u8,
    inputs: Set<u16>,
)
    requires
        has_shape(auto, args, reply),
        0 <= state <= u16::MAX,
        reads_only(auto, state as u16, inputs),
        !inputs.contains(c as u16),
        !inputs.contains(ANY_INPUT),
    ensures
        auto.next(state as u16, c) == (ANY_STATE, None::<Action>),
        forall|input: u16| !#[trigger] auto.has(ANY_STATE, input),
{
    assert(!auto.has(state as u16, c as u16));
    assert(!auto.has(state as u16, ANY_INPUT));
    assert forall|input: u16| !#[trigger] auto.has(ANY_STATE, input) by {}
}

/// An array of more than [`MAX_ARGS`] elements is never parsed.
pub proof fn law_longer_array_is_ignored(
    args: Seq<Option<MatchId>>,
    reply: Option<MatchId>,
    n: nat,
    rest: Seq<u8>,
)
    requires
        args.len() == MAX_ARGS,
        n > MAX_ARGS,
    ensures
        patterns(args, reply).auto.walk(seq![0x2Au8] + digits(n) + crlf() + rest) is None,
{
    let msg = seq![0x2Au8] + digits(n) + crlf() + rest;
    let auto = patterns(args, reply).auto;
    lemma_patterns(args, reply);
    lemma_digits(n);
    let r = Run::start();
    assert(msg[0] == 0x2A);
    assert(auto.walk_on(msg, 0, r) == auto.walk_on(msg, 1, r.at(STAR)));
    let ds = digits(n);
    assert(msg[1] == ds[0]);
    assert(is_digit(ds[0]));
    let m = ds[0] - 0x30;
    lemma_first_digit(n);
    if m == 9 {
        lemma_next_lost(auto, args, reply, STAR as int, msg[1], all_counts());
        auto.lemma_walk_lost(msg, 2, r.at(ANY_STATE));
    } else {
        assert(ds.len() >= 2);
        assert(1 <= m <= 8);
        lemma_states_of(m);
        assert(has_array(auto, args, m));
        let c = states_of(m - 1);
        assert(auto.has(STAR, (0x30 + m) as u16));
        assert(auto.walk_on(msg, 1, r.at(STAR)) == auto.walk_on(msg, 2, r.at(c as u16)));
        assert(msg[2] == ds[1]);
        assert(is_digit(ds[1]));
        lemma_next_lost(auto, args, reply, c, msg[2], set![0x0Du16]);
        auto.lemma_walk_lost(msg, 3, r.at(ANY_STATE));
    }
}

/// The first digit of a number that is not zero is not zero.
proof fn lemma_first_digit(n: nat)
    requires
        n > 0,
    ensures
        digits(n)[0] > 0x30,
        n >= 10 ==> digits(n).len() >= 2,
        n < 10 ==> digits(n) == seq![(0x30 + n) as u8],
    decreases n,
{
    if n >= 10 {
        lemma_first_digit(n / 10);
        lemma_digits(n / 10);
    }
}

/// An array nested in another one is never parsed.
pub proof fn law_nested_array_is_ignored(
    args: Seq<Option<MatchId>>,
    reply: Option<MatchId>,
    n: nat,
    es: Seq<Element>,
    rest: Seq<u8>,
)
    requires
        args.len() == MAX_ARGS,
        1 <= n <= MAX_ARGS,
        es.len() < n,
        forall|j: int| 0 <= j < es.len() ==> (#[trigger] es[j]).wf(),
    ensures
        patterns(args, reply).auto.walk(
            seq![0x2Au8] + digits(n) + crlf() + wires(es, es.len()) + seq![0x2Au8] + rest,
        ) is None,
{
    let head = seq![0x2Au8] + digits(n) + crlf();
    let body = wires(es, es.len());
    let msg = head + body + seq![0x2Au8] + rest;
    assert(digits(n) =~= seq![(0x30 + n) as u8]);
    let all = padded(es, n);
    lemma_padded(es, n);
    assert(at(msg, 0, head));
    assert(at(msg, 4, body));
    assert(msg[4int + body.len()] == 0x2A);
    lemma_nested(args, reply, msg, all, es.len());
}

/// A walk over an array is lost where another one begins in it.
proof fn lemma_nested(
    args: Seq<Option<MatchId>>,
    reply: Option<MatchId>,
    msg: Seq<u8>,
    es: Seq<Element>,
    k: nat,
)
    requires
        args.len() == MAX_ARGS,
        1 <= es.len() <= MAX_ARGS,
        k < es.len(),
        forall|j: int| 0 <= j < es.len() ==> (#[trigger] es[j]).wf(),
        at(msg, 0, seq![0x2Au8] + digits(es.len()) + crlf()),
        at(msg, 4, wires(es, k)),
        4 + wires(es, k).len() < msg.len(),
        msg[4int + wires(es, k).len()] == 0x2A,
    ensures
        patterns(args, reply).auto.walk(msg) is None,
{
    let n = es.len() as int;
    let auto = patterns(args, reply).auto;
    lemma_patterns(args, reply);
    lemma_walk_header(auto, args, reply, msg, es.len());
    lemma_walk_elements(auto, args, reply, msg, es, k);
    let run = run_at(args, es, k);
    let i: int = 4int + wires(es, k).len();
    assert(has_array(auto, args, n));
    assert(has_element_of(auto, args, n, k as int));
    lemma_next_lost(auto, args, reply, slot_of(n, k as int), 0x2A, kinds());
    auto.lemma_walk_lost(msg, i + 1, run.at(ANY_STATE));
    assert(auto.walk_on(msg, i, run) == auto.walk_on(msg, i + 1, run.at(ANY_STATE)));
}

proof fn lemma_same_wires(es: Seq<Element>, all: Seq<Element>, k: nat)
    requires
        k <= es.len(),
        k <= all.len(),
        forall|j: int| 0 <= j < k ==> es[j] == all[j],
    ensures
        wires(es, k) == wires(all, k),
    decreases k,
{
    if k > 0 {
        lemma_same_wires(es, all, (k - 1) as nat);
    }
}

/// A reply whose length is no number is never parsed.
pub proof fn law_length_that_is_no_number_is_ignored(
    args: Seq<Option<MatchId>>,
    reply: Option<MatchId>,
    ds: Seq<u8>,
    c: u8,
    rest: Seq<u8>,
)
    requires
        args.len() == MAX_ARGS,
        forall|j: int| 0 <= j < ds.len() ==> is_digit(#[trigger] ds[j]),
        !is_digit(c),
        c != 0x0D || ds.len() == 0,
        c != 0x2D || ds.len() > 0,
    ensures
        patterns(args, reply).auto.walk(seq![0x24u8] + ds + seq![c] + rest) is None,
{
    let auto = patterns(args, reply).auto;
    lemma_patterns(args, reply);
    let msg = seq![0x24u8] + ds + seq![c] + rest;
    assert(at(msg, 1, ds));
    assert(msg[0] == 0x24);
    assert(msg[1int + ds.len()] == c);
    lemma_no_number(
        auto,
        args,
        reply,
        msg,
        0,
        Run::start(),
        INIT_STATE as int,
        REPLY as int,
        reply,
        true,
        ds,
    );
}

/// An array with an element whose length is no number is never parsed.
pub proof fn law_length_in_array_that_is_no_number_is_ignored(
    args: Seq<Option<MatchId>>,
    reply: Option<MatchId>,
    n: nat,
    es: Seq<Element>,
    ds: Seq<u8>,
    c: u8,
    rest: Seq<u8>,
)
    requires
        args.len() == MAX_ARGS,
        1 <= n <= MAX_ARGS,
        es.len() < n,
        forall|j: int| 0 <= j < es.len() ==> (#[trigger] es[j]).wf(),
        forall|j: int| 0 <= j < ds.len() ==> is_digit(#[trigger] ds[j]),
        !is_digit(c),
        c != 0x0D || ds.len() == 0,
        c != 0x2D || ds.len() > 0,
    ensures
        patterns(args, reply).auto.walk(
            seq![0x2Au8] + digits(n) + crlf() + wires(es, es.len()) + seq![0x24u8] + ds + seq![c]
                + rest,
        ) is None,
{
    let head = seq![0x2Au8] + digits(n) + crlf();
    let body = wires(es, es.len());
    let msg = head + body + seq![0x24u8] + ds + seq![c] + rest;
    assert(digits(n) =~= seq![(0x30 + n) as u8]);
    let all = padded(es, n);
    lemma_padded(es, n);
    assert(at(msg, 0, head));
    assert(at(msg, 4, body));
    let i: int = 4int + body.len();
    assert(msg[i] == 0x24);
    assert(at(msg, i + 1, ds));
    assert(msg[i + 1 + ds.len()] == c);
    lemma_no_number_in_array(args, reply, msg, all, es.len(), ds);
}

proof fn lemma_no_number_in_array(
    args: Seq<Option<MatchId>>,
    reply: Option<MatchId>,
    msg: Seq<u8>,
    es: Seq<Element>,
    k: nat,
    ds: Seq<u8>,
)
    requires
        args.len() == MAX_ARGS,
        1 <= es.len() <= MAX_ARGS,
        k < es.len(),
        forall|j: int| 0 <= j < es.len() ==> (#[trigger] es[j]).wf(),
        at(msg, 0, seq![0x2Au8] + digits(es.len()) + crlf()),
        at(msg, 4, wires(es, k)),
        5 + wires(es, k).len() + ds.len() < msg.len(),
        msg[4int + wires(es, k).len()] == 0x24,
        at(msg, 5int + wires(es, k).len(), ds),
        forall|j: int| 0 <= j < ds.len() ==> is_digit(#[trigger] ds[j]),
        !is_digit(msg[5int + wires(es, k).len() + ds.len()]),
        msg[5int + wires(es, k).len() + ds.len()] != 0x0D || ds.len() == 0,
        msg[5int + wires(es, k).len() + ds.len()] != 0x2D || ds.len() > 0,
    ensures
        patterns(args, reply).auto.walk(msg) is None,
{
    let n = es.len() as int;
    let auto = patterns(args, reply).auto;
    lemma_patterns(args, reply);
    lemma_walk_header(auto, args, reply, msg, es.len());
    lemma_walk_elements(auto, args, reply, msg, es, k);
    assert(has_array(auto, args, n));
    assert(has_element_of(auto, args, n, k as int));
    lemma_no_number(
        auto,
        args,
        reply,
        msg,
        4int + wires(es, k).len(),
        run_at(args, es, k),
        slot_of(n, k as int),
        element_base(n, k as int),
        args[k as int],
        k == n - 1,
        ds,
    );
}

/// The elements, followed by as many others as it takes to make them `n`.
spec fn padded(es: Seq<Element>, n: nat) -> Seq<Element> {
    Seq::new(
        n,
        |j: int|
            if j < es.len() {
                es[j]
            } else {
                Element::Null
            },
    )
}

proof fn lemma_padded(es: Seq<Element>, n: nat)
    requires
        es.len() < n,
        forall|j: int| 0 <= j < es.len() ==> (#[trigger] es[j]).wf(),
    ensures
        padded(es, n).len() == n,
        forall|j: int| 0 <= j < n ==> (#[trigger] padded(es, n)[j]).wf(),
        wires(padded(es, n), es.len()) == wires(es, es.len()),
{
    let all = padded(es, n);
    lemma_same_wires(es, all, es.len());
    assert forall|j: int| 0 <= j < all.len() implies (#[trigger] all[j]).wf() by {
        if j < es.len() {
            assert(es[j].wf());
        }
    }
}

/// A walk that reads something else than a digit as part of a length is lost.
proof fn lemma_no_number(
    auto: Auto<Action>,
    args: Seq<Option<MatchId>>,
    reply: Option<MatchId>,
    msg: Seq<u8>,
    i: int,
    run: Run,
    slot: int,
    b: int,
    mid: Option<MatchId>,
    done: bool,
    ds: Seq<u8>,
)
    requires
        has_shape(auto, args, reply),
        begins_element(auto, slot, b, mid, done),
        0 <= slot < b <= u16::MAX - 12,
        run.state == slot,
        0 <= i,
        i + 1 + ds.len() < msg.len(),
        msg[i] == 0x24,
        at(msg, i + 1, ds),
        forall|j: int| 0 <= j < ds.len() ==> is_digit(#[trigger] ds[j]),
        !is_digit(msg[i + 1 + ds.len()]),
        msg[i + 1 + ds.len()] != 0x0D || ds.len() == 0,
        msg[i + 1 + ds.len()] != 0x2D || ds.len() > 0,
    ensures
        auto.walk_on(msg, i, run) is None,
{
    let edges = element_edges(slot as u16, b, mid, done);
    assert(edges.contains_key((slot as u16, 0x24u16)));
    let r0 = run.at(b as u16);
    assert(auto.walk_on(msg, i, run) == auto.walk_on(msg, i + 1, r0));
    let p = i + 1 + ds.len();
    let c = msg[p];
    let r1 = if ds.len() > 0 {
        Run { state: (b + 1) as u16, len: number(run.len, ds), ..run }
    } else {
        r0
    };
    if ds.len() > 0 {
        lemma_walk_digits(auto, msg, i + 1, r0, slot, b, mid, done, ds);
    }
    assert(edges.contains_key((b as u16, ANY_INPUT)));
    assert(edges.contains_key(((b + 1) as u16, ANY_INPUT)));
    assert(!auto.has(r1.state, c as u16));
    assert(auto.next(r1.state, c) == ((b + 1) as u16, Some(Action::LenDigit)));
    let lost = Run { state: ANY_STATE, len: 0, ..r1 };
    assert(auto.walk_on(msg, p, r1) == auto.walk_on(msg, p + 1, lost));
    assert forall|input: u16| !#[trigger] auto.has(ANY_STATE, input) by {}
    auto.lemma_walk_lost(msg, p + 1, lost);
}

/// The patterns of a parser fit into the tables of the parser program, which
/// hold 512 states, whatever the parser captures.
pub proof fn law_patterns_fit(args: Seq<Option<MatchId>>, reply: Option<MatchId>)
    requires
        args.len() == MAX_ARGS,
    ensures
        patterns(args, reply).fits,
        patterns(args, reply).auto.num_states == NUM_STATES <= 512,
        patterns(args, reply).auto.in_bounds(),
{
    lemma_patterns(args, reply);
}

/// The bytes of bulk strings, each with its length before it.
pub open spec fn bulks(strings: Seq<Seq<u8>>, k: nat) -> Seq<u8>
    decreases k,
{
    if k == 0 {
        Seq::empty()
    } else {
        let s = strings[k - 1];
        bulks(strings, (k - 1) as nat) + seq![0x24u8] + digits(s.len()) + seq![0x0Du8, 0x0A] + s
            + seq![0x0Du8, 0x0A]
    }
}

proof fn lemma_bulks(strings: Seq<Seq<u8>>, es: Seq<Element>, k: nat)
    requires
        es.len() == strings.len(),
        forall|i: int| 0 <= i < es.len() ==> es[i] == Element::Bulk(strings[i]),
        k <= es.len(),
    ensures
        wires(es, k) == bulks(strings, k),
    decreases k,
{
    if k > 0 {
        lemma_bulks(strings, es, (k - 1) as nat);
        let s = strings[k - 1];
        assert(es[k - 1] == Element::Bulk(s));
        assert(wires(es, k) =~= bulks(strings, k));
    }
}

/// What is captured of the first `k` elements is what those carry that are
/// captured.
proof fn lemma_captured(args: Seq<Option<MatchId>>, es: Seq<Element>, k: nat, mid: MatchId)
    requires
        k <= es.len() <= args.len(),
    ensures
        captured(args, es, k).contains_key(mid) ==> exists|i: int|
            0 <= i < k && #[trigger] args[i] == Some(mid) && es[i].payload() is Some,
        forall|i: int|
            0 <= i < k && #[trigger] args[i] == Some(mid) && es[i].payload() is Some && (forall|
                j: int,
            |
                i < j < k ==> #[trigger] args[j] != Some(mid)) ==> captured(
                args,
                es,
                k,
            ).contains_pair(mid, es[i].payload()->0),
    decreases k,
{
    if k > 0 {
        let m = (k - 1) as nat;
        lemma_captured(args, es, m, mid);
        if captured(args, es, k).contains_key(mid) {
            if captured(args, es, m).contains_key(mid) {
                let i = choose|i: int|
                    0 <= i < m && #[trigger] args[i] == Some(mid) && es[i].payload() is Some;
                assert(args[i] == Some(mid) && es[i].payload() is Some);
            } else {
                assert(args[m as int] == Some(mid) && es[m as int].payload() is Some);
            }
        }
        assert forall|i: int|
            0 <= i < k && #[trigger] args[i] == Some(mid) && es[i].payload() is Some && (forall|
                j: int,
            |
                i < j < k ==> #[trigger] args[j] != Some(mid)) implies captured(
            args,
            es,
            k,
        ).contains_pair(mid, es[i].payload()->0) by {
            if i < m {
                assert(args[m as int] != Some(mid));
            }
        }
    }
}

/// A command of up to eight arguments, each of which is a bulk string of any bytes,
/// is parsed up to its end, and nothing behind it. Every argument is captured under
/// the id its position was given, and nothing else is: the name of the command is
/// the one at position 0.
pub proof fn law_command_is_captured(
    args: Seq<Option<MatchId>>,
    reply: Option<MatchId>,
    strings: Seq<Seq<u8>>,
    rest: Seq<u8>,
    mid: MatchId,
)
    requires
        args.len() == 8,
        1 <= strings.len() <= 8,
        forall|i: int, j: int|
            0 <= i < j < 8 && (#[trigger] args[i]) is Some ==> args[i] != #[trigger] args[j],
    ensures
        ({
            let n = strings.len();
            let command = seq![0x2Au8, (0x30 + n) as u8, 0x0D, 0x0A] + bulks(strings, n);
            &&& patterns(args, reply).auto.walk(command + rest) matches Some(report)
            &&& report.consumed == command.len()
            &&& forall|i: int|
                0 <= i < n && #[trigger] args[i] == Some(mid) ==> report.captures.contains_pair(
                    mid,
                    strings[i],
                )
            &&& report.captures.contains_key(mid) ==> exists|i: int|
                0 <= i < n && #[trigger] args[i] == Some(mid)
        }),
{
    let n = strings.len();
    let es = Seq::new(n, |i: int| Element::Bulk(strings[i]));
    let command = seq![0x2Au8, (0x30 + n) as u8, 0x0D, 0x0A] + bulks(strings, n);
    lemma_bulks(strings, es, n);
    assert(digits(n) =~= seq![(0x30 + n) as u8]);
    assert(array(es) =~= command);
    law_array_is_captured(args, reply, es, rest);
    lemma_captured(args, es, n, mid);
    assert forall|i: int| 0 <= i < n && #[trigger] args[i] == Some(mid) implies captured(
        args,
        es,
        n,
    ).contains_pair(mid, strings[i]) by {
        assert(es[i].payload() == Some(strings[i]));
    }
}

/// A reply is parsed up to its end, and nothing behind it, and what it carries is
/// captured if replies are. A simple string begins with a plus, an error with a
/// minus and an integer with a colon, and all of them run up to the end of the
/// line. A bulk string says its length first. A null bulk string carries nothing.
pub proof fn law_reply_is_captured_by_its_kind(
    args: Seq<Option<MatchId>>,
    reply: Option<MatchId>,
    kind: u8,
    payload: Seq<u8>,
    rest: Seq<u8>,
)
    requires
        args.len() == 8,
    ensures
        ({
            let captures: Map<MatchId, Seq<u8>> = match reply {
                Some(mid) => Map::empty().insert(mid, payload),
                None => Map::empty(),
            };
            let line = seq![kind] + payload + seq![0x0Du8, 0x0A];
            let bulk = seq![0x24u8] + digits(payload.len()) + seq![0x0Du8, 0x0A] + payload + seq![
                0x0Du8,
                0x0A,
            ];
            &&& (kind == 0x2B || kind == 0x2D || kind == 0x3A) && payload.len() > 0 && (forall|
                i: int,
            |
                0 <= i < payload.len() ==> #[trigger] payload[i] != 0x0D) ==> patterns(
                args,
                reply,
            ).auto.walk(line + rest) == Some(
                Report { consumed: line.len() as int, captures },
            )
            &&& patterns(args, reply).auto.walk(bulk + rest) == Some(
                Report { consumed: bulk.len() as int, captures },
            )
        }),
        patterns(args, reply).auto.walk(seq![0x24u8, 0x2D, 0x31, 0x0D, 0x0A] + rest) == Some(
            Report { consumed: 5, captures: Map::empty() },
        ),
{
    let bulk = seq![0x24u8] + digits(payload.len()) + seq![0x0Du8, 0x0A] + payload + seq![
        0x0Du8,
        0x0A,
    ];
    assert(Element::Bulk(payload).wire() =~= bulk);
    law_reply_is_captured(args, reply, Element::Bulk(payload), rest);
    assert(Element::Null.wire() =~= seq![0x24u8, 0x2D, 0x31, 0x0D, 0x0A]);
    law_reply_is_captured(args, reply, Element::Null, rest);
    if (kind == 0x2B || kind == 0x2D || kind == 0x3A) && payload.len() > 0 && (forall|i: int|
        0 <= i < payload.len() ==> #[trigger] payload[i] != 0x0D) {
        let e = Element::Simple(kind, payload);
        assert(e.wire() =~= seq![kind] + payload + seq![0x0Du8, 0x0A]);
        law_reply_is_captured(args, reply, e, rest);
    }
}

/// A message is parsed only if it begins with the byte of a kind of reply or of a
/// command, and a command only if it has no more than eight arguments.
pub proof fn law_what_is_no_message_is_ignored(
    args: Seq<Option<MatchId>>,
    reply: Option<MatchId>,
    msg: Seq<u8>,
    n: nat,
)
    requires
        args.len() == 8,
        msg.len() > 0,
    ensures
        msg[0] != 0x24 && msg[0] != 0x2A && msg[0] != 0x2B && msg[0] != 0x2D && msg[0] != 0x3A
            ==> patterns(args, reply).auto.walk(msg) is None,
        n > 8 ==> patterns(args, reply).auto.walk(
            seq![0x2Au8] + digits(n) + seq![0x0Du8, 0x0A] + msg,
        ) is None,
{
    if msg[0] != 0x24 && msg[0] != 0x2A && msg[0] != 0x2B && msg[0] != 0x2D && msg[0] != 0x3A {
        law_unknown_message_is_ignored(args, reply, msg);
    }
    if n > 8 {
        law_longer_array_is_ignored(args, reply, n, msg);
    }
}

/// The elements of an array are sent one after the other, behind their number, and
/// each of them adds what it carries to what is captured if its position is.
pub proof fn law_array_is_sent_element_by_element(
    args: Seq<Option<MatchId>>,
    es: Seq<Element>,
    e: Element,
    mid: MatchId,
)
    requires
        es.len() < 8 == args.len(),
    ensures
        ({
            let all = es.push(e);
            let n = es.len();
            let bytes = match e {
                Element::Bulk(s) => seq![0x24u8] + digits(s.len()) + seq![0x0Du8, 0x0A] + s
                    + seq![0x0Du8, 0x0A],
                Element::Null => seq![0x24u8, 0x2D, 0x31, 0x0D, 0x0A],
                Element::Simple(kind, s) => seq![kind] + s + seq![0x0Du8, 0x0A],
            };
            &&& array(all) == seq![0x2Au8, (0x31 + n) as u8, 0x0D, 0x0A] + wires(es, n) + bytes
            &&& wires(all, n + 1) == wires(es, n) + bytes
        }),
        ({
            let all = es.push(e);
            let n = es.len();
            let earlier = captured(args, es, n);
            let later = captured(args, all, n + 1);
            let carried = match e {
                Element::Bulk(s) => Some(s),
                Element::Null => None,
                Element::Simple(_, s) => Some(s),
            };
            if args[n as int] == Some(mid) && carried is Some {
                later.contains_pair(mid, carried->0)
            } else {
                &&& later.contains_key(mid) <==> earlier.contains_key(mid)
                &&& later.contains_key(mid) ==> later[mid] == earlier[mid]
            }
        }),
{
    let all = es.push(e);
    let n = es.len();
    lemma_same_wires(es, all, n);
    lemma_same_captured(args, es, all, n);
    let bytes = match e {
        Element::Bulk(s) => seq![0x24u8] + digits(s.len()) + seq![0x0Du8, 0x0A] + s + seq![
            0x0Du8,
            0x0A,
        ],
        Element::Null => seq![0x24u8, 0x2D, 0x31, 0x0D, 0x0A],
        Element::Simple(kind, s) => seq![kind] + s + seq![0x0Du8, 0x0A],
    };
    assert(e.wire() =~= bytes);
    assert(all[n as int] == e);
    assert(digits(n + 1) =~= seq![(0x31 + n) as u8]);
    assert(wires(all, n + 1) =~= wires(es, n) + bytes);
    assert(array(all) =~= seq![0x2Au8, (0x31 + n) as u8, 0x0D, 0x0A] + wires(es, n) + bytes);
}

proof fn lemma_same_captured(
    args: Seq<Option<MatchId>>,
    es: Seq<Element>,
    all: Seq<Element>,
    k: nat,
)
    requires
        k <= es.len(),
        k <= all.len(),
        forall|j: int| 0 <= j < k ==> es[j] == all[j],
    ensures
        captured(args, es, k) == captured(args, all, k),
    decreases k,
{
    if k > 0 {
        lemma_same_captured(args, es, all, (k - 1) as nat);
    }
}

} // verus!
