//! What a parser captures of an HTTP/1.x message.

use super::block::joined;
use super::fields::{lemma_reads_at, reads_at};
use super::label::{begins, preface_bytes, Labels, Marks};
use super::message::{are_lines, bytes_of, line_break, First, Line};
use super::shape::Config;
use crate::dfa::action::Effect;
use crate::dfa::model::Auto;
use crate::dfa::walk::Report;
use vstd::prelude::*;

verus! {

/// The bytes of a message up to its body: the first line, the lines of the
/// header block and the empty line at its end.
pub open spec fn header(first: First, lines: Seq<Line>, crs: nat) -> Seq<u8> {
    first.bytes() + bytes_of(lines) + line_break(crs)
}

/// Of a message a parser captures what it is configured to, and nothing else:
/// of a request line the method and the path, of a status line the status code,
/// and of every line of the header block whose name is captured, in whichever
/// case it is spelled, the value up to the end of the line, without the
/// whitespace behind the colon. The last of several fields of one name is the
/// one that is captured, and a value that is empty is not captured. The parser
/// stops behind the empty line at the end of the header block and reads nothing
/// of the body, whether lines end with a carriage return and a line feed or
/// with a line feed alone.
pub proof fn law_message_is_captured<A: Effect>(
    config: Config,
    auto: Auto<A>,
    first: First,
    lines: Seq<Line>,
    crs: nat,
    body: Seq<u8>,
)
    requires
        config.is_built(auto),
        config.stops,
        first.wf(config.patterns()),
        are_lines(lines),
    ensures
        auto.walk(header(first, lines, crs) + body) == Some(
            Report {
                consumed: header(first, lines, crs).len() as int,
                captures: config.of_lines(config.of_first(first), lines),
            },
        ),
{
    let (labels, marks) = choose|labels: Labels, marks: Marks<A>|
        config.shapes(auto, labels, marks);
    let msg = header(first, lines, crs) + body;
    let block = bytes_of(lines) + line_break(crs);
    assert(msg =~= first.bytes() + (block + body));
    assert(msg.subrange(0, msg.len() as int) =~= msg);
    assert(reads_at(msg, 0, first.bytes() + (block + body)));
    lemma_reads_at(msg, 0, first.bytes(), block + body);
    let i = first.bytes().len() as int;
    lemma_reads_at(msg, i, block, body);
    lemma_reads_at(msg, i, bytes_of(lines), line_break(crs));
    let run = auto.lemma_walk_first(config, labels, marks, msg, first);
    let later = auto.lemma_walk_lines(config, labels, marks, msg, i, lines, run);
    let j = i + bytes_of(lines).len();
    auto.lemma_walk_end(config, labels, marks, msg, j, crs, later);
}

/// A parser stops behind the first empty line of a message and not before, no
/// matter what the lines of the header block hold, or what it captures of them.
pub proof fn law_parser_stops_behind_the_empty_line<A: Effect>(
    config: Config,
    auto: Auto<A>,
    first: First,
    lines: Seq<Seq<u8>>,
    crs: nat,
    body: Seq<u8>,
)
    requires
        config.is_built(auto),
        config.stops,
        first.wf(config.patterns()),
        forall|k: int| 0 <= k < lines.len() ==> config.is_filled(#[trigger] lines[k]),
    ensures
        ({
            let block = first.bytes() + joined(lines) + line_break(crs);
            auto.walk(block + body) matches Some(report) && report.consumed == block.len()
        }),
{
    let (labels, marks) = choose|labels: Labels, marks: Marks<A>|
        config.shapes(auto, labels, marks);
    let block = first.bytes() + joined(lines) + line_break(crs);
    let msg = block + body;
    let rest = joined(lines) + line_break(crs);
    assert(msg =~= first.bytes() + (rest + body));
    assert(msg.subrange(0, msg.len() as int) =~= msg);
    assert(reads_at(msg, 0, first.bytes() + (rest + body)));
    lemma_reads_at(msg, 0, first.bytes(), rest + body);
    let i = first.bytes().len() as int;
    lemma_reads_at(msg, i, rest, body);
    lemma_reads_at(msg, i, joined(lines), line_break(crs));
    let run = auto.lemma_walk_first(config, labels, marks, msg, first);
    let later = auto.lemma_walk_block(config, labels, marks, msg, i, lines, run);
    let j = i + joined(lines).len();
    auto.lemma_walk_end(config, labels, marks, msg, j, crs, later);
}

/// A parser is not done with a message before the empty line at the end of its
/// header block.
pub proof fn law_parser_is_not_done_within_the_header_block<A: Effect>(
    config: Config,
    auto: Auto<A>,
    first: First,
    lines: Seq<Line>,
)
    requires
        config.is_built(auto),
        config.stops,
        first.wf(config.patterns()),
        are_lines(lines),
    ensures
        auto.walk(first.bytes() + bytes_of(lines)) is None,
{
    let (labels, marks) = choose|labels: Labels, marks: Marks<A>|
        config.shapes(auto, labels, marks);
    let msg = first.bytes() + bytes_of(lines);
    assert(msg.subrange(0, msg.len() as int) =~= msg);
    assert(reads_at(msg, 0, msg));
    lemma_reads_at(msg, 0, first.bytes(), bytes_of(lines));
    let i = first.bytes().len() as int;
    let run = auto.lemma_walk_first(config, labels, marks, msg, first);
    let later = auto.lemma_walk_lines(config, labels, marks, msg, i, lines, run);
}

/// A parser that is to match the preface of an HTTP/2 connection captures it
/// and stops behind it, whatever follows.
pub proof fn law_preface_is_captured<A: Effect>(config: Config, auto: Auto<A>, rest: Seq<u8>)
    requires
        config.is_built(auto),
        config.preface is Some,
    ensures
        auto.walk(preface_bytes() + rest) == Some(
            Report {
                consumed: preface_bytes().len() as int,
                captures: Map::empty().insert(config.preface->0, preface_bytes()),
            },
        ),
{
    let (labels, marks) = choose|labels: Labels, marks: Marks<A>|
        config.shapes(auto, labels, marks);
    let msg = preface_bytes() + rest;
    assert(msg.take(24) =~= preface_bytes());
    assert(begins(msg, preface_bytes()));
    auto.lemma_walk_preface(config, labels, marks, msg);
}

} // verus!
