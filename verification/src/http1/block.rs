//! A walk over the header block of an HTTP/1.x message comes to the beginning of
//! the next line behind every line that is not empty, whatever the line holds.

use super::fields::{lemma_reads_at, lemma_reads_byte, reads_at};
use super::label::{goes, has_parent, leads_to, mark_of, models, Label, Labels, Marks};
use super::labelled::has_field;
use super::message::on_one_line;
use super::shape::{closes, field_id, opens, Config};
use crate::dfa::action::{Action, Effect};
use crate::dfa::model::{Auto, ANY_INPUT, ANY_STATE};
use crate::dfa::walk::Run;
use crate::StateId;
use vstd::prelude::*;

verus! {

/// Whether a place is one in the header block.
spec fn in_block(label: Label) -> bool {
    label is Any || label is Node || label is Value || label is Text
}

/// Whether a place is the beginning of a line.
spec fn begins_line(label: Label) -> bool {
    label == Label::Node(Seq::empty())
}

impl Config {
    /// Whether a byte is more than what an empty line may hold: it is no carriage
    /// return, and no whitespace if the field without a name is captured.
    pub open spec fn fills_line(self, b: u8) -> bool {
        &&& b != 0x0D
        &&& self.captures.contains_key(Seq::empty()) ==> b != 0x20 && b != 0x09
    }

    /// Whether the bytes are those of a line that is not empty.
    pub open spec fn is_filled(self, line: Seq<u8>) -> bool {
        &&& on_one_line(line)
        &&& exists|k: int| 0 <= k < line.len() && self.fills_line(#[trigger] line[k])
    }
}

/// The bytes of several lines, each with the line feed at its end.
pub open spec fn joined(lines: Seq<Seq<u8>>) -> Seq<u8>
    decreases lines.len(),
{
    if lines.len() == 0 {
        Seq::empty()
    } else {
        lines[0].push(0x0A) + joined(lines.drop_first())
    }
}

impl<A: Effect> Auto<A> {
    /// A place at or in the value of a field is there only if the field is
    /// captured.
    proof fn lemma_value_is_captured(
        self,
        config: Config,
        labels: Labels,
        marks: Marks<A>,
        s: StateId,
        name: Seq<u8>,
    )
        requires
            config.shapes(self, labels, marks),
            labels.contains_key(s),
            labels[s] == Label::Value(name) || labels[s] == Label::Text(name),
        ensures
            has_field(self, labels, name),
    {
        reveal(models);
        assert(has_parent(self, labels, labels[s]));
        if labels[s] == Label::Text(name) {
            let p = choose|p: StateId| #[trigger]
                labels.contains_key(p) && labels[p] == Label::Value(name) && self.has(p, ANY_INPUT);
            assert(has_parent(self, labels, labels[p]));
        }
        let p = choose|p: StateId| #[trigger]
            labels.contains_key(p) && labels[p] == Label::Node(name) && self.has(p, 0x3A);
        assert(leads_to(marks.patterns, Label::Node(name), 0x3A) is Some);
        assert(config.captures.contains_key(name));
    }

    /// A byte of a line leads to a place in the header block, which is the
    /// beginning of the line only if nothing has filled it yet, and ends nothing.
    proof fn lemma_next_in_block(
        self,
        config: Config,
        labels: Labels,
        marks: Marks<A>,
        s: StateId,
        c: u8,
    )
        requires
            config.shapes(self, labels, marks),
            labels.contains_key(s),
            in_block(labels[s]),
            c != 0x0A,
        ensures
            ({
                let (t, action) = self.next(s, c);
                &&& labels.contains_key(t)
                &&& in_block(labels[t])
                &&& begins_line(labels[t]) ==> begins_line(labels[s]) && !config.fills_line(c)
                &&& action matches Some(action) ==> {
                    ||| action.effect() is StartCapture
                    ||| action.effect() is EndCapture
                }
            }),
    {
        reveal(models);
        assert(labels.contains_key(ANY_STATE));
        assert(!self.has(ANY_STATE, ANY_INPUT));
        if self.has(ANY_STATE, c as u16) {
            assert(labels.contains_key(self.to(ANY_STATE, c as u16)));
        }
        if self.has(s, c as u16) {
            assert(labels.contains_key(self.to(s, c as u16)));
        }
        if self.has(s, ANY_INPUT) {
            assert(labels.contains_key(self.to(s, ANY_INPUT)));
        }
        match labels[s] {
            Label::Node(p) => {
                assert(opens(mark_of(marks.starts, p), field_id(config.captures, p)));
                assert(!self.has(s, ANY_INPUT));
                if p.len() == 0 {
                    assert(p =~= Seq::empty());
                }
            },
            Label::Value(p) => {
                assert(opens(mark_of(marks.starts, p), field_id(config.captures, p)));
                assert(closes(mark_of(marks.ends, p), field_id(config.captures, p)));
                self.lemma_value_is_captured(config, labels, marks, s, p);
                assert(self.has(s, ANY_INPUT));
            },
            Label::Text(p) => {
                assert(closes(mark_of(marks.ends, p), field_id(config.captures, p)));
                self.lemma_value_is_captured(config, labels, marks, s, p);
                assert(self.has(s, ANY_INPUT));
            },
            _ => {},
        }
    }

    /// The line feed at the end of a line that is not empty leads to the
    /// beginning of the next.
    proof fn lemma_next_line(
        self,
        config: Config,
        labels: Labels,
        marks: Marks<A>,
        s: StateId,
    )
        requires
            config.shapes(self, labels, marks),
            config.stops,
            labels.contains_key(s),
            in_block(labels[s]),
            !begins_line(labels[s]),
        ensures
            ({
                let (t, action) = self.next(s, 0x0A);
                &&& labels.contains_key(t)
                &&& begins_line(labels[t])
                &&& action is None
            }),
    {
        reveal(models);
        assert(labels.contains_key(ANY_STATE));
        assert(goes(self, labels, Label::Any, 0x0A));
        assert(self.has(ANY_STATE, 0x0A));
        assert(labels.contains_key(self.to(ANY_STATE, 0x0A)));
        match labels[s] {
            Label::Node(p) => {
                if p.len() == 0 {
                    assert(p =~= Seq::empty());
                }
                assert(!self.has(s, 0x0A));
                assert(!self.has(s, ANY_INPUT));
            },
            Label::Value(p) => {
                self.lemma_value_is_captured(config, labels, marks, s, p);
                assert(self.has(s, 0x0A));
                assert(labels.contains_key(self.to(s, 0x0A)));
            },
            Label::Text(p) => {
                self.lemma_value_is_captured(config, labels, marks, s, p);
                assert(self.has(s, 0x0A));
                assert(labels.contains_key(self.to(s, 0x0A)));
            },
            _ => {
                assert(s == ANY_STATE);
            },
        }
    }

    /// The bytes of a line up to its end leave a walk in the header block.
    proof fn lemma_walk_in_block(
        self,
        config: Config,
        labels: Labels,
        marks: Marks<A>,
        msg: Seq<u8>,
        i: int,
        n: int,
        run: Run,
    ) -> (later: Run)
        requires
            config.shapes(self, labels, marks),
            labels.contains_key(run.state),
            in_block(labels[run.state]),
            0 <= i <= n <= msg.len(),
            forall|k: int| i <= k < n ==> #[trigger] msg[k] != 0x0A,
        ensures
            labels.contains_key(later.state),
            in_block(labels[later.state]),
            begins_line(labels[later.state]) ==> begins_line(labels[run.state]) && forall|k: int|
                i <= k < n ==> !config.fills_line(#[trigger] msg[k]),
            self.walk_on(msg, i, run) == self.walk_on(msg, n, later),
        decreases n - i,
    {
        if i == n {
            run
        } else {
            let c = msg[i];
            self.lemma_next_in_block(config, labels, marks, run.state, c);
            let (t, action) = self.next(run.state, c);
            let next = match action {
                Some(action) => match action.effect() {
                    Action::StartCapture(mid) => Run {
                        state: t,
                        starts: run.starts.insert(mid, i + 1),
                        ..run
                    },
                    Action::EndCapture(mid) => run.at(t).captured(
                        Some(mid),
                        msg.subrange(run.start_of(mid), i + 1),
                    ),
                    _ => run,
                },
                None => run.at(t),
            };
            assert(self.walk_on(msg, i, run) == self.walk_on(msg, i + 1, next));
            self.lemma_walk_in_block(config, labels, marks, msg, i + 1, n, next)
        }
    }

    /// A walk comes to the beginning of the next line behind each of several
    /// lines that are not empty.
    pub(crate) proof fn lemma_walk_block(
        self,
        config: Config,
        labels: Labels,
        marks: Marks<A>,
        msg: Seq<u8>,
        i: int,
        lines: Seq<Seq<u8>>,
        run: Run,
    ) -> (later: Run)
        requires
            config.shapes(self, labels, marks),
            config.stops,
            labels.contains_key(run.state),
            labels[run.state] == Label::Node(Seq::empty()),
            forall|k: int| 0 <= k < lines.len() ==> config.is_filled(#[trigger] lines[k]),
            reads_at(msg, i, joined(lines)),
        ensures
            labels.contains_key(later.state),
            labels[later.state] == Label::Node(Seq::empty()),
            self.walk_on(msg, i, run) == self.walk_on(msg, i + joined(lines).len(), later),
        decreases lines.len(),
    {
        if lines.len() == 0 {
            run
        } else {
            let line = lines[0];
            let tail = lines.drop_first();
            let n = i + line.len();
            lemma_reads_at(msg, i, line.push(0x0A), joined(tail));
            assert forall|k: int| i <= k < n implies #[trigger] msg[k] != 0x0A by {
                lemma_reads_byte(msg, i, line.push(0x0A), k - i);
                assert(line[k - i] != 0x0A);
            }
            lemma_reads_byte(msg, i, line.push(0x0A), line.len() as int);
            let end = self.lemma_walk_in_block(config, labels, marks, msg, i, n, run);
            assert(config.is_filled(line));
            let k = choose|k: int| 0 <= k < line.len() && config.fills_line(#[trigger] line[k]);
            lemma_reads_byte(msg, i, line.push(0x0A), k);
            assert(config.fills_line(msg[i + k]));
            self.lemma_next_line(config, labels, marks, end.state);
            let next = end.at(self.next(end.state, 0x0A).0);
            assert(self.walk_on(msg, n, end) == self.walk_on(msg, n + 1, next));
            assert forall|j: int| 0 <= j < tail.len() implies config.is_filled(
                #[trigger] tail[j],
            ) by {
                assert(config.is_filled(lines[j + 1]));
            }
            self.lemma_walk_block(config, labels, marks, msg, n + 1, tail, next)
        }
    }
}

} // verus!
