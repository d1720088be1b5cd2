//! What a walk over the header block of an HTTP/1.x message captures.

use super::label::{
    goes, is_name_byte, leads_to, mark_of, models, Label, Labels, Marks,
};
use super::labelled::{goes_on, has_field, is_key};
use super::message::{are_lines, bytes_of, is_name, line_break, lowered, Line};
use super::shape::{closes, field_id, opens, Config};
use crate::dfa::action::Effect;
use crate::dfa::model::{lower, other_case, Auto, ANY_INPUT, ANY_STATE};
use crate::dfa::walk::{Report, Run};
use crate::StateId;
use vstd::prelude::*;

verus! {

/// The bytes of `msg` from its `i`th on are those of `part`.
pub open spec fn reads_at(msg: Seq<u8>, i: int, part: Seq<u8>) -> bool {
    0 <= i && i + part.len() <= msg.len() && msg.subrange(i, i + part.len()) == part
}

/// What is read at a place is read one part after the other.
pub proof fn lemma_reads_at(msg: Seq<u8>, i: int, a: Seq<u8>, b: Seq<u8>)
    requires
        reads_at(msg, i, a + b),
    ensures
        reads_at(msg, i, a),
        reads_at(msg, i + a.len(), b),
{
    let n = i + a.len();
    assert((a + b).take(a.len() as int) =~= a);
    assert((a + b).skip(a.len() as int) =~= b);
    assert(msg.subrange(i, n) =~= msg.subrange(i, i + (a + b).len()).take(a.len() as int));
    assert(msg.subrange(n, n + b.len()) =~= msg.subrange(i, i + (a + b).len()).skip(
        a.len() as int,
    ));
}

/// The byte that is read at a place.
pub proof fn lemma_reads_byte(msg: Seq<u8>, i: int, part: Seq<u8>, k: int)
    requires
        reads_at(msg, i, part),
        0 <= k < part.len(),
    ensures
        0 <= i + k < msg.len(),
        msg[i + k] == part[k],
{
    assert(msg.subrange(i, i + part.len())[k] == part[k]);
}

impl<A: Effect> Auto<A> {
    /// A byte that is read at a place leads where it is to.
    pub(crate) proof fn lemma_next_known(self, labels: Labels, marks: Marks<A>, s: StateId, c: u8)
        requires
            models(self, labels, marks),
            labels.contains_key(s),
            goes(self, labels, labels[s], c as u16),
        ensures
            ({
                let (t, action) = self.next(s, c);
                &&& labels.contains_key(t)
                &&& leads_to(marks.patterns, labels[s], c as u16) == Some(labels[t])
                &&& action == marks.action(labels[s], c as u16)
            }),
    {
        reveal(models);
        let p = choose|p: StateId| #[trigger]
            labels.contains_key(p) && labels[p] == labels[s] && self.has(p, c as u16);
        assert(p == s);
        assert(labels.contains_key(self.to(s, c as u16)));
    }

    /// A byte that is none of those a place is left by leads where any byte is
    /// to.
    pub(crate) proof fn lemma_next_any(self, labels: Labels, marks: Marks<A>, s: StateId, c: u8)
        requires
            models(self, labels, marks),
            labels.contains_key(s),
            leads_to(marks.patterns, labels[s], c as u16) is None,
            goes(self, labels, labels[s], ANY_INPUT),
        ensures
            ({
                let (t, action) = self.next(s, c);
                &&& labels.contains_key(t)
                &&& leads_to(marks.patterns, labels[s], ANY_INPUT) == Some(labels[t])
                &&& action == marks.action(labels[s], ANY_INPUT)
            }),
    {
        reveal(models);
        let p = choose|p: StateId| #[trigger]
            labels.contains_key(p) && labels[p] == labels[s] && self.has(p, ANY_INPUT);
        assert(p == s);
        assert(!self.has(s, c as u16));
        assert(labels.contains_key(self.to(s, ANY_INPUT)));
    }

    /// A byte that is not read at a place leads back to where nothing of
    /// interest has been read.
    pub(crate) proof fn lemma_next_lost(self, labels: Labels, marks: Marks<A>, s: StateId, c: u8)
        requires
            models(self, labels, marks),
            !self.has(s, c as u16),
            !self.has(s, ANY_INPUT),
            c != 0x0A,
        ensures
            self.next(s, c) == (ANY_STATE, None::<A>),
    {
        reveal(models);
        assert(labels.contains_key(ANY_STATE));
        assert(!self.has(ANY_STATE, ANY_INPUT));
        if self.has(ANY_STATE, c as u16) {
            assert(labels.contains_key(self.to(ANY_STATE, c as u16)));
        }
    }

    /// Nothing of interest is read up to the end of a line.
    pub proof fn lemma_walk_skip(
        self,
        labels: Labels,
        marks: Marks<A>,
        msg: Seq<u8>,
        i: int,
        n: int,
        run: Run,
    )
        requires
            models(self, labels, marks),
            run.state == ANY_STATE,
            0 <= i <= n <= msg.len(),
            forall|k: int| i <= k < n ==> #[trigger] msg[k] != 0x0A,
        ensures
            self.walk_on(msg, i, run) == self.walk_on(msg, n, run),
        decreases n - i,
    {
        reveal(models);
        if i < n {
            let c = msg[i];
            assert(labels.contains_key(ANY_STATE));
            assert(!self.has(ANY_STATE, ANY_INPUT));
            if self.has(ANY_STATE, c as u16) {
                assert(labels.contains_key(self.to(ANY_STATE, c as u16)));
            }
            assert(self.next(ANY_STATE, c) == (ANY_STATE, None::<A>));
            assert(run.at(ANY_STATE) == run);
            self.lemma_walk_skip(labels, marks, msg, i + 1, n, run);
        }
    }

    /// The end of a line leads to the beginning of the next.
    pub proof fn lemma_walk_line_feed(
        self,
        labels: Labels,
        marks: Marks<A>,
        msg: Seq<u8>,
        i: int,
        run: Run,
    ) -> (t: StateId)
        requires
            models(self, labels, marks),
            labels.contains_key(run.state),
            0 <= i < msg.len(),
            msg[i] == 0x0A,
            goes(self, labels, labels[run.state], 0x0A),
            leads_to(marks.patterns, labels[run.state], 0x0A) == Some(Label::Node(Seq::empty())),
            marks.action(labels[run.state], 0x0A) is None,
        ensures
            labels.contains_key(t),
            labels[t] == Label::Node(Seq::empty()),
            self.walk_on(msg, i, run) == self.walk_on(msg, i + 1, run.at(t)),
    {
        self.lemma_next_known(labels, marks, run.state, msg[i]);
        self.next(run.state, msg[i]).0
    }

    /// Bytes that lead back to where they are read.
    proof fn lemma_walk_loop(
        self,
        labels: Labels,
        marks: Marks<A>,
        msg: Seq<u8>,
        i: int,
        n: int,
        run: Run,
    )
        requires
            models(self, labels, marks),
            labels.contains_key(run.state),
            0 <= i <= n <= msg.len(),
            forall|k: int|
                i <= k < n ==> {
                    let c = #[trigger] msg[k] as u16;
                    let l = labels[run.state];
                    &&& goes(self, labels, l, c)
                    &&& leads_to(marks.patterns, l, c) == Some(l)
                    &&& marks.action(l, c) is None
                },
        ensures
            self.walk_on(msg, i, run) == self.walk_on(msg, n, run),
        decreases n - i,
    {
        reveal(models);
        if i < n {
            let c = msg[i];
            self.lemma_next_known(labels, marks, run.state, c);
            assert(run.at(run.state) == run);
            self.lemma_walk_loop(labels, marks, msg, i + 1, n, run);
        }
    }
}

impl<A: Effect> Auto<A> {
    /// The rest of a name, of which `p` has been read, leads behind it or to
    /// where nothing of interest has been read.
    proof fn lemma_walk_name(
        self,
        labels: Labels,
        marks: Marks<A>,
        msg: Seq<u8>,
        i: int,
        p: Seq<u8>,
        rest: Seq<u8>,
        run: Run,
    ) -> (t: StateId)
        requires
            models(self, labels, marks),
            labels.contains_key(run.state),
            labels[run.state] == Label::Node(p),
            is_name(rest),
            reads_at(msg, i, rest),
        ensures
            labels.contains_key(t),
            labels[t] == Label::Node(p + lowered(rest)) || t == ANY_STATE,
            self.walk_on(msg, i, run) == self.walk_on(msg, i + rest.len(), run.at(t)),
            (forall|k: int|
                0 <= k < rest.len() ==> #[trigger] goes_on(self, labels, p, lowered(rest), k))
                ==> labels[t] == Label::Node(p + lowered(rest)),
        decreases rest.len(),
    {
        reveal(models);
        let low = lowered(rest);
        if rest.len() == 0 {
            assert(p + low =~= p);
            assert(run.at(run.state) == run);
            run.state
        } else {
            let c = rest[0];
            lemma_reads_byte(msg, i, rest, 0);
            assert(is_name_byte(rest[0] as u16));
            let tail = rest.drop_first();
            assert(seq![c] + tail =~= rest);
            lemma_reads_at(msg, i, seq![c], tail);
            if self.has(run.state, c as u16) {
                assert(goes(self, labels, labels[run.state], c as u16));
                self.lemma_next_known(labels, marks, run.state, c);
                let (s, action) = self.next(run.state, c);
                let q = p.push(lower(c as u16) as u8);
                assert forall|k: int| 0 <= k < tail.len() implies is_name_byte(
                    #[trigger] tail[k] as u16,
                ) by {
                    assert(is_name_byte(rest[k + 1] as u16));
                }
                let t = self.lemma_walk_name(labels, marks, msg, i + 1, q, tail, run.at(s));
                assert(lowered(tail) =~= low.drop_first());
                assert(q + lowered(tail) =~= p + low);
                assert(run.at(s).at(t) == run.at(t));
                if forall|k: int|
                    0 <= k < rest.len() ==> #[trigger] goes_on(self, labels, p, low, k) {
                    assert forall|k: int| 0 <= k < tail.len() implies #[trigger] goes_on(
                        self,
                        labels,
                        q,
                        lowered(tail),
                        k,
                    ) by {
                        assert(goes_on(self, labels, p, low, k + 1));
                        assert(q + lowered(tail).take(k) =~= p + low.take(k + 1));
                    }
                }
                t
            } else {
                if forall|k: int|
                    0 <= k < rest.len() ==> #[trigger] goes_on(self, labels, p, low, k) {
                    assert(goes_on(self, labels, p, low, 0));
                    assert(p + low.take(0) =~= p);
                    let d = if c as u16 == low[0] as u16 {
                        low[0] as u16
                    } else {
                        other_case(low[0] as u16)
                    };
                    assert(d == c as u16);
                    assert(goes(self, labels, labels[run.state], d));
                    self.lemma_next_known(labels, marks, run.state, c);
                    let s = choose|s: StateId| #[trigger]
                        labels.contains_key(s) && labels[s] == labels[run.state] && self.has(s, d);
                    assert(s == run.state);
                    assert(false);
                }
                assert(!self.has(run.state, ANY_INPUT));
                self.lemma_next_lost(labels, marks, run.state, c);
                assert forall|k: int| i + 1 <= k < i + rest.len() implies #[trigger] msg[k]
                    != 0x0A by {
                    lemma_reads_byte(msg, i, rest, k - i);
                    assert(is_name_byte(rest[k - i] as u16));
                }
                self.lemma_walk_skip(
                    labels,
                    marks,
                    msg,
                    i + 1,
                    i + rest.len(),
                    run.at(ANY_STATE),
                );
                ANY_STATE
            }
        }
    }

    /// Whitespace behind a name leaves it behind the name or leads to where
    /// nothing of interest has been read.
    proof fn lemma_walk_before(
        self,
        labels: Labels,
        marks: Marks<A>,
        msg: Seq<u8>,
        i: int,
        n: int,
        p: Seq<u8>,
        run: Run,
    ) -> (t: StateId)
        requires
            models(self, labels, marks),
            labels.contains_key(run.state),
            labels[run.state] == Label::Node(p) || run.state == ANY_STATE,
            0 <= i <= n <= msg.len(),
            forall|k: int| i <= k < n ==> #[trigger] msg[k] == 0x20 || msg[k] == 0x09,
        ensures
            labels.contains_key(t),
            labels[t] == Label::Node(p) || t == ANY_STATE,
            self.walk_on(msg, i, run) == self.walk_on(msg, n, run.at(t)),
            labels[run.state] == Label::Node(p) && goes(self, labels, Label::Node(p), 0x20) && goes(
                self,
                labels,
                Label::Node(p),
                0x09,
            ) ==> labels[t] == Label::Node(p),
        decreases n - i,
    {
        reveal(models);
        if i == n {
            assert(run.at(run.state) == run);
            run.state
        } else if run.state == ANY_STATE {
            self.lemma_walk_skip(labels, marks, msg, i, n, run);
            assert(run.at(run.state) == run);
            run.state
        } else {
            let c = msg[i];
            if goes(self, labels, Label::Node(p), c as u16) {
                self.lemma_next_known(labels, marks, run.state, c);
                let (s, action) = self.next(run.state, c);
                assert(s == run.state);
                assert(run.at(s) == run);
                self.lemma_walk_before(labels, marks, msg, i + 1, n, p, run)
            } else {
                assert(!self.has(run.state, c as u16));
                assert(!self.has(run.state, ANY_INPUT));
                self.lemma_next_lost(labels, marks, run.state, c);
                self.lemma_walk_skip(labels, marks, msg, i + 1, n, run.at(ANY_STATE));
                ANY_STATE
            }
        }
    }

    /// Whitespace behind a colon moves the beginning of the value.
    proof fn lemma_walk_after(
        self,
        labels: Labels,
        marks: Marks<A>,
        msg: Seq<u8>,
        i: int,
        n: int,
        name: Seq<u8>,
        start: A,
        run: Run,
    )
        requires
            models(self, labels, marks),
            labels.contains_key(run.state),
            labels[run.state] == Label::Value(name),
            has_field(self, labels, name),
            mark_of(marks.starts, name) == Some(start),
            start.effect() is StartCapture,
            run.starts.contains_key(start.effect()->StartCapture_0),
            run.starts[start.effect()->StartCapture_0] == i,
            0 <= i <= n <= msg.len(),
            forall|k: int| i <= k < n ==> #[trigger] msg[k] == 0x20 || msg[k] == 0x09,
        ensures
            self.walk_on(msg, i, run) == self.walk_on(
                msg,
                n,
                (Run { starts: run.starts.insert(start.effect()->StartCapture_0, n), ..run }),
            ),
        decreases n - i,
    {
        reveal(models);
        let mid = start.effect()->StartCapture_0;
        if i == n {
            assert(run.starts.insert(mid, n) =~= run.starts);
        } else {
            let c = msg[i];
            self.lemma_next_known(labels, marks, run.state, c);
            let (s, action) = self.next(run.state, c);
            assert(s == run.state);
            let next = Run { starts: run.starts.insert(mid, i + 1), ..run };
            assert(self.walk_on(msg, i, run) == self.walk_on(msg, i + 1, next));
            self.lemma_walk_after(labels, marks, msg, i + 1, n, name, start, next);
            assert(next.starts.insert(mid, n) =~= run.starts.insert(mid, n));
        }
    }

    /// The rest of a value is captured together with what was read of it.
    proof fn lemma_walk_text(
        self,
        labels: Labels,
        marks: Marks<A>,
        msg: Seq<u8>,
        i: int,
        n: int,
        name: Seq<u8>,
        end: A,
        run: Run,
    )
        requires
            models(self, labels, marks),
            labels.contains_key(run.state),
            labels[run.state] == Label::Text(name),
            has_field(self, labels, name),
            mark_of(marks.ends, name) == Some(end),
            end.effect() is EndCapture,
            0 <= i < n <= msg.len(),
            forall|k: int| i <= k < n ==> #[trigger] msg[k] != 0x0A,
            msg[n - 1] != 0x0D,
        ensures
            ({
                let mid = end.effect()->EndCapture_0;
                let bytes = msg.subrange(run.start_of(mid), n);
                self.walk_on(msg, i, run) == self.walk_on(
                    msg,
                    n,
                    (Run { captures: run.captures.insert(mid, bytes), ..run }),
                )
            }),
        decreases n - i,
    {
        reveal(models);
        let mid = end.effect()->EndCapture_0;
        let c = msg[i];
        if c == 0x0D {
            self.lemma_next_known(labels, marks, run.state, c);
            assert(self.next(run.state, c).0 == run.state);
            assert(run.at(run.state) == run);
            self.lemma_walk_text(labels, marks, msg, i + 1, n, name, end, run);
        } else {
            self.lemma_next_any(labels, marks, run.state, c);
            assert(self.next(run.state, c).0 == run.state);
            let bytes = msg.subrange(run.start_of(mid), i + 1);
            let next = Run { captures: run.captures.insert(mid, bytes), ..run };
            assert(self.walk_on(msg, i, run) == self.walk_on(msg, i + 1, next));
            if i + 1 < n {
                self.lemma_walk_text(labels, marks, msg, i + 1, n, name, end, next);
                let all = msg.subrange(run.start_of(mid), n);
                assert(next.captures.insert(mid, all) =~= run.captures.insert(mid, all));
            }
        }
    }
}

/// The name of a field can be told from what is around it in lower case too.
proof fn lemma_lowered_name(name: Seq<u8>)
    requires
        is_name(name),
    ensures
        is_key(lowered(name)),
{
    assert forall|i: int| 0 <= i < name.len() implies is_name_byte(
        #[trigger] lowered(name)[i] as u16,
    ) && lower(lowered(name)[i] as u16) == lowered(name)[i] by {
        assert(is_name_byte(name[i] as u16));
    }
}

impl<A: Effect> Auto<A> {
    /// The end of a line, at a place that is left by nothing else.
    pub(crate) proof fn lemma_walk_break(
        self,
        labels: Labels,
        marks: Marks<A>,
        msg: Seq<u8>,
        i: int,
        crs: nat,
        run: Run,
    ) -> (t: StateId)
        requires
            models(self, labels, marks),
            labels.contains_key(run.state),
            reads_at(msg, i, line_break(crs)),
            goes(self, labels, labels[run.state], 0x0D) || crs == 0,
            leads_to(marks.patterns, labels[run.state], 0x0D) == Some(labels[run.state]),
            marks.action(labels[run.state], 0x0D) is None,
            goes(self, labels, labels[run.state], 0x0A),
            leads_to(marks.patterns, labels[run.state], 0x0A) == Some(Label::Node(Seq::empty())),
            marks.action(labels[run.state], 0x0A) is None,
        ensures
            labels.contains_key(t),
            labels[t] == Label::Node(Seq::empty()),
            self.walk_on(msg, i, run) == self.walk_on(
                msg,
                i + line_break(crs).len(),
                run.at(t),
            ),
    {
        let n = i + crs;
        assert forall|k: int| i <= k < n implies {
            let c = #[trigger] msg[k] as u16;
            let l = labels[run.state];
            &&& goes(self, labels, l, c)
            &&& leads_to(marks.patterns, l, c) == Some(l)
            &&& marks.action(l, c) is None
        } by {
            lemma_reads_byte(msg, i, line_break(crs), k - i);
        }
        lemma_reads_byte(msg, i, line_break(crs), crs as int);
        self.lemma_walk_loop(labels, marks, msg, i, n, run);
        self.lemma_walk_line_feed(labels, marks, msg, n, run)
    }

    /// The value of a field that is captured, and the end of its line.
    proof fn lemma_walk_value(
        self,
        labels: Labels,
        marks: Marks<A>,
        msg: Seq<u8>,
        i: int,
        line: Line,
        name: Seq<u8>,
        end: A,
        run: Run,
    ) -> (later: Run)
        requires
            models(self, labels, marks),
            labels.contains_key(run.state),
            labels[run.state] == Label::Value(name),
            has_field(self, labels, name),
            mark_of(marks.ends, name) == Some(end),
            end.effect() is EndCapture,
            run.starts.contains_key(end.effect()->EndCapture_0),
            run.starts[end.effect()->EndCapture_0] == i,
            line.wf(),
            reads_at(msg, i, line.value + line_break(line.crs)),
        ensures
            labels.contains_key(later.state),
            labels[later.state] == Label::Node(Seq::empty()),
            self.walk_on(msg, i, run) == self.walk_on(
                msg,
                i + (line.value + line_break(line.crs)).len(),
                later,
            ),
            later.captures == if line.value.len() > 0 {
                run.captures.insert(end.effect()->EndCapture_0, line.value)
            } else {
                run.captures
            },
    {
        let value = line.value;
        lemma_reads_at(msg, i, value, line_break(line.crs));
        let n = i + value.len();
        if value.len() == 0 {
            let t = self.lemma_walk_break(labels, marks, msg, i, line.crs, run);
            run.at(t)
        } else {
            let mid = end.effect()->EndCapture_0;
            assert forall|k: int| i <= k < n implies #[trigger] msg[k] != 0x0A by {
                lemma_reads_byte(msg, i, value, k - i);
                assert(value[k - i] != 0x0A);
            }
            lemma_reads_byte(msg, i, value, 0);
            lemma_reads_byte(msg, i, value, value.len() - 1);
            let c = msg[i];
            self.lemma_next_any(labels, marks, run.state, c);
            let (s, action) = self.next(run.state, c);
            let one = run.at(s).captured(Some(mid), msg.subrange(i, i + 1));
            assert(self.walk_on(msg, i, run) == self.walk_on(msg, i + 1, one));
            let all = Run { captures: run.captures.insert(mid, value), ..run.at(s) };
            if value.len() > 1 {
                self.lemma_walk_text(labels, marks, msg, i + 1, n, name, end, one);
                assert(one.captures.insert(mid, value) =~= run.captures.insert(mid, value));
            } else {
                assert(msg.subrange(i, i + 1) =~= value);
            }
            assert(self.walk_on(msg, i, run) == self.walk_on(msg, n, all));
            let t = self.lemma_walk_break(labels, marks, msg, n, line.crs, all);
            all.at(t)
        }
    }

    /// A line of the header block leads to the next one, and captures what it
    /// is to.
    pub proof fn lemma_walk_line(
        self,
        config: Config,
        labels: Labels,
        marks: Marks<A>,
        msg: Seq<u8>,
        i: int,
        line: Line,
        run: Run,
    ) -> (later: Run)
        requires
            config.shapes(self, labels, marks),
            config.stops,
            labels.contains_key(run.state),
            labels[run.state] == Label::Node(Seq::empty()),
            line.wf(),
            reads_at(msg, i, line.bytes()),
        ensures
            labels.contains_key(later.state),
            labels[later.state] == Label::Node(Seq::empty()),
            later.captures == config.of_line(run.captures, line),
            self.walk_on(msg, i, run) == self.walk_on(msg, i + line.bytes().len(), later),
    {
        reveal(models);
        let empty = Seq::<u8>::empty();
        let key = lowered(line.name);
        let tail = line.value + line_break(line.crs);
        let rest = line.after + tail;
        let colon = seq![0x3Au8] + rest;
        assert(line.bytes() =~= line.name + (line.before + colon));
        lemma_reads_at(msg, i, line.name, line.before + colon);
        let j = i + line.name.len();
        lemma_reads_at(msg, j, line.before, colon);
        let k = j + line.before.len();
        lemma_reads_at(msg, k, seq![0x3Au8], rest);
        lemma_reads_byte(msg, k, seq![0x3Au8], 0);
        lemma_reads_at(msg, k + 1, line.after, tail);
        lemma_lowered_name(line.name);
        assert(empty + key =~= key);
        let t = self.lemma_walk_name(labels, marks, msg, i, empty, line.name, run);
        assert forall|m: int| j <= m < k implies #[trigger] msg[m] == 0x20 || msg[m] == 0x09 by {
            lemma_reads_byte(msg, j, line.before, m - j);
            assert(line.before[m - j] == 0x20 || line.before[m - j] == 0x09);
        }
        let u = self.lemma_walk_before(labels, marks, msg, j, k, key, run.at(t));
        assert(run.at(t).at(u) == run.at(u));
        assert(self.walk_on(msg, i, run) == self.walk_on(msg, k, run.at(u)));
        if config.captures.contains_key(key) {
            let mid = config.captures[key];
            assert(has_field(self, labels, key));
            assert(opens(mark_of(marks.starts, key), field_id(config.captures, key)));
            assert(closes(mark_of(marks.ends, key), field_id(config.captures, key)));
            let start = mark_of(marks.starts, key)->0;
            let end = mark_of(marks.ends, key)->0;
            assert(labels[u] == Label::Node(key));
            self.lemma_next_known(labels, marks, u, 0x3A);
            let v = self.next(u, 0x3A).0;
            let one = Run { state: v, starts: run.starts.insert(mid, k + 1), ..run };
            assert(self.walk_on(msg, k, run.at(u)) == self.walk_on(msg, k + 1, one));
            let n = k + 1 + line.after.len();
            assert forall|m: int| k + 1 <= m < n implies #[trigger] msg[m] == 0x20 || msg[m]
                == 0x09 by {
                lemma_reads_byte(msg, k + 1, line.after, m - (k + 1));
                assert(line.after[m - (k + 1)] == 0x20 || line.after[m - (k + 1)] == 0x09);
            }
            self.lemma_walk_after(labels, marks, msg, k + 1, n, key, start, one);
            let two = Run { starts: one.starts.insert(mid, n), ..one };
            let later = self.lemma_walk_value(labels, marks, msg, n, line, key, end, two);
            later
        } else {
            let end = i + line.bytes().len() - 1;
            self.lemma_walk_uncaptured(labels, marks, msg, k, key, run.at(u));
            assert(run.at(u).at(ANY_STATE) == run.at(ANY_STATE));
            assert forall|m: int| k + 1 <= m < end implies #[trigger] msg[m] != 0x0A by {
                lemma_reads_byte(msg, k + 1, rest, m - (k + 1));
                lemma_rest_on_one_line(line, m - (k + 1));
            }
            self.lemma_walk_skip(labels, marks, msg, k + 1, end, run.at(ANY_STATE));
            lemma_reads_byte(msg, k + 1, rest, rest.len() - 1);
            let t = self.lemma_walk_line_feed(labels, marks, msg, end, run.at(ANY_STATE));
            assert(run.at(ANY_STATE).at(t) == run.at(t));
            run.at(t)
        }
    }

    /// A colon behind a name that is not captured leads to where nothing of
    /// interest has been read.
    proof fn lemma_walk_uncaptured(
        self,
        labels: Labels,
        marks: Marks<A>,
        msg: Seq<u8>,
        i: int,
        name: Seq<u8>,
        run: Run,
    )
        requires
            models(self, labels, marks),
            labels.contains_key(run.state),
            labels[run.state] == Label::Node(name) || run.state == ANY_STATE,
            !marks.patterns.names.contains(name),
            0 <= i < msg.len(),
            msg[i] == 0x3A,
        ensures
            self.walk_on(msg, i, run) == self.walk_on(msg, i + 1, run.at(ANY_STATE)),
    {
        reveal(models);
        assert(!self.has(run.state, 0x3A));
        assert(!self.has(run.state, ANY_INPUT));
        self.lemma_next_lost(labels, marks, run.state, 0x3A);
    }

    /// The empty line at the end of the header block ends the walk.
    pub proof fn lemma_walk_end(
        self,
        config: Config,
        labels: Labels,
        marks: Marks<A>,
        msg: Seq<u8>,
        i: int,
        crs: nat,
        run: Run,
    )
        requires
            config.shapes(self, labels, marks),
            config.stops,
            labels.contains_key(run.state),
            labels[run.state] == Label::Node(Seq::empty()),
            reads_at(msg, i, line_break(crs)),
        ensures
            self.walk_on(msg, i, run) == Some(
                Report { consumed: i + crs + 1, captures: run.captures },
            ),
    {
        let n = i + crs;
        assert forall|k: int| i <= k < n implies {
            let c = #[trigger] msg[k] as u16;
            let l = labels[run.state];
            &&& goes(self, labels, l, c)
            &&& leads_to(marks.patterns, l, c) == Some(l)
            &&& marks.action(l, c) is None
        } by {
            lemma_reads_byte(msg, i, line_break(crs), k - i);
        }
        lemma_reads_byte(msg, i, line_break(crs), crs as int);
        self.lemma_walk_loop(labels, marks, msg, i, n, run);
        self.lemma_next_known(labels, marks, run.state, 0x0A);
    }

    /// The header block is captured line by line.
    pub proof fn lemma_walk_lines(
        self,
        config: Config,
        labels: Labels,
        marks: Marks<A>,
        msg: Seq<u8>,
        i: int,
        lines: Seq<Line>,
        run: Run,
    ) -> (later: Run)
        requires
            config.shapes(self, labels, marks),
            config.stops,
            labels.contains_key(run.state),
            labels[run.state] == Label::Node(Seq::empty()),
            are_lines(lines),
            reads_at(msg, i, bytes_of(lines)),
        ensures
            labels.contains_key(later.state),
            labels[later.state] == Label::Node(Seq::empty()),
            later.captures == config.of_lines(run.captures, lines),
            self.walk_on(msg, i, run) == self.walk_on(msg, i + bytes_of(lines).len(), later),
        decreases lines.len(),
    {
        if lines.len() == 0 {
            run
        } else {
            let first = lines[0];
            let tail = lines.drop_first();
            lemma_reads_at(msg, i, first.bytes(), bytes_of(tail));
            let later = self.lemma_walk_line(config, labels, marks, msg, i, first, run);
            assert forall|k: int| 0 <= k < tail.len() implies (#[trigger] tail[k]).wf() by {
                assert(lines[k + 1].wf());
            }
            let j = i + first.bytes().len();
            self.lemma_walk_lines(config, labels, marks, msg, j, tail, later)
        }
    }
}

/// Up to its end, a line holds no line feed behind its colon.
proof fn lemma_rest_on_one_line(line: Line, k: int)
    requires
        line.wf(),
        0 <= k < (line.after + (line.value + line_break(line.crs))).len() - 1,
    ensures
        (line.after + (line.value + line_break(line.crs)))[k] != 0x0A,
{
    let a = line.after.len();
    let v = line.value.len();
    if k < a {
        assert(line.after[k] == 0x20 || line.after[k] == 0x09);
    } else if k < a + v {
        assert(line.value[k - a] != 0x0A);
    } else {
        assert(line_break(line.crs)[k - a - v] == 0x0D);
    }
}

} // verus!
