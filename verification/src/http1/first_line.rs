//! What a walk over the first line of an HTTP/1.x message captures.

use super::fields::{lemma_reads_at, lemma_reads_byte, reads_at};
use super::heads::{
    goes_head, head, is_head, lemma_is_head, lemma_method_apart, lemma_method_letters,
};
use super::label::{
    begins, begins_method, goes, is_method, leads_to, lemma_first_states, method, models,
    preface_bytes, status_bytes, Label, Labels, Marks, Patterns,
};
use super::lines::{goes_version, has_method, has_request, has_status, lemma_method_ends, version};
use super::message::{line_break, on_one_line, uppered, with_capture, First};
use super::shape::{id_of, method_key, path_key, status_key, Config};
use crate::dfa::action::Effect;
use crate::dfa::model::{other_case, upper, Auto, ANY_INPUT, ANY_STATE};
use crate::dfa::walk::{Report, Run};
use crate::{MatchId, StateId};
use vstd::prelude::*;

verus! {

impl<A: Effect> Auto<A> {
    /// The bytes of `s` from the `n`th to the `m`th lead behind them.
    proof fn lemma_walk_head(
        self,
        labels: Labels,
        marks: Marks<A>,
        msg: Seq<u8>,
        s: Seq<u8>,
        n: int,
        m: int,
        case_sensitive: bool,
        run: Run,
    ) -> (t: StateId)
        requires
            models(self, labels, marks),
            labels.contains_key(run.state),
            labels[run.state] == head(s.take(n)),
            0 <= n <= m <= s.len(),
            m <= msg.len(),
            forall|k: int|
                n <= k < m ==> {
                    &&& #[trigger] is_head(marks.patterns, s, k)
                    &&& goes_head(self, labels, s, k, case_sensitive)
                    &&& upper(msg[k] as u16) == s[k]
                    &&& case_sensitive ==> msg[k] == s[k]
                    &&& s.take(k + 1) != status_bytes()
                    &&& s.take(k + 1) != preface_bytes()
                },
        ensures
            labels.contains_key(t),
            labels[t] == head(s.take(m)),
            self.walk_on(msg, n, run) == self.walk_on(msg, m, run.at(t)),
        decreases m - n,
    {
        if n == m {
            assert(run.at(run.state) == run);
            run.state
        } else {
            let c = msg[n];
            let b = s[n] as u16;
            assert(is_head(marks.patterns, s, n));
            assert(goes_head(self, labels, s, n, case_sensitive));
            assert(c as u16 == b || (!case_sensitive && c as u16 == other_case(b)));
            assert(goes(self, labels, labels[run.state], c as u16));
            self.lemma_next_known(labels, marks, run.state, c);
            let (u, action) = self.next(run.state, c);
            assert(s.take(n).len() == 0 ==> s.take(n) =~= Seq::empty());
            let t = self.lemma_walk_head(
                labels,
                marks,
                msg,
                s,
                n + 1,
                m,
                case_sensitive,
                run.at(u),
            );
            assert(run.at(u).at(t) == run.at(t));
            t
        }
    }

    /// The preface of an HTTP/2 connection is captured, and ends the walk.
    pub proof fn lemma_walk_preface(
        self,
        config: Config,
        labels: Labels,
        marks: Marks<A>,
        msg: Seq<u8>,
    )
        requires
            config.shapes(self, labels, marks),
            config.preface is Some,
            begins(msg, preface_bytes()),
        ensures
            self.walk(msg) == Some(
                Report {
                    consumed: 24,
                    captures: Map::empty().insert(config.preface->0, preface_bytes()),
                },
            ),
    {
        reveal(models);
        let s = preface_bytes();
        let run = Run::start();
        lemma_is_head(marks.patterns);
        assert(s.take(0) =~= Seq::empty());
        assert forall|k: int| 0 <= k < 23 implies {
            &&& #[trigger] is_head(marks.patterns, s, k)
            &&& goes_head(self, labels, s, k, true)
            &&& upper(msg[k] as u16) == s[k]
            &&& true ==> msg[k] == s[k]
            &&& s.take(k + 1) != status_bytes()
            &&& s.take(k + 1) != preface_bytes()
        } by {
            assert(msg.take(24)[k] == msg[k]);
            assert(s.take(k + 1)[0] != status_bytes()[0]);
            assert(s.take(k + 1).len() != s.len());
        }
        let t = self.lemma_walk_head(labels, marks, msg, s, 0, 23, true, run);
        assert(msg.take(24)[23] == msg[23]);
        assert(goes_head(self, labels, s, 23, true));
        self.lemma_next_known(labels, marks, t, 0x0A);
        assert(s.take(23).push(0x0A) =~= s);
        lemma_method_apart(s);
        assert(s.take(24) =~= s);
        assert(is_head(marks.patterns, s, 23));
        assert(s[0] != status_bytes()[0]);
        assert(msg.subrange(0, 24) =~= s);
    }
}

/// The walk with `bytes` captured under `mid`, if there is one.
pub open spec fn capturing(run: Run, mid: Option<MatchId>, bytes: Seq<u8>) -> Run {
    Run { captures: with_capture(run.captures, mid, bytes), ..run }
}

impl<A: Effect> Auto<A> {
    /// A method leads behind it, and is captured if it is to be.
    proof fn lemma_walk_method(
        self,
        config: Config,
        labels: Labels,
        marks: Marks<A>,
        msg: Seq<u8>,
        bytes: Seq<u8>,
    ) -> (t: StateId)
        requires
            config.shapes(self, labels, marks),
            marks.patterns.request,
            is_method(uppered(bytes)),
            reads_at(msg, 0, bytes),
        ensures
            labels.contains_key(t),
            labels[t] == Label::Method,
            self.walk_on(msg, 0, Run::start()) == self.walk_on(
                msg,
                bytes.len() as int,
                capturing(
                    Run::start().at(t),
                    id_of(config.captures, method_key()),
                    bytes,
                ),
            ),
    {
        reveal(models);
        let k = choose|k: int| 0 <= k < 8 && #[trigger] method(k) == uppered(bytes);
        let s = method(k);
        let n = s.len() - 1;
        let run = Run::start();
        lemma_method_letters(k);
        lemma_is_head(marks.patterns);
        assert(has_method(self, labels, k));
        assert(s.take(0) =~= Seq::empty());
        assert forall|j: int| 0 <= j < s.len() implies upper(#[trigger] msg[j] as u16) == s[j] by {
            lemma_reads_byte(msg, 0, bytes, j);
            assert(uppered(bytes)[j] == s[j]);
        }
        assert forall|j: int| 0 <= j < n implies {
            &&& #[trigger] is_head(marks.patterns, s, j)
            &&& goes_head(self, labels, s, j, false)
            &&& upper(msg[j] as u16) == s[j]
            &&& false ==> msg[j] == s[j]
            &&& s.take(j + 1) != status_bytes()
            &&& s.take(j + 1) != preface_bytes()
        } by {
            assert(is_head(marks.patterns, method(k), j));
            assert(s.take(j + 1).len() != status_bytes().len());
            assert(s.take(j + 1).len() != preface_bytes().len());
        }
        let u = self.lemma_walk_head(labels, marks, msg, s, 0, n, false, run);
        let c = msg[n];
        let b = s[n] as u16;
        assert(goes_head(self, labels, s, n, false));
        assert(c as u16 == b || c as u16 == other_case(b));
        lemma_method_ends(marks.patterns, k);
        assert(s.take(n) =~= s.drop_last());
        self.lemma_next_known(labels, marks, u, c);
        let (t, action) = self.next(u, c);
        assert(leads_to(marks.patterns, head(s.drop_last()), c as u16) == Some(Label::Method));
        assert(action == marks.method);
        assert(bytes.len() == s.len());
        assert(msg.subrange(0, n + 1) =~= bytes);
        assert(run.at(u).at(t) == run.at(t));
        let mid = id_of(config.captures, method_key());
        assert(capturing(run.at(t), mid, bytes) == run.at(t).captured(mid, bytes));
        t
    }

    /// The rest of a path is captured together with what was read of it, if it
    /// is to be.
    proof fn lemma_walk_path(
        self,
        config: Config,
        labels: Labels,
        marks: Marks<A>,
        msg: Seq<u8>,
        i: int,
        n: int,
        run: Run,
    )
        requires
            config.shapes(self, labels, marks),
            marks.patterns.request,
            labels.contains_key(run.state),
            labels[run.state] == Label::Path,
            0 <= i < n <= msg.len(),
            forall|k: int| i <= k < n ==> #[trigger] msg[k] != 0x20,
        ensures
            ({
                let mid = id_of(config.captures, path_key());
                let start = if mid is Some {
                    run.start_of(mid->0)
                } else {
                    0
                };
                self.walk_on(msg, i, run) == self.walk_on(
                    msg,
                    n,
                    capturing(run, mid, msg.subrange(start, n)),
                )
            }),
        decreases n - i,
    {
        reveal(models);
        let mid = id_of(config.captures, path_key());
        let start = if mid is Some {
            run.start_of(mid->0)
        } else {
            0
        };
        let c = msg[i];
        self.lemma_next_any(labels, marks, run.state, c);
        assert(self.next(run.state, c).0 == run.state);
        assert(run.at(run.state) == run);
        let next = capturing(run, mid, msg.subrange(start, i + 1));
        assert(next == run.captured(mid, msg.subrange(start, i + 1)));
        assert(self.walk_on(msg, i, run) == self.walk_on(msg, i + 1, next));
        if i + 1 < n {
            self.lemma_walk_path(config, labels, marks, msg, i + 1, n, next);
            let all = msg.subrange(start, n);
            if mid is Some {
                assert(next.captures.insert(mid->0, all) =~= run.captures.insert(mid->0, all));
            }
        }
    }

    /// The blank behind a method and the path behind it.
    proof fn lemma_walk_target(
        self,
        config: Config,
        labels: Labels,
        marks: Marks<A>,
        msg: Seq<u8>,
        i: int,
        path: Seq<u8>,
        run: Run,
    ) -> (later: Run)
        requires
            config.shapes(self, labels, marks),
            marks.patterns.request,
            labels.contains_key(run.state),
            labels[run.state] == Label::Method,
            path.len() > 0,
            forall|k: int| 0 <= k < path.len() ==> #[trigger] path[k] != 0x20,
            reads_at(msg, i, seq![0x20u8] + path),
        ensures
            labels.contains_key(later.state),
            labels[later.state] == Label::Path,
            later.captures == with_capture(
                run.captures,
                id_of(config.captures, path_key()),
                path,
            ),
            self.walk_on(msg, i, run) == self.walk_on(msg, i + 1 + path.len(), later),
    {
        let mid = id_of(config.captures, path_key());
        lemma_reads_at(msg, i, seq![0x20u8], path);
        lemma_reads_byte(msg, i, seq![0x20u8], 0);
        let j = i + 1;
        let n = j + path.len();
        assert forall|k: int| j <= k < n implies #[trigger] msg[k] != 0x20 by {
            lemma_reads_byte(msg, j, path, k - j);
            assert(path[k - j] != 0x20);
        }

        // the blank opens the capture
        self.lemma_next_known(labels, marks, run.state, 0x20);
        let s = self.next(run.state, 0x20).0;
        let one = match mid {
            Some(mid) => Run { state: s, starts: run.starts.insert(mid, j), ..run },
            None => run.at(s),
        };
        assert(self.walk_on(msg, i, run) == self.walk_on(msg, j, one));

        // and every byte of the path closes it
        self.lemma_next_any(labels, marks, s, msg[j]);
        let t = self.next(s, msg[j]).0;
        let two = capturing(one.at(t), mid, msg.subrange(j, j + 1));
        assert(two == one.at(t).captured(mid, msg.subrange(j, j + 1)));
        assert(self.walk_on(msg, j, one) == self.walk_on(msg, j + 1, two));
        assert(msg.subrange(j, n) =~= path);
        if path.len() == 1 {
            assert(msg.subrange(j, j + 1) =~= path);
            two
        } else {
            self.lemma_walk_path(config, labels, marks, msg, j + 1, n, two);
            let start = if mid is Some {
                two.start_of(mid->0)
            } else {
                0
            };
            let later = capturing(two, mid, msg.subrange(start, n));
            if mid is Some {
                assert(two.captures.insert(mid->0, path) =~= run.captures.insert(mid->0, path));
            }
            later
        }
    }

    /// A byte behind the path of a request line leads on, or back to where
    /// nothing of interest has been read.
    proof fn lemma_next_version(
        self,
        labels: Labels,
        marks: Marks<A>,
        s: StateId,
        c: u8,
    )
        requires
            models(self, labels, marks),
            labels.contains_key(s),
            labels[s] is Version,
            c != 0x0A,
        ensures
            ({
                let (t, action) = self.next(s, c);
                &&& labels.contains_key(t)
                &&& labels[t] is Version || t == ANY_STATE
                &&& action is None
            }),
    {
        if self.has(s, c as u16) {
            assert(goes(self, labels, labels[s], c as u16));
            self.lemma_next_known(labels, marks, s, c);
        } else {
            assert(!self.has(s, ANY_INPUT)) by {
                reveal(models);
            }
            self.lemma_next_lost(labels, marks, s, c);
            lemma_first_states(self, labels, marks);
        }
    }

    /// The rest of a request line behind its path is of no interest.
    proof fn lemma_walk_rest(
        self,
        labels: Labels,
        marks: Marks<A>,
        msg: Seq<u8>,
        i: int,
        n: int,
        run: Run,
    ) -> (t: StateId)
        requires
            models(self, labels, marks),
            labels.contains_key(run.state),
            labels[run.state] is Version || run.state == ANY_STATE,
            0 <= i <= n <= msg.len(),
            forall|k: int| i <= k < n ==> #[trigger] msg[k] != 0x0A,
        ensures
            labels.contains_key(t),
            labels[t] is Version || t == ANY_STATE,
            self.walk_on(msg, i, run) == self.walk_on(msg, n, run.at(t)),
        decreases n - i,
    {
        if i == n {
            assert(run.at(run.state) == run);
            run.state
        } else if run.state == ANY_STATE {
            self.lemma_walk_skip(labels, marks, msg, i, n, run);
            assert(run.at(run.state) == run);
            run.state
        } else {
            self.lemma_next_version(labels, marks, run.state, msg[i]);
            let s = self.next(run.state, msg[i]).0;
            assert(self.walk_on(msg, i, run) == self.walk_on(msg, i + 1, run.at(s)));
            let t = self.lemma_walk_rest(labels, marks, msg, i + 1, n, run.at(s));
            assert(run.at(s).at(t) == run.at(t));
            t
        }
    }

    /// The end of a request line leads to the next line.
    proof fn lemma_walk_request_end(
        self,
        labels: Labels,
        marks: Marks<A>,
        msg: Seq<u8>,
        i: int,
        run: Run,
    ) -> (t: StateId)
        requires
            models(self, labels, marks),
            has_request(self, labels),
            labels.contains_key(run.state),
            labels[run.state] is Version || run.state == ANY_STATE,
            0 <= i < msg.len(),
            msg[i] == 0x0A,
        ensures
            labels.contains_key(t),
            labels[t] == Label::Node(Seq::empty()),
            self.walk_on(msg, i, run) == self.walk_on(msg, i + 1, run.at(t)),
    {
        lemma_first_states(self, labels, marks);
        if labels[run.state] == Label::Version(9) || run.state == ANY_STATE {
            self.lemma_walk_line_feed(labels, marks, msg, i, run)
        } else {
            assert(!self.has(run.state, 0x0A) && !self.has(run.state, ANY_INPUT)) by {
                reveal(models);
            }
            let lost = run.at(ANY_STATE);
            assert(self.next(run.state, 0x0A) == self.next(ANY_STATE, 0x0A));
            let t = self.lemma_walk_line_feed(labels, marks, msg, i, lost);
            self.lemma_next_known(labels, marks, ANY_STATE, 0x0A);
            let u = self.next(ANY_STATE, 0x0A).0;
            assert(self.walk_on(msg, i, run) == self.walk_on(msg, i + 1, run.at(u)));
            u
        }
    }

    /// A request line leads to the next line, and captures what it is to.
    proof fn lemma_walk_request(
        self,
        config: Config,
        labels: Labels,
        marks: Marks<A>,
        msg: Seq<u8>,
        method: Seq<u8>,
        path: Seq<u8>,
        rest: Seq<u8>,
    ) -> (later: Run)
        requires
            config.shapes(self, labels, marks),
            (First::Request { method, path, rest }).wf(marks.patterns),
            reads_at(msg, 0, (First::Request { method, path, rest }).bytes()),
        ensures
            labels.contains_key(later.state),
            labels[later.state] == Label::Node(Seq::empty()),
            later.captures == config.of_first(First::Request { method, path, rest }),
            self.walk(msg) == self.walk_on(
                msg,
                (First::Request { method, path, rest }).bytes().len() as int,
                later,
            ),
    {
        let first = First::Request { method, path, rest };
        let target = seq![0x20u8] + path;
        let tail = rest + line_break(0);
        let blank = seq![0x20u8] + tail;
        assert(first.bytes() =~= method + (target + blank));
        lemma_reads_at(msg, 0, method, target + blank);
        let i = method.len() as int;
        lemma_reads_at(msg, i, target, blank);
        let j = i + target.len();
        lemma_reads_at(msg, j, seq![0x20u8], tail);
        lemma_reads_byte(msg, j, seq![0x20u8], 0);
        lemma_reads_at(msg, j + 1, rest, line_break(0));
        let n = j + 1 + rest.len();
        lemma_reads_byte(msg, n, line_break(0), 0);
        assert forall|k: int| j + 1 <= k < n implies #[trigger] msg[k] != 0x0A by {
            lemma_reads_byte(msg, j + 1, rest, k - (j + 1));
            assert(rest[k - (j + 1)] != 0x0A);
        }
        let s = self.lemma_walk_method(config, labels, marks, msg, method);
        let one = capturing(
            Run::start().at(s),
            id_of(config.captures, method_key()),
            method,
        );
        let two = self.lemma_walk_target(config, labels, marks, msg, i, path, one);
        assert(goes_version(self, labels, 0));
        self.lemma_next_known(labels, marks, two.state, 0x20);
        let v = self.next(two.state, 0x20).0;
        let three = two.at(v);
        assert(self.walk_on(msg, j, two) == self.walk_on(msg, j + 1, three));
        let t = self.lemma_walk_rest(labels, marks, msg, j + 1, n, three);
        let u = self.lemma_walk_request_end(labels, marks, msg, n, three.at(t));
        three.at(t).at(u)
    }
}

/// Nothing more is read of the first line behind what a status line begins with.
proof fn lemma_status_is_whole(patterns: Patterns, i: u16)
    ensures
        patterns.step(status_bytes(), i) is None,
{
    let s = status_bytes();
    let q = s.push(upper(i) as u8);
    assert(q[0] == 0x48 && q[1] == 0x54 && q.len() == 10);
    if is_method(q) {
        let k = choose|k: int| 0 <= k < 8 && #[trigger] method(k) == q;
        lemma_method_letters(k);
    }
    if begins_method(q) {
        let k = choose|k: int|
            0 <= k < 8 && q.len() < method(k).len() && #[trigger] begins(method(k), q);
        lemma_method_letters(k);
    }
    if begins(preface_bytes(), q) {
        assert(preface_bytes().take(10)[0] == preface_bytes()[0]);
    }
}

impl<A: Effect> Auto<A> {
    /// Any byte read in a status line behind what it begins with leads on.
    proof fn lemma_walk_code(
        self,
        labels: Labels,
        marks: Marks<A>,
        msg: Seq<u8>,
        i: int,
        run: Run,
    ) -> (t: StateId)
        requires
            models(self, labels, marks),
            has_status(self, labels),
            marks.patterns.status,
            labels.contains_key(run.state),
            labels[run.state] == Label::Head(status_bytes()) || labels[run.state] == Label::Code(1)
                || labels[run.state] == Label::Code(2) || labels[run.state] == Label::Code(3),
            0 <= i < msg.len(),
        ensures
            labels.contains_key(t),
            labels[t] == match labels[run.state] {
                Label::Code(j) => if j == 3 {
                    Label::Reason
                } else {
                    Label::Code(j + 1)
                },
                _ => Label::Code(1),
            },
            self.next(run.state, msg[i]) == (t, marks.action(labels[run.state], ANY_INPUT)),
    {
        lemma_status_is_whole(marks.patterns, msg[i] as u16);
        self.lemma_next_any(labels, marks, run.state, msg[i]);
        self.next(run.state, msg[i]).0
    }

    /// The rest of a status line is of no interest.
    proof fn lemma_walk_reason(
        self,
        labels: Labels,
        marks: Marks<A>,
        msg: Seq<u8>,
        i: int,
        n: int,
        run: Run,
    )
        requires
            models(self, labels, marks),
            has_status(self, labels),
            labels.contains_key(run.state),
            labels[run.state] == Label::Reason,
            0 <= i <= n <= msg.len(),
            forall|k: int| i <= k < n ==> #[trigger] msg[k] != 0x0A,
        ensures
            self.walk_on(msg, i, run) == self.walk_on(msg, n, run),
        decreases n - i,
    {
        reveal(models);
        if i < n {
            let c = msg[i];
            if c == 0x0D {
                self.lemma_next_known(labels, marks, run.state, c);
            } else {
                self.lemma_next_any(labels, marks, run.state, c);
            }
            assert(self.next(run.state, c) == (run.state, None::<A>));
            assert(run.at(run.state) == run);
            self.lemma_walk_reason(labels, marks, msg, i + 1, n, run);
        }
    }

    /// What a status line begins with opens the capture of its status code.
    proof fn lemma_walk_status_start(
        self,
        config: Config,
        labels: Labels,
        marks: Marks<A>,
        msg: Seq<u8>,
        version: Seq<u8>,
    ) -> (later: Run)
        requires
            config.shapes(self, labels, marks),
            marks.patterns.status,
            uppered(version) == status_bytes(),
            reads_at(msg, 0, version),
        ensures
            labels.contains_key(later.state),
            labels[later.state] == Label::Head(status_bytes()),
            later == (Run {
                state: later.state,
                starts: Map::empty().insert(config.captures[status_key()], 9),
                ..Run::start()
            }),
            self.walk(msg) == self.walk_on(msg, 9, later),
    {
        reveal(models);
        let s = status_bytes();
        let run = Run::start();
        lemma_is_head(marks.patterns);
        assert(s.take(0) =~= Seq::empty());
        assert(uppered(version).len() == 9);
        assert forall|j: int| 0 <= j < 9 implies upper(#[trigger] msg[j] as u16) == s[j] by {
            lemma_reads_byte(msg, 0, version, j);
            assert(uppered(version)[j] == s[j]);
        }
        lemma_reads_byte(msg, 0, version, 8);
        assert forall|j: int| 0 <= j < 8 implies {
            &&& #[trigger] is_head(marks.patterns, s, j)
            &&& goes_head(self, labels, s, j, false)
            &&& upper(msg[j] as u16) == s[j]
            &&& false ==> msg[j] == s[j]
            &&& s.take(j + 1) != status_bytes()
            &&& s.take(j + 1) != preface_bytes()
        } by {
            assert(s.take(j + 1).len() != s.len());
            assert(s.take(j + 1).len() != preface_bytes().len());
        }
        let t = self.lemma_walk_head(labels, marks, msg, s, 0, 8, false, run);
        assert(goes_head(self, labels, s, 8, false));
        assert(msg[8] == 0x20) by {
            assert(upper(msg[8] as u16) == 0x20);
        }
        self.lemma_next_known(labels, marks, t, 0x20);
        assert(is_head(marks.patterns, s, 8));
        assert(s.take(9) =~= s);
        let u = self.next(t, 0x20).0;
        let mid = config.captures[status_key()];
        Run { state: u, starts: run.starts.insert(mid, 9), ..run }
    }

    /// A status line leads to the next line, and captures what it is to.
    proof fn lemma_walk_status(
        self,
        config: Config,
        labels: Labels,
        marks: Marks<A>,
        msg: Seq<u8>,
        version: Seq<u8>,
        code: Seq<u8>,
        reason: Seq<u8>,
    ) -> (later: Run)
        requires
            config.shapes(self, labels, marks),
            (First::Status { version, code, reason }).wf(marks.patterns),
            reads_at(msg, 0, (First::Status { version, code, reason }).bytes()),
        ensures
            labels.contains_key(later.state),
            labels[later.state] == Label::Node(Seq::empty()),
            later.captures == config.of_first(First::Status { version, code, reason }),
            self.walk(msg) == self.walk_on(
                msg,
                (First::Status { version, code, reason }).bytes().len() as int,
                later,
            ),
    {
        let first = First::Status { version, code, reason };
        let mid = config.captures[status_key()];
        let tail = reason + line_break(0);
        assert(first.bytes() =~= version + (code + tail));
        assert(uppered(version).len() == 9);
        lemma_reads_at(msg, 0, version, code + tail);
        lemma_reads_at(msg, 9, code, tail);
        lemma_reads_at(msg, 12, reason, line_break(0));
        let n = 12int + reason.len();
        lemma_reads_byte(msg, n, line_break(0), 0);
        assert forall|k: int| 12 <= k < n implies #[trigger] msg[k] != 0x0A by {
            lemma_reads_byte(msg, 12, reason, k - 12);
            assert(reason[k - 12] != 0x0A);
        }
        let r0 = self.lemma_walk_status_start(config, labels, marks, msg, version);
        let s1 = self.lemma_walk_code(labels, marks, msg, 9, r0);
        let r1 = r0.at(s1);
        assert(self.walk_on(msg, 9, r0) == self.walk_on(msg, 10, r1));
        let s2 = self.lemma_walk_code(labels, marks, msg, 10, r1);
        let r2 = r1.at(s2);
        assert(self.walk_on(msg, 10, r1) == self.walk_on(msg, 11, r2));
        let s3 = self.lemma_walk_code(labels, marks, msg, 11, r2);
        assert(msg.subrange(9, 12) =~= code);
        let r3 = r2.at(s3).captured(Some(mid), code);
        assert(self.walk_on(msg, 11, r2) == self.walk_on(msg, 12, r3));
        let s4 = self.lemma_walk_code(labels, marks, msg, 12, r3);
        let r4 = r3.at(s4);
        assert(self.walk_on(msg, 12, r3) == self.walk_on(msg, 13, r4));
        self.lemma_walk_reason(labels, marks, msg, 13, n, r4);
        let t = self.lemma_walk_line_feed(labels, marks, msg, n, r4);
        r4.at(t)
    }

    /// A byte of a first line that begins like none of the captured ones leads
    /// on, or back to where nothing of interest has been read.
    proof fn lemma_next_unknown(
        self,
        labels: Labels,
        marks: Marks<A>,
        bytes: Seq<u8>,
        n: int,
        s: StateId,
    )
        requires
            models(self, labels, marks),
            marks.status_start is Some ==> marks.patterns.status,
            First::Other(bytes).wf(marks.patterns),
            0 <= n < bytes.len(),
            labels.contains_key(s),
            labels[s] == head(uppered(bytes).take(n)),
        ensures
            ({
                let (t, action) = self.next(s, bytes[n]);
                &&& labels.contains_key(t)
                &&& labels[t] == head(uppered(bytes).take(n + 1)) || t == ANY_STATE
                &&& action is None
            }),
    {
        let up = uppered(bytes);
        let c = bytes[n];
        let p = up.take(n);
        let q = up.take(n + 1);
        assert(c != 0x0A);
        assert(q =~= p.push(upper(c as u16) as u8));
        assert(p.len() == 0 ==> p =~= Seq::empty());
        if self.has(s, c as u16) {
            assert(goes(self, labels, labels[s], c as u16));
            self.lemma_next_known(labels, marks, s, c);
            assert(marks.patterns.request ==> !is_method(up.take(n + 1)));
            lemma_not_preface(bytes, n + 1);
            if q == status_bytes() {
                assert(up.take(9) =~= q);
                assert(marks.patterns.status ==> !begins(up, status_bytes()));
            }
        } else {
            assert(!self.has(s, ANY_INPUT)) by {
                reveal(models);
                if self.has(s, ANY_INPUT) {
                    assert(p == status_bytes());
                    assert(begins(up, status_bytes()));
                }
            }
            self.lemma_next_lost(labels, marks, s, c);
            lemma_first_states(self, labels, marks);
        }
    }

    /// A first line that begins like none of the captured ones leads back to
    /// where nothing of interest has been read, or is read up to its end.
    proof fn lemma_walk_unknown(
        self,
        labels: Labels,
        marks: Marks<A>,
        msg: Seq<u8>,
        bytes: Seq<u8>,
        n: int,
        run: Run,
    ) -> (t: StateId)
        requires
            models(self, labels, marks),
            marks.status_start is Some ==> marks.patterns.status,
            First::Other(bytes).wf(marks.patterns),
            reads_at(msg, 0, bytes),
            0 <= n <= bytes.len(),
            labels.contains_key(run.state),
            labels[run.state] == head(uppered(bytes).take(n)) || run.state == ANY_STATE,
        ensures
            labels.contains_key(t),
            labels[t] == head(uppered(bytes)) || t == ANY_STATE,
            self.walk_on(msg, n, run) == self.walk_on(msg, bytes.len() as int, run.at(t)),
        decreases bytes.len() - n,
    {
        let up = uppered(bytes);
        if n == bytes.len() {
            assert(up.take(n) =~= up);
            assert(run.at(run.state) == run);
            run.state
        } else if run.state == ANY_STATE {
            assert forall|k: int| n <= k < bytes.len() implies #[trigger] msg[k] != 0x0A by {
                lemma_reads_byte(msg, 0, bytes, k);
                assert(bytes[k] != 0x0A);
            }
            self.lemma_walk_skip(labels, marks, msg, n, bytes.len() as int, run);
            assert(run.at(ANY_STATE) == run);
            ANY_STATE
        } else {
            lemma_reads_byte(msg, 0, bytes, n);
            self.lemma_next_unknown(labels, marks, bytes, n, run.state);
            let s = self.next(run.state, bytes[n]).0;
            assert(self.walk_on(msg, n, run) == self.walk_on(msg, n + 1, run.at(s)));
            let t = self.lemma_walk_unknown(labels, marks, msg, bytes, n + 1, run.at(s));
            assert(run.at(s).at(t) == run.at(t));
            t
        }
    }

    /// A first line that begins like none of the captured ones leads to the
    /// next line, and captures nothing.
    proof fn lemma_walk_other(
        self,
        config: Config,
        labels: Labels,
        marks: Marks<A>,
        msg: Seq<u8>,
        bytes: Seq<u8>,
    ) -> (later: Run)
        requires
            config.shapes(self, labels, marks),
            config.stops,
            First::Other(bytes).wf(marks.patterns),
            reads_at(msg, 0, First::Other(bytes).bytes()),
        ensures
            labels.contains_key(later.state),
            labels[later.state] == Label::Node(Seq::empty()),
            later.captures == config.of_first(First::Other(bytes)),
            self.walk(msg) == self.walk_on(
                msg,
                First::Other(bytes).bytes().len() as int,
                later,
            ),
    {
        reveal(models);
        let up = uppered(bytes);
        let run = Run::start();
        let n = bytes.len() as int;
        lemma_reads_at(msg, 0, bytes, line_break(0));
        lemma_reads_byte(msg, n, line_break(0), 0);
        assert(up.take(0) =~= Seq::empty());
        let t = self.lemma_walk_unknown(labels, marks, msg, bytes, 0, run);
        let lost = run.at(ANY_STATE);
        if t != ANY_STATE {
            lemma_ends_nothing(marks.patterns, bytes);
            assert(up.len() == 0 ==> up =~= Seq::empty());
            assert(!self.has(t, 0x0A));
            assert(!self.has(t, ANY_INPUT)) by {
                if self.has(t, ANY_INPUT) {
                    assert(up.take(9) =~= up);
                    assert(begins(up, status_bytes()));
                }
            }
            assert(self.next(t, 0x0A) == self.next(ANY_STATE, 0x0A));
            assert(self.walk_on(msg, n, run.at(t)) == self.walk_on(msg, n, lost));
        }
        let u = self.lemma_walk_line_feed(labels, marks, msg, n, lost);
        lost.at(u)
    }

    /// The first line leads to the next line, and captures what it is to.
    pub proof fn lemma_walk_first(
        self,
        config: Config,
        labels: Labels,
        marks: Marks<A>,
        msg: Seq<u8>,
        first: First,
    ) -> (later: Run)
        requires
            config.shapes(self, labels, marks),
            config.stops,
            first.wf(marks.patterns),
            reads_at(msg, 0, first.bytes()),
        ensures
            labels.contains_key(later.state),
            labels[later.state] == Label::Node(Seq::empty()),
            later.captures == config.of_first(first),
            self.walk(msg) == self.walk_on(msg, first.bytes().len() as int, later),
    {
        match first {
            First::Request { method, path, rest } => {
                self.lemma_walk_request(config, labels, marks, msg, method, path, rest)
            },
            First::Status { version, code, reason } => {
                self.lemma_walk_status(config, labels, marks, msg, version, code, reason)
            },
            First::Other(bytes) => { self.lemma_walk_other(config, labels, marks, msg, bytes) },
        }
    }
}

/// A line is not a preface, nor does it begin with one.
proof fn lemma_not_preface(bytes: Seq<u8>, n: int)
    requires
        on_one_line(bytes),
        0 <= n <= bytes.len(),
    ensures
        uppered(bytes).take(n) != preface_bytes(),
{
    let q = uppered(bytes).take(n);
    let pre = preface_bytes();
    assert(pre.len() == 24 && pre[15] == 0x0A);
    if q == pre {
        assert(q.len() == n);
        assert(q[15] == uppered(bytes)[15]);
        assert(bytes[15] != 0x0A);
    }
}

/// No pattern of the first line reads the end of a line that begins like none
/// of them.
proof fn lemma_ends_nothing(patterns: Patterns, bytes: Seq<u8>)
    requires
        First::Other(bytes).wf(patterns),
    ensures
        patterns.step(uppered(bytes), 0x0A) is None,
{
    let q = uppered(bytes).push(0x0A);
    let n = q.len() - 1;
    assert(q[n] == 0x0A);
    if is_method(q) {
        let k = choose|k: int| 0 <= k < 8 && #[trigger] method(k) == q;
        lemma_method_letters(k);
        assert(0x41 <= method(k)[n] <= 0x5A);
    }
    if begins_method(q) {
        let k = choose|k: int|
            0 <= k < 8 && q.len() < method(k).len() && #[trigger] begins(method(k), q);
        lemma_method_letters(k);
        assert(method(k).take(q.len() as int)[n] == method(k)[n]);
        assert(0x41 <= method(k)[n] <= 0x5A);
    }
    if begins(status_bytes(), q) {
        assert(status_bytes().take(q.len() as int)[n] == status_bytes()[n]);
    }
}

} // verus!
