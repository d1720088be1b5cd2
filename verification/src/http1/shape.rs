//! What the automaton of an HTTP/1.x parser is, whichever fields it captures.

use super::heads::{goes_head, has_end, has_preface, lemma_goes_head_kept, lemma_more_patterns};
use super::label::{
    goes, is_name_byte, lemma_goes_kept, mark_of, models, preface_bytes, status_bytes,
    version_bytes, Label, Labels, Marks, Patterns,
};
use super::labelled::{grows, has_field, is_key, lemma_has_field_kept};
use super::lines::{
    goes_version, has_method, has_request, has_status, lemma_has_method_kept, version,
};
use super::pattern::captured;
use crate::dfa::action::{Action, Effect};
use crate::dfa::model::{lower, other_case, Auto, Draft, ANY_INPUT, ANY_STATE, INIT_STATE};
use crate::pseudo_header::{METHOD, PATH, STATUS};
use crate::text::{lemma_ascii, same_str};
use crate::{MatchId, StateId};
use vstd::prelude::*;
use vstd::string::*;

verus! {

/// What the method of a request is captured as.
pub open spec fn method_key() -> Seq<u8> {
    METHOD.spelling().spec_bytes()
}

/// What the path of a request is captured as.
pub open spec fn path_key() -> Seq<u8> {
    PATH.spelling().spec_bytes()
}

/// What the status code of a response is captured as.
pub open spec fn status_key() -> Seq<u8> {
    STATUS.spelling().spec_bytes()
}

/// Whether `key` is what a header field or a field of the first line is
/// captured as.
pub open spec fn is_capturable(key: Seq<u8>) -> bool {
    is_key(key) || key == method_key() || key == path_key() || key == status_key()
}

/// The fields of the first line are told from each other and from header
/// fields.
pub proof fn lemma_keys()
    ensures
        method_key() == seq![0x3Au8, 0x6D, 0x65, 0x74, 0x68, 0x6F, 0x64],
        path_key() == seq![0x3Au8, 0x70, 0x61, 0x74, 0x68],
        status_key() == seq![0x3Au8, 0x73, 0x74, 0x61, 0x74, 0x75, 0x73],
        method_key() != path_key(),
        method_key() != status_key(),
        path_key() != status_key(),
        !is_key(method_key()),
        !is_key(path_key()),
        !is_key(status_key()),
{
    reveal_strlit(":method");
    lemma_ascii(":method", seq![0x3A, 0x6D, 0x65, 0x74, 0x68, 0x6F, 0x64]);
    reveal_strlit(":path");
    lemma_ascii(":path", seq![0x3A, 0x70, 0x61, 0x74, 0x68]);
    reveal_strlit(":status");
    lemma_ascii(":status", seq![0x3A, 0x73, 0x74, 0x61, 0x74, 0x75, 0x73]);
    assert(method_key()[0] == 0x3A && path_key()[0] == 0x3A && status_key()[0] == 0x3A);
    assert(method_key()[1] == 0x6D && path_key()[1] == 0x70 && status_key()[1] == 0x73);
}

/// The id something is captured under, if it is.
pub open spec fn id_of(captures: Map<Seq<u8>, MatchId>, key: Seq<u8>) -> Option<MatchId> {
    if captures.contains_key(key) {
        Some(captures[key])
    } else {
        None
    }
}

/// The id the header field `name` is captured under, if it is.
pub open spec fn field_id(captures: Map<Seq<u8>, MatchId>, name: Seq<u8>) -> Option<MatchId> {
    if is_key(name) {
        id_of(captures, name)
    } else {
        None
    }
}

/// Whether an action opens the capture `id` names, if there is one.
pub open spec fn opens<A: Effect>(mark: Option<A>, id: Option<MatchId>) -> bool {
    match (mark, id) {
        (Some(action), Some(mid)) => action.effect() == Action::StartCapture(mid),
        (None, None) => true,
        _ => false,
    }
}

/// Whether an action closes the capture `id` names, if there is one.
pub open spec fn closes<A: Effect>(mark: Option<A>, id: Option<MatchId>) -> bool {
    match (mark, id) {
        (Some(action), Some(mid)) => action.effect() == Action::EndCapture(mid),
        (None, None) => true,
        _ => false,
    }
}

/// What a parser captures.
#[verifier::ext_equal]
pub struct Config {
    /// The fields, by the names they are captured as.
    pub captures: Map<Seq<u8>, MatchId>,

    /// The preface of an HTTP/2 connection, if it is captured.
    pub preface: Option<MatchId>,

    /// Whether the parser stops at the end of the header block.
    pub stops: bool,
}

impl Config {
    /// The parser that captures nothing.
    pub open spec fn empty() -> Config {
        Config { captures: Map::empty(), preface: None, stops: false }
    }

    /// The parser that captures one more field.
    pub open spec fn capture(self, key: Seq<u8>, mid: MatchId) -> Config {
        Config { captures: self.captures.insert(key, mid), ..self }
    }

    /// The patterns that takes.
    pub open spec fn patterns(self) -> Patterns {
        Patterns {
            request: self.captures.contains_key(method_key()) || self.captures.contains_key(
                path_key(),
            ),
            status: self.captures.contains_key(status_key()),
            preface: self.preface is Some,
            names: Set::new(|name: Seq<u8>| is_key(name) && self.captures.contains_key(name)),
        }
    }

    /// Whether the actions are those that capture what is to be captured.
    pub open spec fn marked_by<A: Effect>(self, marks: Marks<A>) -> bool {
        let captures = self.captures;
        &&& marks.patterns == self.patterns()
        &&& forall|name: Seq<u8>| #[trigger]
            opens(mark_of(marks.starts, name), field_id(captures, name))
        &&& forall|name: Seq<u8>| #[trigger]
            closes(mark_of(marks.ends, name), field_id(captures, name))
        &&& closes(marks.method, id_of(captures, method_key()))
        &&& opens(marks.path_start, id_of(captures, path_key()))
        &&& closes(marks.path_end, id_of(captures, path_key()))
        &&& opens(marks.status_start, id_of(captures, status_key()))
        &&& closes(marks.status_end, id_of(captures, status_key()))
        &&& match (marks.preface, self.preface) {
            (Some(action), Some(mid)) => action.effect() == Action::EndCaptureAndDone(mid),
            (None, None) => true,
            _ => false,
        }
        &&& match marks.done {
            Some(action) => self.stops && action.effect() == Action::Done,
            None => !self.stops,
        }
    }

    /// Whether every pattern that takes is there.
    pub open spec fn built_into<A>(self, auto: Auto<A>, labels: Labels) -> bool {
        &&& forall|name: Seq<u8>|
            is_key(name) && #[trigger] self.captures.contains_key(name) ==> has_field(
                auto,
                labels,
                name,
            )
        &&& self.patterns().request ==> has_request(auto, labels)
        &&& self.patterns().status ==> has_status(auto, labels)
        &&& self.preface is Some ==> has_preface(auto, labels)
        &&& self.stops ==> has_end(auto, labels)
    }

    /// Whether the automaton is one that captures all of that, with its states
    /// standing for the places `labels` says.
    pub open spec fn shapes<A: Effect>(
        self,
        auto: Auto<A>,
        labels: Labels,
        marks: Marks<A>,
    ) -> bool {
        &&& models(auto, labels, marks)
        &&& self.marked_by(marks)
        &&& self.built_into(auto, labels)
    }

    /// Whether the automaton is one that captures all of that.
    pub open spec fn is_built<A: Effect>(self, auto: Auto<A>) -> bool {
        exists|labels: Labels, marks: Marks<A>| self.shapes(auto, labels, marks)
    }

    /// Patterns that are there stay there.
    proof fn lemma_kept<A>(
        self,
        auto: Auto<A>,
        labels: Labels,
        later: Auto<A>,
        later_labels: Labels,
    )
        requires
            self.built_into(auto, labels),
            grows(auto, labels, later, later_labels),
        ensures
            self.built_into(later, later_labels),
    {
        assert forall|name: Seq<u8>| is_key(name) && #[trigger] self.captures.contains_key(
            name,
        ) implies has_field(later, later_labels, name) by {
            lemma_has_field_kept(auto, labels, later, later_labels, name);
        }
        if self.patterns().request {
            lemma_has_request_kept(auto, labels, later, later_labels);
        }
        if self.patterns().status {
            lemma_has_status_kept(auto, labels, later, later_labels);
        }
        if self.preface is Some {
            assert forall|k: int| 0 <= k < 24 implies #[trigger] goes_head(
                later,
                later_labels,
                preface_bytes(),
                k,
                true,
            ) by {
                lemma_goes_head_kept(auto, labels, later, later_labels, preface_bytes(), k, true);
            }
        }
        if self.stops {
            lemma_goes_kept(auto, labels, later, later_labels, Label::Any, 0x0D);
            lemma_goes_kept(auto, labels, later, later_labels, Label::Any, 0x0A);
            let line = Label::Node(Seq::empty());
            lemma_goes_kept(auto, labels, later, later_labels, line, 0x0D);
            lemma_goes_kept(auto, labels, later, later_labels, line, 0x0A);
        }
    }
}

/// The pattern of a request line stays there.
proof fn lemma_has_request_kept<A>(
    auto: Auto<A>,
    labels: Labels,
    later: Auto<A>,
    later_labels: Labels,
)
    requires
        has_request(auto, labels),
        grows(auto, labels, later, later_labels),
    ensures
        has_request(later, later_labels),
{
    assert forall|k: int| 0 <= k < 8 implies #[trigger] has_method(later, later_labels, k) by {
        lemma_has_method_kept(auto, labels, later, later_labels, k);
    }
    lemma_goes_kept(auto, labels, later, later_labels, Label::Method, 0x20);
    lemma_goes_kept(auto, labels, later, later_labels, Label::Target, ANY_INPUT);
    lemma_goes_kept(auto, labels, later, later_labels, Label::Path, ANY_INPUT);
    let v = version_bytes();
    assert forall|k: int| 0 <= k < 9 implies #[trigger] goes_version(later, later_labels, k) by {
        assert(goes_version(auto, labels, k));
        lemma_goes_kept(auto, labels, later, later_labels, version(k), v[k] as u16);
        lemma_goes_kept(auto, labels, later, later_labels, version(k), other_case(v[k] as u16));
    }
    lemma_goes_kept(auto, labels, later, later_labels, Label::Version(9), 0x0D);
    lemma_goes_kept(auto, labels, later, later_labels, Label::Version(9), 0x0A);
    lemma_goes_kept(auto, labels, later, later_labels, Label::Any, 0x0A);
}

/// The pattern of a status line stays there.
proof fn lemma_has_status_kept<A>(
    auto: Auto<A>,
    labels: Labels,
    later: Auto<A>,
    later_labels: Labels,
)
    requires
        has_status(auto, labels),
        grows(auto, labels, later, later_labels),
    ensures
        has_status(later, later_labels),
{
    let s = status_bytes();
    assert forall|k: int| 0 <= k < 9 implies #[trigger] goes_head(
        later,
        later_labels,
        s,
        k,
        false,
    ) by {
        lemma_goes_head_kept(auto, labels, later, later_labels, s, k, false);
    }
    lemma_goes_kept(auto, labels, later, later_labels, Label::Head(s), ANY_INPUT);
    lemma_goes_kept(auto, labels, later, later_labels, Label::Code(1), ANY_INPUT);
    lemma_goes_kept(auto, labels, later, later_labels, Label::Code(2), ANY_INPUT);
    lemma_goes_kept(auto, labels, later, later_labels, Label::Code(3), ANY_INPUT);
    lemma_goes_kept(auto, labels, later, later_labels, Label::Reason, ANY_INPUT);
    lemma_goes_kept(auto, labels, later, later_labels, Label::Reason, 0x0D);
    lemma_goes_kept(auto, labels, later, later_labels, Label::Reason, 0x0A);
    lemma_goes_kept(auto, labels, later, later_labels, Label::Any, 0x0A);
}

/// The number of states the patterns of the field `key` names take at most.
pub open spec fn states_for(key: Seq<u8>) -> int {
    key.len() + 60int
}

/// A new parser captures nothing.
pub proof fn law_new_parser_captures_nothing<A: Effect>()
    ensures
        Config::empty().is_built(Auto::<A>::fresh(2)),
{
    reveal(models);
    let labels = Map::<StateId, Label>::empty().insert(INIT_STATE, Label::Root).insert(
        ANY_STATE,
        Label::Any,
    );
    let marks = Marks::<A> {
        patterns: Config::empty().patterns(),
        starts: Map::empty(),
        ends: Map::empty(),
        method: None,
        path_start: None,
        path_end: None,
        status_start: None,
        status_end: None,
        preface: None,
        done: None,
    };
    let auto = Auto::<A>::fresh(2);
    assert forall|l: Label, i: u16| (#[trigger] marks.action(l, i)) is Some implies goes(
        auto,
        labels,
        l,
        i,
    ) by {}
    assert(models(auto, labels, marks));
    assert(Config::empty().shapes(auto, labels, marks));
}

/// Capturing the method of a request.
proof fn lemma_method_captured<A: Effect>(
    config: Config,
    auto: Auto<A>,
    labels: Labels,
    marks: Marks<A>,
    mid: MatchId,
    start: A,
    end: A,
)
    requires
        config.shapes(auto, labels, marks),
        !config.captures.contains_key(method_key()),
        auto.num_states + states_for(method_key()) <= u16::MAX,
        start.effect() == Action::StartCapture(mid),
        end.effect() == Action::EndCapture(mid),
    ensures
        captured(auto, method_key(), start, end).fits,
        config.capture(method_key(), mid).is_built(captured(auto, method_key(), start, end).auto),
        captured(auto, method_key(), start, end).auto.num_states <= auto.num_states + states_for(
            method_key(),
        ),
{
    let key = method_key();
    let next = config.capture(key, mid);
    let patterns = next.patterns();
    let d = Draft::start(auto, INIT_STATE);
    let e = captured(auto, key, start, end);
    let m0 = Marks { patterns, ..marks };
    lemma_keys();
    lemma_more_patterns(auto, labels, marks, patterns);
    let later = d.lemma_labelled_request_method(labels, m0, start, end);
    let m1 = Marks { method: Some(end), ..m0 };
    config.lemma_kept(auto, labels, e.auto, later);
    lemma_others(config, marks, key, mid);
    assert(next.marked_by(m1));
    assert(next.built_into(e.auto, later)) by {
        assert forall|name: Seq<u8>| is_key(name) && #[trigger] next.captures.contains_key(
            name,
        ) implies has_field(e.auto, later, name) by {
            assert(name == key || config.captures.contains_key(name));
        }
    }
    assert(next.shapes(e.auto, later, m1));
}

/// Capturing the path of a request.
proof fn lemma_path_captured<A: Effect>(
    config: Config,
    auto: Auto<A>,
    labels: Labels,
    marks: Marks<A>,
    mid: MatchId,
    start: A,
    end: A,
)
    requires
        config.shapes(auto, labels, marks),
        !config.captures.contains_key(path_key()),
        auto.num_states + states_for(path_key()) <= u16::MAX,
        start.effect() == Action::StartCapture(mid),
        end.effect() == Action::EndCapture(mid),
    ensures
        captured(auto, path_key(), start, end).fits,
        config.capture(path_key(), mid).is_built(captured(auto, path_key(), start, end).auto),
        captured(auto, path_key(), start, end).auto.num_states <= auto.num_states + states_for(
            path_key(),
        ),
{
    let key = path_key();
    let next = config.capture(key, mid);
    let patterns = next.patterns();
    let d = Draft::start(auto, INIT_STATE);
    let e = captured(auto, key, start, end);
    let m0 = Marks { patterns, ..marks };
    lemma_keys();
    lemma_more_patterns(auto, labels, marks, patterns);
    let later = d.lemma_labelled_request_path(labels, m0, start, end);
    let m1 = Marks { path_start: Some(start), path_end: Some(end), ..m0 };
    config.lemma_kept(auto, labels, e.auto, later);
    lemma_others(config, marks, key, mid);
    assert(next.marked_by(m1));
    assert(next.built_into(e.auto, later)) by {
        assert forall|name: Seq<u8>| is_key(name) && #[trigger] next.captures.contains_key(
            name,
        ) implies has_field(e.auto, later, name) by {
            assert(name == key || config.captures.contains_key(name));
        }
    }
    assert(next.shapes(e.auto, later, m1));
}

/// Capturing the status code of a response.
proof fn lemma_status_captured<A: Effect>(
    config: Config,
    auto: Auto<A>,
    labels: Labels,
    marks: Marks<A>,
    mid: MatchId,
    start: A,
    end: A,
)
    requires
        config.shapes(auto, labels, marks),
        !config.captures.contains_key(status_key()),
        auto.num_states + states_for(status_key()) <= u16::MAX,
        start.effect() == Action::StartCapture(mid),
        end.effect() == Action::EndCapture(mid),
    ensures
        captured(auto, status_key(), start, end).fits,
        config.capture(status_key(), mid).is_built(captured(auto, status_key(), start, end).auto),
        captured(auto, status_key(), start, end).auto.num_states <= auto.num_states + states_for(
            status_key(),
        ),
{
    let key = status_key();
    let next = config.capture(key, mid);
    let patterns = next.patterns();
    let d = Draft::start(auto, INIT_STATE);
    let e = captured(auto, key, start, end);
    let m0 = Marks { patterns, ..marks };
    lemma_keys();
    lemma_more_patterns(auto, labels, marks, patterns);
    let later = d.lemma_labelled_status(labels, m0, start, end);
    let m1 = Marks { status_start: Some(start), status_end: Some(end), ..m0 };
    config.lemma_kept(auto, labels, e.auto, later);
    lemma_others(config, marks, key, mid);
    assert(next.marked_by(m1));
    assert(next.built_into(e.auto, later)) by {
        assert forall|name: Seq<u8>| is_key(name) && #[trigger] next.captures.contains_key(
            name,
        ) implies has_field(e.auto, later, name) by {
            assert(name == key || config.captures.contains_key(name));
        }
    }
    assert(next.shapes(e.auto, later, m1));
}

/// Capturing a header field.
proof fn lemma_field_captured<A: Effect>(
    config: Config,
    auto: Auto<A>,
    labels: Labels,
    marks: Marks<A>,
    key: Seq<u8>,
    mid: MatchId,
    start: A,
    end: A,
)
    requires
        config.shapes(auto, labels, marks),
        is_key(key),
        !config.captures.contains_key(key),
        auto.num_states + states_for(key) <= u16::MAX,
        start.effect() == Action::StartCapture(mid),
        end.effect() == Action::EndCapture(mid),
    ensures
        captured(auto, key, start, end).fits,
        config.capture(key, mid).is_built(captured(auto, key, start, end).auto),
        captured(auto, key, start, end).auto.num_states <= auto.num_states + states_for(
            key,
        ),
{
    let next = config.capture(key, mid);
    let patterns = next.patterns();
    let d = Draft::start(auto, INIT_STATE);
    let e = captured(auto, key, start, end);
    let m0 = Marks { patterns, ..marks };
    lemma_keys();
    let later = d.lemma_labelled_field(labels, marks, patterns, key, start, end);
    let m1 = m0.start_field(key, start).end_field(key, end);
    config.lemma_kept(auto, labels, e.auto, later);
    lemma_field_marks(config, marks, key, mid, start, end);
    assert(next.marked_by(m1));
    assert(next.built_into(e.auto, later)) by {
        assert forall|name: Seq<u8>| is_key(name) && #[trigger] next.captures.contains_key(
            name,
        ) implies has_field(e.auto, later, name) by {
            assert(name == key || config.captures.contains_key(name));
        }
    }
    assert(next.shapes(e.auto, later, m1));
}

/// A parser that has room for the patterns of a field it does not capture yet can
/// capture it, and captures what it did before besides.
pub proof fn law_field_is_captured_besides_others<A: Effect>(
    config: Config,
    auto: Auto<A>,
    key: Seq<u8>,
    mid: MatchId,
    start: A,
    end: A,
)
    requires
        config.is_built(auto),
        is_capturable(key),
        !config.captures.contains_key(key),
        auto.num_states + states_for(key) <= u16::MAX,
        start.effect() == Action::StartCapture(mid),
        end.effect() == Action::EndCapture(mid),
    ensures
        captured(auto, key, start, end).fits,
        config.capture(key, mid).is_built(captured(auto, key, start, end).auto),
        captured(auto, key, start, end).auto.num_states <= auto.num_states + states_for(key),
{
    let (labels, marks) = choose|labels: Labels, marks: Marks<A>|
        config.shapes(auto, labels, marks);
    lemma_keys();
    if key == method_key() {
        lemma_method_captured(config, auto, labels, marks, mid, start, end);
    } else if key == path_key() {
        lemma_path_captured(config, auto, labels, marks, mid, start, end);
    } else if key == status_key() {
        lemma_status_captured(config, auto, labels, marks, mid, start, end);
    } else {
        lemma_field_captured(config, auto, labels, marks, key, mid, start, end);
    }
}

/// Capturing a field of the first line leaves the actions of header fields what
/// they are.
proof fn lemma_others<A: Effect>(config: Config, marks: Marks<A>, key: Seq<u8>, mid: MatchId)
    requires
        config.marked_by(marks),
        !is_key(key),
    ensures
        forall|name: Seq<u8>| #[trigger]
            opens(mark_of(marks.starts, name), field_id(config.capture(key, mid).captures, name)),
        forall|name: Seq<u8>| #[trigger]
            closes(mark_of(marks.ends, name), field_id(config.capture(key, mid).captures, name)),
{
    let later = config.capture(key, mid).captures;
    assert forall|name: Seq<u8>| #[trigger]
        opens(mark_of(marks.starts, name), field_id(later, name)) by {
        assert(opens(mark_of(marks.starts, name), field_id(config.captures, name)));
    }
    assert forall|name: Seq<u8>| #[trigger]
        closes(mark_of(marks.ends, name), field_id(later, name)) by {
        assert(closes(mark_of(marks.ends, name), field_id(config.captures, name)));
    }
}

/// Capturing a header field leaves the actions of the others what they are.
proof fn lemma_field_marks<A: Effect>(
    config: Config,
    marks: Marks<A>,
    key: Seq<u8>,
    mid: MatchId,
    start: A,
    end: A,
)
    requires
        config.marked_by(marks),
        is_key(key),
        start.effect() == Action::StartCapture(mid),
        end.effect() == Action::EndCapture(mid),
    ensures
        forall|name: Seq<u8>| #[trigger]
            opens(
                mark_of(marks.starts.insert(key, start), name),
                field_id(config.capture(key, mid).captures, name),
            ),
        forall|name: Seq<u8>| #[trigger]
            closes(
                mark_of(marks.ends.insert(key, end), name),
                field_id(config.capture(key, mid).captures, name),
            ),
{
    let later = config.capture(key, mid).captures;
    assert forall|name: Seq<u8>| #[trigger]
        opens(mark_of(marks.starts.insert(key, start), name), field_id(later, name)) by {
        assert(opens(mark_of(marks.starts, name), field_id(config.captures, name)));
    }
    assert forall|name: Seq<u8>| #[trigger]
        closes(mark_of(marks.ends.insert(key, end), name), field_id(later, name)) by {
        assert(closes(mark_of(marks.ends, name), field_id(config.captures, name)));
    }
}

/// A parser that has room for the pattern of the preface and does not capture it
/// yet can capture it, and captures what it did before besides.
pub proof fn law_preface_is_captured_besides_others<A: Effect>(
    config: Config,
    auto: Auto<A>,
    mid: MatchId,
    start: A,
    end: A,
)
    requires
        config.is_built(auto),
        config.preface is None,
        auto.num_states + 24 <= u16::MAX,
        end.effect() == Action::EndCaptureAndDone(mid),
    ensures
        ({
            let e = Draft::start(auto, INIT_STATE).h2_preface(start, end);
            &&& e.fits
            &&& (Config { preface: Some(mid), ..config }).is_built(e.auto)
            &&& e.auto.num_states <= auto.num_states + 24
        }),
{
    let (labels, marks) = choose|labels: Labels, marks: Marks<A>|
        config.shapes(auto, labels, marks);
    let next = Config { preface: Some(mid), ..config };
    let patterns = next.patterns();
    let d = Draft::start(auto, INIT_STATE);
    let e = d.h2_preface(start, end);
    let m0 = Marks { patterns, ..marks };
    lemma_more_patterns(auto, labels, marks, patterns);
    let later = d.lemma_labelled_preface(labels, m0, start, end);
    config.lemma_kept(auto, labels, e.auto, later);
    assert(next.shapes(e.auto, later, Marks { preface: Some(end), ..m0 }));
}

/// A parser that has room for the pattern of the end of the header block can be
/// made to stop there, and captures what it did before.
pub proof fn law_parser_is_made_to_stop<A: Effect>(config: Config, auto: Auto<A>, done: A)
    requires
        config.is_built(auto),
        !config.stops,
        auto.num_states + 2 <= u16::MAX,
        done.effect() == Action::Done,
    ensures
        ({
            let e = Draft::start(auto, ANY_STATE).header_end(done);
            &&& e.fits
            &&& (Config { stops: true, ..config }).is_built(e.auto)
        }),
{
    let (labels, marks) = choose|labels: Labels, marks: Marks<A>|
        config.shapes(auto, labels, marks);
    let next = Config { stops: true, ..config };
    let d = Draft::start(auto, ANY_STATE);
    let e = d.header_end(done);
    let later = d.lemma_labelled_end(labels, marks, done);
    config.lemma_kept(auto, labels, e.auto, later);
    assert(next.shapes(e.auto, later, Marks { done: Some(done), ..marks }));
}

/// Returns whether `name` is what a header field or a field of the first line is
/// captured as.
pub fn capturable(name: &str) -> (r: bool)
    ensures
        r == is_capturable(name.spec_bytes()),
{
    if same_str(name, METHOD.as_str()) || same_str(name, PATH.as_str()) || same_str(
        name,
        STATUS.as_str(),
    ) {
        return true;
    }
    let bytes = name.as_bytes();
    let mut i: usize = 0;
    while i < bytes.len()
        invariant
            i <= bytes@.len(),
            bytes@ == name.spec_bytes(),
            name.spec_bytes() != method_key(),
            name.spec_bytes() != path_key(),
            name.spec_bytes() != status_key(),
            forall|j: int|
                0 <= j < i ==> is_name_byte(#[trigger] bytes@[j] as u16) && lower(bytes@[j] as u16)
                    == bytes@[j],
        decreases bytes@.len() - i,
    {
        let b = bytes[i];
        if b == 0x09 || b == 0x0A || b == 0x0D || b == 0x20 || b == 0x3A || (0x41 <= b && b
            <= 0x5A) {
            assert(!(is_name_byte(bytes@[i as int] as u16) && lower(bytes@[i as int] as u16)
                == bytes@[i as int]));
            return false;
        }
        i += 1;
    }
    true
}

} // verus!
