use beeper::dfa::model::{ANY_INPUT, ANY_STATE, INIT_STATE};
use beeper::dfa::parser::MAX_MATCHES;
use beeper::dfa::plan::{Attachment, Program};
use beeper::dfa::table::{Limits, TableError};
use beeper::h1::Parser;
use beeper::http1::action::Action;
use beeper::pseudo_header::{AUTHORITY, METHOD, PATH, SCHEME, STATUS};
use beeper::{Error, MatchId, MessageBuffer};
use http::HeaderName;
use std::collections::HashMap;

fn hdr(i: u8) -> HeaderName {
    HeaderName::from_bytes(format!("x-{i}").as_bytes()).unwrap()
}

#[test]
fn a_parser_captures_at_most_max_matches_ranges() {
    let mut parser = Parser::new();
    for i in 0..MAX_MATCHES {
        let mid = parser.capture_hdr(hdr(i).as_str()).expect("capture header");
        assert_eq!(u8::from(mid), i);
    }

    assert_eq!(
        parser.capture_hdr(hdr(MAX_MATCHES).as_str()),
        Err(Error::MatchLimitExceeded(MAX_MATCHES as usize))
    );
}

#[test]
fn the_same_header_is_captured_under_one_match_id() {
    // the status line fields are each captured by a path of their own
    let names: [&dyn AsRef<str>; 4] = [&hdr(0), &METHOD, &PATH, &STATUS];
    for name in names {
        let name = name.as_ref();
        let mut parser = Parser::new();
        let first = parser.capture_hdr(name).expect("capture header");
        let second = parser.capture_hdr(name).expect("capture header again");

        assert_eq!(
            first, second,
            "capturing {name} twice handed out two ids for one range"
        );
    }
}

/// The room the tables of the parser program have.
const LIMITS: Limits = Limits { states: 512, inputs: 257, actions: 64 };

/// Walks the tables of a parser over `msg` and returns the number of bytes it
/// consumed along with the range captured for each match id, or `None` if it
/// was not done by the end of `msg`.
fn walk(
    attachment: &Attachment<Action>,
    msg: &[u8],
) -> Option<(usize, HashMap<MatchId, Vec<u8>>)> {
    let actions = &attachment.tables.actions;
    let trans: HashMap<_, _> = attachment
        .tables
        .cells
        .iter()
        .map(|&(from, input, to, action)| {
            let action = match action {
                0 => None,
                i => Some(actions[i as usize - 1]),
            };
            ((from, input), (to, action))
        })
        .collect();
    let next = |s, c: u8| {
        trans
            .get(&(s, c as u16))
            .or_else(|| trans.get(&(s, ANY_INPUT)))
            .copied()
    };

    let mut s = INIT_STATE;
    let (mut ms, mut starts) = (HashMap::new(), HashMap::new());
    for (i, &c) in msg.iter().enumerate() {
        let (to, action) = next(s, c)
            .or_else(|| next(ANY_STATE, c))
            .unwrap_or((ANY_STATE, None));
        s = to;
        match action {
            None => {}
            Some(Action::StartCapture(mid)) => _ = starts.insert(mid, i + 1),
            Some(Action::EndCapture(mid)) => {
                let start = starts.get(&mid).copied().unwrap_or(0);
                ms.insert(mid, msg[start..=i].to_vec());
            }
            Some(Action::EndCaptureAndDone(mid)) => {
                let start = starts.get(&mid).copied().unwrap_or(0);
                ms.insert(mid, msg[start..=i].to_vec());
                return Some((i + 1, ms));
            }
            Some(Action::Done) => return Some((i + 1, ms)),
        }
    }

    None
}

/// What a parser that captures `names` makes of `msg`, by the names.
fn parse(names: &[&str], msg: &[u8]) -> Option<(usize, Vec<Option<Vec<u8>>>)> {
    let mut parser = Parser::new();
    let mids: Vec<MatchId> = names
        .iter()
        .map(|name| {
            parser
                .try_capture_hdr(name)
                .expect("room for the header")
                .expect("capture header")
        })
        .collect();
    let attachment = parser.attach(LIMITS).expect("attach");
    let (len, ms) = walk(&attachment, msg)?;
    Some((len, mids.iter().map(|mid| ms.get(mid).cloned()).collect()))
}

/// The ranges captured of a message that is a header block and nothing else.
fn ranges(names: &[&str], msg: &[u8]) -> Vec<Option<Vec<u8>>> {
    let (len, ranges) = parse(names, msg).expect("done");
    assert_eq!(len, msg.len());
    ranges
}

fn range(bytes: &[u8]) -> Option<Vec<u8>> {
    Some(bytes.to_vec())
}

#[test]
fn walk_a_request_and_capture_a_header() {
    let msg = b"GET / HTTP/1.1\r\nHost: a\r\nuser-agent: some user agent\r\n\r\n";
    assert_eq!(ranges(&["user-agent"], msg), [range(b"some user agent")]);
}

#[test]
fn walk_ignores_the_case_of_a_name() {
    let msg = b"GET / HTTP/1.1\r\nHost: a\r\nUsEr-aGEnT: beeper\r\n\r\n";
    assert_eq!(ranges(&["user-agent"], msg), [range(b"beeper")]);
    assert_eq!(ranges(&["USER-Agent"], msg), [range(b"beeper")]);
}

#[test]
fn walk_ignores_whitespace_around_the_colon() {
    let msg = b"GET / HTTP/1.1\r\nHost: a\r\nuser-agent:  \tbeeper\r\n\r\n";
    assert_eq!(ranges(&["user-agent"], msg), [range(b"beeper")]);
    let msg = b"GET / HTTP/1.1\r\nHost: a\r\nuser-agent \t:  sumsum\r\n\r\n";
    assert_eq!(ranges(&["user-agent"], msg), [range(b"sumsum")]);
}

#[test]
fn walk_captures_several_headers() {
    let msg = b"GET / HTTP/1.1\r\naccept: beeper\r\nx: y\r\nuser-agent: sumsum\r\n\r\nbody\r\n\r\n";
    let (len, ranges) = parse(&["user-agent", "accept"], msg).expect("done");
    assert_eq!(len, msg.len() - b"body\r\n\r\n".len());
    assert_eq!(ranges, [range(b"sumsum"), range(b"beeper")]);
}

#[test]
fn walk_captures_the_request_line() {
    let names = [METHOD.as_str(), PATH.as_str()];
    let msg = b"GET /index.html HTTP/1.1\r\nHost: a\r\n\r\n";
    assert_eq!(ranges(&names, msg), [range(b"GET"), range(b"/index.html")]);
    let msg = b"options * http/1.1\n\n";
    assert_eq!(ranges(&names, msg), [range(b"options"), range(b"*")]);

    // whichever version it names, and whatever else is behind the path
    let msg = b"GET /a HTTP/1.0\r\nHost: a\r\n\r\n";
    assert_eq!(ranges(&names, msg), [range(b"GET"), range(b"/a")]);
    let msg = b"GET /a b HTTP/1.1\r\nHost: a\r\n\r\n";
    assert_eq!(ranges(&names, msg), [range(b"GET"), range(b"/a")]);
    let msg = b"GET /a \n\n";
    assert_eq!(ranges(&names, msg), [range(b"GET"), range(b"/a")]);
    for method in ["POST", "GET", "PUT", "PATCH", "DELETE", "HEAD", "OPTIONS", "TRACE"] {
        let msg = format!("{method} /a HTTP/1.1\r\n\r\n");
        let got = ranges(&names, msg.as_bytes());
        assert_eq!(got, [range(method.as_bytes()), range(b"/a")]);
    }
}

#[test]
fn walk_captures_the_request_line_and_a_header() {
    let msg = b"POST /a/b HTTP/1.1\r\ncontent-length: 13\r\n\r\nHello, world!";
    let (_, got) = parse(&[PATH.as_str(), "content-length"], msg).expect("done");
    assert_eq!(got, [range(b"/a/b"), range(b"13")]);
}

#[test]
fn walk_captures_the_status_code() {
    let names = [STATUS.as_str(), METHOD.as_str(), "server"];
    let msg = b"HTTP/1.1 200 OK\r\nserver: bee\r\n\r\n";
    assert_eq!(ranges(&names, msg), [range(b"200"), None, range(b"bee")]);
    let msg = b"HEAD / HTTP/1.1\r\nserver: bee\r\n\r\n";
    assert_eq!(ranges(&names, msg), [None, range(b"HEAD"), range(b"bee")]);
}

#[test]
fn walk_skips_a_first_line_that_is_not_captured() {
    let msg = b"HTTP/1.1 200 OK\r\nserver: bee\r\n\r\n";
    assert_eq!(ranges(&["server"], msg), [range(b"bee")]);
    assert_eq!(ranges(&[PATH.as_str(), "server"], msg), [None, range(b"bee")]);
}

#[test]
fn walk_captures_nothing_for_an_empty_value() {
    let msg = b"GET / HTTP/1.1\r\nuser-agent:\r\naccept: text/plain\r\n\r\n";
    assert_eq!(ranges(&["user-agent", "accept"], msg), [None, range(b"text/plain")]);
}

#[test]
fn walk_matches_a_star_in_a_name_literally() {
    let msg = b"GET / HTTP/1.1\r\nxzy: beeper\r\n\r\n";
    assert_eq!(ranges(&["x*y"], msg), [None]);
    let msg = b"GET / HTTP/1.1\r\nx*y: beeper\r\n\r\n";
    assert_eq!(ranges(&["x*y"], msg), [range(b"beeper")]);
}

#[test]
fn walk_keeps_a_value_that_carries_high_bytes_together() {
    let msg = b"GET / HTTP/1.1\r\nuser-agent: good\x8d\x8auser-agent: evil\r\n\r\n";
    assert_eq!(ranges(&["user-agent"], msg), [range(b"good\x8d\x8auser-agent: evil")]);
}

#[test]
fn walk_takes_lines_that_end_with_a_line_feed_alone() {
    let msg = b"GET / HTTP/1.1\nHost: a\nuser-agent: beeper\n\n";
    assert_eq!(ranges(&["user-agent"], msg), [range(b"beeper")]);
}

#[test]
fn walk_tells_names_apart_that_begin_alike() {
    let msg = b"GET / HTTP/1.1\r\naccept: a\r\naccept-language: b\r\nacc: c\r\n\r\n";
    let names = ["accept-language", "accept"];
    assert_eq!(ranges(&names, msg), [range(b"b"), range(b"a")]);
    assert_eq!(ranges(&["accept"], msg), [range(b"a")]);
    assert_eq!(ranges(&["accept-language"], msg), [range(b"b")]);
}

#[test]
fn walk_captures_the_last_of_several_fields_of_one_name() {
    let msg = b"GET / HTTP/1.1\r\na: 1\r\na: 2\r\n\r\n";
    assert_eq!(ranges(&["a"], msg), [range(b"2")]);
}

#[test]
fn walk_is_not_done_within_the_header_block() {
    assert_eq!(parse(&["user-agent"], b"GET / HTTP/1.1\r\nuser-agent: some user"), None);
    assert_eq!(parse(&["user-agent"], b"GET / HTTP/1.1\r\nuser-agent: a\r\n"), None);
}

#[test]
fn walk_captures_the_preface_and_stops_behind_it() {
    let preface = b"PRI * HTTP/2.0\r\n\r\nSM\r\n\r\n";
    let mut parser = Parser::new();
    let path = parser.capture_hdr(PATH.as_str()).expect("capture header");
    let mid = parser.match_h2_preface().expect("match the preface");
    let attachment = parser.attach(LIMITS).expect("attach");

    let msg = [preface.as_slice(), b"\x00\x00\x00\x04"].concat();
    let (len, ms) = walk(&attachment, &msg).expect("done");
    assert_eq!(len, preface.len());
    assert_eq!(ms, HashMap::from([(mid, preface.to_vec())]));

    // a request that only looks like the preface is none
    let msg = b"PRI X HTTP/2.0\r\n\r\nSM\r\n\r\n";
    let (len, ms) = walk(&attachment, msg).expect("done");
    assert_eq!(len, b"PRI X HTTP/2.0\r\n\r\n".len());
    assert!(ms.is_empty());

    let (_, ms) = walk(&attachment, b"PUT /x HTTP/1.1\r\n\r\n").expect("done");
    assert_eq!(ms, HashMap::from([(path, b"/x".to_vec())]));
}

#[test]
fn a_name_no_field_can_have_is_not_tried() {
    let mut parser = Parser::new();
    assert_eq!(parser.try_capture_hdr("a b"), None);
    assert_eq!(parser.try_capture_hdr("a:b"), None);
    assert_eq!(parser.try_capture_hdr(AUTHORITY.as_str()), None);
    assert_eq!(parser.try_capture_hdr(SCHEME.as_str()), None);
    assert_eq!(parser.try_capture_hdr(&"x".repeat(0x10000)), None);
    assert_eq!(parser.try_capture_hdr("a-b"), Some(Ok(MatchId(0))));
    assert_eq!(parser.try_capture_hdr("A-B"), Some(Ok(MatchId(0))));
}

#[test]
fn a_parser_captures_no_preface_beyond_max_matches() {
    let mut parser = Parser::new();
    for i in 0..MAX_MATCHES {
        parser.capture_hdr(hdr(i).as_str()).expect("capture header");
    }
    assert_eq!(
        parser.match_h2_preface(),
        Err(Error::MatchLimitExceeded(MAX_MATCHES as usize))
    );
    assert_eq!(
        parser.try_capture_hdr("y"),
        Some(Err(Error::MatchLimitExceeded(MAX_MATCHES as usize)))
    );
}

#[test]
fn attaching_replaces_the_configured_functions() {
    let attachment = Parser::new()
        .parse_fn("parse_h1", MessageBuffer::Skb)
        .matched_fn("matched_h1")
        .extract_fn("extract_h1", MessageBuffer::Msg)
        .attach(LIMITS)
        .expect("attach");
    let mut programs = attachment.programs.clone();
    programs.sort_by_key(|(_, name)| name.clone());
    assert_eq!(
        programs,
        vec![
            (Program::ExtractMatchMsg, "extract_h1".to_string()),
            (Program::Matched, "matched_h1".to_string()),
            (Program::ParseSkb, "parse_h1".to_string()),
        ]
    );
}

#[test]
fn what_does_not_fit_is_not_attached() {
    let mut parser = Parser::new();
    parser.capture_hdr("user-agent").expect("capture header");
    match parser.attach(Limits { states: 3, inputs: 257, actions: 64 }) {
        Err(err) => {
            assert!(matches!(err, TableError::States { held: 3, .. }));
        }
        _ => panic!("too few states were enough"),
    }

    let mut parser = Parser::new();
    parser.capture_hdr("user-agent").expect("capture header");
    assert!(matches!(
        parser.attach(Limits { states: 512, inputs: 257, actions: 2 }),
        Err(TableError::Actions { held: 2 })
    ));

    let mut parser = Parser::new();
    parser.capture_hdr("user-agent").expect("capture header");
    assert!(matches!(
        parser.attach(Limits { states: 512, inputs: 256, actions: 64 }),
        Err(TableError::Input(256))
    ));
}

#[test]
fn a_parser_extracts_from_a_buffer() {
    let mut parser = Parser::new();
    parser.match_h2_preface().expect("match preface");
    parser.capture_hdr("user-agent").expect("capture header");
    let attachment = parser
        .parse_fn("parse_h1_buf", MessageBuffer::DynPtr)
        .matched_fn("matched_h1")
        .extract_fn("extract_h1_match_buf", MessageBuffer::DynPtr)
        .attach(LIMITS)
        .expect("attach");
    let mut programs = attachment.programs.clone();
    programs.sort_by_key(|(_, name)| name.clone());
    assert_eq!(
        programs,
        vec![
            (Program::ExtractMatchBuf, "extract_h1_match_buf".to_string()),
            (Program::Matched, "matched_h1".to_string()),
            (Program::ParseBuf, "parse_h1_buf".to_string()),
        ]
    );
}

#[test]
fn a_parser_can_be_attached_if_its_end_fits() {
    let mut parser = Parser::new();
    assert!(parser.can_attach());
    parser.capture_hdr("user-agent").expect("capture header");
    assert!(parser.can_attach());

    // what leads elsewhere where the header block ends is in the way
    let mut parser = Parser::new();
    parser.dfa.insert_edge(ANY_STATE, 0x0D, INIT_STATE, None);
    assert!(!parser.can_attach());
    let mut parser = Parser::new();
    parser.dfa.start_pattern(ANY_STATE).push("\n\n").with(Action::StartCapture(MatchId(0)));
    assert!(!parser.can_attach());
}

#[test]
fn a_parser_stops_behind_the_empty_line_whatever_the_lines_hold() {
    for line in ["no colon", "two words: value", ": no name", "x\ry", " \t", "foo\r: z", "::"] {
        let block = format!("a line\n{line}\r\nfoo: bar\n{line}\n\r\n");
        let msg = format!("{block}foo: body\n\n");
        let (len, captures) = parse(&["foo", "two"], msg.as_bytes()).expect("done");
        assert_eq!(len, block.len(), "{line:?}");
        assert_eq!(captures[0].as_deref(), Some(b"bar".as_slice()), "{line:?}");
    }
}

/// A parser of a buffer, which matches the preface and captures `names`.
fn buf_parser(names: &[&str]) -> (Attachment<Action>, Vec<MatchId>) {
    let mut parser = Parser::new();
    parser.match_h2_preface().expect("match preface");
    let mids = names
        .iter()
        .map(|name| parser.capture_hdr(name).expect("capture header"))
        .collect();
    let attachment = parser
        .matched_fn("matched_h1")
        .parse_fn("parse_h1_buf", MessageBuffer::DynPtr)
        .extract_fn("extract_h1_match_buf", MessageBuffer::DynPtr)
        .attach(LIMITS)
        .expect("attach parser");
    (attachment, mids)
}

#[test]
fn parse_headers_in_buf() {
    let (h1, mids) = buf_parser(&["user-agent", "accept-language"]);

    let req = "GET / HTTP/1.1\r\nhost: beeper\r\nuser-agent: some user agent\r\n\r\n";
    let (len, captures) = walk(&h1, req.as_bytes()).expect("done");
    assert_eq!(len, req.len(), "the whole header block was parsed");

    // the buffer carries no language, so nothing is captured for it
    assert_eq!(captures, HashMap::from([(mids[0], b"some user agent".to_vec())]));
}

#[test]
fn report_a_buf_that_ends_mid_message() {
    let (h1, _mids) = buf_parser(&["user-agent"]);

    let req = "GET / HTTP/1.1\r\nuser-agent: some user";
    assert_eq!(walk(&h1, req.as_bytes()), None, "the parser ran out of bytes");
}
