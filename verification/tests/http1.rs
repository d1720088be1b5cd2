use beeper::dfa::action::Action;
use beeper::dfa::model::{ANY_INPUT, ANY_STATE, INIT_STATE};
use beeper::dfa::parser::MAX_MATCHES;
use beeper::dfa::plan::{Attachment, Program};
use beeper::dfa::table::Limits;
use beeper::http1::Parser;
use beeper::monitor::{http1_parser, http2_parser, Ids};
use beeper::pseudo_header::{METHOD, PATH, STATUS};
use beeper::{Error, MatchId, MessageBuffer};
use http::HeaderName;
use std::collections::HashMap;

fn hdr(i: u8) -> HeaderName {
    HeaderName::from_bytes(format!("x-{i}").as_bytes()).unwrap()
}

#[test]
fn parser_a_parser_captures_at_most_max_matches_ranges() {
    let mut parser = Parser::new();
    for i in 0..MAX_MATCHES {
        let mid = parser.capture_hdr(hdr(i).as_str()).expect("capture header");
        assert_eq!(u8::from(mid), i);
    }

    assert!(matches!(
        parser.capture_hdr(hdr(MAX_MATCHES).as_str()),
        Err(Error::MatchLimitExceeded(limit)) if limit == MAX_MATCHES as usize
    ));
}

#[test]
fn parser_the_same_header_is_captured_under_one_match_id() {
    // the status line fields are each captured by a path of their own
    let names: [&dyn AsRef<str>; 4] = [&hdr(0), &METHOD, &PATH, &STATUS];
    for name in names {
        let name = name.as_ref();
        let mut parser = Parser::new();
        let first = parser.capture_hdr(name).expect("capture header");
        let second = parser.capture_hdr(name).expect("capture header again");

        assert_eq!(
            first, second,
            "capturing {name} twice handed out two ids for one range"
        );
    }
}

/// The room the tables of the parser program have.
const LIMITS: Limits = Limits { states: 512, inputs: 257, actions: 64 };

/// Walks the tables of a parser over `msg` and returns the number of bytes it
/// consumed along with the range captured for each match id, or `None` if it
/// was not done by the end of `msg`.
fn walk(
    attachment: &Attachment<Action>,
    msg: &[u8],
) -> Option<(usize, HashMap<MatchId, Vec<u8>>)> {
    let actions = &attachment.tables.actions;
    let trans: HashMap<_, _> = attachment
        .tables
        .cells
        .iter()
        .map(|&(from, input, to, action)| {
            let action = match action {
                0 => None,
                i => Some(actions[i as usize - 1]),
            };
            ((from, input), (to, action))
        })
        .collect();
    let next = |s, c: u8| {
        trans
            .get(&(s, c as u16))
            .or_else(|| trans.get(&(s, ANY_INPUT)))
            .copied()
    };

    let mut s = INIT_STATE;
    let (mut ms, mut starts) = (HashMap::new(), HashMap::new());
    for (i, &c) in msg.iter().enumerate() {
        let (to, action) = next(s, c)
            .or_else(|| next(ANY_STATE, c))
            .unwrap_or((ANY_STATE, None));
        s = to;
        match action {
            None => {}
            Some(Action::StartCapture(mid)) => _ = starts.insert(mid, i + 1),
            Some(Action::EndCapture(mid)) => {
                let start = starts.get(&mid).copied().unwrap_or(0);
                ms.insert(mid, msg[start..=i].to_vec());
            }
            Some(Action::EndCaptureAndDone(mid)) => {
                let start = starts.get(&mid).copied().unwrap_or(0);
                ms.insert(mid, msg[start..=i].to_vec());
                return Some((i + 1, ms));
            }
            Some(Action::Done) => return Some((i + 1, ms)),
            Some(action) => panic!("unexpected action {action:?}"),
        }
    }

    None
}

#[test]
fn a_parser_captures_what_it_is_configured_to() {
    let mut parser = Parser::new();
    let agent = parser.capture_hdr("User-Agent").expect("capture header");
    let path = parser.capture_hdr(PATH.as_str()).expect("capture header");
    let status = parser.capture_hdr(STATUS.as_str()).expect("capture header");
    let preface = parser.match_http2_preface().expect("match the preface");
    assert_eq!(
        [agent, path, status, preface].map(u8::from),
        [0, 1, 2, 3]
    );
    let attachment = parser.attach(LIMITS).expect("attach");

    let msg = b"GET /a HTTP/1.1\r\nuser-agent : x\r\n\r\nrest";
    let (len, ms) = walk(&attachment, msg).expect("done");
    assert_eq!(len, msg.len() - 4);
    assert_eq!(
        ms,
        HashMap::from([(agent, b"x".to_vec()), (path, b"/a".to_vec())])
    );

    let (_, ms) = walk(&attachment, b"HTTP/1.1 404 Not Found\n\n").expect("done");
    assert_eq!(ms, HashMap::from([(status, b"404".to_vec())]));

    let msg = b"PRI * HTTP/2.0\r\n\r\nSM\r\n\r\n";
    let (len, ms) = walk(&attachment, msg).expect("done");
    assert_eq!(len, 24);
    assert_eq!(ms, HashMap::from([(preface, msg.to_vec())]));
}

#[test]
fn a_name_with_a_separator_in_it_is_not_tried() {
    let mut parser = Parser::new();
    assert_eq!(parser.try_capture_hdr("a\tb"), None);
    assert_eq!(parser.try_capture_hdr("Accept"), Some(Ok(MatchId(0))));
    assert_eq!(parser.try_capture_hdr("accept"), Some(Ok(MatchId(0))));
    assert_eq!(parser.try_capture_hdr(METHOD.as_str()), Some(Ok(MatchId(1))));
}

#[test]
fn a_preface_takes_a_match_id() {
    let mut parser = Parser::new();
    for i in 0..MAX_MATCHES {
        parser.capture_hdr(hdr(i).as_str()).expect("capture header");
    }
    assert_eq!(
        parser.match_http2_preface(),
        Err(Error::MatchLimitExceeded(MAX_MATCHES as usize))
    );
}

#[test]
fn a_monitor_logs_requests_and_responses() {
    let (parser, ids) = http1_parser().expect("configure");
    assert_eq!(
        ids,
        Ids {
            preface: MatchId(0),
            path: MatchId(1),
            accept_language: MatchId(2),
            status: MatchId(3),
        }
    );
    let attachment = parser.attach(LIMITS).expect("attach");
    assert_eq!(attachment.programs.len(), 3);
    assert!(attachment.programs.contains(&(Program::ParseMsg, "parse_http1".to_string())));
    assert!(attachment.programs.contains(&(Program::Matched, "matched_http1".to_string())));
    assert!(attachment
        .programs
        .contains(&(Program::ExtractMatchMsg, "extract_http1_match".to_string())));

    let msg = b"GET /bee HTTP/1.1\r\nAccept-Language: de\r\n\r\n";
    let (_, ms) = walk(&attachment, msg).expect("done");
    assert_eq!(
        ms,
        HashMap::from([(ids.path, b"/bee".to_vec()), (ids.accept_language, b"de".to_vec())])
    );

    let limits = Limits { actions: 1024, ..LIMITS };
    let attachment = http2_parser().attach(limits).expect("attach");
    assert_eq!(attachment.programs, [(Program::ParseMsg, "parse_http2".to_string())]);
}

#[test]
fn an_http1_parser_extracts_from_a_buffer() {
    let parser = Parser::new().extract_fn("extract", MessageBuffer::DynPtr);
    let attachment = parser.attach(LIMITS).expect("attach");
    assert_eq!(attachment.programs, [(Program::ExtractMatchBuf, "extract".to_string())]);
}

#[test]
fn patterns_that_do_not_fit_are_refused() {
    let parser = Parser::new();
    let limits = Limits { states: 1, inputs: 257, actions: 64 };
    assert_eq!(
        parser.attach(limits).err(),
        Some(Error::ParserExceedsStateLimit)
    );
}
