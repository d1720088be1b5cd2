use beeper::dfa::action::Action;
use beeper::dfa::model::{ANY_INPUT, ANY_STATE, INIT_STATE};
use beeper::dfa::parser::MAX_MATCHES;
use beeper::dfa::plan::Program;
use beeper::dfa::table::Limits;
use beeper::resp2::parser::{Parser, MAX_ARGS};
use beeper::{Error, MatchId, MessageBuffer};
use std::collections::HashMap;

/// Walks the DFA of `parser` over `msg` the way dfa/parser.bpf.h does, and
/// returns the number of bytes it consumed along with the range captured
/// for each match id, or `None` if it was not done by the end of `msg`.
fn walk(parser: &Parser, msg: &[u8]) -> Option<(usize, HashMap<MatchId, Vec<u8>>)> {
    let trans: HashMap<_, _> = parser
        .dfa
        .iter_transitions()
        .into_iter()
        .map(|(from, input, to, action)| ((from, input), (to, action)))
        .collect();
    let next = |s, c: u8| {
        trans
            .get(&(s, c as u16))
            .or_else(|| trans.get(&(s, ANY_INPUT)))
            .copied()
    };

    let (mut s, mut len, mut skip) = (INIT_STATE, 0usize, 0usize);
    let (mut ms, mut starts) = (HashMap::new(), HashMap::new());
    for (i, &c) in msg.iter().enumerate() {
        if skip > 0 {
            skip -= 1;
            continue;
        }

        let (to, action) = next(s, c)
            .or_else(|| next(ANY_STATE, c))
            .unwrap_or((ANY_STATE, None));
        s = to;

        match action {
            Some(Action::LenDigit) if !c.is_ascii_digit() => {
                (s, len) = (ANY_STATE, 0);
            }
            Some(Action::LenDigit) => len = len * 10 + (c - b'0') as usize,
            Some(Action::Skip(mid)) => {
                skip = std::mem::take(&mut len);
                if let Some(mid) = mid {
                    ms.insert(mid, msg[i + 1..i + 1 + skip].to_vec());
                }
            }
            Some(Action::StartCapture(mid)) => _ = starts.insert(mid, i + 1),
            Some(Action::EndCapture(mid)) => {
                _ = ms.insert(mid, msg[starts[&mid]..=i].to_vec());
            }
            Some(Action::Done) => return Some((i + 1, ms)),
            None => {}
            Some(action) => panic!("unexpected action {action:?}"),
        }
    }

    None
}

/// Encodes `args` as the array of bulk strings a client sends.
fn cmd(args: &[&[u8]]) -> Vec<u8> {
    let mut msg = format!("*{}\r\n", args.len()).into_bytes();
    for arg in args {
        msg.extend(format!("${}\r\n", arg.len()).bytes());
        msg.extend(*arg);
        msg.extend(b"\r\n");
    }
    msg
}

/// Returns a parser capturing the first three arguments, ready to attach.
fn parser() -> (Parser, [MatchId; 3]) {
    let mut parser = Parser::new();
    let mids = [0, 1, 2].map(|i| parser.capture_arg(i).expect("capture argument"));
    parser.match_commands();
    parser.match_replies();
    (parser, mids)
}

/// Returns a parser capturing the payload of a reply, ready to attach.
fn reply_parser() -> (Parser, MatchId) {
    let mut parser = Parser::new();
    let mid = parser.capture_reply().expect("capture reply");
    parser.match_commands();
    parser.match_replies();
    (parser, mid)
}

#[test]
fn capture_the_payload_of_every_reply_that_carries_one() {
    let (parser, mid) = reply_parser();
    let replies: [(&[u8], &[u8]); 5] = [
        (b"+OK\r\n", b"OK"),
        (b"-ERR unknown command\r\n", b"ERR unknown command"),
        (b":-42\r\n", b"-42"),
        (b"$5\r\nva\r\nl\r\n", b"va\r\nl"),
        (b"$0\r\n\r\n", b""),
    ];

    for (reply, payload) in replies {
        let (len, ms) = walk(&parser, reply).expect("done");
        assert_eq!(len, reply.len());
        assert_eq!(ms[&mid], payload, "{}", String::from_utf8_lossy(reply));
    }
}

#[test]
fn walk_replies_that_carry_nothing() {
    let (parser, mid) = reply_parser();
    for reply in [b"$-1\r\n".as_slice(), b"*-1\r\n", b"*0\r\n"] {
        let (len, ms) = walk(&parser, reply).expect("done");
        assert_eq!(len, reply.len());
        assert!(!ms.contains_key(&mid));
    }
}

#[test]
fn stop_behind_the_first_reply_of_a_pipeline() {
    let (parser, mid) = reply_parser();
    let (len, ms) = walk(&parser, b"+OK\r\n$5\r\nvalue\r\n").expect("done");
    assert_eq!(len, 5);
    assert_eq!(ms[&mid], b"OK");
}

#[test]
fn capture_the_elements_of_an_array_reply_as_arguments() {
    let (parser, mids) = parser();
    let (_, ms) = walk(&parser, &cmd(&[b"a", b"b"])).expect("done");
    assert_eq!(ms[&mids[0]], b"a");
    assert_eq!(ms[&mids[1]], b"b");
}

#[test]
fn walk_a_command_and_capture_its_arguments() {
    let (parser, mids) = parser();
    let msg = cmd(&[b"SET", b"key", b"value"]);

    let (len, ms) = walk(&parser, &msg).expect("done");
    assert_eq!(len, msg.len());
    assert_eq!(ms[&mids[0]], b"SET");
    assert_eq!(ms[&mids[1]], b"key");
    assert_eq!(ms[&mids[2]], b"value");
}

#[test]
fn stop_behind_the_first_command_of_a_pipeline() {
    let (parser, mids) = parser();
    let get = cmd(&[b"GET", b"key"]);
    let msg = [get.clone(), cmd(&[b"SET", b"key", b"value"])].concat();

    let (len, ms) = walk(&parser, &msg).expect("done");
    assert_eq!(len, get.len());
    assert_eq!(ms[&mids[1]], b"key");
    assert!(!ms.contains_key(&mids[2]));
}

#[test]
fn skip_arguments_that_hold_any_byte() {
    let (parser, mids) = parser();
    let value = b"\r\n*1\r\n$0\r\n\r\n";
    let msg = cmd(&[b"SET", b"", value]);

    let (len, ms) = walk(&parser, &msg).expect("done");
    assert_eq!(len, msg.len());
    assert_eq!(ms[&mids[1]], b"");
    assert_eq!(ms[&mids[2]], value);
}

#[test]
fn walk_commands_of_up_to_max_args_arguments() {
    let (parser, _) = parser();
    for n in 1..=MAX_ARGS {
        let args = vec![b"arg".as_slice(); n];
        let msg = cmd(&args);
        assert_eq!(walk(&parser, &msg).map(|(len, _)| len), Some(msg.len()));
    }

    let args = vec![b"arg".as_slice(); MAX_ARGS + 1];
    assert_eq!(walk(&parser, &cmd(&args)), None);
}

#[test]
fn capture_the_elements_of_an_array_reply_of_any_simple_kind() {
    let (parser, mids) = parser();
    let reply = b"*3\r\n+OK\r\n-ERR no\r\n:1\r\n";

    let (len, ms) = walk(&parser, reply).expect("done");
    assert_eq!(len, reply.len());
    assert_eq!(ms[&mids[0]], b"OK");
    assert_eq!(ms[&mids[1]], b"ERR no");
    assert_eq!(ms[&mids[2]], b"1");
}

#[test]
fn capture_nothing_for_a_null_element() {
    let (parser, mids) = parser();
    let reply = b"*3\r\n$1\r\na\r\n$-1\r\n$1\r\nc\r\n";

    let (len, ms) = walk(&parser, reply).expect("done");
    assert_eq!(len, reply.len());
    assert_eq!(ms[&mids[0]], b"a");
    assert!(!ms.contains_key(&mids[1]));
    assert_eq!(ms[&mids[2]], b"c");
}

#[test]
fn ignore_a_nested_array() {
    let (parser, _) = parser();
    assert_eq!(walk(&parser, b"*1\r\n*1\r\n:1\r\n"), None);
}

#[test]
fn ignore_a_command_whose_length_is_no_number() {
    let (parser, _) = parser();
    assert_eq!(walk(&parser, b"*1\r\n$x\r\n"), None);
}

#[test]
fn ignore_an_inline_command() {
    let (parser, _) = parser();
    assert_eq!(walk(&parser, b"SET key value\r\n"), None);
}

#[test]
fn a_parser_captures_at_most_max_args_arguments() {
    let mut parser = Parser::new();
    for i in 0..MAX_ARGS {
        let mid = parser.capture_arg(i).expect("capture argument");
        assert_eq!(u8::from(mid) as usize, i);
    }

    assert!(matches!(
        parser.capture_arg(MAX_ARGS),
        Err(Error::ArgLimitExceeded(limit)) if limit == MAX_ARGS
    ));
}

#[test]
fn the_same_argument_is_captured_under_one_match_id() {
    let mut parser = Parser::new();
    let first = parser.capture_arg(1).expect("capture argument");
    let second = parser.capture_arg(1).expect("capture argument again");

    assert_eq!(first, second);
}

#[test]
fn the_commands_fit_into_the_parser_program() {
    // must stay in sync with `MAX_STATES` of dfa/parser.bpf.h
    const MAX_STATES: u16 = 512;

    let mut parser = Parser::new();
    for i in 0..MAX_ARGS.min(MAX_MATCHES as usize) {
        parser.capture_arg(i).expect("capture argument");
    }
    parser.capture_reply().expect("capture reply");
    parser.match_commands();
    parser.match_replies();

    let num_states = parser.dfa.num_states();
    assert!(num_states <= MAX_STATES, "{num_states} states");
}

#[test]
fn a_value_that_holds_crlf_is_captured_whole() {
    let (parser, mids) = parser();
    let value = b"a\r\n*1\r\n$1\r\nb";
    let msg = cmd(&[b"SET", b"key", value]);
    let (len, ms) = walk(&parser, &msg).expect("done");
    assert_eq!(len, msg.len());
    assert_eq!(ms[&mids[2]], value);
}

#[test]
fn a_length_of_several_digits_is_read() {
    let (parser, mids) = parser();
    let value = vec![b'v'; 1234];
    let msg = cmd(&[b"SET", b"key", &value]);
    let (len, ms) = walk(&parser, &msg).expect("done");
    assert_eq!(len, msg.len());
    assert_eq!(ms[&mids[2]], value);
}

#[test]
fn a_reply_is_captured_besides_the_arguments() {
    let mut parser = Parser::new();
    let arg = parser.capture_arg(0).expect("capture argument");
    let reply = parser.capture_reply().expect("capture reply");
    assert_eq!((arg, reply), (MatchId(0), MatchId(1)));
    assert_eq!(parser.capture_reply(), Ok(reply));
    parser.match_commands();
    parser.match_replies();
    assert_eq!(parser.dfa.num_states(), 478);

    let (_, ms) = walk(&parser, b"+OK\r\n").expect("done");
    assert_eq!(ms[&reply], b"OK");
    assert!(!ms.contains_key(&arg));
    let (_, ms) = walk(&parser, b"*1\r\n$4\r\nPING\r\n").expect("done");
    assert_eq!(ms[&arg], b"PING");
    assert!(!ms.contains_key(&reply));
}

#[test]
fn a_message_that_begins_like_no_command_is_ignored() {
    let (parser, _) = parser();
    assert_eq!(walk(&parser, b"*x\r\n$1\r\na\r\n"), None);
    assert_eq!(walk(&parser, b"!1\r\n"), None);
    assert_eq!(walk(&parser, b"$x\r\n"), None);
}

#[test]
fn attaching_takes_the_tables_and_the_programs() {
    let mut parser = Parser::new();
    parser.capture_arg(0).expect("capture argument");
    let limits = Limits { states: 512, inputs: 257, actions: 64 };
    let attachment = parser
        .parse_fn("parse_resp2", MessageBuffer::Msg)
        .matched_fn("matched_resp2")
        .extract_fn("extract_resp2", MessageBuffer::Skb)
        .attach(limits)
        .expect("attach");

    let mut programs = attachment.programs.clone();
    programs.sort_by_key(|(_, name)| name.clone());
    assert_eq!(
        programs,
        vec![
            (Program::ExtractMatchSkb, "extract_resp2".to_string()),
            (Program::Matched, "matched_resp2".to_string()),
            (Program::ParseMsg, "parse_resp2".to_string()),
        ]
    );
    assert!(attachment.tables.cells.iter().all(|c| c.0 < 512 && c.1 < 257));
}

#[test]
fn a_parser_that_does_not_fit_is_not_attached() {
    let limits = Limits { states: 100, inputs: 257, actions: 64 };
    assert!(matches!(
        Parser::new().attach(limits),
        Err(Error::ParserExceedsStateLimit)
    ));
}

#[test]
fn a_resp2_parser_extracts_from_a_buffer() {
    let limits = Limits { states: 512, inputs: 257, actions: 64 };
    let parser = Parser::new().extract_fn("extract", MessageBuffer::DynPtr);
    let attachment = parser.attach(limits).expect("attach");
    assert_eq!(attachment.programs, [(Program::ExtractMatchBuf, "extract".to_string())]);
}
