use beeper::bench::{args, outcome, BenchError, BUF_LEN};
use beeper::greeting::greet;
use beeper::h2::conn::{Ip4Addr, Ip4Conn};
use beeper::http1::action::Action;
use beeper::probe::{stored_range, BufArgs, Direction, DoesNotFit, Hook, Options};
use beeper::pseudo_header::{AUTHORITY, METHOD, PATH, SCHEME, STATUS};
use beeper::server::{after_attempt, echo, redis_args, Step, BAD_REQUEST};
use beeper::{Error, MatchId, MessageBuffer, PseudoHeaderName};
use httlib_huffman::EncoderError;

#[test]
fn errors_say_what_went_wrong() {
    assert_eq!(
        Error::MatchLimitExceeded(32).to_string(),
        "a parser captures at most 32 ranges"
    );
    assert_eq!(
        Error::ArgLimitExceeded(8).to_string(),
        "a command has at most 8 arguments"
    );
    assert_eq!(
        Error::ParserExceedsStateLimit.to_string(),
        "the patterns do not fit into the parser program"
    );
    let err = Error::from(EncoderError::InvalidInput);
    assert_eq!(
        err.to_string(),
        "the header name cannot be Huffman encoded: Invalid input character."
    );
    assert_eq!(err, Error::InvalidEncoding(EncoderError::InvalidInput));
}

#[test]
fn pseudo_headers_are_spelled_the_way_http2_spells_them() {
    let names: [(PseudoHeaderName, &str); 5] = [
        (METHOD, ":method"),
        (PATH, ":path"),
        (STATUS, ":status"),
        (AUTHORITY, ":authority"),
        (SCHEME, ":scheme"),
    ];
    for (name, spelling) in names {
        assert_eq!(name.as_str(), spelling);
        assert_eq!(name.as_bytes(), spelling.as_bytes());
        let by_ref: &str = name.as_ref();
        assert_eq!(by_ref, spelling);
    }
}

#[test]
fn a_match_id_is_a_number() {
    assert_eq!(u8::from(MatchId(5)), 5);
}

#[test]
fn http1_actions_are_encoded_as_the_parser_program_reads_them() {
    assert_eq!(Action::Done.encode(), (0, 1, 0));
    assert_eq!(Action::StartCapture(MatchId(3)).encode(), (1, 0, 3));
    assert_eq!(Action::EndCapture(MatchId(3)).encode(), (2, 0, 3));
    assert_eq!(Action::EndCaptureAndDone(MatchId(3)).encode(), (2, 1, 3));
}

#[test]
fn a_benchmark_is_handed_its_buffer_padded() {
    let args = args(b"GET", 7).expect("args");
    assert_eq!((args.n, args.len), (7, 3));
    assert_eq!(args.buf.len(), BUF_LEN);
    assert_eq!(&args.buf[..5], b"GET\0\0");
}

#[test]
fn a_benchmark_that_cannot_be_run_is_refused() {
    let err = args(&[0; BUF_LEN + 1], 1).err().expect("refused");
    assert_eq!(err, BenchError::TooLong(1025));
    assert_eq!(
        err.to_string(),
        "a benchmark parses at most 1024 bytes, this one was given 1025"
    );
    let err = args(b"GET", 0).err().expect("refused");
    assert_eq!(err, BenchError::NoPass);
    assert_eq!(err.to_string(), "a benchmark has to parse at least once");
    assert!(args(&[0; BUF_LEN], 1).is_ok());
}

#[test]
fn a_benchmark_that_returns_a_negative_number_did_not_parse() {
    assert_eq!(outcome(0), Ok(()));
    assert_eq!(outcome(i32::MAX as u32), Ok(()));
    let err = outcome(-22i32 as u32).expect_err("refused");
    assert_eq!(err, BenchError::NotParsed(-22));
    assert_eq!(
        err.to_string(),
        "the benchmark program did not parse its buffer: -22"
    );
    assert_eq!(outcome(i32::MIN as u32), Err(BenchError::NotParsed(i32::MIN)));
    assert_eq!(
        BenchError::NotParsed(i32::MIN).to_string(),
        "the benchmark program did not parse its buffer: -2147483648"
    );
}

#[test]
fn a_client_is_greeted_in_its_language() {
    assert_eq!(greet(None), "Hello World");
    assert_eq!(greet(Some("")), "Hello World");
    assert_eq!(greet(Some("de")), "Hallo Welt");
    assert_eq!(greet(Some("de-CH, fr")), "Hallo Welt");
    assert_eq!(greet(Some(" \t\u{3000}fr;q=0.5,de")), "Bonjour le monde");
    assert_eq!(greet(Some("en, de")), "Hello World");
    assert_eq!(greet(Some("d")), "Hello World");
    assert_eq!(greet(Some("d,e")), "Hello World");
    assert_eq!(greet(Some(",de")), "Hello World");
    assert_eq!(greet(Some("DE")), "Hello World");
}

#[test]
fn hooks_hand_over_different_buffers() {
    assert_eq!(MessageBuffer::from(Hook::Msg), MessageBuffer::Msg);
    assert_eq!(MessageBuffer::from(Hook::Skb), MessageBuffer::Skb);
    assert_eq!(MessageBuffer::from(Hook::Buf), MessageBuffer::DynPtr);
    let names = [Hook::Msg, Hook::Skb, Hook::Buf].map(|hook| hook.to_string());
    assert_eq!(names, ["msg", "skb", "buf"]);
}

#[test]
fn a_program_is_told_what_to_parse_and_where() {
    assert_eq!(
        Options::new(Direction::Upstream, Hook::Msg),
        Options { parse_resp: true, hook_skb: false }
    );
    assert_eq!(
        Options::new(Direction::Downstream, Hook::Skb),
        Options { parse_resp: false, hook_skb: true }
    );
}

#[test]
fn a_stored_range_ends_before_the_first_zero() {
    assert_eq!(stored_range(b"beeper\0\0x"), b"beeper");
    assert_eq!(stored_range(b"beeper"), b"beeper");
    assert_eq!(stored_range(b"\0beeper"), b"");
}

#[test]
fn a_buffer_is_handed_over_if_it_fits() {
    let args = BufArgs::new(b"GET", 4, None).expect("fits");
    assert_eq!((args.len, args.data.as_slice()), (3, b"GET\0".as_slice()));
    assert_eq!(args.conn, None);

    let conn = Ip4Conn {
        local: Ip4Addr::new([127, 0, 0, 1], 80),
        remote: Ip4Addr::new([10, 0, 0, 1], 81),
    };
    let args = BufArgs::new(b"GET", 3, Some(conn)).expect("fits");
    assert_eq!(args.conn, Some(conn));

    let err = BufArgs::new(b"GET", 2, None).err().expect("refused");
    assert_eq!(err, DoesNotFit);
    assert_eq!(err.to_string(), "buffer does not fit");
}

#[test]
fn a_body_is_echoed_if_it_is_text() {
    assert_eq!(echo(Vec::new()), Ok(String::new()));
    assert_eq!(echo(b"hello".to_vec()), Ok("hello".to_owned()));
    assert_eq!(echo(vec![0xc3, 0xa9, 0xf0, 0x9f, 0x90, 0x9d]), Ok("\u{e9}\u{1f41d}".to_owned()));
    assert_eq!(BAD_REQUEST, 400);
    // a byte that begins nothing, a character that breaks off, an overlong one
    // and a surrogate
    let bodies: [&[u8]; 4] = [&[0xff], &[b'a', 0xc3], &[0xc0, 0x80], &[0xed, 0xa0, 0x80]];
    for body in bodies {
        assert_eq!(echo(body.to_vec()), Err(BAD_REQUEST));
    }
}

#[test]
fn a_server_is_waited_for_fifty_times() {
    assert_eq!(after_attempt(0, true), Step::Ready);
    assert_eq!(after_attempt(49, true), Step::Ready);
    let mut attempt = 0;
    let mut count = 1;
    while let Step::Retry(next) = after_attempt(attempt, false) {
        assert_eq!(next, attempt + 1);
        attempt = next;
        count += 1;
    }
    assert_eq!(count, 50);
    assert_eq!(after_attempt(attempt, false), Step::GiveUp);
}

#[test]
fn a_redis_server_is_launched_without_persistence() {
    assert_eq!(
        redis_args(6379),
        ["--bind", "127.0.0.1", "--port", "6379", "--save", "", "--appendonly", "no"]
    );
}
