use beeper::dfa::model::{ANY_STATE, INIT_STATE};
use beeper::dfa::parser::MAX_MATCHES;
use beeper::dfa::plan::Program;
use beeper::dfa::table::{Limits, TableError};
use beeper::h2::action::{Action, Kind, F_HUFF, S_NAME, S_RESERVED};
use beeper::h2::conn::{DynamicTableInfo, Ip4Addr, ReadError, DYNAMIC_TABLE_BASE};
use beeper::h2::static_table::{create_header_maps, static_entries};
use beeper::h2::Parser;
use beeper::monitor::http2_parser;
use beeper::pseudo_header::{METHOD, PATH, STATUS};
use beeper::{Error, MatchId, MessageBuffer, StateId};
use http::HeaderName;
use std::collections::HashMap;

fn hdr(i: u8) -> HeaderName {
    HeaderName::from_bytes(format!("x-{i}").as_bytes()).unwrap()
}

#[test]
fn h2_a_parser_captures_at_most_max_matches_ranges() {
    let mut parser = Parser::new();
    for i in 0..MAX_MATCHES {
        let mid = parser
            .capture_hdr(hdr(i).as_str().as_bytes())
            .expect("capture header");
        assert_eq!(u8::from(mid), i);
    }

    assert_eq!(
        parser.capture_hdr(hdr(MAX_MATCHES).as_str().as_bytes()),
        Err(Error::MatchLimitExceeded(MAX_MATCHES as usize))
    );
}

#[test]
fn h2_the_same_header_is_captured_under_one_match_id() {
    // a pseudo-header is matched under the colon spelled name
    let hdr = hdr(0);
    let names: [&[u8]; 4] = [
        hdr.as_str().as_bytes(),
        METHOD.as_bytes(),
        PATH.as_bytes(),
        STATUS.as_bytes(),
    ];
    for name in names {
        let mut parser = Parser::new();
        let first = parser.capture_hdr(name).expect("capture header");
        let second = parser.capture_hdr(name).expect("capture header again");

        assert_eq!(
            first,
            second,
            "capturing {} twice handed out two ids for one range",
            String::from_utf8_lossy(name)
        );
    }
}

/// The action the last byte of `code` is read with, if the names of the parser
/// are matched by it.
fn matched(parser: &Parser, code: &[u8]) -> Option<Action> {
    let trans: HashMap<(StateId, u16), (StateId, Option<Action>)> = parser
        .dfa
        .iter_transitions()
        .into_iter()
        .map(|(from, input, to, action)| ((from, input), (to, action)))
        .collect();
    let mut state = S_NAME;
    let mut last = None;
    for b in code {
        let (to, action) = trans.get(&(state, *b as u16))?;
        state = *to;
        last = *action;
    }
    last
}

#[test]
fn a_name_is_matched_by_its_huffman_code() {
    let mut parser = Parser::new();
    let key = parser.capture_hdr(b"custom-key").expect("capture header");
    let cache = parser.capture_hdr(b"no-cache").expect("capture header");
    assert_eq!((key, cache), (MatchId(0), MatchId(1)));

    // the codes are those appendix C of RFC 7541 spells out
    let code = [0x25, 0xa8, 0x49, 0xe9, 0x5b, 0xa9, 0x7d, 0x7f];
    assert_eq!(matched(&parser, &code), Some(Action::capture(key)));
    assert_eq!(matched(&parser, &code[..7]), None);
    let code = [0xa8, 0xeb, 0x10, 0x64, 0x9c, 0xbf];
    assert_eq!(matched(&parser, &code), Some(Action::capture(cache)));
    assert_eq!(matched(&parser, b"no-cache"), None);
}

#[test]
fn a_name_is_captured_if_there_is_room_for_it() {
    let mut parser = Parser::new();
    assert_eq!(parser.try_capture_hdr(b"accept"), Some(Ok(MatchId(0))));
    assert_eq!(parser.try_capture_hdr(b"accept"), Some(Ok(MatchId(0))));
    let long = vec![b'\n'; 0x10000];
    assert_eq!(parser.try_capture_hdr(&long), None);
    assert_eq!(parser.try_capture_hdr(b"via"), Some(Ok(MatchId(1))));
}

#[test]
fn no_two_names_share_a_code() {
    // every byte on its own, as many at a time as a parser captures
    for group in 0..8u8 {
        let mut parser = Parser::new();
        for i in 0..32u8 {
            let states = parser.dfa.num_states();
            let name = [32 * group + i];
            assert_eq!(parser.try_capture_hdr(&name), Some(Ok(MatchId(i))));
            let taken = parser.dfa.num_states() - states;
            assert!(taken <= 4, "{name:?} takes {taken} states");
        }
    }

    // names that begin alike, or whose codes end in the ones a byte is filled
    // up with
    let names: [&[u8]; 10] =
        [b"a", b"aa", b"aaa", b"aaaa", b"aaaaaaaa", b"X", b"Xa", b"z", &[0xff], &[0xff, 0xff]];
    let mut parser = Parser::new();
    for (i, name) in names.iter().enumerate() {
        assert_eq!(parser.try_capture_hdr(name), Some(Ok(MatchId(i as u8))));
    }
    for (i, name) in names.iter().enumerate() {
        assert_eq!(parser.capture_hdr(name), Ok(MatchId(i as u8)));
    }
}

#[test]
fn a_code_is_captured_as_it_is_given() {
    let mut parser = Parser::new();
    assert_eq!(parser.capture_code(b"name", &[1, 2, 3]), Ok(MatchId(0)));
    assert_eq!(matched(&parser, &[1, 2, 3]), Some(Action::capture(MatchId(0))));
    assert_eq!(matched(&parser, &[1, 2]), None);
}

#[test]
fn actions_are_encoded_as_the_parser_program_reads_them() {
    let action = Action::new(Kind::ValLen, 5, F_HUFF);
    assert_eq!(action.encode(), (5, 5, 1));
    assert_eq!(Action::capture(MatchId(7)).encode(), (7, 9, 0));
    assert_eq!(Kind::Indexed.code(), 1);
    assert_eq!(Kind::Malformed.code(), 10);
}

#[test]
fn a_new_parser_reserves_the_states_of_the_representations() {
    let parser = Parser::new();
    assert_eq!(parser.dfa.num_states(), S_RESERVED);
    assert!(INIT_STATE < S_RESERVED && ANY_STATE < S_RESERVED);
}

#[test]
fn the_static_table_is_split_by_whether_an_entry_has_a_value() {
    let (names, values) = create_header_maps();
    let names: HashMap<&str, usize> = names.into_iter().collect();
    assert_eq!(names["authority"], 1);
    assert_eq!(names["accept"], 19);
    assert_eq!(names["www-authenticate"], 61);
    assert!(!names.contains_key("method"));

    let values: HashMap<&str, HashMap<&str, usize>> = values
        .into_iter()
        .map(|(name, values)| (name, values.into_iter().collect()))
        .collect();
    assert_eq!(values["method"]["GET"], 2);
    assert_eq!(values["method"]["POST"], 3);
    assert_eq!(values["status"]["206"], 10);
    assert_eq!(values["status"]["500"], 14);
    assert_eq!(values["accept-encoding"]["gzip, deflate"], 16);
    let count: usize = values.values().map(|values| values.len()).sum();
    assert_eq!(names.len() + count, 61);
    assert_eq!((names.len(), values.len()), (47, 5));
    assert!(values.keys().all(|name| !names.contains_key(name)));
    assert!(values.values().all(|values| !values.is_empty()));
}

#[test]
fn the_static_table_is_filled_with_huffman_codes() {
    let entries = static_entries().expect("encode");
    assert_eq!(entries.len(), 61);
    let code = |s: &[u8]| {
        let mut code = Vec::new();
        httlib_huffman::encode(s, &mut code).expect("encode");
        code
    };

    let (index, get) = &entries[1];
    assert_eq!(*index, 2);
    let key = code(b"method");
    let val = code(b"GET");
    assert_eq!(get.key_len as usize, key.len());
    assert_eq!(get.key[..key.len()], key);
    assert!(get.key[key.len()..].iter().all(|b| *b == 0));
    assert_eq!(get.key.len(), 128);
    assert_eq!(get.val_len as usize, val.len());
    assert_eq!(get.val[..val.len()], val);
    assert_eq!((get.key_huff, get.val_huff), (1, 1));

    let (index, authority) = &entries[0];
    assert_eq!((*index, authority.val_len), (1, 0));
    assert!(entries.iter().all(|(_, e)| e.key_len as usize <= 128 && e.val_len as usize <= 128));
}

#[test]
fn a_name_without_a_code_is_not_captured() {
    // where names begin something else is done already
    let mut parser = Parser::new();
    assert_eq!(parser.try_capture_hdr(b""), None);
    assert_eq!(parser.num_matches, 0);
    assert_eq!(parser.try_capture_hdr(b"a"), Some(Ok(MatchId(0))));
}

#[test]
fn the_http2_parser_of_a_monitor_walks_every_representation() {
    let parser = http2_parser();
    assert_eq!(parser.dfa.num_edges(), Parser::new().dfa.num_edges());
    assert_eq!(parser.dfa.num_states(), S_RESERVED);
    assert_eq!(parser.num_matches, 0);
    assert!(parser.get_dynamic_table_entry_fn.is_none());
}

#[test]
fn a_connection_is_keyed_as_the_machine_reads_its_octets() {
    let addr = Ip4Addr::new([127, 0, 0, 1], 8080);
    assert_eq!(addr.ip4, u32::from_ne_bytes([127, 0, 0, 1]));
    assert_eq!(addr.port, 8080);
}

#[test]
fn the_words_of_a_table_come_in_the_order_of_its_fields() {
    let info = DynamicTableInfo::from_words([1, 0x0203_0405, 4096, 7, 2]);
    assert_eq!(
        info,
        DynamicTableInfo { count: 1, size: 0x0203_0405, max_size: 4096, deleted: 7, dirty: 2 }
    );
}

/// Reads `bytes` at four addresses next to each other.
fn read_at_every_alignment(bytes: &[u8]) -> Vec<Result<DynamicTableInfo, ReadError>> {
    let mut buf = vec![0; bytes.len() + 4];
    (0..4)
        .map(|at| {
            let slice = &mut buf[at..at + bytes.len()];
            slice.copy_from_slice(bytes);
            DynamicTableInfo::from_bytes(slice)
        })
        .collect()
}

#[test]
fn a_table_is_read_out_of_the_bytes_of_its_words() {
    let words = [1u32, 0x0203_0405, 4096, 7, 0x0102_0304];
    let mut bytes: Vec<u8> = words.iter().flat_map(|word| word.to_ne_bytes()).collect();
    let info = DynamicTableInfo::from_words(words);
    // one of the addresses is that of a word
    let read = read_at_every_alignment(&bytes);
    assert_eq!(read.iter().filter(|r| **r == Ok(info)).count(), 1);
    assert_eq!(read.iter().filter(|r| **r == Err(ReadError::BadAlignment)).count(), 3);

    // what follows is not looked at
    bytes.extend([0xff; 3]);
    assert!(read_at_every_alignment(&bytes).contains(&Ok(info)));
}

#[test]
fn a_table_is_not_read_out_of_too_few_bytes() {
    for len in [0, 4, 16, 19] {
        let read = read_at_every_alignment(&vec![1; len]);
        assert!(read.contains(&Err(ReadError::TooShort)));
        assert!(read.iter().all(Result::is_err));
    }
    assert_eq!(
        ReadError::TooShort.to_string(),
        "failed to parse dynamic table info: TooShort"
    );
    assert_eq!(
        ReadError::BadAlignment.to_string(),
        "failed to parse dynamic table info: BadAlignment"
    );
}

#[test]
fn the_entries_of_a_table_are_stored_behind_the_evicted_ones() {
    let info = DynamicTableInfo { count: 3, deleted: 2, ..Default::default() };
    let base = DYNAMIC_TABLE_BASE;
    assert_eq!(info.entry_indices(), [base + 2, base + 3, base + 4]);
    assert!(DynamicTableInfo::default().entry_indices().is_empty());
    assert_eq!(base, 62);
}

#[test]
fn attaching_an_http2_parser_replaces_the_configured_functions() {
    let limits = Limits { states: 512, inputs: 256, actions: 1024 };
    let attachment = Parser::new()
        .parse_fn("parse_h2", MessageBuffer::DynPtr)
        .matched_fn("matched_h2")
        .extract_fn("extract_h2", MessageBuffer::Skb)
        .get_dynamic_table_entry("get_entry")
        .attach(limits)
        .expect("attach");
    let mut programs = attachment.programs.clone();
    programs.sort_by_key(|(_, name)| name.clone());
    assert_eq!(
        programs,
        vec![
            (Program::ExtractMatchSkb, "extract_h2".to_string()),
            (Program::GetDtEntry, "get_entry".to_string()),
            (Program::Matched, "matched_h2".to_string()),
            (Program::ParseBuf, "parse_h2".to_string()),
        ]
    );
    assert_eq!(attachment.tables.cells.len(), Parser::new().dfa.num_edges());
}

#[test]
fn an_http2_parser_that_does_not_fit_is_not_attached() {
    let limits = Limits { states: 10, inputs: 256, actions: 1024 };
    let err = Parser::new().attach(limits).err().expect("refused");
    assert_eq!(err, TableError::States { needed: 15, held: 10 });
    assert_eq!(
        err.to_string(),
        "the patterns take 15 states, the parser holds 10"
    );
}

#[test]
fn an_http2_parser_extracts_from_a_buffer() {
    let limits = Limits { states: 512, inputs: 256, actions: 1024 };
    let parser = Parser::new().extract_fn("extract", MessageBuffer::DynPtr);
    let attachment = parser.attach(limits).expect("attach");
    assert_eq!(attachment.programs, [(Program::ExtractMatchBuf, "extract".to_string())]);
}
