use resp_cache::ascii::{eq_ignore_case, push_decimal, read_decimal, to_upper, Numeral};
use resp_cache::command::{
    interpret, read_millis, read_verb, resp_deserialize, DecodeError, Verb, CMD,
};
use resp_cache::frame::{find_line_end, read_bulk, read_frame, Bulk, Frame};

fn bytes(text: &str) -> Vec<u8> {
    text.as_bytes().to_vec()
}

#[test]
fn decimal_numerals_are_read() {
    assert_eq!(read_decimal(b"0"), Numeral::Value(0));
    assert_eq!(read_decimal(b"7"), Numeral::Value(7));
    assert_eq!(read_decimal(b"007"), Numeral::Value(7));
    assert_eq!(read_decimal(b"1234567890"), Numeral::Value(1234567890));
    assert_eq!(
        read_decimal(b"18446744073709551615"),
        Numeral::Value(u64::MAX)
    );
}

#[test]
fn decimal_numerals_beyond_64_bits_are_too_large() {
    assert_eq!(read_decimal(b"18446744073709551616"), Numeral::TooLarge);
    assert_eq!(
        read_decimal(b"99999999999999999999999999"),
        Numeral::TooLarge
    );
}

#[test]
fn what_is_no_numeral_is_invalid() {
    assert_eq!(read_decimal(b""), Numeral::Invalid);
    assert_eq!(read_decimal(b"-1"), Numeral::Invalid);
    assert_eq!(read_decimal(b"+1"), Numeral::Invalid);
    assert_eq!(read_decimal(b"12a"), Numeral::Invalid);
    assert_eq!(read_decimal(b" 1"), Numeral::Invalid);
    assert_eq!(read_decimal(b"99999999999999999999999999x"), Numeral::Invalid);
}

#[test]
fn numbers_are_written_in_their_shortest_form() {
    let mut out = bytes("n=");
    push_decimal(&mut out, 0);
    assert_eq!(out, bytes("n=0"));
    let mut out = Vec::new();
    push_decimal(&mut out, 9);
    push_decimal(&mut out, 10);
    push_decimal(&mut out, 4096);
    assert_eq!(out, bytes("9104096"));
    let mut out = Vec::new();
    push_decimal(&mut out, usize::MAX);
    assert_eq!(out, usize::MAX.to_string().into_bytes());
}

#[test]
fn written_numbers_are_read_back() {
    for n in [0usize, 1, 9, 10, 99, 100, 65535, 1 << 31] {
        let mut out = Vec::new();
        push_decimal(&mut out, n);
        assert_eq!(read_decimal(&out), Numeral::Value(n as u64));
    }
}

#[test]
fn only_letters_are_folded() {
    assert_eq!(to_upper(b'a'), b'A');
    assert_eq!(to_upper(b'z'), b'Z');
    assert_eq!(to_upper(b'A'), b'A');
    assert_eq!(to_upper(b'`'), b'`');
    assert_eq!(to_upper(b'{'), b'{');
    assert_eq!(to_upper(b'5'), b'5');
    assert_eq!(to_upper(0xe9), 0xe9);
}

#[test]
fn words_are_compared_without_case() {
    assert!(eq_ignore_case(b"ping", b"PING"));
    assert!(eq_ignore_case(b"PiNg", b"pInG"));
    assert!(eq_ignore_case(b"", b""));
    assert!(!eq_ignore_case(b"ping", b"pong"));
    assert!(!eq_ignore_case(b"ping", b"pin"));
    assert!(!eq_ignore_case(b"@", b"`"));
}

#[test]
fn line_ends_are_found() {
    assert_eq!(find_line_end(b"*1\r\n$4\r\n", 0), Some(2));
    assert_eq!(find_line_end(b"*1\r\n$4\r\n", 2), Some(2));
    assert_eq!(find_line_end(b"*1\r\n$4\r\n", 3), Some(6));
    assert_eq!(find_line_end(b"*1\r\n$4\r\n", 7), None);
    assert_eq!(find_line_end(b"*1\r\n$4\r\n", 8), None);
    assert_eq!(find_line_end(b"a\rb\nc\r", 0), None);
    assert_eq!(find_line_end(b"", 0), None);
    assert_eq!(find_line_end(b"\r\n", 0), Some(0));
}

#[test]
fn bulk_strings_are_read() {
    match read_bulk(b"$3\r\nfoo\r\nrest", 0) {
        Bulk::Complete(payload, end) => {
            assert_eq!(payload, bytes("foo"));
            assert_eq!(end, 9);
        }
        other => panic!("{:?}", other),
    }
    match read_bulk(b"xx$0\r\n\r\n", 2) {
        Bulk::Complete(payload, end) => {
            assert_eq!(payload, Vec::<u8>::new());
            assert_eq!(end, 8);
        }
        other => panic!("{:?}", other),
    }
}

#[test]
fn a_payload_may_hold_line_terminators() {
    match read_bulk(b"$6\r\na\r\nb\r\n\r\n", 0) {
        Bulk::Complete(payload, end) => {
            assert_eq!(payload, bytes("a\r\nb\r\n"));
            assert_eq!(end, 12);
        }
        other => panic!("{:?}", other),
    }
}

#[test]
fn a_bulk_string_that_stops_short_is_incomplete() {
    for cut in 0..9 {
        let whole = b"$3\r\nfoo\r\n";
        assert!(matches!(read_bulk(&whole[..cut], 0), Bulk::Incomplete));
    }
    assert!(matches!(
        read_bulk(b"$99999999999999999999999\r\nfoo\r\n", 0),
        Bulk::Incomplete
    ));
}

#[test]
fn a_bad_length_line_is_malformed_up_to_its_end() {
    assert!(matches!(read_bulk(b"$-1\r\nfoo\r\n", 0), Bulk::Malformed(5)));
    assert!(matches!(read_bulk(b"$abc\r\nfoo\r\n", 0), Bulk::Malformed(6)));
    assert!(matches!(read_bulk(b"$\r\nfoo\r\n", 0), Bulk::Malformed(3)));
    assert!(matches!(read_bulk(b"3\r\nfoo\r\n", 0), Bulk::Malformed(3)));
    assert!(matches!(read_bulk(b"\r\n", 0), Bulk::Malformed(2)));
    assert!(matches!(read_bulk(b"$ 3\r\nfoo\r\n", 0), Bulk::Malformed(5)));
}

#[test]
fn a_payload_without_terminator_is_malformed_up_to_its_end() {
    assert!(matches!(read_bulk(b"$2\r\nPING\r\n", 0), Bulk::Malformed(6)));
    assert!(matches!(read_bulk(b"$4\r\nPINGxx", 0), Bulk::Malformed(8)));
    assert!(matches!(read_bulk(b"$4\r\nPING\n\r", 0), Bulk::Malformed(8)));
}

#[test]
fn frames_are_read() {
    match read_frame(b"*2\r\n$3\r\nGET\r\n$3\r\nfoo\r\n*1\r\n") {
        Frame::Complete(args, end) => {
            assert_eq!(args, vec![bytes("GET"), bytes("foo")]);
            assert_eq!(end, 22);
        }
        other => panic!("{:?}", other),
    }
}

#[test]
fn a_frame_needs_a_positive_count() {
    assert!(matches!(read_frame(b"*0\r\n"), Frame::Malformed(4)));
    assert!(matches!(read_frame(b"*00\r\n"), Frame::Malformed(5)));
    assert!(matches!(read_frame(b"*-1\r\n"), Frame::Malformed(5)));
    assert!(matches!(read_frame(b"*x\r\n"), Frame::Malformed(4)));
    assert!(matches!(read_frame(b"*\r\n"), Frame::Malformed(3)));
    assert!(matches!(read_frame(b"PING\r\n"), Frame::Malformed(6)));
    assert!(matches!(read_frame(b"\r\n"), Frame::Malformed(2)));
    assert!(matches!(
        read_frame(b"$4\r\nPING\r\n"),
        Frame::Malformed(4)
    ));
}

#[test]
fn a_frame_with_fewer_bulk_strings_than_counted_is_incomplete() {
    assert!(matches!(read_frame(b""), Frame::Incomplete));
    assert!(matches!(read_frame(b"*"), Frame::Incomplete));
    assert!(matches!(read_frame(b"*2\r"), Frame::Incomplete));
    assert!(matches!(read_frame(b"*2\r\n$3\r\nGET\r\n"), Frame::Incomplete));
    assert!(matches!(
        read_frame(b"*99999999999999999999999999\r\n$3\r\nGET\r\n"),
        Frame::Incomplete
    ));
    assert!(matches!(
        read_frame(b"*18446744073709551615\r\n$3\r\nGET\r\n"),
        Frame::Incomplete
    ));
}

#[test]
fn a_defect_inside_a_frame_is_reported_where_it_ends() {
    assert!(matches!(
        read_frame(b"*2\r\n$3\r\nGET\r\n$x\r\nfoo\r\n"),
        Frame::Malformed(17)
    ));
    assert!(matches!(
        read_frame(b"*99999999999999999999999999\r\n$3\r\nGET\r\nfoo\r\n"),
        Frame::Malformed(43)
    ));
}

#[test]
fn verbs_are_named_in_any_case() {
    assert_eq!(read_verb(b"PING"), Some(Verb::PING));
    assert_eq!(read_verb(b"ping"), Some(Verb::PING));
    assert_eq!(read_verb(b"Echo"), Some(Verb::ECHO));
    assert_eq!(read_verb(b"sEt"), Some(Verb::SET));
    assert_eq!(read_verb(b"get"), Some(Verb::GET));
    assert_eq!(read_verb(b"DEL"), None);
    assert_eq!(read_verb(b""), None);
    assert_eq!(read_verb(b"GETS"), None);
}

#[test]
fn milliseconds_are_read() {
    assert_eq!(read_millis(b"50"), Some(50));
    assert_eq!(read_millis(b"0"), Some(0));
    assert_eq!(read_millis(b"+50"), Some(50));
    assert_eq!(read_millis(b"18446744073709551615"), Some(u64::MAX));
    assert_eq!(read_millis(b"18446744073709551616"), None);
    assert_eq!(read_millis(b""), None);
    assert_eq!(read_millis(b"+"), None);
    assert_eq!(read_millis(b"++5"), None);
    assert_eq!(read_millis(b"-5"), None);
    assert_eq!(read_millis(b"5ms"), None);
    assert_eq!(read_millis(b"1.5"), None);
}

#[test]
fn arguments_spell_commands() {
    assert_eq!(interpret(vec![bytes("PING")]), Ok(CMD::PING));
    assert_eq!(
        interpret(vec![bytes("echo"), bytes("hi")]),
        Ok(CMD::ECHO(bytes("hi")))
    );
    assert_eq!(
        interpret(vec![bytes("GET"), bytes("k")]),
        Ok(CMD::GET(bytes("k")))
    );
    assert_eq!(
        interpret(vec![bytes("SET"), bytes("k"), bytes("v")]),
        Ok(CMD::SET(bytes("k"), bytes("v"), None))
    );
    assert_eq!(
        interpret(vec![
            bytes("set"),
            bytes("k"),
            bytes("v"),
            bytes("px"),
            bytes("100")
        ]),
        Ok(CMD::SET(bytes("k"), bytes("v"), Some(100)))
    );
}

#[test]
fn a_wrong_number_of_arguments_is_an_unknown_command() {
    assert_eq!(interpret(vec![]), Err(DecodeError::UnknownCommand));
    assert_eq!(
        interpret(vec![bytes("PING"), bytes("x")]),
        Err(DecodeError::UnknownCommand)
    );
    assert_eq!(
        interpret(vec![bytes("ECHO")]),
        Err(DecodeError::UnknownCommand)
    );
    assert_eq!(
        interpret(vec![bytes("GET")]),
        Err(DecodeError::UnknownCommand)
    );
    assert_eq!(
        interpret(vec![bytes("SET"), bytes("k")]),
        Err(DecodeError::UnknownCommand)
    );
    assert_eq!(
        interpret(vec![bytes("SET"), bytes("k"), bytes("v"), bytes("PX")]),
        Err(DecodeError::UnknownCommand)
    );
    assert_eq!(
        interpret(vec![bytes("DEL"), bytes("k")]),
        Err(DecodeError::UnknownCommand)
    );
}

#[test]
fn a_bad_option_of_set_is_an_invalid_argument() {
    assert_eq!(
        interpret(vec![
            bytes("SET"),
            bytes("k"),
            bytes("v"),
            bytes("PX"),
            bytes("soon")
        ]),
        Err(DecodeError::InvalidArgument)
    );
    assert_eq!(
        interpret(vec![
            bytes("SET"),
            bytes("k"),
            bytes("v"),
            bytes("EX"),
            bytes("10")
        ]),
        Err(DecodeError::InvalidArgument)
    );
    assert_eq!(
        interpret(vec![
            bytes("SET"),
            bytes("k"),
            bytes("v"),
            bytes("PX"),
            bytes("18446744073709551616")
        ]),
        Err(DecodeError::InvalidArgument)
    );
}

#[test]
fn decoding_gives_the_command_and_the_bytes_it_took() {
    assert_eq!(
        resp_deserialize(b"*1\r\n$4\r\nPING\r\n"),
        (Ok(CMD::PING), 14)
    );
    assert_eq!(
        resp_deserialize(b"*2\r\n$4\r\nECHO\r\n$5\r\nhello\r\n"),
        (Ok(CMD::ECHO(bytes("hello"))), 25)
    );
    assert_eq!(
        resp_deserialize(b"*3\r\n$3\r\nSET\r\n$3\r\nfoo\r\n$3\r\nbar\r\n*2\r\n"),
        (Ok(CMD::SET(bytes("foo"), bytes("bar"), None)), 31)
    );
    assert_eq!(
        resp_deserialize(b"*5\r\n$3\r\nSET\r\n$1\r\nk\r\n$1\r\nv\r\n$2\r\nPX\r\n$2\r\n50\r\n"),
        (Ok(CMD::SET(bytes("k"), bytes("v"), Some(50))), 43)
    );
    assert_eq!(
        resp_deserialize(b"*2\r\n$3\r\nGET\r\n$3\r\nfoo\r\n"),
        (Ok(CMD::GET(bytes("foo"))), 22)
    );
}

#[test]
fn decoding_takes_nothing_from_a_frame_that_stops_short() {
    let whole = b"*3\r\n$3\r\nSET\r\n$3\r\nfoo\r\n$3\r\nbar\r\n";
    for cut in 0..whole.len() {
        assert_eq!(
            resp_deserialize(&whole[..cut]),
            (Err(DecodeError::Incomplete), 0)
        );
    }
    assert_eq!(
        resp_deserialize(whole),
        (Ok(CMD::SET(bytes("foo"), bytes("bar"), None)), whole.len())
    );
}

#[test]
fn decoding_reports_each_failure_with_what_it_spent() {
    assert_eq!(
        resp_deserialize(b"*1\r\n$-4\r\nPING\r\n"),
        (Err(DecodeError::Malformed), 9)
    );
    assert_eq!(
        resp_deserialize(b"*1\r\n$4\r\nQUIT\r\n"),
        (Err(DecodeError::UnknownCommand), 14)
    );
    assert_eq!(
        resp_deserialize(b"*5\r\n$3\r\nSET\r\n$1\r\nk\r\n$1\r\nv\r\n$2\r\nPX\r\n$2\r\nxx\r\n"),
        (Err(DecodeError::InvalidArgument), 43)
    );
}

#[test]
fn what_is_decoded_does_not_change_when_more_bytes_follow() {
    let inputs: [&[u8]; 5] = [
        b"*1\r\n$4\r\nPING\r\n",
        b"*1\r\n$-4\r\n",
        b"*1\r\n$4\r\nQUIT\r\n",
        b"*1\r\n$2\r\nPING",
        b"hello\r\n",
    ];
    for input in inputs {
        let alone = resp_deserialize(input);
        assert_ne!(alone.0, Err(DecodeError::Incomplete));
        let mut longer = input.to_vec();
        longer.extend_from_slice(b"*1\r\n$4\r\nPING\r\n");
        assert_eq!(resp_deserialize(&longer), alone);
    }
}

#[test]
fn an_offset_behind_the_buffer_finds_nothing() {
    assert_eq!(find_line_end(b"ab\r\n", 5), None);
    assert_eq!(find_line_end(b"ab\r\n", usize::MAX), None);
    assert!(matches!(read_bulk(b"$1\r\na\r\n", 8), Bulk::Incomplete));
    assert!(matches!(read_bulk(b"$1\r\na\r\n", usize::MAX), Bulk::Incomplete));
}
