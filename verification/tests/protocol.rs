use pubsub_broker::commands::ClientCommand;
use pubsub_broker::json::{lookup, JsonKind};
use pubsub_broker::parser::{
    connect_opts, connect_opts_from, parse_uint, split_arg, ClientConnectOpts, ClientRequest,
    ParseError, ParserState,
};
use pubsub_broker::text::{decimal, decode_utf8_text, string_from_chars};

fn letters(s: &str) -> Vec<char> {
    s.chars().collect()
}

fn parse(input: &[u8]) -> (Result<ClientCommand, ParseError>, usize) {
    ClientRequest::new().parse(input)
}

fn sub(subject: &str, id: &str) -> ClientCommand {
    ClientCommand::Sub { subject: subject.to_string(), id: id.to_string() }
}

fn publication(subject: &str, msg: &str) -> ClientCommand {
    ClientCommand::Pub { subject: subject.to_string(), msg: msg.to_string() }
}

#[test]
fn every_command_ends_with_its_last_byte() {
    assert_eq!((Ok(ClientCommand::Ping), 5), parse(b"PING\r\n"));
    assert_eq!((Ok(ClientCommand::Pong), 5), parse(b"PONG\r\n"));
    assert_eq!((Ok(sub("foo", "1")), 10), parse(b"SUB foo 1\r\n"));
    assert_eq!((Ok(ClientCommand::Unsub { id: "1".to_string() }), 8), parse(b"UNSUB 1\r\n"));
    assert_eq!(
        (Ok(ClientCommand::Connect(ClientConnectOpts { verbose: false })), 11),
        parse(b"CONNECT {}\r\n")
    );
}

#[test]
fn a_publication_ends_with_the_carriage_return_after_the_payload() {
    assert_eq!((Ok(publication("foo", "hello")), 16), parse(b"PUB foo 5\r\nhello\r\n"));
    assert_eq!((Ok(publication("foo", "hello")), 16), parse(b"PUB foo 5\r\nhello\r"));
    assert_eq!((Ok(ClientCommand::Noop), 0), parse(b"\n"));
}

#[test]
fn line_feed_alone_ends_a_line() {
    assert_eq!((Ok(ClientCommand::Ping), 4), parse(b"PING\n"));
    assert_eq!((Ok(sub("a", "b")), 7), parse(b"SUB a b\n"));
    assert_eq!((Ok(publication("a", "xy")), 10), parse(b"PUB a 2\nxy\r"));
}

#[test]
fn keywords_in_any_case() {
    assert_eq!(Ok(ClientCommand::Ping), parse(b"ping\r\n").0);
    assert_eq!(Ok(ClientCommand::Ping), parse(b"pInG\r\n").0);
    assert_eq!(Ok(ClientCommand::Pong), parse(b"PoNg\r\n").0);
    assert_eq!(Ok(sub("Foo", "Id")), parse(b"sUb Foo Id\r\n").0);
    assert_eq!(Ok(ClientCommand::Unsub { id: "X".to_string() }), parse(b"unSUB X\r\n").0);
    assert_eq!(Ok(publication("s", "m")), parse(b"pub s 1\r\nm\r\n").0);
    assert_eq!(
        Ok(ClientCommand::Connect(ClientConnectOpts { verbose: true })),
        parse(b"connect {\"verbose\":true}\r\n").0
    );
}

#[test]
fn letters_next_to_the_keyword_letters_are_refused() {
    assert_eq!((Err(ParseError::InvalidInput), 0), parse(b"Q"));
    assert_eq!((Err(ParseError::InvalidInput), 0), parse(b"#ING\r\n"));
    assert_eq!((Err(ParseError::InvalidInput), 1), parse(b"P)NG\r\n"));
    assert_eq!((Err(ParseError::InvalidInput), 3), parse(b"PIN'\r\n"));
    assert_eq!((Err(ParseError::InvalidInput), 0), parse(&[b'P' + 64, b'I']));
}

#[test]
fn blanks_between_arguments_may_be_many_and_mixed() {
    assert_eq!(Ok(sub("foo", "1")), parse(b"SUB  \t foo \t\t 1\r\n").0);
    assert_eq!(Ok(sub("foo", "1")), parse(b"SUB foo 1 \t\r\n").0);
    assert_eq!(Ok(ClientCommand::Unsub { id: "9".to_string() }), parse(b"UNSUB \t 9\r\n").0);
    assert_eq!(Ok(publication("foo", "ab")), parse(b"PUB\t\tfoo\t 2\r\nab\r").0);
}

#[test]
fn wrong_number_of_arguments() {
    assert_eq!(Err(ParseError::InvalidInput), parse(b"SUB a b c\r\n").0);
    assert_eq!(Err(ParseError::InvalidInput), parse(b"SUB \r\n").0);
    assert_eq!(Err(ParseError::InvalidInput), parse(b"UNSUB a b\r\n").0);
    assert_eq!(Err(ParseError::InvalidInput), parse(b"UNSUB \r\n").0);
    assert_eq!(Err(ParseError::InvalidInput), parse(b"PUB a 1 2\r\n").0);
    assert_eq!((Err(ParseError::InvalidInput), 6), parse(b"PUB a\r\n"));
}

#[test]
fn payload_size_must_be_a_number_that_fits() {
    assert_eq!(Err(ParseError::InvalidInput), parse(b"PUB a +1\r\nx\r\n").0);
    assert_eq!(Err(ParseError::InvalidInput), parse(b"PUB a 1x\r\nx\r\n").0);
    assert_eq!(Err(ParseError::InvalidInput), parse(b"PUB a 4294967296\r\nx\r\n").0);
    assert_eq!(Ok(publication("a", "x")), parse(b"PUB a 0001\r\nx\r\n").0);
}

#[test]
fn payload_must_have_the_size_given() {
    assert_eq!((Err(ParseError::InvalidInput), 15), parse(b"PUB subj 3\r\ntoolong\r\n"));
    assert_eq!((Err(ParseError::InvalidInput), 17), parse(b"PUB subj 30\r\nyeah\r\n"));
    assert_eq!((Err(ParseError::InvalidInput), 12), parse(b"PUB subj 0\r\nx\r\n"));
}

#[test]
fn payload_keeps_line_feeds_and_is_read_as_utf8() {
    assert_eq!(Ok(publication("s", "a\nb\n")), parse(b"PUB s 4\r\na\nb\n\r\n").0);
    assert_eq!(
        Ok(publication("s", "\u{e9}\u{20ac}")),
        parse(b"PUB s 5\r\n\xc3\xa9\xe2\x82\xac\r\n").0
    );
    assert_eq!((Err(ParseError::InvalidInput), 11), parse(b"PUB s 2\r\n\xc3\x28\r\n"));
    assert_eq!((Err(ParseError::InvalidInput), 10), parse(b"PUB s 1\r\n\xff\r\n"));
}

#[test]
fn argument_bytes_are_taken_as_characters_one_by_one() {
    assert_eq!(Ok(sub("\u{c3}\u{a9}", "\u{ff}")), parse(b"SUB \xc3\xa9 \xff\r\n").0);
}

#[test]
fn carriage_returns_within_a_line_are_passed_over() {
    assert_eq!(Ok(sub("foo", "12")), parse(b"SUB f\roo 1\r2\r\r\n").0);
    assert_eq!(Ok(ClientCommand::Ping), parse(b"PING\r\r\r\n").0);
}

#[test]
fn connect_arguments() {
    let on = Ok(ClientCommand::Connect(ClientConnectOpts { verbose: true }));
    let off = Ok(ClientCommand::Connect(ClientConnectOpts { verbose: false }));
    assert_eq!(off, parse(b"CONNECT {}\r\n").0);
    assert_eq!(off, parse(b"CONNECT   { }  \r\n").0);
    assert_eq!(off, parse(b"CONNECT {\"verbose\":false}\r\n").0);
    assert_eq!(on, parse(b"CONNECT {\"verbose\" : true}\r\n").0);
    assert_eq!(on, parse(b"CONNECT {\"name\":\"x\",\"verbose\":true,\"pedantic\":[1,{}]}\r\n").0);
    assert_eq!(off, parse(b"CONNECT {\"lang\":\"go\",\"version\":\"1.2\"}\r\n").0);
    for refused in [
        &b"CONNECT {\"verbose\":1}\r\n"[..],
        b"CONNECT {\"verbose\":\"true\"}\r\n",
        b"CONNECT {\"verbose\":null}\r\n",
        b"CONNECT {\"verbose\":[true]}\r\n",
        b"CONNECT {\"verbose\":{}}\r\n",
        b"CONNECT [true]\r\n",
        b"CONNECT true\r\n",
        b"CONNECT null\r\n",
        b"CONNECT 5\r\n",
        b"CONNECT \"verbose\"\r\n",
        b"CONNECT {\"verbose\":true\r\n",
        b"CONNECT {} {}\r\n",
        b"CONNECT \r\n",
    ] {
        assert_eq!(Err(ParseError::InvalidInput), parse(refused).0);
    }
}

#[test]
fn connect_opts_follow_the_verbose_member() {
    assert_eq!(Some(ClientConnectOpts { verbose: false }), connect_opts_from(Some(None)));
    assert_eq!(
        Some(ClientConnectOpts { verbose: true }),
        connect_opts_from(Some(Some(JsonKind::Bool(true))))
    );
    assert_eq!(
        Some(ClientConnectOpts { verbose: false }),
        connect_opts_from(Some(Some(JsonKind::Bool(false))))
    );
    for other in
        [JsonKind::Null, JsonKind::Number, JsonKind::Text, JsonKind::Array, JsonKind::Object]
    {
        assert_eq!(None, connect_opts_from(Some(Some(other))));
    }
    assert_eq!(None, connect_opts_from(None));
    assert_eq!(Some(ClientConnectOpts { verbose: true }), connect_opts("{\"verbose\":true}"));
    assert_eq!(None, connect_opts("{yeah}"));
    assert_eq!(ClientConnectOpts { verbose: false }, ClientConnectOpts::default());
}

#[test]
fn lookup_reads_json_objects() {
    assert_eq!(None, lookup("", "a"));
    assert_eq!(None, lookup("[1]", "a"));
    assert_eq!(None, lookup("{\"a\":}", "a"));
    assert_eq!(Some(None), lookup("{}", "a"));
    assert_eq!(Some(None), lookup("{\"b\":1}", "a"));
    assert_eq!(Some(Some(JsonKind::Null)), lookup("{\"a\":null}", "a"));
    assert_eq!(Some(Some(JsonKind::Bool(true))), lookup("{\"a\":true}", "a"));
    assert_eq!(Some(Some(JsonKind::Bool(false))), lookup("{\"a\":false}", "a"));
    assert_eq!(Some(Some(JsonKind::Number)), lookup("{\"a\":-1.5e3}", "a"));
    assert_eq!(Some(Some(JsonKind::Text)), lookup("{\"a\":\"true\"}", "a"));
    assert_eq!(Some(Some(JsonKind::Array)), lookup("{\"a\":[]}", "a"));
    assert_eq!(Some(Some(JsonKind::Object)), lookup("{\"a\":{\"a\":true}}", "a"));
    assert_eq!(Some(Some(JsonKind::Bool(true))), lookup(" {\"b\":0, \"a\" :true } ", "a"));
}

#[test]
fn parser_starts_afresh_after_every_result() {
    let mut request = ClientRequest::new();
    assert_eq!((Ok(ClientCommand::Noop), 9), request.parse(b"SUB foo 1"));
    assert_eq!(ParserState::SubArg, request.state());
    assert_eq!((Ok(sub("foo", "1")), 1), request.parse(b"\r\nPING\r\n"));
    assert_eq!(ParserState::OpStart, request.state());
    assert_eq!((Ok(ClientCommand::Noop), 0), request.parse(b"\nPING\r\n"));
    assert_eq!((Err(ParseError::InvalidInput), 2), request.parse(b"PIX"));
    assert_eq!(ParserState::OpStart, request.state());
    assert_eq!((Ok(ClientCommand::Unsub { id: "7".to_string() }), 8), request.parse(b"UNSUB 7\r\n"));
    assert_eq!((Ok(ClientCommand::Noop), 0), request.parse(b""));
}

#[test]
fn reset_forgets_the_command_in_progress() {
    let mut request = ClientRequest::new();
    let _ = request.parse(b"PUB foo 3\r\nab");
    assert_eq!(ParserState::PubMsg, request.state());
    request.reset_state();
    assert_eq!(ParserState::OpStart, request.state());
    assert_eq!((Ok(ClientCommand::Ping), 5), request.parse(b"PING\r\n"));
    let _ = request.parse(b"SUB x");
    assert_eq!(Err(ParseError::InvalidInput), request.parse_error());
    assert_eq!(ParserState::OpStart, request.state());
    let _ = request.parse(b"SUB x");
    assert_eq!(Ok(ClientCommand::Pong), request.return_command(ClientCommand::Pong));
    assert_eq!((Ok(sub("a", "b")), 8), request.parse(b"SUB a b\r\n"));
}

#[test]
fn parse_all_gives_every_result_in_order() {
    let mut request = ClientRequest::new();
    let results = request.parse_all(b"PING\r\nPUB foo 2\r\nhi\r\nBAD\r\nSUB a b\r\nUNS");
    assert_eq!(
        vec![
            Ok(ClientCommand::Ping),
            Ok(publication("foo", "hi")),
            Ok(ClientCommand::Noop),
            Err(ParseError::InvalidInput),
            Err(ParseError::InvalidInput),
            Err(ParseError::InvalidInput),
            Ok(ClientCommand::Noop),
            Ok(ClientCommand::Noop),
            Ok(sub("a", "b")),
        ],
        results
    );
    assert_eq!(ParserState::OpUns, request.state());
    assert_eq!(vec![Ok(ClientCommand::Unsub { id: "q".to_string() })], request.parse_all(b"UB q\n"));
    assert!(request.parse_all(b"").is_empty());
}

#[test]
fn fragments_give_the_same_results_as_the_whole_stream() {
    let stream: &[u8] =
        b"CONNECT {\"verbose\":true}\r\nPING\r\nSUB foo 1\r\nPUB foo 5\r\nhe\nlo\r\nPINGX\r\nUNSUB 1\r\npong\n";
    let mut whole = ClientRequest::new();
    let expected = whole.parse_all(stream);
    assert_eq!(10, expected.len());
    for first in 0..=stream.len() {
        for second in [first, (first + 3).min(stream.len()), stream.len()] {
            let mut parts = ClientRequest::new();
            let mut results = parts.parse_all(&stream[..first]);
            results.extend(parts.parse_all(&stream[first..second]));
            results.extend(parts.parse_all(&stream[second..]));
            assert_eq!(expected, results);
            assert_eq!(whole.state(), parts.state());
        }
    }
}

#[test]
fn parse_and_parse_all_agree() {
    let stream: &[u8] = b"PING\r\nSUB a b\r\nXPONG\r\nPUB s 1\r\nz\r\n";
    let mut all = ClientRequest::new();
    let expected = all.parse_all(stream);
    let mut one = ClientRequest::new();
    let mut results = Vec::new();
    let mut from = 0;
    while from < stream.len() {
        let (result, consumed) = one.parse(&stream[from..]);
        if consumed == stream.len() - from {
            break;
        }
        results.push(result);
        from += consumed + 1;
    }
    assert_eq!(expected, results);
}

#[test]
fn split_arg_edge_cases() {
    assert_eq!(Vec::<Vec<char>>::new(), split_arg(&letters("")));
    assert_eq!(Vec::<Vec<char>>::new(), split_arg(&letters(" \t ")));
    assert_eq!(vec![letters("a")], split_arg(&letters("\ta")));
    assert_eq!(
        vec![letters("a"), letters("bc"), letters("d")],
        split_arg(&letters("  a \t bc\td  "))
    );
    assert_eq!(vec![letters("a\nb")], split_arg(&letters("a\nb")));
}

#[test]
fn parse_uint_edge_cases() {
    assert_eq!(Ok(0), parse_uint(&letters("")));
    assert_eq!(Ok(0), parse_uint(&letters("0")));
    assert_eq!(Ok(7), parse_uint(&letters("007")));
    assert_eq!(Ok(4294967295), parse_uint(&letters("4294967295")));
    assert_eq!(Ok(4294967295), parse_uint(&letters("0004294967295")));
    assert_eq!(Err(ParseError::NotAPositiveInt), parse_uint(&letters("4294967296")));
    assert_eq!(Err(ParseError::NotAPositiveInt), parse_uint(&letters("99999999999999999999")));
    assert_eq!(Err(ParseError::NotAPositiveInt), parse_uint(&letters("+1")));
    assert_eq!(Err(ParseError::NotAPositiveInt), parse_uint(&letters("1 ")));
    assert_eq!(Err(ParseError::NotAPositiveInt), parse_uint(&letters("\u{661}")));
    assert_eq!(Err(ParseError::NotAPositiveInt), parse_uint(&letters("/")));
    assert_eq!(Err(ParseError::NotAPositiveInt), parse_uint(&letters(":")));
}

#[test]
fn error_messages() {
    assert_eq!("invalid input", ParseError::InvalidInput.message());
    assert_eq!("not a positive int", ParseError::NotAPositiveInt.message());
}

#[test]
fn decimal_numerals() {
    assert_eq!("0", decimal(0));
    assert_eq!("9", decimal(9));
    assert_eq!("10", decimal(10));
    assert_eq!("4222", decimal(4222));
    assert_eq!("18446744073709551615", decimal(u64::MAX));
    assert_eq!(Ok(361), parse_uint(&letters(&decimal(361))));
}

#[test]
fn utf8_and_characters() {
    assert_eq!(Some("h\u{e9}".to_string()), decode_utf8_text(b"h\xc3\xa9"));
    assert_eq!(Some(String::new()), decode_utf8_text(b""));
    assert_eq!(None, decode_utf8_text(b"\xc3"));
    assert_eq!(None, decode_utf8_text(b"\xed\xa0\x80"));
    assert_eq!("a\u{e9}\u{20ac}", string_from_chars(&letters("a\u{e9}\u{20ac}")));
    assert_eq!("", string_from_chars(&[]));
}
