use pubsub_broker::commands::ClientCommand;
use pubsub_broker::parser::{
    parse_uint, split_arg, ClientConnectOpts, ClientRequest, ParseError, ParserState,
};

fn state_after(input: &str) -> ParserState {
    let mut client = ClientRequest::new();
    let _ = client.parse(input.as_bytes());
    client.state()
}

fn error_of(input: &str) -> ParseError {
    let mut client = ClientRequest::new();
    client.parse(input.as_bytes()).0.unwrap_err()
}

fn command_of(input: &str) -> ClientCommand {
    let mut client = ClientRequest::new();
    client.parse(input.as_bytes()).0.unwrap()
}

fn consumed_of(input: &str) -> usize {
    let mut client = ClientRequest::new();
    client.parse(input.as_bytes()).1
}

fn chars(s: &str) -> Vec<char> {
    s.chars().collect()
}

#[test]
fn test_parse_state_ok_ping() {
    assert_eq!(ParserState::OpPing, state_after("PING"));
}

#[test]
fn test_parse_state_ok_pong() {
    assert_eq!(ParserState::OpPong, state_after("PONG"));
}

#[test]
fn test_parse_state_ok_connect_arg() {
    assert_eq!(ParserState::ConnectArg, state_after("CONNECT {\"verbose\": true}"));
}

#[test]
fn test_parse_state_ok_pub_arg() {
    assert_eq!(ParserState::PubArg, state_after("PUB subject"));
}

#[test]
fn test_parse_state_ok_pub_arg_with_msg_len() {
    assert_eq!(ParserState::PubArg, state_after("PUB subject 3"));
}

#[test]
fn test_parse_state_ok_pub_arg_with_msg_len_before_message() {
    assert_eq!(ParserState::PubMsg, state_after("PUB subject 3\r\n"));
}

#[test]
fn test_parse_state_ok_pub_arg_with_msg_len_and_message() {
    assert_eq!(ParserState::PubMsg, state_after("PUB subject 3\r\nyes"));
}

#[test]
fn test_parse_state_ok_sub_arg() {
    assert_eq!(ParserState::SubArg, state_after("SUB subject"));
}

#[test]
fn test_parse_state_ok_sub_arg_with_id() {
    assert_eq!(ParserState::SubArg, state_after("SUB subject id"));
}

#[test]
fn test_parse_state_ok_unsub_arg_with_id() {
    assert_eq!(ParserState::UnsubArg, state_after("UNSUB subject"));
}

#[test]
fn test_parse_fail_pin() {
    assert_eq!(ParseError::InvalidInput, error_of("PIN\r\n"));
}

#[test]
fn test_parse_fail_pingx() {
    assert_eq!(ParseError::InvalidInput, error_of("PINGX\r\n"));
}

#[test]
fn test_parse_fail_connect_without_arg() {
    assert_eq!(ParseError::InvalidInput, error_of("CONNECT\r\n"));
}

#[test]
fn test_parse_fail_connect_invalid_arg() {
    assert_eq!(ParseError::InvalidInput, error_of("CONNECT {yeah}\r\n"));
}

#[test]
fn test_parse_fail_pub_without_arg() {
    assert_eq!(ParseError::InvalidInput, error_of("PUB\r\n"));
}

#[test]
fn test_parse_fail_pub_not_enough_arg() {
    assert_eq!(ParseError::InvalidInput, error_of("PUB s\r\n"));
}

#[test]
fn test_parse_fail_pub_message_invalid_negative_size() {
    assert_eq!(ParseError::InvalidInput, error_of("PUB subj -3\r\nyes\r\n"));
}

#[test]
fn test_parse_fail_pub_message_invalid_size_not_a_number() {
    assert_eq!(ParseError::InvalidInput, error_of("PUB subj x\r\nyes\r\n"));
}

#[test]
fn test_parse_fail_pub_message_too_long() {
    assert_eq!(ParseError::InvalidInput, error_of("PUB subj 3\r\ntoolong\r\n"));
}

#[test]
fn test_parse_fail_pub_message_too_short() {
    assert_eq!(ParseError::InvalidInput, error_of("PUB subj 30\r\nyeah\r\n"));
}

#[test]
fn test_parse_fail_sub_without_arg() {
    assert_eq!(ParseError::InvalidInput, error_of("SUB\r\n"));
}

#[test]
fn test_parse_fail_sub_not_enough_arg() {
    assert_eq!(ParseError::InvalidInput, error_of("SUB s\r\n"));
}

#[test]
fn test_parse_fail_unsub_without_arg() {
    assert_eq!(ParseError::InvalidInput, error_of("UNSUB\r\n"));
}

#[test]
fn test_parse_ok_connect_command() {
    assert_eq!(
        ClientCommand::Connect(ClientConnectOpts { verbose: false }),
        command_of("CONNECT {}\r\n")
    );
}

#[test]
fn test_parse_ok_connect_with_tab_and_argument() {
    assert_eq!(
        ClientCommand::Connect(ClientConnectOpts { verbose: true }),
        command_of("CONNECT\t{\"verbose\": true}\r\n")
    );
}

#[test]
fn test_parse_ok_ping_command() {
    assert_eq!(ClientCommand::Ping, command_of("PING\r\n"));
}

#[test]
fn test_parse_ok_pong_command() {
    assert_eq!(ClientCommand::Pong, command_of("PONG\r\n"));
}

#[test]
fn test_parse_ok_sub_command() {
    assert_eq!(
        ClientCommand::Sub { subject: "subject".to_string(), id: "id".to_string() },
        command_of("SUB subject id\r\n")
    );
}

#[test]
fn test_parse_ok_sub_command_with_tab() {
    assert_eq!(
        ClientCommand::Sub { subject: "subject".to_string(), id: "id".to_string() },
        command_of("SUB\tsubject\tid\r\n")
    );
}

#[test]
fn test_parse_ok_pub_command() {
    assert_eq!(
        ClientCommand::Pub { subject: "subject".to_string(), msg: "hello".to_string() },
        command_of("PUB subject 5\r\nhello\r\n")
    );
}

#[test]
fn test_parse_ok_pub_command_with_tab() {
    assert_eq!(
        ClientCommand::Pub { subject: "subject".to_string(), msg: "hello".to_string() },
        command_of("PUB\tsubject\t5\r\nhello\r\n")
    );
}

#[test]
fn test_parse_ok_pub_command_empty_message() {
    assert_eq!(
        ClientCommand::Pub { subject: "subject".to_string(), msg: "".to_string() },
        command_of("PUB subject 0\r\n\r\n")
    );
}

#[test]
fn test_parse_ok_unsub_command() {
    assert_eq!(ClientCommand::Unsub { id: "id".to_string() }, command_of("UNSUB id\r\n"));
}

#[test]
fn test_split_args_one_arg() {
    assert_eq!(vec![chars("sup")], split_arg(&chars("sup")));
}

#[test]
fn test_split_args_one_arg_extra_space() {
    assert_eq!(vec![chars("sup")], split_arg(&chars("sup  ")));
}

#[test]
fn test_split_args_two_args() {
    assert_eq!(vec![chars("sup"), chars("123")], split_arg(&chars("sup 123")));
}

#[test]
fn test_split_args_two_args_with_tab() {
    assert_eq!(vec![chars("sup"), chars("123")], split_arg(&chars("sup\t123")));
}

#[test]
fn test_parse_uint_positive_number() {
    assert_eq!(Ok(361), parse_uint(&chars("361")));
}

#[test]
fn test_parse_uint_negative_number() {
    assert_eq!(Err(ParseError::NotAPositiveInt), parse_uint(&chars("-361")));
}

#[test]
fn test_parse_uint_floating_number() {
    assert_eq!(Err(ParseError::NotAPositiveInt), parse_uint(&chars("3.1")));
}

#[test]
fn test_parse_uint_not_a_number() {
    assert_eq!(Err(ParseError::NotAPositiveInt), parse_uint(&chars("a31")));
}

#[test]
fn test_parse_return_bytes_read_invalid_ping() {
    assert_eq!(3, consumed_of("PIN\r\nPING"));
}

#[test]
fn test_parse_return_bytes_read_correct_ping() {
    assert_eq!(5, consumed_of("PING\r\n"));
}

#[test]
fn test_parse_return_bytes_read_correct_ping_extra_ignored() {
    assert_eq!(5, consumed_of("PING\r\nPING\r\n"));
}
