use pubsub_broker::commands::{ClientCommand, MainCommand};
use pubsub_broker::handlers::{
    handle_new_connection, published_frame, Connection, Event, Reaction,
};
use pubsub_broker::parser::ClientConnectOpts;

fn connected(client_id: u32, verbose: bool) -> Connection {
    let mut connection = Connection::new(client_id);
    connection.handle_connect(ClientConnectOpts { verbose });
    connection
}

fn input(connection: &mut Connection, bytes: &str) -> Reaction {
    connection.handle(Event::Input(bytes.as_bytes().to_vec()))
}

#[test]
fn greeting_line() {
    assert_eq!(
        "INFO {\"hostname\":\"127.0.0.1\",\"port\":4222,\"client_ip\":\"10.0.0.7\"}\n",
        handle_new_connection("127.0.0.1", 4222, "10.0.0.7")
    );
}

#[test]
fn greeting_line_escapes_and_writes_small_and_large_ports() {
    assert_eq!(
        "INFO {\"hostname\":\"a\\\"b\\\\c\",\"port\":0,\"client_ip\":\"\"}\n",
        handle_new_connection("a\"b\\c", 0, "")
    );
    assert_eq!(
        "INFO {\"hostname\":\"h\",\"port\":65535,\"client_ip\":\"::1\"}\n",
        handle_new_connection("h", 65535, "::1")
    );
}

#[test]
fn message_frame_counts_bytes() {
    assert_eq!("MSG foo 1 5\r\nhello\n", published_frame("foo", "1", "hello"));
    assert_eq!("MSG s id 0\r\n\n", published_frame("s", "id", ""));
    assert_eq!("MSG s id 3\r\n\u{20ac}\n", published_frame("s", "id", "\u{20ac}"));
    assert_eq!("MSG s 7 12\r\nline\nline\n..\n", published_frame("s", "7", "line\nline\n.."));
}

#[test]
fn commands_before_connect_are_rejected() {
    for line in ["PING\r\n", "PUB foo 2\r\nhi\r", "SUB foo 1\r\n", "UNSUB 1\r\n"] {
        let mut connection = Connection::new(4);
        let reaction = input(&mut connection, line);
        assert_eq!("-ERR\n", reaction.reply);
        assert!(reaction.commands.is_empty());
        assert!(!reaction.stop);
        assert!(!connection.check_client_connected());
    }
}

#[test]
fn pong_and_empty_lines_get_no_reply() {
    let mut connection = Connection::new(4);
    let reaction = input(&mut connection, "PONG\r\n\r\n\n");
    assert_eq!("", reaction.reply);
    assert!(reaction.commands.is_empty());
    let mut connection = connected(4, true);
    let reaction = input(&mut connection, "pong\n");
    assert_eq!("", reaction.reply);
    assert!(reaction.commands.is_empty());
}

#[test]
fn connect_tells_the_router_and_acknowledges_if_verbose() {
    let mut connection = Connection::new(4);
    let reaction = input(&mut connection, "CONNECT {}\r\n");
    assert_eq!("", reaction.reply);
    assert_eq!(
        vec![MainCommand::Connect {
            client_id: 4,
            client_connect_opts: ClientConnectOpts { verbose: false }
        }],
        reaction.commands
    );
    assert!(connection.check_client_connected());
    assert!(!connection.check_client_verbose());
    let reaction = input(&mut connection, "CONNECT {\"verbose\":true,\"name\":\"x\"}\r\n");
    assert_eq!("+OK\r\n", reaction.reply);
    assert!(connection.check_client_verbose());
}

#[test]
fn accepted_commands_go_to_the_router() {
    let mut connection = connected(4, false);
    let reaction = input(&mut connection, "SUB foo 1\r\nPUB foo 2\r\nhi\r\nUNSUB 1\r\nPING\r\n");
    assert_eq!("PONG\r\n", reaction.reply);
    assert_eq!(
        vec![
            MainCommand::Subscribe {
                client_id: 4,
                subject: "foo".to_string(),
                subscription_id: "1".to_string()
            },
            MainCommand::Publish { subject: "foo".to_string(), msg: "hi".to_string() },
            MainCommand::Unsubscribe { client_id: 4, subscription_id: "1".to_string() },
        ],
        reaction.commands
    );
}

#[test]
fn verbose_client_gets_an_acknowledgement_for_each_accepted_command() {
    let mut connection = connected(4, true);
    assert_eq!("+OK\n", input(&mut connection, "SUB foo 1\r\n").reply);
    assert_eq!("+OK\n", input(&mut connection, "PUB foo 2\r\nhi\r\n").reply);
    assert_eq!("+OK\n", input(&mut connection, "UNSUB 1\r\n").reply);
    assert_eq!("PONG\r\n", input(&mut connection, "PING\r\n").reply);
}

#[test]
fn handle_commands_answers_one_command() {
    let mut connection = Connection::new(8);
    let reply = connection.handle_commands(ClientCommand::Ping);
    assert_eq!("-ERR\n", reply.text);
    assert_eq!(None, reply.command);
    let reply = connection.handle_commands(ClientCommand::Connect(ClientConnectOpts {
        verbose: true,
    }));
    assert_eq!("+OK\r\n", reply.text);
    let reply = connection.handle_commands(ClientCommand::Ping);
    assert_eq!("PONG\r\n", reply.text);
    let reply = connection.handle_commands(ClientCommand::Noop);
    assert_eq!("", reply.text);
    assert_eq!(None, reply.command);
    let reply = connection.handle_pub("s".to_string(), "m".to_string());
    assert_eq!("+OK\n", reply.text);
    assert_eq!(
        Some(MainCommand::Publish { subject: "s".to_string(), msg: "m".to_string() }),
        reply.command
    );
    let reply = connection.handle_sub("s".to_string(), "i".to_string());
    assert_eq!(
        Some(MainCommand::Subscribe {
            client_id: 8,
            subject: "s".to_string(),
            subscription_id: "i".to_string()
        }),
        reply.command
    );
    let reply = connection.handle_unsub("i".to_string());
    assert_eq!(
        Some(MainCommand::Unsubscribe { client_id: 8, subscription_id: "i".to_string() }),
        reply.command
    );
    assert_eq!("PONG\r\n", connection.handle_ping().text);
}

#[test]
fn parser_errors_are_answered_and_the_handler_goes_on() {
    let mut connection = connected(4, false);
    let reaction = input(&mut connection, "HELLO\r\nPING\r\n");
    assert_eq!("-ERR\n-ERR\n-ERR\n-ERR\n-ERR\nPONG\r\n", reaction.reply);
    assert!(!reaction.stop);
}

#[test]
fn input_split_across_reads_gives_the_same_answers() {
    let whole = "CONNECT {\"verbose\": true}\r\nSUB foo 1\r\nPUB foo 5\r\nhello\r\nPINGX\r\nPING\r\n";
    let mut one = Connection::new(1);
    let expected = input(&mut one, whole);
    for cut in 0..=whole.len() {
        let mut two = Connection::new(1);
        let first = input(&mut two, &whole[..cut]);
        let second = input(&mut two, &whole[cut..]);
        let mut reply = first.reply.clone();
        reply.push_str(&second.reply);
        let mut commands = first.commands;
        commands.extend(second.commands);
        assert_eq!(expected.reply, reply);
        assert_eq!(expected.commands, commands);
    }
}

#[test]
fn end_of_socket_tells_the_router() {
    let mut connection = connected(6, true);
    let reaction = connection.handle(Event::Closed);
    assert_eq!("", reaction.reply);
    assert_eq!(vec![MainCommand::Disconnect { client_id: 6 }], reaction.commands);
    assert!(reaction.stop);
}

#[test]
fn mailbox_events() {
    let mut connection = Connection::new(6);
    let reaction = connection.handle(Event::Mailbox(MainCommand::PublishedMessage {
        subject: "foo".to_string(),
        msg: "hello".to_string(),
        subscription_id: "1".to_string(),
    }));
    assert_eq!("MSG foo 1 5\r\nhello\n", reaction.reply);
    assert!(reaction.commands.is_empty());
    assert!(!reaction.stop);
    let reaction = connection.handle(Event::Mailbox(MainCommand::Noop));
    assert_eq!(
        Reaction { reply: String::new(), commands: Vec::new(), stop: false },
        reaction
    );
    let reaction = connection.handle(Event::Mailbox(MainCommand::Disconnect { client_id: 6 }));
    assert_eq!(
        Reaction { reply: String::new(), commands: Vec::new(), stop: false },
        reaction
    );
    let reaction = connection.handle(Event::Mailbox(MainCommand::ShutDown));
    assert_eq!(Reaction { reply: String::new(), commands: Vec::new(), stop: true }, reaction);
}
