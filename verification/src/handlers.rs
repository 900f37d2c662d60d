//! The handler of one connection: what it writes to its client and what
//! it sends to the router, for each thing that happens to the connection.

use vstd::prelude::*;
use vstd::string::StringExecFns;
use vstd::utf8::{decode_utf8_encode_utf8, encode_utf8};

use crate::commands::{ClientCommand, CommandView, MainCommand, MainCommandView};
use crate::json::{json_quoted, quote};
use crate::parser::{
    feed, lemma_feed_fragments, results_view, ClientConnectOpts, ClientRequest, ParseError,
    ParserModel,
};
use crate::server::ClientState;
use crate::text::{decimal, decimal_spec, utf8_text};

verus! {

/// The line that greets a new connection: the broker's address and port
/// and the client's address, as a JSON object.
pub open spec fn info_line(hostname: Seq<char>, port: u16, client_ip: Seq<char>) -> Seq<char> {
    "INFO {\"hostname\":"@ + json_quoted(hostname) + ",\"port\":"@ + decimal_spec(port as nat)
        + ",\"client_ip\":"@ + json_quoted(client_ip) + "}\n"@
}

/// Writes the line that greets a new connection.
pub fn handle_new_connection(hostname: &str, port: u16, client_ip: &str) -> (line: String)
    ensures
        line@ == info_line(hostname@, port, client_ip@),
{
    let mut line = String::from_str("INFO {\"hostname\":");
    line.append(quote(hostname).as_str());
    line.append(",\"port\":");
    line.append(decimal(port as u64).as_str());
    line.append(",\"client_ip\":");
    line.append(quote(client_ip).as_str());
    line.append("}\n");
    line
}

/// The frame that hands a client the message `msg` on `subject` under its
/// subscription id `id`: a header with the payload's length in bytes, and
/// the payload.
pub open spec fn message_frame(subject: Seq<char>, id: Seq<char>, msg: Seq<char>) -> Seq<char> {
    "MSG "@ + subject + " "@ + id + " "@ + decimal_spec(encode_utf8(msg).len()) + "\r\n"@ + msg
        + "\n"@
}

/// Writes the frame that hands a client a message.
pub fn published_frame(subject: &str, subscription_id: &str, msg: &str) -> (frame: String)
    ensures
        frame@ == message_frame(subject@, subscription_id@, msg@),
{
    let mut frame = String::from_str("MSG ");
    frame.append(subject);
    frame.append(" ");
    frame.append(subscription_id);
    frame.append(" ");
    let size: usize = msg.as_bytes().len();
    frame.append(decimal(size as u64).as_str());
    frame.append("\r\n");
    frame.append(msg);
    frame.append("\n");
    frame
}

/// What the handler answers to one command: the bytes for the client, and
/// what it sends to the router.
pub struct Reply {
    /// The text to write to the client; empty where it is owed nothing.
    pub text: String,
    /// The command to send to the router, if any.
    pub command: Option<MainCommand>,
}

/// A [`Reply`] as plain values.
pub struct ReplyView {
    pub text: Seq<char>,
    pub command: Option<MainCommandView>,
}

impl View for Reply {
    type V = ReplyView;

    open spec fn view(&self) -> ReplyView {
        ReplyView {
            text: self.text@,
            command: match self.command {
                Some(command) => Some(command@),
                None => None,
            },
        }
    }
}

/// The acknowledgement of a command that a verbose client is owed.
pub open spec fn acknowledgement(verbose: bool) -> Seq<char> {
    if verbose {
        "+OK\n"@
    } else {
        Seq::empty()
    }
}

/// The answer to a command that needs a connected client: `accepted`
/// where the client is connected, the error line and nothing for the
/// router where it is not.
pub open spec fn if_connected(state: ClientState, accepted: ReplyView) -> ReplyView {
    if state.connected {
        accepted
    } else {
        ReplyView { text: "-ERR\n"@, command: None }
    }
}

/// The answer of the handler of the client `client_id`, in state `state`,
/// to a result of its parser.
pub open spec fn answer(
    client_id: u32,
    state: ClientState,
    result: Result<CommandView, ParseError>,
) -> ReplyView {
    match result {
        Err(_) => ReplyView { text: "-ERR\n"@, command: None },
        Ok(CommandView::Noop) => ReplyView { text: Seq::empty(), command: None },
        Ok(CommandView::Pong) => ReplyView { text: Seq::empty(), command: None },
        Ok(CommandView::Connect(opts)) => ReplyView {
            text: if opts.verbose {
                "+OK\r\n"@
            } else {
                Seq::empty()
            },
            command: Some(MainCommandView::Connect { client_id, client_connect_opts: opts }),
        },
        Ok(CommandView::Ping) => if_connected(
            state,
            ReplyView { text: "PONG\r\n"@, command: None },
        ),
        Ok(CommandView::Pub { subject, msg }) => if_connected(
            state,
            ReplyView {
                text: acknowledgement(state.verbose),
                command: Some(MainCommandView::Publish { subject, msg }),
            },
        ),
        Ok(CommandView::Sub { subject, id }) => if_connected(
            state,
            ReplyView {
                text: acknowledgement(state.verbose),
                command: Some(
                    MainCommandView::Subscribe { client_id, subject, subscription_id: id },
                ),
            },
        ),
        Ok(CommandView::Unsub { id }) => if_connected(
            state,
            ReplyView {
                text: acknowledgement(state.verbose),
                command: Some(MainCommandView::Unsubscribe { client_id, subscription_id: id }),
            },
        ),
    }
}

/// The state of the client after the handler has dealt with a result of
/// its parser: a `CONNECT` connects it, with the options given.
pub open spec fn state_after(
    state: ClientState,
    result: Result<CommandView, ParseError>,
) -> ClientState {
    match result {
        Ok(CommandView::Connect(opts)) => ClientState { connected: true, verbose: opts.verbose },
        _ => state,
    }
}

/// What the handler of one connection holds as plain values.
pub struct ConnectionView {
    pub client_id: u32,
    pub state: ClientState,
    pub request: ParserModel,
}

/// What the handler does on an event, as plain values.
#[verifier::ext_equal]
pub struct ReactionView {
    /// The text for the client, in the order in which it is owed.
    pub reply: Seq<char>,
    /// The commands for the router, in order.
    pub commands: Seq<MainCommandView>,
    /// Whether the handler is to end.
    pub stop: bool,
}

impl ReactionView {
    /// The reaction that does nothing.
    pub open spec fn nothing() -> ReactionView {
        ReactionView { reply: Seq::empty(), commands: Seq::empty(), stop: false }
    }

    /// This reaction, and then the answer `reply`.
    pub open spec fn with(self, reply: ReplyView) -> ReactionView {
        ReactionView {
            reply: self.reply + reply.text,
            commands: match reply.command {
                Some(command) => self.commands.push(command),
                None => self.commands,
            },
            stop: self.stop,
        }
    }
}

/// The handler's answers to the results of `results`, one after the
/// other, from the state `state`: the state that it ends in, and the
/// answers put together.
pub open spec fn answers(
    client_id: u32,
    state: ClientState,
    results: Seq<Result<CommandView, ParseError>>,
) -> (ClientState, ReactionView)
    decreases results.len(),
{
    if results.len() == 0 {
        (state, ReactionView::nothing())
    } else {
        let before = answers(client_id, state, results.drop_last());
        (
            state_after(before.0, results.last()),
            before.1.with(answer(client_id, before.0, results.last())),
        )
    }
}

/// What happens to a connection.
#[derive(Debug, PartialEq, Eq)]
pub enum Event {
    /// The socket gave these bytes.
    Input(Vec<u8>),
    /// The socket is at its end.
    Closed,
    /// The router put this into the mailbox.
    Mailbox(MainCommand),
}

/// An [`Event`] as plain values.
pub enum EventView {
    Input(Seq<u8>),
    Closed,
    Mailbox(MainCommandView),
}

impl View for Event {
    type V = EventView;

    open spec fn view(&self) -> EventView {
        match *self {
            Event::Input(bytes) => EventView::Input(bytes@),
            Event::Closed => EventView::Closed,
            Event::Mailbox(command) => EventView::Mailbox(command@),
        }
    }
}

/// What the handler does on an event: what it writes to the client, what
/// it sends to the router, and whether it ends.
#[derive(Debug, PartialEq, Eq)]
pub struct Reaction {
    /// The text to write to the client; empty where it is owed nothing.
    pub reply: String,
    /// The commands to send to the router, in order.
    pub commands: Vec<MainCommand>,
    /// Whether the handler is to end.
    pub stop: bool,
}

/// The views of a list of commands.
pub open spec fn command_views(commands: Seq<MainCommand>) -> Seq<MainCommandView> {
    Seq::new(commands.len(), |i: int| commands[i]@)
}

impl View for Reaction {
    type V = ReactionView;

    open spec fn view(&self) -> ReactionView {
        ReactionView {
            reply: self.reply@,
            commands: command_views(self.commands@),
            stop: self.stop,
        }
    }
}

/// What the handler in state `before` does on `event`: the state that it
/// is left in, and its reaction.
///
/// Input goes through the parser, and each result is answered in turn. At
/// the end of the socket the handler tells the router that the client is
/// gone, and ends. A published message from the mailbox is written to the
/// client as a frame; the notice of a shutdown ends the handler, with no
/// word to the router; anything else in the mailbox is passed over.
pub open spec fn react(before: ConnectionView, event: EventView) -> (ConnectionView, ReactionView) {
    match event {
        EventView::Input(bytes) => {
            let fed = feed(before.request, bytes);
            let all = answers(before.client_id, before.state, fed.0);
            (ConnectionView { client_id: before.client_id, state: all.0, request: fed.1 }, all.1)
        },
        EventView::Closed => (
            before,
            ReactionView {
                reply: Seq::empty(),
                commands: seq![MainCommandView::Disconnect { client_id: before.client_id }],
                stop: true,
            },
        ),
        EventView::Mailbox(MainCommandView::PublishedMessage { subject, msg, subscription_id }) => (
            before,
            ReactionView {
                reply: message_frame(subject, subscription_id, msg),
                commands: Seq::empty(),
                stop: false,
            },
        ),
        EventView::Mailbox(MainCommandView::ShutDown) => (
            before,
            ReactionView { reply: Seq::empty(), commands: Seq::empty(), stop: true },
        ),
        EventView::Mailbox(_) => (before, ReactionView::nothing()),
    }
}

/// The handler of one connection: the client's id, what the handler knows
/// of the client's state, and the parser of the client's input.
pub struct Connection {
    client_id: u32,
    state: ClientState,
    request: ClientRequest,
}

impl View for Connection {
    type V = ConnectionView;

    closed spec fn view(&self) -> ConnectionView {
        ConnectionView { client_id: self.client_id, state: self.state, request: self.request@ }
    }
}

impl Connection {
    /// The handler of a new connection of the client `client_id`.
    pub fn new(client_id: u32) -> (connection: Self)
        ensures
            connection@ == (ConnectionView {
                client_id,
                state: ClientState { connected: false, verbose: false },
                request: ParserModel::fresh(),
            }),
    {
        Connection { client_id, state: ClientState::default(), request: ClientRequest::new() }
    }

    /// Whether the client has sent a `CONNECT`.
    pub fn check_client_connected(&self) -> (connected: bool)
        ensures
            connected == self@.state.connected,
    {
        self.state.connected
    }

    /// Whether the client asked for acknowledgements.
    pub fn check_client_verbose(&self) -> (verbose: bool)
        ensures
            verbose == self@.state.verbose,
    {
        self.state.verbose
    }

    /// The answer to what is refused.
    fn rejected() -> (reply: Reply)
        ensures
            reply@ == (ReplyView { text: "-ERR\n"@, command: None }),
    {
        Reply { text: String::from_str("-ERR\n"), command: None }
    }

    /// The answer to a command that goes to the router.
    fn accepted(&self, command: MainCommand) -> (reply: Reply)
        ensures
            reply@ == (ReplyView {
                text: acknowledgement(self@.state.verbose),
                command: Some(command@),
            }),
    {
        let text = if self.check_client_verbose() {
            String::from_str("+OK\n")
        } else {
            String::new()
        };
        Reply { text, command: Some(command) }
    }

    /// Answers a `CONNECT`: the client is connected from now on, and the
    /// router is told.
    pub fn handle_connect(&mut self, client_connect_opts: ClientConnectOpts) -> (reply: Reply)
        ensures
            final(self)@ == (ConnectionView {
                state: state_after(old(self)@.state, Ok(CommandView::Connect(client_connect_opts))),
                ..old(self)@
            }),
            reply@ == answer(
                old(self)@.client_id,
                old(self)@.state,
                Ok(CommandView::Connect(client_connect_opts)),
            ),
    {
        self.state = ClientState { connected: true, verbose: client_connect_opts.verbose };
        let text = if client_connect_opts.verbose {
            String::from_str("+OK\r\n")
        } else {
            String::new()
        };
        Reply {
            text,
            command: Some(MainCommand::Connect { client_id: self.client_id, client_connect_opts }),
        }
    }

    /// Answers a `PING`.
    pub fn handle_ping(&self) -> (reply: Reply)
        ensures
            reply@ == answer(self@.client_id, self@.state, Ok(CommandView::Ping)),
    {
        if !self.check_client_connected() {
            return Self::rejected();
        }
        Reply { text: String::from_str("PONG\r\n"), command: None }
    }

    /// Answers a `PUB`.
    pub fn handle_pub(&self, subject: String, msg: String) -> (reply: Reply)
        ensures
            reply@ == answer(
                self@.client_id,
                self@.state,
                Ok(CommandView::Pub { subject: subject@, msg: msg@ }),
            ),
    {
        if !self.check_client_connected() {
            return Self::rejected();
        }
        self.accepted(MainCommand::Publish { subject, msg })
    }

    /// Answers a `SUB`.
    pub fn handle_sub(&self, subject: String, subscription_id: String) -> (reply: Reply)
        ensures
            reply@ == answer(
                self@.client_id,
                self@.state,
                Ok(CommandView::Sub { subject: subject@, id: subscription_id@ }),
            ),
    {
        if !self.check_client_connected() {
            return Self::rejected();
        }
        self.accepted(
            MainCommand::Subscribe { client_id: self.client_id, subject, subscription_id },
        )
    }

    /// Answers an `UNSUB`.
    pub fn handle_unsub(&self, subscription_id: String) -> (reply: Reply)
        ensures
            reply@ == answer(
                self@.client_id,
                self@.state,
                Ok(CommandView::Unsub { id: subscription_id@ }),
            ),
    {
        if !self.check_client_connected() {
            return Self::rejected();
        }
        self.accepted(MainCommand::Unsubscribe { client_id: self.client_id, subscription_id })
    }

    /// Answers a command of the client.
    pub fn handle_commands(&mut self, cmd: ClientCommand) -> (reply: Reply)
        ensures
            final(self)@ == (ConnectionView {
                state: state_after(old(self)@.state, Ok(cmd@)),
                ..old(self)@
            }),
            reply@ == answer(old(self)@.client_id, old(self)@.state, Ok(cmd@)),
    {
        match cmd {
            ClientCommand::Noop => Reply { text: String::new(), command: None },
            ClientCommand::Connect(opts) => self.handle_connect(opts),
            ClientCommand::Pub { subject, msg } => self.handle_pub(subject, msg),
            ClientCommand::Sub { subject, id } => self.handle_sub(subject, id),
            ClientCommand::Unsub { id } => self.handle_unsub(id),
            ClientCommand::Ping => self.handle_ping(),
            ClientCommand::Pong => Reply { text: String::new(), command: None },
        }
    }

    /// Deals with one event of the connection.
    pub fn handle(&mut self, event: Event) -> (reaction: Reaction)
        ensures
            (final(self)@, reaction@) == react(old(self)@, event@),
    {
        let mut reaction = Reaction { reply: String::new(), commands: Vec::new(), stop: false };
        match event {
            Event::Input(bytes) => {
                let results = self.request.parse_all(bytes.as_slice());
                let ghost all = results_view(results@);
                let ghost start = self@.state;
                for result in iter: results
                    invariant
                        self@.client_id == old(self)@.client_id,
                        self@.request == feed(old(self)@.request, bytes@).1,
                        all == results_view(iter.seq()),
                        (self@.state, reaction@) == answers(
                            self@.client_id,
                            start,
                            all.take(iter.index() as int),
                        ),
                {
                    proof {
                        let next = all.take(iter.index() + 1);
                        assert(next.drop_last() =~= all.take(iter.index() as int));
                    }
                    let reply = match result {
                        Ok(cmd) => self.handle_commands(cmd),
                        Err(_) => Self::rejected(),
                    };
                    reaction.reply.append(reply.text.as_str());
                    match reply.command {
                        Some(command) => {
                            reaction.commands.push(command);
                        },
                        None => {},
                    }
                }
                assert(all.take(all.len() as int) =~= all);
            },
            Event::Closed => {
                reaction.commands.push(MainCommand::Disconnect { client_id: self.client_id });
                reaction.stop = true;
            },
            Event::Mailbox(MainCommand::PublishedMessage { subject, msg, subscription_id }) => {
                reaction.reply = published_frame(
                    subject.as_str(),
                    subscription_id.as_str(),
                    msg.as_str(),
                );
            },
            Event::Mailbox(MainCommand::ShutDown) => {
                reaction.stop = true;
            },
            Event::Mailbox(_) => {},
        }
        reaction
    }
}

/// Whether `command` is one that only a connected client may give to the
/// router.
pub open spec fn needs_connection(command: MainCommandView) -> bool {
    command is Publish || command is Subscribe || command is Unsubscribe
}

/// Whatever a client sends, its handler gives the router no publication,
/// subscription or unsubscription before it has given it a connection:
/// while the client is not connected, the commands for the router hold
/// none of them, and a connection stands before the first of them.
pub proof fn lemma_connection_comes_first(
    client_id: u32,
    results: Seq<Result<CommandView, ParseError>>,
)
    ensures
        ({
            let start = ClientState { connected: false, verbose: false };
            let end = answers(client_id, start, results);
            &&& !end.0.connected ==> forall|k: int|
                0 <= k < end.1.commands.len() ==> !needs_connection(#[trigger] end.1.commands[k])
            &&& forall|k: int|
                0 <= k < end.1.commands.len() && needs_connection(#[trigger] end.1.commands[k])
                    ==> exists|j: int| 0 <= j < k && #[trigger] end.1.commands[j] is Connect
        }),
    decreases results.len(),
{
    let start = ClientState { connected: false, verbose: false };
    if results.len() > 0 {
        lemma_connection_comes_first(client_id, results.drop_last());
        let before = answers(client_id, start, results.drop_last());
        let end = answers(client_id, start, results);
        let n = before.1.commands.len() as int;
        assert forall|k: int|
            0 <= k < end.1.commands.len() && needs_connection(
                #[trigger] end.1.commands[k],
            ) implies exists|j: int| 0 <= j < k && #[trigger] end.1.commands[j] is Connect by {
            if k < n {
                let j = choose|j: int| 0 <= j < k && #[trigger] before.1.commands[j] is Connect;
                assert(end.1.commands[j] is Connect);
            } else {
                lemma_connected_after_connect(client_id, results.drop_last());
                let j = choose|j: int| 0 <= j < n && #[trigger] before.1.commands[j] is Connect;
                assert(end.1.commands[j] is Connect);
            }
        }
    }
}

/// A handler that holds its client for connected has given the router a
/// connection.
proof fn lemma_connected_after_connect(
    client_id: u32,
    results: Seq<Result<CommandView, ParseError>>,
)
    ensures
        ({
            let start = ClientState { connected: false, verbose: false };
            let end = answers(client_id, start, results);
            end.0.connected ==> exists|j: int|
                0 <= j < end.1.commands.len() && #[trigger] end.1.commands[j] is Connect
        }),
    decreases results.len(),
{
    let start = ClientState { connected: false, verbose: false };
    if results.len() > 0 {
        lemma_connected_after_connect(client_id, results.drop_last());
        let before = answers(client_id, start, results.drop_last());
        let end = answers(client_id, start, results);
        let n = before.1.commands.len() as int;
        if end.0.connected {
            if before.0.connected {
                let j = choose|j: int|
                    0 <= j < n && #[trigger] before.1.commands[j] is Connect;
                assert(end.1.commands[j] == before.1.commands[j]);
            } else {
                assert(end.1.commands[n] is Connect);
            }
        }
    }
}

/// The answers to two runs of results, one after the other, are the
/// answers to the first run and then, from the state that it leaves, the
/// answers to the second.
proof fn lemma_answers_add(
    client_id: u32,
    state: ClientState,
    first: Seq<Result<CommandView, ParseError>>,
    second: Seq<Result<CommandView, ParseError>>,
)
    ensures
        ({
            let whole = answers(client_id, state, first + second);
            let head = answers(client_id, state, first);
            let tail = answers(client_id, head.0, second);
            &&& whole.0 == tail.0
            &&& whole.1.reply == head.1.reply + tail.1.reply
            &&& whole.1.commands == head.1.commands + tail.1.commands
            &&& !whole.1.stop
        }),
    decreases second.len(),
{
    let head = answers(client_id, state, first);
    if second.len() == 0 {
        assert(first + second =~= first);
        assert(head.1.reply + Seq::<char>::empty() =~= head.1.reply);
        assert(head.1.commands + Seq::<MainCommandView>::empty() =~= head.1.commands);
        lemma_answers_go_on(client_id, state, first);
    } else {
        lemma_answers_add(client_id, state, first, second.drop_last());
        assert((first + second).drop_last() =~= first + second.drop_last());
        let before = answers(client_id, head.0, second.drop_last());
        let last = answer(client_id, before.0, second.last());
        assert(head.1.reply + (before.1.reply + last.text) =~= head.1.reply + before.1.reply
            + last.text);
        if last.command is Some {
            assert(head.1.commands + before.1.commands.push(last.command->0) =~= (head.1.commands
                + before.1.commands).push(last.command->0));
        }
    }
}

/// Answers to results never end the handler.
proof fn lemma_answers_go_on(
    client_id: u32,
    state: ClientState,
    results: Seq<Result<CommandView, ParseError>>,
)
    ensures
        !answers(client_id, state, results).1.stop,
    decreases results.len(),
{
    if results.len() > 0 {
        lemma_answers_go_on(client_id, state, results.drop_last());
    }
}

/// Input that comes in two reads is answered as if it had come in one:
/// the handler is left in the same state, and what it writes and what it
/// sends to the router after the two reads, put together, is what it
/// writes and sends after the one.
pub proof fn lemma_input_fragments(before: ConnectionView, a: Seq<u8>, b: Seq<u8>)
    ensures
        ({
            let whole = react(before, EventView::Input(a + b));
            let first = react(before, EventView::Input(a));
            let second = react(first.0, EventView::Input(b));
            &&& whole.0 == second.0
            &&& whole.1.reply == first.1.reply + second.1.reply
            &&& whole.1.commands == first.1.commands + second.1.commands
            &&& !whole.1.stop
        }),
{
    lemma_feed_fragments(before.request, a, b);
    let fed = feed(before.request, a);
    lemma_answers_add(before.client_id, before.state, fed.0, feed(fed.1, b).0);
}

/// The frame of a message gives as its length the number of bytes that
/// were published: a payload of well-formed UTF-8 is handed on in a frame
/// whose header counts the bytes of that payload.
pub proof fn lemma_frame_counts_payload(
    payload: Seq<u8>,
    subject: Seq<char>,
    id: Seq<char>,
    msg: Seq<char>,
)
    requires
        utf8_text(payload) == Some(msg),
    ensures
        encode_utf8(msg) == payload,
        message_frame(subject, id, msg) == "MSG "@ + subject + " "@ + id + " "@ + decimal_spec(
            payload.len(),
        ) + "\r\n"@ + msg + "\n"@,
{
    decode_utf8_encode_utf8(payload);
}

} // verus!
