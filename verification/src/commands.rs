//! The commands of the protocol as the parser gives them, and the
//! messages that handlers and router send each other.

use vstd::prelude::*;

use crate::parser::ClientConnectOpts;

verus! {

/// One command of the wire protocol, as a client sends it.
#[derive(Debug, PartialEq, Eq)]
pub enum ClientCommand {
    /// Nothing: an empty line, or input that ends within a command.
    Noop,
    /// `CONNECT`, with the options of its argument.
    Connect(ClientConnectOpts),
    /// `PUB`: the message `msg` on `subject`.
    Pub { subject: String, msg: String },
    /// `SUB`: a subscription to `subject` under the subscription id `id`.
    Sub { subject: String, id: String },
    /// `UNSUB`: the end of the subscriptions under the subscription id `id`.
    Unsub { id: String },
    /// `PING`.
    Ping,
    /// `PONG`.
    Pong,
}

/// A [`ClientCommand`] with each text taken as its sequence of characters.
pub enum CommandView {
    Noop,
    Connect(ClientConnectOpts),
    Pub { subject: Seq<char>, msg: Seq<char> },
    Sub { subject: Seq<char>, id: Seq<char> },
    Unsub { id: Seq<char> },
    Ping,
    Pong,
}

impl View for ClientCommand {
    type V = CommandView;

    open spec fn view(&self) -> CommandView {
        match *self {
            ClientCommand::Noop => CommandView::Noop,
            ClientCommand::Connect(opts) => CommandView::Connect(opts),
            ClientCommand::Pub { subject, msg } => CommandView::Pub {
                subject: subject@,
                msg: msg@,
            },
            ClientCommand::Sub { subject, id } => CommandView::Sub { subject: subject@, id: id@ },
            ClientCommand::Unsub { id } => CommandView::Unsub { id: id@ },
            ClientCommand::Ping => CommandView::Ping,
            ClientCommand::Pong => CommandView::Pong,
        }
    }
}

/// A message to the router, or from the router to a client's mailbox.
#[derive(Debug, PartialEq, Eq)]
pub enum MainCommand {
    /// Nothing.
    Noop,
    /// A new connection: the router registers the client.
    InitClient { client_id: u32 },
    /// The client has sent a `CONNECT`.
    Connect { client_id: u32, client_connect_opts: ClientConnectOpts },
    /// The connection of the client is gone.
    Disconnect { client_id: u32 },
    /// The client subscribes to `subject` under `subscription_id`.
    Subscribe { client_id: u32, subject: String, subscription_id: String },
    /// The client ends its subscription under `subscription_id`.
    Unsubscribe { client_id: u32, subscription_id: String },
    /// A client publishes `msg` on `subject`.
    Publish { subject: String, msg: String },
    /// From the router to a subscriber: `msg` was published on `subject`,
    /// and the subscriber gets it under `subscription_id`.
    PublishedMessage { subject: String, msg: String, subscription_id: String },
    /// To the router: stop. From the router to a client: the broker stops.
    ShutDown,
}

/// A [`MainCommand`] with each text taken as its sequence of characters.
pub enum MainCommandView {
    Noop,
    InitClient { client_id: u32 },
    Connect { client_id: u32, client_connect_opts: ClientConnectOpts },
    Disconnect { client_id: u32 },
    Subscribe { client_id: u32, subject: Seq<char>, subscription_id: Seq<char> },
    Unsubscribe { client_id: u32, subscription_id: Seq<char> },
    Publish { subject: Seq<char>, msg: Seq<char> },
    PublishedMessage { subject: Seq<char>, msg: Seq<char>, subscription_id: Seq<char> },
    ShutDown,
}

impl View for MainCommand {
    type V = MainCommandView;

    open spec fn view(&self) -> MainCommandView {
        match *self {
            MainCommand::Noop => MainCommandView::Noop,
            MainCommand::InitClient { client_id } => MainCommandView::InitClient { client_id },
            MainCommand::Connect { client_id, client_connect_opts } => MainCommandView::Connect {
                client_id,
                client_connect_opts,
            },
            MainCommand::Disconnect { client_id } => MainCommandView::Disconnect { client_id },
            MainCommand::Subscribe {
                client_id,
                subject,
                subscription_id,
            } => MainCommandView::Subscribe {
                client_id,
                subject: subject@,
                subscription_id: subscription_id@,
            },
            MainCommand::Unsubscribe {
                client_id,
                subscription_id,
            } => MainCommandView::Unsubscribe { client_id, subscription_id: subscription_id@ },
            MainCommand::Publish { subject, msg } => MainCommandView::Publish {
                subject: subject@,
                msg: msg@,
            },
            MainCommand::PublishedMessage {
                subject,
                msg,
                subscription_id,
            } => MainCommandView::PublishedMessage {
                subject: subject@,
                msg: msg@,
                subscription_id: subscription_id@,
            },
            MainCommand::ShutDown => MainCommandView::ShutDown,
        }
    }
}

/// An event for the mailbox of one client.
#[derive(Debug, PartialEq, Eq)]
pub struct Delivery {
    /// The client whose mailbox the event is for.
    pub client_id: u32,
    /// The event.
    pub event: MainCommand,
}

impl View for Delivery {
    type V = (u32, MainCommandView);

    open spec fn view(&self) -> (u32, MainCommandView) {
        (self.client_id, self.event@)
    }
}

/// The views of a list of deliveries.
pub open spec fn delivery_views(deliveries: Seq<Delivery>) -> Seq<(u32, MainCommandView)> {
    Seq::new(deliveries.len(), |i: int| deliveries[i]@)
}

} // verus!
