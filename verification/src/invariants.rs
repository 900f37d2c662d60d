//! What holds of the router's index whatever commands it deals with.

use vstd::prelude::*;

use crate::commands::MainCommandView;
use crate::server::{
    lemma_disconnect_symmetric, lemma_subscribe_symmetric, lemma_unsubscribe_symmetric, ServerView,
};

verus! {

/// Whatever command the router deals with, the mappings of the index
/// still mirror each other afterwards; and every client of the index is
/// still registered, unless the command subscribes a client that is not.
pub proof fn lemma_apply_keeps_index(before: ServerView, command: MainCommandView)
    requires
        before.symmetric(),
    ensures
        before.apply(command).symmetric(),
        before.clients_known() && !before.subscribes_stranger(command) ==> before.apply(
            command,
        ).clients_known(),
{
    match command {
        MainCommandView::Disconnect { client_id } => {
            lemma_disconnect_symmetric(before, client_id);
        },
        MainCommandView::Subscribe { client_id, subject, subscription_id } => {
            lemma_subscribe_symmetric(before, client_id, subject, subscription_id);
        },
        MainCommandView::Unsubscribe { client_id, subscription_id } => {
            lemma_unsubscribe_symmetric(before, client_id, subscription_id);
        },
        _ => {},
    }
}

impl ServerView {
    /// Ends the subscriptions of `client` under each of `ids`, one after
    /// the other.
    pub open spec fn unsubscribe_each(self, client: u32, ids: Seq<Seq<char>>) -> ServerView
        decreases ids.len(),
    {
        if ids.len() == 0 {
            self
        } else {
            self.unsubscribe(client, ids[0]).unsubscribe_each(client, ids.drop_first())
        }
    }

    /// Takes `client` out of the table of clients.
    pub open spec fn drop_client(self, client: u32) -> ServerView {
        ServerView { clients: self.clients.remove(client), ..self }
    }

    /// The state after `client` has unsubscribed under the ids of `done`,
    /// all of which it held.
    pub open spec fn unsubscribed(self, client: u32, done: Set<Seq<char>>) -> ServerView {
        ServerView {
            subject_to_id: self.subject_to_id.filter(
                |pair: (Seq<char>, Seq<char>)|
                    !(done.contains(pair.1) && self.only_client(client, pair.1)),
            ),
            id_to_subject: self.id_to_subject.filter(
                |pair: (Seq<char>, Seq<char>)|
                    !(done.contains(pair.0) && self.only_client(client, pair.0)),
            ),
            id_to_client: self.id_to_client.filter(
                |pair: (Seq<char>, u32)| !(pair.1 == client && done.contains(pair.0)),
            ),
            client_to_id: self.client_to_id.filter(
                |pair: (u32, Seq<char>)| !(pair.0 == client && done.contains(pair.1)),
            ),
            clients: self.clients,
        }
    }
}

/// One more unsubscription of `client`, under an id that it held at the
/// start, adds that id to those done.
proof fn lemma_unsubscribed_step(
    before: ServerView,
    client: u32,
    done: Set<Seq<char>>,
    id: Seq<char>,
)
    requires
        before.symmetric(),
        before.client_to_id.contains((client, id)),
    ensures
        before.unsubscribed(client, done).unsubscribe(client, id) == before.unsubscribed(
            client,
            done.insert(id),
        ),
{
    let now = before.unsubscribed(client, done);
    let parted = ServerView {
        id_to_client: now.id_to_client.remove((id, client)),
        client_to_id: now.client_to_id.remove((client, id)),
        ..now
    };
    if !parted.has_client(id) {
        assert forall|other: u32| before.id_to_client.contains((id, other)) implies other
            == client by {
            if other != client {
                assert(parted.id_to_client.contains((id, other)));
            }
        }
    }
}

/// Unsubscriptions of `client` under each of `rest`, all of which it held
/// at the start, add the ids of `rest` to those done.
proof fn lemma_unsubscribed_each(
    before: ServerView,
    client: u32,
    done: Set<Seq<char>>,
    rest: Seq<Seq<char>>,
)
    requires
        before.symmetric(),
        forall|k: int|
            0 <= k < rest.len() ==> before.client_to_id.contains((client, #[trigger] rest[k])),
    ensures
        before.unsubscribed(client, done).unsubscribe_each(client, rest) == before.unsubscribed(
            client,
            done + rest.to_set(),
        ),
    decreases rest.len(),
{
    if rest.len() > 0 {
        let tail = rest.drop_first();
        lemma_unsubscribed_step(before, client, done, rest[0]);
        lemma_unsubscribed_each(before, client, done.insert(rest[0]), tail);
        assert forall|id: Seq<char>| rest.contains(id) <==> id == rest[0] || tail.contains(id) by {
            if rest.contains(id) {
                let k = choose|k: int| 0 <= k < rest.len() && rest[k] == id;
                if k > 0 {
                    assert(tail[k - 1] == id);
                }
            }
        }
    }
}

/// A disconnection leaves the state that the client's unsubscription
/// under each of its subscription ids, followed by its removal from the
/// table of clients, would leave.
pub proof fn lemma_disconnect_is_unsubscriptions(
    before: ServerView,
    client: u32,
    ids: Seq<Seq<char>>,
)
    requires
        before.symmetric(),
        forall|id: Seq<char>| ids.contains(id) <==> before.client_to_id.contains((client, id)),
    ensures
        before.unsubscribe_each(client, ids).drop_client(client) == before.disconnect(client),
{
    let none = Set::<Seq<char>>::empty();
    assert(before.unsubscribed(client, none) =~= before);
    assert forall|k: int| 0 <= k < ids.len() implies before.client_to_id.contains(
        (client, #[trigger] ids[k]),
    ) by {
        assert(ids.contains(ids[k]));
    }
    lemma_unsubscribed_each(before, client, none, ids);
}

/// A registered client that subscribes to a subject under a subscription
/// id is a recipient of what is published on the subject, under that id.
pub proof fn lemma_subscriber_is_recipient(
    before: ServerView,
    client: u32,
    subject: Seq<char>,
    id: Seq<char>,
)
    requires
        before.clients.contains_key(client),
    ensures
        before.subscribe(client, subject, id).recipients(subject).contains((client, id)),
{
}

/// A client that has unsubscribed under a subscription id is a recipient
/// of nothing under that id, whatever the subject.
pub proof fn lemma_unsubscribed_is_no_recipient(
    before: ServerView,
    client: u32,
    id: Seq<char>,
    subject: Seq<char>,
)
    ensures
        !before.unsubscribe(client, id).recipients(subject).contains((client, id)),
{
}

/// A client that is gone is a recipient of nothing.
pub proof fn lemma_disconnected_is_no_recipient(
    before: ServerView,
    client: u32,
    subject: Seq<char>,
    id: Seq<char>,
)
    ensures
        !before.disconnect(client).recipients(subject).contains((client, id)),
{
}

} // verus!
