//! The router: the subscription index, the table of clients, and what
//! each command does to them.

use std::collections::HashMap;
use vstd::prelude::*;

use crate::commands::{delivery_views, Delivery, MainCommand, MainCommandView};
use crate::parser::ClientConnectOpts;
use crate::relation::{mirrored, relates, token_views, Relation, Token};

verus! {

broadcast use vstd::std_specs::hash::group_hash_axioms;

/// What the router knows of one client.
#[derive(Debug, Clone, Copy, PartialEq, Eq, Structural)]
pub struct ClientState {
    /// Whether the client has sent a `CONNECT`.
    pub connected: bool,
    /// Whether the client asked for an acknowledgement of each command.
    pub verbose: bool,
}

impl Default for ClientState {
    fn default() -> (state: Self)
        ensures
            state == (ClientState { connected: false, verbose: false }),
    {
        ClientState { connected: false, verbose: false }
    }
}

/// The router's state as plain values: the four mappings of the
/// subscription index, each as the set of the pairs that it relates, and
/// the table of clients.
#[verifier::ext_equal]
pub struct ServerView {
    /// The subscription ids bound to each subject, as pairs `(subject, id)`.
    pub subject_to_id: Set<(Seq<char>, Seq<char>)>,
    /// The subjects bound to each subscription id, as pairs `(id, subject)`.
    pub id_to_subject: Set<(Seq<char>, Seq<char>)>,
    /// The clients of each subscription id, as pairs `(id, client)`.
    pub id_to_client: Set<(Seq<char>, u32)>,
    /// The subscription ids of each client, as pairs `(client, id)`.
    pub client_to_id: Set<(u32, Seq<char>)>,
    /// The registered clients.
    pub clients: Map<u32, ClientState>,
}

impl ServerView {
    /// The state of a router that has seen no command.
    pub open spec fn empty() -> ServerView {
        ServerView {
            subject_to_id: Set::empty(),
            id_to_subject: Set::empty(),
            id_to_client: Set::empty(),
            client_to_id: Set::empty(),
            clients: Map::empty(),
        }
    }

    /// Whether the subscription id `id` has any client.
    pub open spec fn has_client(self, id: Seq<char>) -> bool {
        relates(self.id_to_client, id)
    }

    /// The mappings mirror each other: subjects and subscription ids in
    /// both directions, subscription ids and clients in both directions;
    /// and a subscription id has a subject exactly if it has a client.
    pub open spec fn symmetric(self) -> bool {
        &&& mirrored(self.subject_to_id, self.id_to_subject)
        &&& mirrored(self.id_to_client, self.client_to_id)
        &&& forall|id: Seq<char>|
            relates(self.id_to_subject, id) <==> relates(self.id_to_client, id)
    }

    /// Every client that the index holds is registered.
    pub open spec fn clients_known(self) -> bool {
        &&& forall|id: Seq<char>, client: u32|
            self.id_to_client.contains((id, client)) ==> self.clients.contains_key(client)
        &&& forall|id: Seq<char>, client: u32|
            self.client_to_id.contains((client, id)) ==> self.clients.contains_key(client)
    }

    /// Registers `client`, not yet connected; an earlier registration of
    /// the same client is overwritten.
    pub open spec fn init_client(self, client: u32) -> ServerView {
        ServerView {
            clients: self.clients.insert(client, ClientState { connected: false, verbose: false }),
            ..self
        }
    }

    /// Marks `client` as connected, with the options given. Nothing
    /// changes where the client is not registered.
    pub open spec fn connect(self, client: u32, opts: ClientConnectOpts) -> ServerView {
        if self.clients.contains_key(client) {
            ServerView {
                clients: self.clients.insert(
                    client,
                    ClientState { connected: true, verbose: opts.verbose },
                ),
                ..self
            }
        } else {
            self
        }
    }

    /// Binds `id` to `subject` and to `client`, in all four mappings.
    pub open spec fn subscribe(self, client: u32, subject: Seq<char>, id: Seq<char>) -> ServerView {
        ServerView {
            subject_to_id: self.subject_to_id.insert((subject, id)),
            id_to_subject: self.id_to_subject.insert((id, subject)),
            id_to_client: self.id_to_client.insert((id, client)),
            client_to_id: self.client_to_id.insert((client, id)),
            clients: self.clients,
        }
    }

    /// Takes every binding of `id` to a subject out of the index.
    pub open spec fn forget(self, id: Seq<char>) -> ServerView {
        ServerView {
            subject_to_id: self.subject_to_id.filter(|pair: (Seq<char>, Seq<char>)| pair.1 != id),
            id_to_subject: self.id_to_subject.filter(|pair: (Seq<char>, Seq<char>)| pair.0 != id),
            ..self
        }
    }

    /// Ends the subscription of `client` under `id`. Where `id` is then
    /// left without a client, its bindings to subjects go too.
    pub open spec fn unsubscribe(self, client: u32, id: Seq<char>) -> ServerView {
        let parted = ServerView {
            id_to_client: self.id_to_client.remove((id, client)),
            client_to_id: self.client_to_id.remove((client, id)),
            ..self
        };
        if parted.has_client(id) {
            parted
        } else {
            parted.forget(id)
        }
    }

    /// Whether `client` is the one client of the subscription id `id`.
    pub open spec fn only_client(self, client: u32, id: Seq<char>) -> bool {
        &&& self.id_to_client.contains((id, client))
        &&& forall|other: u32| self.id_to_client.contains((id, other)) ==> other == client
    }

    /// Takes `client` out of the table and out of the index. A
    /// subscription id that is left without a client loses its bindings to
    /// subjects too.
    pub open spec fn disconnect(self, client: u32) -> ServerView {
        ServerView {
            subject_to_id: self.subject_to_id.filter(
                |pair: (Seq<char>, Seq<char>)| !self.only_client(client, pair.1),
            ),
            id_to_subject: self.id_to_subject.filter(
                |pair: (Seq<char>, Seq<char>)| !self.only_client(client, pair.0),
            ),
            id_to_client: self.id_to_client.filter(|pair: (Seq<char>, u32)| pair.1 != client),
            client_to_id: self.client_to_id.filter(|pair: (u32, Seq<char>)| pair.0 != client),
            clients: self.clients.remove(client),
        }
    }

    /// The clients that a message on `subject` is for, each with the
    /// subscription id under which it gets the message: the clients of the
    /// ids bound to the subject, as far as they are registered.
    pub open spec fn recipients(self, subject: Seq<char>) -> Set<(u32, Seq<char>)> {
        Set::new(
            |to: (u32, Seq<char>)|
                {
                    &&& self.subject_to_id.contains((subject, to.1))
                    &&& self.id_to_client.contains((to.1, to.0))
                    &&& self.clients.contains_key(to.0)
                },
        )
    }

    /// The deliveries that a message `msg` on `subject` is owed: one to
    /// each recipient under each of its subscription ids.
    pub open spec fn published(self, subject: Seq<char>, msg: Seq<char>) -> Set<
        (u32, MainCommandView),
    > {
        Set::new(
            |d: (u32, MainCommandView)|
                exists|id: Seq<char>|
                    self.recipients(subject).contains((d.0, id)) && d.1 == published_message(
                        subject,
                        msg,
                        id,
                    ),
        )
    }

    /// The notice of the shutdown, to every registered client.
    pub open spec fn shutdown(self) -> Set<(u32, MainCommandView)> {
        Set::new(
            |d: (u32, MainCommandView)|
                self.clients.contains_key(d.0) && d.1 == MainCommandView::ShutDown,
        )
    }

    /// The state after the router has dealt with `command`.
    pub open spec fn apply(self, command: MainCommandView) -> ServerView {
        match command {
            MainCommandView::InitClient { client_id } => self.init_client(client_id),
            MainCommandView::Connect { client_id, client_connect_opts } => self.connect(
                client_id,
                client_connect_opts,
            ),
            MainCommandView::Disconnect { client_id } => self.disconnect(client_id),
            MainCommandView::Subscribe { client_id, subject, subscription_id } => self.subscribe(
                client_id,
                subject,
                subscription_id,
            ),
            MainCommandView::Unsubscribe { client_id, subscription_id } => self.unsubscribe(
                client_id,
                subscription_id,
            ),
            _ => self,
        }
    }

    /// The deliveries that the router owes on `command`.
    pub open spec fn outbound(self, command: MainCommandView) -> Set<(u32, MainCommandView)> {
        match command {
            MainCommandView::Publish { subject, msg } => self.published(subject, msg),
            MainCommandView::ShutDown => self.shutdown(),
            _ => Set::empty(),
        }
    }

    /// Whether any of the four mappings holds the subscription id `id`.
    pub open spec fn mentions_id(self, id: Seq<char>) -> bool {
        ||| exists|subject: Seq<char>| self.subject_to_id.contains((subject, id))
        ||| exists|subject: Seq<char>| self.id_to_subject.contains((id, subject))
        ||| exists|client: u32| self.id_to_client.contains((id, client))
        ||| exists|client: u32| self.client_to_id.contains((client, id))
    }

    /// Whether `command` subscribes a client that is not registered.
    pub open spec fn subscribes_stranger(self, command: MainCommandView) -> bool {
        match command {
            MainCommandView::Subscribe { client_id, .. } => !self.clients.contains_key(client_id),
            _ => false,
        }
    }

    /// Whether any of the four mappings holds the client `client`.
    pub open spec fn mentions_client(self, client: u32) -> bool {
        ||| exists|id: Seq<char>| self.id_to_client.contains((id, client))
        ||| exists|id: Seq<char>| self.client_to_id.contains((client, id))
    }
}

/// The event that hands `msg` on `subject` to a client under the
/// subscription id `id`.
pub open spec fn published_message(
    subject: Seq<char>,
    msg: Seq<char>,
    id: Seq<char>,
) -> MainCommandView {
    MainCommandView::PublishedMessage { subject, msg, subscription_id: id }
}

/// What the router does on one command: the events that it sends, and
/// whether it stops.
#[derive(Debug, PartialEq, Eq)]
pub struct Dispatch {
    /// The events to put into the mailboxes of clients, each once.
    pub deliveries: Vec<Delivery>,
    /// Whether the router is to stop.
    pub stop: bool,
}

/// The clients that a list of deliveries is for.
pub open spec fn addressees(deliveries: Seq<(u32, MainCommandView)>) -> Seq<u32> {
    Seq::new(deliveries.len(), |i: int| deliveries[i].0)
}

/// The router: the subscription index and the table of clients.
pub struct Server {
    subscription_subject_to_id: Relation<String, String>,
    subscription_id_to_subject: Relation<String, String>,
    subscription_id_to_client_id: Relation<String, u32>,
    client_id_to_subscription_id: Relation<u32, String>,
    clients: HashMap<u32, ClientState>,
}

impl View for Server {
    type V = ServerView;

    closed spec fn view(&self) -> ServerView {
        ServerView {
            subject_to_id: self.subscription_subject_to_id@,
            id_to_subject: self.subscription_id_to_subject@,
            id_to_client: self.subscription_id_to_client_id@,
            client_to_id: self.client_id_to_subscription_id@,
            clients: self.clients@,
        }
    }
}

impl Server {
    /// What the router keeps true of itself between commands: each mapping
    /// is well formed, and the mappings mirror each other.
    pub closed spec fn wf(&self) -> bool {
        &&& self.subscription_subject_to_id.wf()
        &&& self.subscription_id_to_subject.wf()
        &&& self.subscription_id_to_client_id.wf()
        &&& self.client_id_to_subscription_id.wf()
        &&& self@.symmetric()
    }

    /// In a well-formed router the mappings mirror each other.
    pub proof fn lemma_wf_symmetric(&self)
        requires
            self.wf(),
        ensures
            self@.symmetric(),
    {
    }

    /// A router with no client and no subscription.
    pub fn new() -> (server: Server)
        ensures
            server.wf(),
            server@ == ServerView::empty(),
            server@.clients_known(),
    {
        Server {
            subscription_subject_to_id: Relation::new(),
            subscription_id_to_subject: Relation::new(),
            subscription_id_to_client_id: Relation::new(),
            client_id_to_subscription_id: Relation::new(),
            clients: HashMap::new(),
        }
    }

    /// What the router knows of the client `client_id`, if it is
    /// registered.
    pub fn client_state(&self, client_id: u32) -> (state: Option<ClientState>)
        ensures
            state == (if self@.clients.contains_key(client_id) {
                Some(self@.clients[client_id])
            } else {
                None
            }),
    {
        match self.clients.get(&client_id) {
            Some(state) => Some(*state),
            None => None,
        }
    }

    /// Whether any subscription id is bound to `subject`.
    pub fn has_subject(&self, subject: &String) -> (found: bool)
        requires
            self.wf(),
        ensures
            found == relates(self@.subject_to_id, subject@),
    {
        self.subscription_subject_to_id.contains_key(subject)
    }

    /// Whether any of the four mappings holds `subscription_id`.
    pub fn has_subscription(&self, subscription_id: &String) -> (found: bool)
        requires
            self.wf(),
        ensures
            found == self@.mentions_id(subscription_id@),
    {
        let found = self.subscription_id_to_client_id.contains_key(subscription_id);
        proof {
            let view = self@;
            let id = subscription_id@;
            if view.mentions_id(id) && !relates(view.id_to_client, id) {
                if exists|subject: Seq<char>| view.subject_to_id.contains((subject, id)) {
                } else if exists|subject: Seq<char>| view.id_to_subject.contains((id, subject)) {
                }
            }
        }
        found
    }

    /// Whether the index holds the client `client_id`.
    pub fn has_client(&self, client_id: u32) -> (found: bool)
        requires
            self.wf(),
        ensures
            found == self@.mentions_client(client_id),
    {
        let found = self.client_id_to_subscription_id.contains_key(&client_id);
        found
    }

    /// Registers the client `client_id`.
    pub fn process_init_client(&mut self, client_id: u32)
        requires
            old(self).wf(),
        ensures
            final(self).wf(),
            final(self)@ == old(self)@.init_client(client_id),
            old(self)@.clients_known() ==> final(self)@.clients_known(),
    {
        self.clients.insert(client_id, ClientState::default());
    }

    /// Marks the client `client_id` as connected.
    pub fn process_connect(&mut self, client_id: u32, client_connect_opts: ClientConnectOpts)
        requires
            old(self).wf(),
        ensures
            final(self).wf(),
            final(self)@ == old(self)@.connect(client_id, client_connect_opts),
            old(self)@.clients_known() ==> final(self)@.clients_known(),
    {
        if self.clients.contains_key(&client_id) {
            self.clients.insert(
                client_id,
                ClientState { connected: true, verbose: client_connect_opts.verbose },
            );
        }
    }

    /// Subscribes the client `client_id` to `subject` under
    /// `subscription_id`.
    pub fn process_subscribe(&mut self, client_id: u32, subject: String, subscription_id: String)
        requires
            old(self).wf(),
        ensures
            final(self).wf(),
            final(self)@ == old(self)@.subscribe(client_id, subject@, subscription_id@),
            old(self)@.clients_known() && old(self)@.clients.contains_key(client_id)
                ==> final(self)@.clients_known(),
    {
        insert_to_subscription_map(
            &mut self.subscription_subject_to_id,
            subject.clone(),
            subscription_id.clone(),
        );
        insert_to_subscription_map(
            &mut self.subscription_id_to_subject,
            subscription_id.clone(),
            subject,
        );
        insert_to_subscription_map(
            &mut self.subscription_id_to_client_id,
            subscription_id.clone(),
            client_id,
        );
        insert_to_subscription_map(
            &mut self.client_id_to_subscription_id,
            client_id,
            subscription_id,
        );
        proof {
            lemma_subscribe_symmetric(old(self)@, client_id, subject@, subscription_id@);
        }
    }

    /// Ends the subscription of the client `client_id` under
    /// `subscription_id`.
    pub fn process_unsubscribe(&mut self, client_id: u32, subscription_id: String)
        requires
            old(self).wf(),
        ensures
            final(self).wf(),
            final(self)@ == old(self)@.unsubscribe(client_id, subscription_id@),
            old(self)@.clients_known() ==> final(self)@.clients_known(),
    {
        self.client_id_to_subscription_id.remove(&client_id, &subscription_id);
        let emptied = self.subscription_id_to_client_id.remove(&subscription_id, &client_id);
        if emptied {
            forget_subscription(
                &mut self.subscription_subject_to_id,
                &mut self.subscription_id_to_subject,
                &subscription_id,
            );
        }
        proof {
            lemma_unsubscribe_symmetric(old(self)@, client_id, subscription_id@);
        }
    }

    /// Lists the deliveries of the message `msg` on `subject`: one for each
    /// registered client of each subscription id bound to the subject.
    pub fn process_publish(&self, subject: String, msg: String) -> (deliveries: Vec<Delivery>)
        requires
            self.wf(),
        ensures
            delivery_views(deliveries@).no_duplicates(),
            delivery_views(deliveries@).to_set() == self@.published(subject@, msg@),
    {
        let mut deliveries: Vec<Delivery> = Vec::new();
        let ghost view = self@;
        let ghost ids = Seq::<Seq<char>>::empty();
        match self.subscription_subject_to_id.get(&subject) {
            Some(bound) => {
                let id_items = bound.items();
                proof {
                    ids = token_views(id_items@);
                    assert forall|id: Seq<char>| ids.contains(id) <==> view.subject_to_id.contains(
                        (subject@, id),
                    ) by {
                        assert(ids.contains(id) <==> ids.to_set().contains(id));
                    }
                }
                let mut i: usize = 0;
                while i < id_items.len()
                    invariant
                        i <= id_items.len(),
                        self.wf(),
                        view == self@,
                        ids == token_views(id_items@),
                        ids.no_duplicates(),
                        delivery_views(deliveries@).no_duplicates(),
                        delivery_views(deliveries@).to_set() == view.published_first(
                            subject@,
                            msg@,
                            ids,
                            i as int,
                        ),
                    decreases id_items.len() - i,
                {
                    let id = &id_items[i];
                    let ghost clients = Seq::<u32>::empty();
                    match self.subscription_id_to_client_id.get(id) {
                        Some(held) => {
                            let client_items = held.items();
                            proof {
                                clients = token_views(client_items@);
                                assert forall|client: u32|
                                    clients.contains(client) <==> view.id_to_client.contains(
                                        (id@, client),
                                    ) by {
                                    assert(clients.contains(client) <==> clients.to_set().contains(
                                        client,
                                    ));
                                }
                            }
                            let mut j: usize = 0;
                            while j < client_items.len()
                                invariant
                                    j <= client_items.len(),
                                    i < ids.len(),
                                    view == self@,
                                    ids.no_duplicates(),
                                    ids[i as int] == id@,
                                    clients == token_views(client_items@),
                                    clients.no_duplicates(),
                                    delivery_views(deliveries@).no_duplicates(),
                                    delivery_views(deliveries@).to_set() == view.published_first(
                                        subject@,
                                        msg@,
                                        ids,
                                        i as int,
                                    ) + view.published_to(subject@, msg@, id@, clients, j as int),
                                decreases client_items.len() - j,
                            {
                                let client = client_items[j];
                                proof {
                                    lemma_published_to_next(
                                        view,
                                        subject@,
                                        msg@,
                                        ids,
                                        i as int,
                                        clients,
                                        j as int,
                                    );
                                }
                                if self.clients.contains_key(&client) {
                                    let ghost before = delivery_views(deliveries@);
                                    deliveries.push(
                                        Delivery {
                                            client_id: client,
                                            event: MainCommand::PublishedMessage {
                                                subject: subject.clone(),
                                                msg: msg.clone(),
                                                subscription_id: id.clone(),
                                            },
                                        },
                                    );
                                    proof {
                                        let d = (client, published_message(subject@, msg@, id@));
                                        assert(delivery_views(deliveries@) =~= before.push(d));
                                        assert(!before.to_set().contains(d));
                                        before.lemma_push_to_set_commute(d);
                                    }
                                }
                                j += 1;
                            }
                        },
                        None => {},
                    }
                    proof {
                        lemma_published_first_next(
                            view,
                            subject@,
                            msg@,
                            ids,
                            i as int,
                            clients,
                        );
                    }
                    i += 1;
                }
            },
            None => {},
        }
        proof {
            lemma_published_first_all(view, subject@, msg@, ids);
        }
        deliveries
    }

    /// Lists the notice of the shutdown for every registered client.
    pub fn process_shutdown(&self) -> (deliveries: Vec<Delivery>)
        ensures
            delivery_views(deliveries@).no_duplicates(),
            delivery_views(deliveries@).to_set() == self@.shutdown(),
    {
        let mut deliveries: Vec<Delivery> = Vec::new();
        for client in iter: self.clients.keys()
            invariant
                iter.seq().unref().no_duplicates(),
                iter.seq().unref().to_set() == self.clients@.dom(),
                addressees(delivery_views(deliveries@)) == iter.seq().unref().take(
                    iter.index() as int,
                ),
                iter.index() == iter.seq().len() ==> addressees(delivery_views(deliveries@))
                    == iter.seq().unref(),
                forall|k: int|
                    0 <= k < deliveries.len() ==> (#[trigger] delivery_views(deliveries@)[k]).1
                        == MainCommandView::ShutDown,
        {
            let ghost before = delivery_views(deliveries@);
            deliveries.push(Delivery { client_id: *client, event: MainCommand::ShutDown });
            proof {
                let after = delivery_views(deliveries@);
                assert(after =~= before.push((*client, MainCommandView::ShutDown)));
                assert(addressees(after) =~= addressees(before).push(*client));
            }
        }
        proof {
            let out = delivery_views(deliveries@);
            let keys = addressees(out);
            assert forall|a: int, b: int| 0 <= a < out.len() && 0 <= b < out.len() && a
                != b implies out[a] != out[b] by {
                assert(keys[a] != keys[b]);
            }
            assert forall|d: (u32, MainCommandView)| out.contains(d) <==> self@.shutdown().contains(
                d,
            ) by {
                if out.contains(d) {
                    let k = choose|k: int| 0 <= k < out.len() && out[k] == d;
                    assert(keys[k] == d.0);
                }
            }
        }
        deliveries
    }

    /// Deals with one command from the router's queue: changes the state as
    /// the command asks, and returns the deliveries that it owes and
    /// whether the router is to stop, which it is after `ShutDown`.
    pub fn process_rx(&mut self, command: MainCommand) -> (step: Dispatch)
        requires
            old(self).wf(),
        ensures
            final(self).wf(),
            final(self)@ == old(self)@.apply(command@),
            step.stop == (command@ is ShutDown),
            delivery_views(step.deliveries@).no_duplicates(),
            delivery_views(step.deliveries@).to_set() == old(self)@.outbound(command@),
            old(self)@.clients_known() && !old(self)@.subscribes_stranger(command@)
                ==> final(self)@.clients_known(),
    {
        let mut stop = false;
        let deliveries = match command {
            MainCommand::Noop => Vec::new(),
            MainCommand::InitClient { client_id } => {
                self.process_init_client(client_id);
                Vec::new()
            },
            MainCommand::Connect { client_id, client_connect_opts } => {
                self.process_connect(client_id, client_connect_opts);
                Vec::new()
            },
            MainCommand::Disconnect { client_id } => {
                self.process_disconnect(client_id);
                Vec::new()
            },
            MainCommand::Subscribe { client_id, subject, subscription_id } => {
                self.process_subscribe(client_id, subject, subscription_id);
                Vec::new()
            },
            MainCommand::Unsubscribe { client_id, subscription_id } => {
                self.process_unsubscribe(client_id, subscription_id);
                Vec::new()
            },
            MainCommand::Publish { subject, msg } => self.process_publish(subject, msg),
            MainCommand::PublishedMessage { .. } => Vec::new(),
            MainCommand::ShutDown => {
                stop = true;
                self.process_shutdown()
            },
        };
        Dispatch { deliveries, stop }
    }

    /// Takes the client `client_id` out of the table and out of the index.
    pub fn process_disconnect(&mut self, client_id: u32)
        requires
            old(self).wf(),
        ensures
            final(self).wf(),
            final(self)@ == old(self)@.disconnect(client_id),
            old(self)@.clients_known() ==> final(self)@.clients_known(),
            !final(self)@.mentions_client(client_id),
    {
        let ghost before = self@;
        self.clients.remove(&client_id);
        match self.client_id_to_subscription_id.get(&client_id) {
            Some(ids) => {
                let items = ids.items();
                let ghost names = token_views(items@);
                let mut i: usize = 0;
                while i < items.len()
                    invariant
                        i <= items.len(),
                        names == token_views(items@),
                        names.to_set() == Set::new(
                            |id: Seq<char>| before.client_to_id.contains((client_id, id)),
                        ),
                        before.symmetric(),
                        self.subscription_subject_to_id.wf(),
                        self.subscription_id_to_subject.wf(),
                        self.subscription_id_to_client_id.wf(),
                        self.client_id_to_subscription_id.wf(),
                        self@ == before.disconnect_first(client_id, names, i as int),
                    decreases items.len() - i,
                {
                    let id = &items[i];
                    let emptied = self.subscription_id_to_client_id.remove(id, &client_id);
                    proof {
                        lemma_disconnect_step(before, client_id, names, i as int);
                    }
                    if emptied {
                        forget_subscription(
                            &mut self.subscription_subject_to_id,
                            &mut self.subscription_id_to_subject,
                            id,
                        );
                    }
                    i += 1;
                }
                proof {
                    lemma_disconnect_all(before, client_id, names);
                }
            },
            None => {
                proof {
                    let none = Seq::<Seq<char>>::empty();
                    assert(none.to_set() =~= Set::new(
                        |id: Seq<char>| before.client_to_id.contains((client_id, id)),
                    ));
                    lemma_disconnect_all(before, client_id, none);
                }
            },
        }
        self.client_id_to_subscription_id.remove_key(&client_id);
        proof {
            lemma_disconnect_symmetric(before, client_id);
        }
    }
}

impl ServerView {
    /// Whether `d` hands the message to a registered client of the
    /// subscription id `id`.
    pub open spec fn owes(
        self,
        subject: Seq<char>,
        msg: Seq<char>,
        id: Seq<char>,
        d: (u32, MainCommandView),
    ) -> bool {
        &&& d.1 == published_message(subject, msg, id)
        &&& self.id_to_client.contains((id, d.0))
        &&& self.clients.contains_key(d.0)
    }

    /// The deliveries owed under the first `n` of the subscription ids
    /// `ids`.
    pub open spec fn published_first(
        self,
        subject: Seq<char>,
        msg: Seq<char>,
        ids: Seq<Seq<char>>,
        n: int,
    ) -> Set<(u32, MainCommandView)> {
        Set::new(
            |d: (u32, MainCommandView)|
                exists|k: int| 0 <= k < n && self.owes(subject, msg, #[trigger] ids[k], d),
        )
    }

    /// The deliveries under the subscription id `id` to the registered
    /// ones of the first `n` of `clients`.
    pub open spec fn published_to(
        self,
        subject: Seq<char>,
        msg: Seq<char>,
        id: Seq<char>,
        clients: Seq<u32>,
        n: int,
    ) -> Set<(u32, MainCommandView)> {
        Set::new(
            |d: (u32, MainCommandView)|
                {
                    &&& d.1 == published_message(subject, msg, id)
                    &&& self.clients.contains_key(d.0)
                    &&& exists|l: int| 0 <= l < n && #[trigger] clients[l] == d.0
                },
        )
    }

    /// The state of a disconnection of `client` that has dealt with the
    /// first `n` of the subscription ids `ids`: the client has left the
    /// table and the clients of those ids, and those of them that it leaves
    /// without a client have lost their subjects.
    pub open spec fn disconnect_first(
        self,
        client: u32,
        ids: Seq<Seq<char>>,
        n: int,
    ) -> ServerView {
        let done = ids.take(n);
        ServerView {
            subject_to_id: self.subject_to_id.filter(
                |pair: (Seq<char>, Seq<char>)|
                    !(done.contains(pair.1) && self.only_client(client, pair.1)),
            ),
            id_to_subject: self.id_to_subject.filter(
                |pair: (Seq<char>, Seq<char>)|
                    !(done.contains(pair.0) && self.only_client(client, pair.0)),
            ),
            id_to_client: self.id_to_client.filter(
                |pair: (Seq<char>, u32)| !(pair.1 == client && done.contains(pair.0)),
            ),
            client_to_id: self.client_to_id,
            clients: self.clients.remove(client),
        }
    }
}

/// The next client of a subscription id: if it is registered, it is owed
/// one delivery more, which is none of those listed so far; if it is not,
/// it is owed nothing.
proof fn lemma_published_to_next(
    view: ServerView,
    subject: Seq<char>,
    msg: Seq<char>,
    ids: Seq<Seq<char>>,
    i: int,
    clients: Seq<u32>,
    j: int,
)
    requires
        0 <= i < ids.len(),
        ids.no_duplicates(),
        0 <= j < clients.len(),
        clients.no_duplicates(),
    ensures
        ({
            let so_far = view.published_to(subject, msg, ids[i], clients, j);
            let next = view.published_to(subject, msg, ids[i], clients, j + 1);
            let d = (clients[j], published_message(subject, msg, ids[i]));
            &&& !so_far.contains(d)
            &&& !view.published_first(subject, msg, ids, i).contains(d)
            &&& view.clients.contains_key(clients[j]) ==> next == so_far.insert(d)
            &&& !view.clients.contains_key(clients[j]) ==> next == so_far
        }),
{
    let so_far = view.published_to(subject, msg, ids[i], clients, j);
    let next = view.published_to(subject, msg, ids[i], clients, j + 1);
    let d = (clients[j], published_message(subject, msg, ids[i]));
    assert forall|x: (u32, MainCommandView)|
        next.contains(x) <==> so_far.contains(x) || (x == d && view.clients.contains_key(
            clients[j],
        )) by {
        if next.contains(x) {
            let l = choose|l: int| 0 <= l < j + 1 && #[trigger] clients[l] == x.0;
            assert(l < j || x == d);
        }
    }
    if view.clients.contains_key(clients[j]) {
        assert(next =~= so_far.insert(d));
    } else {
        assert(next =~= so_far);
    }
}

/// The next subscription id of a subject: once its clients are dealt with,
/// all the deliveries under the first ids and this one are listed. `clients`
/// holds the clients of the id, each once, or nothing where it has none.
proof fn lemma_published_first_next(
    view: ServerView,
    subject: Seq<char>,
    msg: Seq<char>,
    ids: Seq<Seq<char>>,
    i: int,
    clients: Seq<u32>,
)
    requires
        0 <= i < ids.len(),
        forall|client: u32|
            clients.contains(client) <==> view.id_to_client.contains((ids[i], client)),
    ensures
        view.published_first(subject, msg, ids, i + 1) == view.published_first(
            subject,
            msg,
            ids,
            i,
        ) + view.published_to(subject, msg, ids[i], clients, clients.len() as int),
{
    let here = view.published_first(subject, msg, ids, i);
    let next = view.published_first(subject, msg, ids, i + 1);
    let last = view.published_to(subject, msg, ids[i], clients, clients.len() as int);
    assert forall|d: (u32, MainCommandView)| next.contains(d) <==> here.contains(d)
        || last.contains(d) by {
        if next.contains(d) {
            let k = choose|k: int| 0 <= k < i + 1 && view.owes(subject, msg, #[trigger] ids[k], d);
            if k == i {
                assert(clients.contains(d.0));
            }
        }
        if here.contains(d) {
            let k = choose|k: int| 0 <= k < i && view.owes(subject, msg, #[trigger] ids[k], d);
            assert(view.owes(subject, msg, ids[k], d));
        }
        if last.contains(d) {
            let l = choose|l: int| 0 <= l < clients.len() && #[trigger] clients[l] == d.0;
            assert(clients.contains(d.0));
            assert(view.owes(subject, msg, ids[i], d));
        }
    }
    assert(next =~= here + last);
}

/// The deliveries under all the subscription ids of a subject are the
/// deliveries that a message on the subject is owed. `ids` holds the ids
/// bound to the subject, each once, or nothing where none is bound to it.
proof fn lemma_published_first_all(
    view: ServerView,
    subject: Seq<char>,
    msg: Seq<char>,
    ids: Seq<Seq<char>>,
)
    requires
        forall|id: Seq<char>| ids.contains(id) <==> view.subject_to_id.contains((subject, id)),
    ensures
        view.published_first(subject, msg, ids, ids.len() as int) == view.published(subject, msg),
{
    let all = view.published_first(subject, msg, ids, ids.len() as int);
    assert forall|d: (u32, MainCommandView)| all.contains(d) <==> view.published(
        subject,
        msg,
    ).contains(d) by {
        if all.contains(d) {
            let k = choose|k: int|
                0 <= k < ids.len() && view.owes(subject, msg, #[trigger] ids[k], d);
            assert(ids.contains(ids[k]));
            assert(view.recipients(subject).contains((d.0, ids[k])));
        }
        if view.published(subject, msg).contains(d) {
            let id = choose|id: Seq<char>|
                view.recipients(subject).contains((d.0, id)) && d.1 == published_message(
                    subject,
                    msg,
                    id,
                );
            assert(ids.contains(id));
            let k = choose|k: int| 0 <= k < ids.len() && ids[k] == id;
            assert(view.owes(subject, msg, ids[k], d));
        }
    }
    assert(all =~= view.published(subject, msg));
}

/// What the next subscription id of a disconnection finds: once the client
/// has left its clients, the id is without a client exactly if the client
/// was its only one, and the two mappings between subjects and ids still
/// mirror each other. Dealing with it gives the state of one id more.
proof fn lemma_disconnect_step(before: ServerView, client: u32, ids: Seq<Seq<char>>, n: int)
    requires
        before.symmetric(),
        0 <= n < ids.len(),
        ids.to_set() == Set::new(|id: Seq<char>| before.client_to_id.contains((client, id))),
    ensures
        ({
            let now = before.disconnect_first(client, ids, n);
            let next = before.disconnect_first(client, ids, n + 1);
            let parted = now.id_to_client.remove((ids[n], client));
            &&& mirrored(now.subject_to_id, now.id_to_subject)
            &&& relates(parted, ids[n]) <==> !before.only_client(client, ids[n])
            &&& next.id_to_client == parted
            &&& before.only_client(client, ids[n]) ==> {
                &&& next.subject_to_id == now.subject_to_id.filter(
                    |pair: (Seq<char>, Seq<char>)| pair.1 != ids[n],
                )
                &&& next.id_to_subject == now.id_to_subject.filter(
                    |pair: (Seq<char>, Seq<char>)| pair.0 != ids[n],
                )
            }
            &&& !before.only_client(client, ids[n]) ==> {
                &&& next.subject_to_id == now.subject_to_id
                &&& next.id_to_subject == now.id_to_subject
            }
        }),
{
    let id = ids[n];
    let now = before.disconnect_first(client, ids, n);
    let parted = now.id_to_client.remove((id, client));
    let short = ids.take(n);
    let long = ids.take(n + 1);
    assert forall|x: Seq<char>| long.contains(x) <==> short.contains(x) || x == id by {
        assert(long[n] == id);
    }
    assert(ids.to_set().contains(id));
    if !before.only_client(client, id) {
        let other = choose|other: u32| before.id_to_client.contains((id, other)) && other != client;
        assert(parted.contains((id, other)));
    }
}

/// A disconnection that has dealt with all the subscription ids of the
/// client has only the client's own ids left to drop.
proof fn lemma_disconnect_all(before: ServerView, client: u32, ids: Seq<Seq<char>>)
    requires
        before.symmetric(),
        ids.to_set() == Set::new(|id: Seq<char>| before.client_to_id.contains((client, id))),
    ensures
        ({
            let last = before.disconnect_first(client, ids, ids.len() as int);
            let after = before.disconnect(client);
            &&& last.subject_to_id == after.subject_to_id
            &&& last.id_to_subject == after.id_to_subject
            &&& last.id_to_client == after.id_to_client
            &&& last.clients == after.clients
            &&& last.client_to_id.filter(|pair: (u32, Seq<char>)| pair.0 != client)
                == after.client_to_id
        }),
{
    assert(ids.take(ids.len() as int) =~= ids);
    assert forall|id: Seq<char>| ids.contains(id) <==> before.id_to_client.contains(
        (id, client),
    ) by {
        assert(ids.contains(id) <==> ids.to_set().contains(id));
    }
}

/// A disconnection keeps the mappings mirrored, keeps every client of the
/// index registered, and leaves no trace of the client in the index.
pub proof fn lemma_disconnect_symmetric(before: ServerView, client: u32)
    requires
        before.symmetric(),
    ensures
        before.disconnect(client).symmetric(),
        before.clients_known() ==> before.disconnect(client).clients_known(),
        !before.disconnect(client).mentions_client(client),
{
    let after = before.disconnect(client);
    assert forall|id: Seq<char>|
        relates(after.id_to_subject, id) <==> relates(after.id_to_client, id) by {
        if relates(after.id_to_subject, id) {
            assert(relates(before.id_to_subject, id));
            let c = choose|c: u32| before.id_to_client.contains((id, c));
            if c == client {
                let other = choose|other: u32|
                    before.id_to_client.contains((id, other)) && other != client;
                assert(after.id_to_client.contains((id, other)));
            } else {
                assert(after.id_to_client.contains((id, c)));
            }
        }
        if relates(after.id_to_client, id) {
            assert(relates(before.id_to_client, id));
            let s = choose|s: Seq<char>| before.id_to_subject.contains((id, s));
            assert(after.id_to_subject.contains((id, s)));
        }
    }
}

/// An unsubscription keeps the mappings mirrored.
pub proof fn lemma_unsubscribe_symmetric(before: ServerView, client: u32, id: Seq<char>)
    requires
        before.symmetric(),
    ensures
        before.unsubscribe(client, id).symmetric(),
{
    let after = before.unsubscribe(client, id);
    let parted = ServerView {
        id_to_client: before.id_to_client.remove((id, client)),
        client_to_id: before.client_to_id.remove((client, id)),
        ..before
    };
    assert forall|other: Seq<char>|
        relates(after.id_to_subject, other) <==> relates(after.id_to_client, other) by {
        if other != id {
            if relates(after.id_to_subject, other) {
                assert(relates(before.id_to_subject, other));
                let c = choose|c: u32| before.id_to_client.contains((other, c));
                assert(after.id_to_client.contains((other, c)));
            }
            if relates(after.id_to_client, other) {
                assert(relates(before.id_to_client, other));
                let s = choose|s: Seq<char>| before.id_to_subject.contains((other, s));
                assert(after.id_to_subject.contains((other, s)));
            }
        } else if parted.has_client(id) {
        }
    }
}

/// When the last client of a subscription id unsubscribes, the id leaves
/// all four mappings.
pub proof fn lemma_unsubscribe_last_client(before: ServerView, client: u32, id: Seq<char>)
    requires
        before.symmetric(),
        forall|other: u32| before.id_to_client.contains((id, other)) ==> other == client,
    ensures
        !before.unsubscribe(client, id).mentions_id(id),
{
}

/// A subscription keeps the mappings mirrored.
pub proof fn lemma_subscribe_symmetric(
    before: ServerView,
    client: u32,
    subject: Seq<char>,
    id: Seq<char>,
)
    requires
        before.symmetric(),
    ensures
        before.subscribe(client, subject, id).symmetric(),
{
    let after = before.subscribe(client, subject, id);
    assert(after.id_to_subject.contains((id, subject)));
    assert(after.id_to_client.contains((id, client)));
    assert forall|other: Seq<char>|
        relates(after.id_to_subject, other) <==> relates(after.id_to_client, other) by {
        if other != id {
            if relates(after.id_to_subject, other) {
                assert(relates(before.id_to_subject, other));
                let c = choose|c: u32| before.id_to_client.contains((other, c));
                assert(after.id_to_client.contains((other, c)));
            }
            if relates(after.id_to_client, other) {
                assert(relates(before.id_to_client, other));
                let s = choose|s: Seq<char>| before.id_to_subject.contains((other, s));
                assert(after.id_to_subject.contains((other, s)));
            }
        }
    }
}

/// Adds `value` to the set that `map` keeps for `key`, with a new set
/// where `key` had none.
pub fn insert_to_subscription_map<K: Token, V: Token>(
    map: &mut Relation<K, V>,
    key: K,
    value: V,
)
    requires
        old(map).wf(),
    ensures
        final(map).wf(),
        final(map)@ == old(map)@.insert((key@, value@)),
{
    map.insert(key, value);
}

/// The pairs of `pairs` but those that bind `id` to one of the first `n`
/// of `subjects`.
pub open spec fn without_subjects(
    pairs: Set<(Seq<char>, Seq<char>)>,
    subjects: Seq<Seq<char>>,
    n: int,
    id: Seq<char>,
) -> Set<(Seq<char>, Seq<char>)> {
    pairs.filter(
        |pair: (Seq<char>, Seq<char>)| !(pair.1 == id && subjects.take(n).contains(pair.0)),
    )
}

/// Takes every binding of `id` to a subject out of the two mappings
/// between subjects and subscription ids.
fn forget_subscription(
    subject_to_id: &mut Relation<String, String>,
    id_to_subject: &mut Relation<String, String>,
    id: &String,
)
    requires
        old(subject_to_id).wf(),
        old(id_to_subject).wf(),
        mirrored(old(subject_to_id)@, old(id_to_subject)@),
    ensures
        final(subject_to_id).wf(),
        final(id_to_subject).wf(),
        final(subject_to_id)@ == old(subject_to_id)@.filter(
            |pair: (Seq<char>, Seq<char>)| pair.1 != id@,
        ),
        final(id_to_subject)@ == old(id_to_subject)@.filter(
            |pair: (Seq<char>, Seq<char>)| pair.0 != id@,
        ),
{
    let ghost bound = old(subject_to_id)@;
    match id_to_subject.get(id) {
        Some(subjects) => {
            let items = subjects.items();
            let ghost names = token_views(items@);
            let mut i: usize = 0;
            while i < items.len()
                invariant
                    i <= items.len(),
                    names == token_views(items@),
                    subject_to_id.wf(),
                    subject_to_id@ == without_subjects(bound, names, i as int, id@),
                decreases items.len() - i,
            {
                subject_to_id.remove(&items[i], id);
                proof {
                    let gone = (names[i as int], id@);
                    assert forall|pair: (Seq<char>, Seq<char>)|
                        without_subjects(bound, names, i + 1, id@).contains(pair)
                            <==> without_subjects(bound, names, i as int, id@).contains(pair)
                            && pair != gone by {
                        let long = names.take(i + 1);
                        assert(long[i as int] == names[i as int]);
                    }
                }
                i += 1;
            }
            proof {
                assert(names.take(i as int) =~= names);
                assert forall|pair: (Seq<char>, Seq<char>)|
                    without_subjects(bound, names, i as int, id@).contains(pair)
                        <==> bound.contains(pair) && pair.1 != id@ by {
                    if bound.contains(pair) && pair.1 == id@ {
                        assert(names.to_set().contains(pair.0));
                    }
                }
            }
        },
        None => {
            proof {
                assert forall|pair: (Seq<char>, Seq<char>)| bound.contains(pair) implies pair.1
                    != id@ by {
                    if pair.1 == id@ {
                        assert(old(id_to_subject)@.contains((id@, pair.0)));
                    }
                }
            }
        },
    }
    id_to_subject.remove_key(id);
}

} // verus!
