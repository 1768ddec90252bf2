//! The coordinator: the sole owner of the cache store, the connection
//! table and the node topology. It consumes one event at a time from
//! the shared queue and hands back the actions — replies, closes,
//! read-loop starts — for the surrounding application to perform, so
//! every mutation of shared state is linearized here.

use vstd::prelude::*;

use crate::addr::NetAddr;
use crate::client::{ClientState, ClientStateView};
use crate::database::{
    spec_get, spec_insert_value, DataView, Database, DEFAULT_TTL_SECS,
};
use crate::message::{
    msg_bad_handshake, msg_bad_handshake_bytes, msg_deferred, msg_deferred_bytes, msg_is_empty,
    msg_is_empty_bytes, msg_not_exists, msg_not_exists_bytes, msg_ok, msg_ok_bytes,
    msg_parse_error, msg_parse_error_bytes, parse_client_spec, parse_join_spec, ClientMessage,
    ClientMessageView, JoinMessage,
};

verus! {

/// One accepted child in the node tree: the connection we hold and the
/// address the child listens on, which deferral hands out.
#[derive(Clone, Copy, PartialEq, Eq, Structural, Debug)]
pub struct NodeEntry {
    pub conn: NetAddr,
    pub listen: NetAddr,
}

/// The events flowing into the coordinator's queue.
pub enum ServerMessages {
    /// A framed line from the session at this address.
    NewMessage(Vec<u8>, NetAddr),
    /// A freshly accepted connection.
    NewClient(NetAddr),
    /// A session ended; remove it if it is still known.
    RemoveClient(NetAddr),
    /// A node asks to join: its connection address and where it listens.
    JoinRequest(NetAddr, NetAddr),
    /// The startup dial to the configured parent timed out.
    JoinTimeout,
}

/// The mathematical shape of an event.
#[verifier::ext_equal]
pub enum EventView {
    NewMessage(Seq<u8>, NetAddr),
    NewClient(NetAddr),
    RemoveClient(NetAddr),
    JoinRequest(NetAddr, NetAddr),
    JoinTimeout,
}

impl View for ServerMessages {
    type V = EventView;

    open spec fn view(&self) -> EventView {
        match self {
            ServerMessages::NewMessage(l, a) => EventView::NewMessage(l@, *a),
            ServerMessages::NewClient(a) => EventView::NewClient(*a),
            ServerMessages::RemoveClient(a) => EventView::RemoveClient(*a),
            ServerMessages::JoinRequest(a, r) => EventView::JoinRequest(*a, *r),
            ServerMessages::JoinTimeout => EventView::JoinTimeout,
        }
    }
}

/// What the coordinator asks the application to do.
pub enum Action {
    /// Write these bytes to the session at this address.
    Reply(NetAddr, Vec<u8>),
    /// Start the read loop of a freshly registered session.
    StartRead(NetAddr),
    /// Shut the session's socket down.
    Close(NetAddr),
}

/// The mathematical shape of an action.
#[verifier::ext_equal]
pub enum ActionView {
    Reply(NetAddr, Seq<u8>),
    StartRead(NetAddr),
    Close(NetAddr),
}

impl View for Action {
    type V = ActionView;

    open spec fn view(&self) -> ActionView {
        match self {
            Action::Reply(a, m) => ActionView::Reply(*a, m@),
            Action::StartRead(a) => ActionView::StartRead(*a),
            Action::Close(a) => ActionView::Close(*a),
        }
    }
}

/// The element-wise views of a vector of actions.
pub open spec fn action_views(s: Seq<Action>) -> Seq<ActionView> {
    Seq::new(s.len(), |i: int| s[i]@)
}

/// The coordinator's state, mathematically.
#[verifier::ext_equal]
pub struct ServerView {
    pub clients: Map<NetAddr, ClientStateView>,
    pub db: Map<Seq<u8>, DataView>,
    pub nodes: Seq<NodeEntry>,
    pub parent: Option<NetAddr>,
    pub max_nodes: u16,
    pub next_defer: int,
}

/// The map held by the connection table.
pub open spec fn cmap_of(s: Seq<(NetAddr, ClientState)>) -> Map<NetAddr, ClientStateView>
    decreases s.len(),
{
    if s.len() == 0 {
        Map::empty()
    } else {
        cmap_of(s.drop_last()).insert(s.last().0, s.last().1@)
    }
}

/// Pairwise-distinct connection addresses.
pub open spec fn addrs_unique(s: Seq<(NetAddr, ClientState)>) -> bool {
    forall|i: int, j: int| 0 <= i < j < s.len() ==> s[i].0 != s[j].0
}

pub proof fn lemma_cmap_of_contains_all(s: Seq<(NetAddr, ClientState)>)
    ensures
        forall|i: int| 0 <= i < s.len() ==> cmap_of(s).contains_key(#[trigger] s[i].0),
    decreases s.len(),
{
    if s.len() > 0 {
        lemma_cmap_of_contains_all(s.drop_last());
        assert(forall|i: int| 0 <= i < s.len() - 1 ==> s.drop_last()[i] == s[i]);
    }
}

pub proof fn lemma_cmap_of_absent(s: Seq<(NetAddr, ClientState)>, a: NetAddr)
    requires
        forall|i: int| 0 <= i < s.len() ==> s[i].0 != a,
    ensures
        !cmap_of(s).contains_key(a),
    decreases s.len(),
{
    if s.len() > 0 {
        assert(forall|i: int| 0 <= i < s.len() - 1 ==> s.drop_last()[i] == s[i]);
        lemma_cmap_of_absent(s.drop_last(), a);
    }
}

pub proof fn lemma_cmap_of_index(s: Seq<(NetAddr, ClientState)>, i: int)
    requires
        addrs_unique(s),
        0 <= i < s.len(),
    ensures
        cmap_of(s).contains_key(s[i].0),
        cmap_of(s)[s[i].0] == s[i].1@,
    decreases s.len(),
{
    if i == s.len() - 1 {
    } else {
        assert(forall|j: int| 0 <= j < s.len() - 1 ==> s.drop_last()[j] == s[j]);
        lemma_cmap_of_index(s.drop_last(), i);
        assert(s[s.len() - 1].0 != s[i].0);
    }
}

pub proof fn lemma_cmap_of_update(s: Seq<(NetAddr, ClientState)>, i: int, p: (NetAddr, ClientState))
    requires
        addrs_unique(s),
        0 <= i < s.len(),
        p.0 == s[i].0,
    ensures
        cmap_of(s.update(i, p)) == cmap_of(s).insert(p.0, p.1@),
    decreases s.len(),
{
    let t = s.update(i, p);
    if i == s.len() - 1 {
        assert(t.drop_last() =~= s.drop_last());
        assert(cmap_of(t) =~= cmap_of(s).insert(p.0, p.1@));
    } else {
        assert(t.drop_last() =~= s.drop_last().update(i, p));
        assert(forall|j: int| 0 <= j < s.len() - 1 ==> s.drop_last()[j] == s[j]);
        lemma_cmap_of_update(s.drop_last(), i, p);
        assert(s.last().0 != s[i].0);
        assert(t.last() == s.last());
        assert(cmap_of(t) =~= cmap_of(s).insert(p.0, p.1@));
    }
}

pub proof fn lemma_cmap_of_remove(s: Seq<(NetAddr, ClientState)>, i: int)
    requires
        addrs_unique(s),
        0 <= i < s.len(),
    ensures
        cmap_of(s.remove(i)) == cmap_of(s).remove(s[i].0),
    decreases s.len(),
{
    let t = s.remove(i);
    if i == s.len() - 1 {
        assert(t =~= s.drop_last());
        lemma_cmap_of_absent(s.drop_last(), s[i].0);
        assert(cmap_of(t) =~= cmap_of(s).remove(s[i].0));
    } else {
        assert(t.drop_last() =~= s.drop_last().remove(i));
        assert(forall|j: int| 0 <= j < s.len() - 1 ==> s.drop_last()[j] == s[j]);
        lemma_cmap_of_remove(s.drop_last(), i);
        assert(s.last().0 != s[i].0);
        assert(t.last() == s.last());
        assert(cmap_of(t) =~= cmap_of(s).remove(s[i].0));
    }
}

/// The node list with every entry connected through `a` dropped.
pub open spec fn nodes_without(s: Seq<NodeEntry>, a: NetAddr) -> Seq<NodeEntry>
    decreases s.len(),
{
    if s.len() == 0 {
        Seq::empty()
    } else if s.last().conn == a {
        nodes_without(s.drop_last(), a)
    } else {
        nodes_without(s.drop_last(), a).push(s.last())
    }
}

/// The coordinator.
pub struct Server {
    clients: Vec<(NetAddr, ClientState)>,
    db: Database,
    nodes: Vec<NodeEntry>,
    parent: Option<NetAddr>,
    max_nodes: u16,
    next_defer: usize,
}

impl View for Server {
    type V = ServerView;

    closed spec fn view(&self) -> ServerView {
        ServerView {
            clients: cmap_of(self.clients@),
            db: self.db@,
            nodes: self.nodes@,
            parent: self.parent,
            max_nodes: self.max_nodes,
            next_defer: self.next_defer as int,
        }
    }
}

impl Server {
    /// The coordinator's internal shape: unique table keys on both
    /// tables.
    pub closed spec fn wf(&self) -> bool {
        addrs_unique(self.clients@) && self.db.wf()
    }

    /// A fresh coordinator: empty cache, empty tables, the configured
    /// fan-out bound, and the parent link the startup dial delivered,
    /// if any.
    pub fn new(config: &crate::config::Config, parent: Option<NetAddr>) -> (r: Server)
        ensures
            r.wf(),
            r@ == (ServerView {
                clients: Map::empty(),
                db: Map::empty(),
                nodes: Seq::empty(),
                parent,
                max_nodes: (match config.max_nodes {
                    Some(n) => n,
                    None => 3,
                }),
                next_defer: 0,
            }),
    {
        let r = Server {
            clients: Vec::new(),
            db: Database::new(),
            nodes: Vec::new(),
            parent,
            max_nodes: config.max_nodes(),
            next_defer: 0,
        };
        proof {
            assert(r@.clients =~= Map::<NetAddr, ClientStateView>::empty());
            assert(r@.nodes =~= Seq::<NodeEntry>::empty());
            assert(r@ =~~= (ServerView {
                clients: Map::empty(),
                db: Map::empty(),
                nodes: Seq::empty(),
                parent,
                max_nodes: (match config.max_nodes {
                    Some(n) => n,
                    None => 3,
                }),
                next_defer: 0,
            }));
        }
        r
    }

    /// The index of the session at `a`, if it is known.
    fn client_find(&self, a: &NetAddr) -> (r: Option<usize>)
        ensures
            match r {
                Some(i) => i < self.clients@.len() && self.clients@[i as int].0 == *a,
                None => forall|i: int| 0 <= i < self.clients@.len()
                    ==> self.clients@[i].0 != *a,
            },
    {
        let mut i: usize = 0;
        while i < self.clients.len()
            invariant
                0 <= i <= self.clients@.len(),
                forall|j: int| 0 <= j < i ==> self.clients@[j].0 != *a,
            decreases self.clients@.len() - i,
        {
            if self.clients[i].0 == *a {
                return Some(i);
            }
            i = i + 1;
        }
        None
    }

    /// The protocol state of the session at `a`, if it is known.
    fn client_state_of(&self, a: &NetAddr) -> (r: Option<ClientState>)
        requires
            self.wf(),
        ensures
            match r {
                Some(st) => self@.clients.contains_key(*a) && self@.clients[*a] == st@,
                None => !self@.clients.contains_key(*a),
            },
    {
        match self.client_find(a) {
            Some(i) => {
                proof {
                    lemma_cmap_of_index(self.clients@, i as int);
                }
                let st = match &self.clients[i].1 {
                    ClientState::Probation => ClientState::Probation,
                    ClientState::SettingKey => ClientState::SettingKey,
                    ClientState::SettingValue { key } => ClientState::SettingValue {
                        key: crate::text::copy_bytes(key.as_slice()),
                    },
                };
                Some(st)
            }
            None => {
                proof {
                    lemma_cmap_of_absent(self.clients@, *a);
                }
                None
            }
        }
    }

    /// Registers or replaces the session at `a` with the given state.
    fn client_put(&mut self, a: NetAddr, st: ClientState)
        requires
            old(self).wf(),
        ensures
            final(self).wf(),
            final(self)@ == (ServerView {
                clients: old(self)@.clients.insert(a, st@),
                ..old(self)@
            }),
    {
        match self.client_find(&a) {
            Some(i) => {
                proof {
                    lemma_cmap_of_update(self.clients@, i as int, (a, st));
                }
                self.clients.set(i, (a, st));
            }
            None => {
                proof {
                    let s = self.clients@.push((a, st));
                    assert(s.drop_last() =~= self.clients@);
                }
                self.clients.push((a, st));
            }
        }
        proof {
            assert(final(self)@ =~~= (ServerView {
                clients: old(self)@.clients.insert(a, st@),
                ..old(self)@
            }));
        }
    }

    /// Drops the session at `a` from the table, if it is there.
    fn client_drop(&mut self, a: NetAddr)
        requires
            old(self).wf(),
        ensures
            final(self).wf(),
            final(self)@ == (ServerView {
                clients: old(self)@.clients.remove(a),
                ..old(self)@
            }),
    {
        match self.client_find(&a) {
            Some(i) => {
                proof {
                    lemma_cmap_of_remove(self.clients@, i as int);
                }
                let _ = self.clients.remove(i);
            }
            None => {
                proof {
                    lemma_cmap_of_absent(self.clients@, a);
                    assert(cmap_of(self.clients@).remove(a) =~= cmap_of(self.clients@));
                }
            }
        }
        proof {
            assert(final(self)@ =~~= (ServerView {
                clients: old(self)@.clients.remove(a),
                ..old(self)@
            }));
        }
    }
}

/// The join/defer decision on a candidate connected at `a` that
/// listens at `reply`: below the fan-out bound the candidate is moved
/// out of the client table into the node list and told `OK`; at
/// capacity one existing child is chosen round-robin and the candidate
/// is redirected to it with `DEFERRED`; a node whose bound is zero has
/// no child to defer to and drops the connection.
pub open spec fn spec_join(s: ServerView, a: NetAddr, reply: NetAddr) -> (
    ServerView,
    Seq<ActionView>,
) {
    if !s.clients.contains_key(a) {
        (s, Seq::empty())
    } else if s.nodes.len() < s.max_nodes as int {
        (
            ServerView {
                clients: s.clients.remove(a),
                nodes: s.nodes.push(NodeEntry { conn: a, listen: reply }),
                ..s
            },
            seq![ActionView::Reply(a, msg_ok())],
        )
    } else if s.nodes.len() == 0 {
        (ServerView { clients: s.clients.remove(a), ..s }, seq![ActionView::Close(a)])
    } else {
        let idx = s.next_defer % (s.nodes.len() as int);
        (
            ServerView { next_defer: (idx + 1) % (s.nodes.len() as int), ..s },
            seq![ActionView::Reply(a, msg_deferred(s.nodes[idx].listen))],
        )
    }
}

/// One step of the coordinator: the state after the event and the
/// actions handed back to the application, exactly as section-by-
/// section dispatch prescribes.
pub open spec fn spec_step(s: ServerView, ev: EventView, now: u64) -> (
    ServerView,
    Seq<ActionView>,
) {
    match ev {
        EventView::NewClient(a) => (
            ServerView { clients: s.clients.insert(a, ClientStateView::Probation), ..s },
            seq![ActionView::StartRead(a)],
        ),
        EventView::RemoveClient(a) => {
            let s2 = ServerView {
                clients: s.clients.remove(a),
                nodes: nodes_without(s.nodes, a),
                parent: if s.parent == Some(a) {
                    None
                } else {
                    s.parent
                },
                ..s
            };
            if s.clients.contains_key(a) {
                (s2, seq![ActionView::Close(a)])
            } else {
                (s2, Seq::empty())
            }
        }
        EventView::NewMessage(l, a) => {
            if !s.clients.contains_key(a) {
                (s, Seq::empty())
            } else {
                match s.clients[a] {
                    ClientStateView::Probation => match parse_join_spec(l) {
                        Some(JoinMessage::Client) => (
                            ServerView {
                                clients: s.clients.insert(a, ClientStateView::SettingKey),
                                ..s
                            },
                            Seq::empty(),
                        ),
                        Some(JoinMessage::NodeJoin { reply }) => spec_join(s, a, reply),
                        None => (
                            ServerView { clients: s.clients.remove(a), ..s },
                            seq![
                                ActionView::Reply(a, msg_bad_handshake()),
                                ActionView::Close(a),
                            ],
                        ),
                    },
                    ClientStateView::SettingValue { key } => (
                        ServerView {
                            db: spec_insert_value(s.db, key, l, now),
                            clients: s.clients.insert(a, ClientStateView::SettingKey),
                            ..s
                        },
                        Seq::empty(),
                    ),
                    ClientStateView::SettingKey => match parse_client_spec(
                        l,
                        DEFAULT_TTL_SECS,
                    ) {
                        Some(ClientMessageView::SetKey { key, ttl_secs }) => (
                            ServerView {
                                db: s.db.insert(
                                    key,
                                    DataView { inner: None, ttl_secs, time_added: now },
                                ),
                                clients: s.clients.insert(
                                    a,
                                    ClientStateView::SettingValue { key },
                                ),
                                ..s
                            },
                            Seq::empty(),
                        ),
                        Some(ClientMessageView::GetValue { key }) => {
                            let (db2, res) = spec_get(s.db, key, now);
                            let reply = match res {
                                Some(d) => match d.inner {
                                    Some(v) => v,
                                    None => msg_is_empty(key),
                                },
                                None => msg_not_exists(key),
                            };
                            (ServerView { db: db2, ..s }, seq![ActionView::Reply(a, reply)])
                        }
                        _ => (s, seq![ActionView::Reply(a, msg_parse_error())]),
                    },
                }
            }
        }
        EventView::JoinRequest(a, reply) => spec_join(s, a, reply),
        EventView::JoinTimeout => (ServerView { parent: None, ..s }, Seq::empty()),
    }
}

impl Server {
    /// Drops every node entry connected through `a`.
    fn nodes_drop(&mut self, a: NetAddr)
        requires
            old(self).wf(),
        ensures
            final(self).wf(),
            final(self)@ == (ServerView { nodes: nodes_without(old(self)@.nodes, a), ..old(self)@ }),
    {
        let ghost s = self.nodes@;
        let mut kept: Vec<NodeEntry> = Vec::new();
        let mut i: usize = 0;
        proof {
            assert(s.take(0) =~= Seq::<NodeEntry>::empty());
            assert(kept@ =~= nodes_without(s.take(0), a));
        }
        while i < self.nodes.len()
            invariant
                0 <= i <= s.len(),
                s == self.nodes@,
                kept@ == nodes_without(s.take(i as int), a),
            decreases s.len() - i,
        {
            proof {
                assert(s.take(i + 1).drop_last() =~= s.take(i as int));
            }
            if !(self.nodes[i].conn == a) {
                kept.push(self.nodes[i]);
            }
            i = i + 1;
        }
        proof {
            assert(s.take(s.len() as int) =~= s);
        }
        self.nodes = kept;
        proof {
            assert(final(self)@ =~~= (ServerView {
                nodes: nodes_without(old(self)@.nodes, a),
                ..old(self)@
            }));
        }
    }

    /// Decides a join request from the candidate connected at `a` that
    /// listens at `reply`: accepted into the node list below the
    /// fan-out bound, deferred to an existing child at capacity.
    pub fn add_node(&mut self, a: NetAddr, reply: NetAddr) -> (out: Vec<Action>)
        requires
            old(self).wf(),
        ensures
            final(self).wf(),
            ({
                let (sv, av) = spec_join(old(self)@, a, reply);
                final(self)@ == sv && action_views(out@) == av
            }),
    {
        let mut out: Vec<Action> = Vec::new();
        match self.client_find(&a) {
            None => {
                proof {
                    lemma_cmap_of_absent(self.clients@, a);
                    assert(action_views(out@) =~= spec_join(old(self)@, a, reply).1);
                }
                out
            }
            Some(i) => {
                proof {
                    lemma_cmap_of_index(self.clients@, i as int);
                }
                if self.nodes.len() < self.max_nodes as usize {
                    self.client_drop(a);
                    self.nodes.push(NodeEntry { conn: a, listen: reply });
                    out.push(Action::Reply(a, msg_ok_bytes()));
                    proof {
                        assert(final(self)@ =~~= spec_join(old(self)@, a, reply).0);
                        assert(action_views(out@) =~= spec_join(old(self)@, a, reply).1);
                    }
                    out
                } else if self.nodes.len() == 0 {
                    self.client_drop(a);
                    out.push(Action::Close(a));
                    proof {
                        assert(final(self)@ =~~= spec_join(old(self)@, a, reply).0);
                        assert(action_views(out@) =~= spec_join(old(self)@, a, reply).1);
                    }
                    out
                } else {
                    let idx = self.next_defer % self.nodes.len();
                    let child = self.nodes[idx].listen;
                    out.push(Action::Reply(a, msg_deferred_bytes(&child)));
                    self.next_defer = (idx + 1) % self.nodes.len();
                    proof {
                        assert(final(self)@ =~~= spec_join(old(self)@, a, reply).0);
                        assert(action_views(out@) =~= spec_join(old(self)@, a, reply).1);
                    }
                    out
                }
            }
        }
    }

    /// Processes one event from the queue and hands back the actions
    /// the application must perform. This is the only place shared
    /// state changes, so processing events one at a time linearizes
    /// every mutation.
    pub fn handle_event(&mut self, ev: ServerMessages, now: u64) -> (out: Vec<Action>)
        requires
            old(self).wf(),
        ensures
            final(self).wf(),
            ({
                let (sv, av) = spec_step(old(self)@, ev@, now);
                final(self)@ == sv && action_views(out@) == av
            }),
    {
        let ghost evv = ev@;
        let mut out: Vec<Action> = Vec::new();
        match ev {
            ServerMessages::NewClient(a) => {
                self.client_put(a, ClientState::Probation);
                out.push(Action::StartRead(a));
                proof {
                    assert(final(self)@ =~~= spec_step(old(self)@, evv, now).0);
                    assert(action_views(out@) =~= spec_step(old(self)@, evv, now).1);
                }
                out
            }
            ServerMessages::RemoveClient(a) => {
                let present = match self.client_find(&a) {
                    Some(i) => {
                        proof {
                            lemma_cmap_of_index(self.clients@, i as int);
                        }
                        true
                    }
                    None => {
                        proof {
                            lemma_cmap_of_absent(self.clients@, a);
                        }
                        false
                    }
                };
                self.client_drop(a);
                self.nodes_drop(a);
                let clear_parent = match &self.parent {
                    Some(p) => *p == a,
                    None => false,
                };
                if clear_parent {
                    self.parent = None;
                }
                if present {
                    out.push(Action::Close(a));
                }
                proof {
                    assert(final(self)@ =~~= spec_step(old(self)@, evv, now).0);
                    assert(action_views(out@) =~= spec_step(old(self)@, evv, now).1);
                }
                out
            }
            ServerMessages::NewMessage(l, a) => {
                let ghost lv = l@;
                match self.client_state_of(&a) {
                    None => {
                        proof {
                            assert(final(self)@ =~~= spec_step(old(self)@, evv, now).0);
                            assert(action_views(out@) =~= spec_step(old(self)@, evv, now).1);
                        }
                        out
                    }
                    Some(ClientState::Probation) => {
                        match crate::message::parse_join_message(l.as_slice()) {
                            Some(JoinMessage::Client) => {
                                self.client_put(a, ClientState::SettingKey);
                                proof {
                                    assert(final(self)@ =~~= spec_step(old(self)@, evv, now).0);
                                    assert(action_views(out@) =~= spec_step(
                                        old(self)@,
                                        evv,
                                        now,
                                    ).1);
                                }
                                out
                            }
                            Some(JoinMessage::NodeJoin { reply }) => {
                                let r = self.add_node(a, reply);
                                proof {
                                    assert(final(self)@ =~~= spec_step(old(self)@, evv, now).0);
                                    assert(action_views(r@) =~= spec_step(old(self)@, evv, now).1);
                                }
                                r
                            }
                            None => {
                                self.client_drop(a);
                                out.push(Action::Reply(a, msg_bad_handshake_bytes()));
                                out.push(Action::Close(a));
                                proof {
                                    assert(final(self)@ =~~= spec_step(old(self)@, evv, now).0);
                                    assert(action_views(out@) =~= spec_step(
                                        old(self)@,
                                        evv,
                                        now,
                                    ).1);
                                }
                                out
                            }
                        }
                    }
                    Some(ClientState::SettingValue { key }) => {
                        self.db.insert_key_value(key, l, now);
                        self.client_put(a, ClientState::SettingKey);
                        proof {
                            assert(final(self)@ =~~= spec_step(old(self)@, evv, now).0);
                            assert(action_views(out@) =~= spec_step(old(self)@, evv, now).1);
                        }
                        out
                    }
                    Some(ClientState::SettingKey) => {
                        match crate::message::parse_client_message(
                            l.as_slice(),
                            DEFAULT_TTL_SECS,
                        ) {
                            Some(ClientMessage::SetKey { key, ttl_secs }) => {
                                let key_for_state = crate::text::copy_bytes(key.as_slice());
                                self.db.insert_key(key, ttl_secs, now);
                                self.client_put(
                                    a,
                                    ClientState::SettingValue { key: key_for_state },
                                );
                                proof {
                                    assert(final(self)@ =~~= spec_step(old(self)@, evv, now).0);
                                    assert(action_views(out@) =~= spec_step(
                                        old(self)@,
                                        evv,
                                        now,
                                    ).1);
                                }
                                out
                            }
                            Some(ClientMessage::GetValue { key }) => {
                                let got = self.db.get_or_remove(key.as_slice(), now);
                                let reply = match got {
                                    Some(d) => match d.inner {
                                        Some(v) => v,
                                        None => msg_is_empty_bytes(key.as_slice()),
                                    },
                                    None => msg_not_exists_bytes(key.as_slice()),
                                };
                                out.push(Action::Reply(a, reply));
                                proof {
                                    assert(final(self)@ =~~= spec_step(old(self)@, evv, now).0);
                                    assert(action_views(out@) =~= spec_step(
                                        old(self)@,
                                        evv,
                                        now,
                                    ).1);
                                }
                                out
                            }
                            Some(ClientMessage::SetValue { .. }) | None => {
                                out.push(Action::Reply(a, msg_parse_error_bytes()));
                                proof {
                                    assert(final(self)@ =~~= spec_step(old(self)@, evv, now).0);
                                    assert(action_views(out@) =~= spec_step(
                                        old(self)@,
                                        evv,
                                        now,
                                    ).1);
                                }
                                out
                            }
                        }
                    }
                }
            }
            ServerMessages::JoinRequest(a, reply) => {
                let r = self.add_node(a, reply);
                proof {
                    assert(final(self)@ =~~= spec_step(old(self)@, evv, now).0);
                    assert(action_views(r@) =~= spec_step(old(self)@, evv, now).1);
                }
                r
            }
            ServerMessages::JoinTimeout => {
                self.parent = None;
                proof {
                    assert(final(self)@ =~~= spec_step(old(self)@, evv, now).0);
                    assert(action_views(out@) =~= spec_step(old(self)@, evv, now).1);
                }
                out
            }
        }
    }
}

/// The element-wise views of a timestamped event batch.
pub open spec fn event_views(s: Seq<(ServerMessages, u64)>) -> Seq<(EventView, u64)> {
    Seq::new(s.len(), |i: int| (s[i].0@, s[i].1))
}

/// Replaying a batch of events serially, each at its arrival time:
/// the state after the batch and all actions issued along the way.
pub open spec fn spec_run(s: ServerView, evs: Seq<(EventView, u64)>) -> (
    ServerView,
    Seq<ActionView>,
)
    decreases evs.len(),
{
    if evs.len() == 0 {
        (s, Seq::empty())
    } else {
        let (s1, a1) = spec_step(s, evs[0].0, evs[0].1);
        let (s2, a2) = spec_run(s1, evs.drop_first());
        (s2, a1 + a2)
    }
}

impl Server {
    /// Processes a whole batch of queued events, one at a time, in
    /// arrival order. However many sessions produced them
    /// concurrently, the state afterwards is exactly the serial replay
    /// of the batch — the coordinator's ordering guarantee.
    pub fn process_events(&mut self, events: Vec<(ServerMessages, u64)>) -> (out: Vec<Action>)
        requires
            old(self).wf(),
        ensures
            final(self).wf(),
            ({
                let (sv, av) = spec_run(old(self)@, event_views(events@));
                final(self)@ == sv && action_views(out@) == av
            }),
    {
        let ghost s0 = self@;
        let ghost orig = events@;
        let mut events = events;
        let mut out: Vec<Action> = Vec::new();
        proof {
            assert(action_views(out@) =~= Seq::<ActionView>::empty());
            assert(action_views(out@) + spec_run(self@, event_views(events@)).1 =~= spec_run(
                self@,
                event_views(events@),
            ).1);
        }
        while events.len() > 0
            invariant
                self.wf(),
                spec_run(s0, event_views(orig)).0 == spec_run(self@, event_views(events@)).0,
                spec_run(s0, event_views(orig)).1 == action_views(out@) + spec_run(
                    self@,
                    event_views(events@),
                ).1,
            decreases events@.len(),
        {
            let ghost pre = events@;
            let ghost sv_pre = self@;
            let (ev, t) = events.remove(0);
            let ghost evv = ev@;
            let step_out = self.handle_event(ev, t);
            let ghost mid_out = out@;
            let mut step_out = step_out;
            out.append(&mut step_out);
            proof {
                assert(events@ =~= pre.drop_first());
                assert(event_views(pre).drop_first() =~= event_views(events@));
                assert(event_views(pre)[0] == (evv, t));
                let (s1, a1) = spec_step(sv_pre, evv, t);
                let (s2, a2) = spec_run(s1, event_views(events@));
                assert(spec_run(sv_pre, event_views(pre)).0 == s2);
                assert(spec_run(sv_pre, event_views(pre)).1 == a1 + a2);
                assert(action_views(out@) =~= action_views(mid_out) + a1);
                assert(action_views(mid_out) + a1 + a2 =~= action_views(mid_out) + (a1 + a2));
            }
        }
        proof {
            assert(event_views(events@) =~= Seq::<(EventView, u64)>::empty());
            assert(action_views(out@) + Seq::<ActionView>::empty() =~= action_views(out@));
        }
        out
    }
}

proof fn lemma_cmap_dom_len(s: Seq<(NetAddr, ClientState)>)
    requires
        addrs_unique(s),
    ensures
        cmap_of(s).dom().finite(),
        cmap_of(s).dom().len() == s.len(),
    decreases s.len(),
{
    if s.len() == 0 {
        assert(cmap_of(s).dom() =~= Set::<NetAddr>::empty());
    } else {
        assert(forall|i: int| 0 <= i < s.len() - 1 ==> s.drop_last()[i] == s[i]);
        lemma_cmap_dom_len(s.drop_last());
        lemma_cmap_of_absent(s.drop_last(), s.last().0);
        assert(cmap_of(s).dom() =~= cmap_of(s.drop_last()).dom().insert(s.last().0));
    }
}

impl Server {
    /// What shutdown performs: one best-effort disconnect for every
    /// live session — each action closes a registered connection, no
    /// connection twice, none missed.
    pub fn shutdown_actions(&self) -> (out: Vec<Action>)
        requires
            self.wf(),
        ensures
            self@.clients.dom().finite(),
            out@.len() == self@.clients.dom().len(),
            forall|i: int| 0 <= i < out@.len() ==> ((#[trigger] out@[i]@) matches
                ActionView::Close(a) && self@.clients.contains_key(a)),
            forall|i: int, j: int| 0 <= i < j < out@.len() ==> out@[i]@ != out@[j]@,
    {
        proof {
            lemma_cmap_dom_len(self.clients@);
            lemma_cmap_of_contains_all(self.clients@);
        }
        let mut out: Vec<Action> = Vec::new();
        let mut i: usize = 0;
        while i < self.clients.len()
            invariant
                0 <= i <= self.clients@.len(),
                addrs_unique(self.clients@),
                out@.len() == i,
                forall|j: int| 0 <= j < i ==> out@[j]@ == ActionView::Close(
                    self.clients@[j].0,
                ),
            decreases self.clients@.len() - i,
        {
            out.push(Action::Close(self.clients[i].0));
            i = i + 1;
        }
        proof {
            assert(forall|j: int| 0 <= j < out@.len()
                ==> cmap_of(self.clients@).contains_key(self.clients@[j].0));
        }
        out
    }

    /// The periodic sweep, run between events by the same single
    /// owner: evicts every entry the shared expiry predicate reports
    /// dead at `now`.
    pub fn sweep(&mut self, now: u64)
        requires
            old(self).wf(),
        ensures
            final(self).wf(),
            final(self)@ == (ServerView {
                db: crate::database::spec_sweep(old(self)@.db, now),
                ..old(self)@
            }),
    {
        self.db.sweep(now);
        proof {
            assert(final(self)@ =~~= (ServerView {
                db: crate::database::spec_sweep(old(self)@.db, now),
                ..old(self)@
            }));
        }
    }
}

/// A GET for a key that was never set — or has expired and gone —
/// answers that the key does not exist and leaves the state unchanged.
pub proof fn lemma_get_unset_key(s: ServerView, a: NetAddr, l: Seq<u8>, k: Seq<u8>, now: u64)
    requires
        s.clients.contains_key(a),
        s.clients[a] == ClientStateView::SettingKey,
        parse_client_spec(l, DEFAULT_TTL_SECS) == Some(ClientMessageView::GetValue { key: k }),
        !s.db.contains_key(k),
    ensures
        spec_step(s, EventView::NewMessage(l, a), now) == (
            s,
            seq![ActionView::Reply(a, msg_not_exists(k))],
        ),
{
    assert((ServerView { db: s.db, ..s }) =~~= s);
}

/// A GET for a key whose SET-key step completed but whose value has
/// not arrived answers that the key is empty and leaves the state
/// unchanged.
pub proof fn lemma_get_empty_key(s: ServerView, a: NetAddr, l: Seq<u8>, k: Seq<u8>, now: u64)
    requires
        s.clients.contains_key(a),
        s.clients[a] == ClientStateView::SettingKey,
        parse_client_spec(l, DEFAULT_TTL_SECS) == Some(ClientMessageView::GetValue { key: k }),
        s.db.contains_key(k),
        s.db[k].inner is None,
        crate::database::valid_at(s.db[k], now),
    ensures
        spec_step(s, EventView::NewMessage(l, a), now) == (
            s,
            seq![ActionView::Reply(a, msg_is_empty(k))],
        ),
{
    assert((ServerView { db: s.db, ..s }) =~~= s);
}

/// A join request reaching a node whose children already fill its
/// fan-out bound is deferred to one existing child, never accepted:
/// the reply is `DEFERRED` with a child's address and is not `OK`, and
/// neither the tables nor the tree change.
pub proof fn lemma_join_at_capacity(s: ServerView, a: NetAddr, reply: NetAddr)
    requires
        s.clients.contains_key(a),
        s.nodes.len() >= s.max_nodes as int,
        s.nodes.len() > 0,
    ensures
        ({
            let (s2, acts) = spec_join(s, a, reply);
            let idx = s.next_defer % (s.nodes.len() as int);
            &&& 0 <= idx < s.nodes.len()
            &&& acts == seq![ActionView::Reply(a, msg_deferred(s.nodes[idx].listen))]
            &&& acts[0] != ActionView::Reply(a, msg_ok())
            &&& s2.clients == s.clients
            &&& s2.db == s.db
            &&& s2.nodes == s.nodes
            &&& s2.parent == s.parent
        }),
{
    let idx = s.next_defer % (s.nodes.len() as int);
    assert(msg_deferred(s.nodes[idx].listen).len() >= 10);
    assert(msg_ok().len() == 3);
}

/// What the startup dial's one reply line means.
#[derive(Clone, Copy, PartialEq, Eq, Structural, Debug)]
pub enum DialOutcome {
    /// The parent said `OK`: keep the link.
    KeepParent,
    /// The parent said `DEFERRED <addr>`: close and redial there.
    Redial(NetAddr),
    /// No usable reply: start standalone.
    Standalone,
}

/// The token `OK`.
pub open spec fn word_ok() -> Seq<u8> {
    seq![79u8, 75u8]
}

/// The token `DEFERRED`.
pub open spec fn word_deferred() -> Seq<u8> {
    seq![68u8, 69u8, 70u8, 69u8, 82u8, 82u8, 69u8, 68u8]
}

/// What a reply line from the dialed parent means: a bare `OK` keeps
/// the link, `DEFERRED <addr>` redirects the dial there, anything else
/// leaves the node standalone.
pub open spec fn classify_parent_reply(line: Seq<u8>) -> DialOutcome {
    let ts = crate::text::tokens_of(line);
    if ts.len() == 1 && ts[0] == word_ok() {
        DialOutcome::KeepParent
    } else if ts.len() == 2 && ts[0] == word_deferred() {
        match crate::text::parse_addr_spec(ts[1]) {
            Some(addr) => DialOutcome::Redial(addr),
            None => DialOutcome::Standalone,
        }
    } else {
        DialOutcome::Standalone
    }
}

/// The acceptance reply, with its newline stripped by the reader's
/// framing, keeps the parent link.
pub proof fn lemma_ok_reply_keeps_parent()
    ensures
        classify_parent_reply(msg_ok().drop_last()) == DialOutcome::KeepParent,
{
    assert(msg_ok().drop_last() =~= word_ok());
    assert(forall|i: int| 0 <= i < word_ok().len() ==> !crate::text::is_ws(
        #[trigger] word_ok()[i],
    ));
    crate::text::lemma_single_token(word_ok());
}

/// The deferral reply for any child, with its newline stripped, makes
/// the candidate redial exactly that child: the loop between the
/// coordinator's reply and the dialing side's reading closes.
pub proof fn lemma_deferred_reply_redials(child: NetAddr)
    ensures
        classify_parent_reply(msg_deferred(child).drop_last()) == DialOutcome::Redial(child),
{
    let line = msg_deferred(child).drop_last();
    crate::text::lemma_addr_repr_printable(child);
    assert(line =~= word_deferred() + seq![32u8] + crate::text::addr_repr(child));
    assert(forall|i: int| 0 <= i < word_deferred().len() ==> !crate::text::is_ws(
        #[trigger] word_deferred()[i],
    ));
    crate::text::lemma_two_tokens(word_deferred(), crate::text::addr_repr(child));
    crate::text::lemma_addr_round_trip(child);
}

fn word_ok_bytes() -> (r: Vec<u8>)
    ensures
        r@ == word_ok(),
{
    let mut v: Vec<u8> = Vec::new();
    v.push(79);
    v.push(75);
    proof {
        assert(v@ =~= word_ok());
    }
    v
}

fn word_deferred_bytes() -> (r: Vec<u8>)
    ensures
        r@ == word_deferred(),
{
    let mut v: Vec<u8> = Vec::new();
    v.push(68);
    v.push(69);
    v.push(70);
    v.push(69);
    v.push(82);
    v.push(82);
    v.push(69);
    v.push(68);
    proof {
        assert(v@ =~= word_deferred());
    }
    v
}

/// Decides the startup dial from what came back before the deadline:
/// the reply line, or nothing on a timeout. The dialing, the deadline
/// and the redial are the application's; every decision is here.
pub fn parent_dial_step(reply: Option<&[u8]>) -> (r: DialOutcome)
    ensures
        r == (match reply {
            Some(l) => classify_parent_reply(l@),
            None => DialOutcome::Standalone,
        }),
{
    match reply {
        None => DialOutcome::Standalone,
        Some(l) => {
            let toks = crate::text::tokenize(l);
            if toks.len() == 1 {
                let ok = word_ok_bytes();
                if crate::text::bytes_eq(toks[0].as_slice(), ok.as_slice()) {
                    return DialOutcome::KeepParent;
                }
                return DialOutcome::Standalone;
            }
            if toks.len() == 2 {
                let def = word_deferred_bytes();
                if crate::text::bytes_eq(toks[0].as_slice(), def.as_slice()) {
                    return match crate::text::parse_addr(toks[1].as_slice()) {
                        Some(addr) => DialOutcome::Redial(addr),
                        None => DialOutcome::Standalone,
                    };
                }
                return DialOutcome::Standalone;
            }
            DialOutcome::Standalone
        }
    }
}

} // verus!
