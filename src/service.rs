use vstd::prelude::*;

use crate::address_book::{peers_inserted, AddressBook, KnownAddressView};
use crate::vecs::{bytes_eq, clone_bytes, clone_items};
use crate::message::{parse_envelope, DecodeError, Envelope, Message, MessageView};
use crate::wire::items_view;

verus! {

/// Direction of a connection.
#[derive(Debug, Clone, Copy, PartialEq, Eq, Structural)]
pub enum Link {
    Inbound,
    Outbound,
}

/// Lifecycle of a session with a peer.
#[derive(Debug, Clone, Copy, PartialEq, Eq, Structural)]
pub enum State {
    Handshaking,
    Initialized,
    Active,
    Closing,
}

/// Why a session was closed.
#[derive(Debug, Clone, Copy, PartialEq, Eq, Structural)]
pub enum DisconnectReason {
    /// Wrong network magic or a malformed envelope.
    ProtocolError,
    /// A message other than `Initialize` before the handshake completed.
    ProtocolViolation,
    /// No traffic for longer than the timeout.
    Timeout,
}

/// What happened on a session.
#[derive(Debug, Clone, Copy, PartialEq, Eq, Structural)]
pub enum Event {
    /// The connection was just established.
    Connected,
    /// An `Initialize` message arrived.
    ReceivedInitialize,
    /// An `InventoryAnnouncement` arrived.
    ReceivedInventory,
    /// Another well-formed message arrived.
    ReceivedOther,
    /// An envelope with the wrong magic, or one that did not decode.
    ReceivedInvalid,
    /// Time passed; `idle` seconds since the last traffic.
    Idle { idle: u64 },
}

/// What the service must do in answer to an event.
#[derive(Debug, Clone, Copy, PartialEq, Eq, Structural)]
pub enum Action {
    SendInitialize,
    SendInventory,
    /// Record the peer's node id and advertised addresses.
    RecordPeer,
    /// Merge the announced inventory into the peer's projects.
    MergeInventory,
    Ping,
    Disconnect(DisconnectReason),
}

/// Keepalive and timeout intervals, in seconds.
#[derive(Debug, Clone, Copy, PartialEq, Eq, Structural)]
pub struct Timeouts {
    pub keepalive: u64,
    pub timeout: u64,
}

/// The next state and the actions for `event` in `state` on a `link`.
pub open spec fn transition(state: State, link: Link, event: Event, t: Timeouts) -> (State, Seq<Action>) {
    match (state, event) {
        (State::Closing, _) => (State::Closing, seq![]),
        (_, Event::ReceivedInvalid) => (
            State::Closing,
            seq![Action::Disconnect(DisconnectReason::ProtocolError)],
        ),
        (State::Handshaking, Event::Connected) => if link == Link::Outbound {
            (State::Handshaking, seq![Action::SendInitialize, Action::SendInventory])
        } else {
            (State::Handshaking, seq![])
        },
        (State::Handshaking, Event::ReceivedInitialize) => if link == Link::Inbound {
            (
                State::Initialized,
                seq![Action::RecordPeer, Action::SendInitialize, Action::SendInventory],
            )
        } else {
            (State::Initialized, seq![Action::RecordPeer])
        },
        (State::Handshaking, Event::ReceivedInventory) => (
            State::Closing,
            seq![Action::Disconnect(DisconnectReason::ProtocolViolation)],
        ),
        (State::Handshaking, Event::ReceivedOther) => (
            State::Closing,
            seq![Action::Disconnect(DisconnectReason::ProtocolViolation)],
        ),
        (State::Initialized, Event::ReceivedInventory) => (State::Active, seq![Action::MergeInventory]),
        (State::Active, Event::ReceivedInventory) => (State::Active, seq![Action::MergeInventory]),
        (State::Active, Event::Idle { idle }) => if idle > t.timeout {
            (State::Closing, seq![Action::Disconnect(DisconnectReason::Timeout)])
        } else if idle > t.keepalive {
            (State::Active, seq![Action::Ping])
        } else {
            (State::Active, seq![])
        },
        _ => (state, seq![]),
    }
}

/// A session with one peer.
#[derive(Debug, Clone, Copy, PartialEq, Eq, Structural)]
pub struct Session {
    pub link: Link,
    pub state: State,
    /// When the session was established, in seconds.
    pub since: u64,
    /// When traffic last arrived from the peer, in seconds.
    pub last_active: u64,
}

impl Session {
    /// A new session, handshaking.
    pub fn new(link: Link, since: u64) -> (r: Session)
        ensures
            r == (Session { link, state: State::Handshaking, since, last_active: since }),
    {
        Session { link, state: State::Handshaking, since, last_active: since }
    }

    /// Apply `event` and return the actions it calls for.
    pub fn step(&mut self, event: Event, t: Timeouts) -> (r: Vec<Action>)
        ensures
            (final(self).state, r@) == transition(old(self).state, old(self).link, event, t),
            final(self).link == old(self).link,
            final(self).since == old(self).since,
            final(self).last_active == old(self).last_active,
    {
        let mut out: Vec<Action> = Vec::new();
        let next = match (self.state, event) {
            (State::Closing, _) => State::Closing,
            (_, Event::ReceivedInvalid) => {
                out.push(Action::Disconnect(DisconnectReason::ProtocolError));
                State::Closing
            },
            (State::Handshaking, Event::Connected) => {
                if self.link == Link::Outbound {
                    out.push(Action::SendInitialize);
                    out.push(Action::SendInventory);
                }
                State::Handshaking
            },
            (State::Handshaking, Event::ReceivedInitialize) => {
                out.push(Action::RecordPeer);
                if self.link == Link::Inbound {
                    out.push(Action::SendInitialize);
                    out.push(Action::SendInventory);
                }
                State::Initialized
            },
            (State::Handshaking, Event::ReceivedInventory) | (
                State::Handshaking,
                Event::ReceivedOther,
            ) => {
                out.push(Action::Disconnect(DisconnectReason::ProtocolViolation));
                State::Closing
            },
            (State::Initialized, Event::ReceivedInventory) | (
                State::Active,
                Event::ReceivedInventory,
            ) => {
                out.push(Action::MergeInventory);
                State::Active
            },
            (State::Active, Event::Idle { idle }) => {
                if idle > t.timeout {
                    out.push(Action::Disconnect(DisconnectReason::Timeout));
                    State::Closing
                } else {
                    if idle > t.keepalive {
                        out.push(Action::Ping);
                    }
                    State::Active
                }
            },
            _ => self.state,
        };
        self.state = next;
        assert(out@ =~= transition(old(self).state, old(self).link, event, t).1);
        out
    }
}

/// The event that a decoded envelope, or a failure to decode one, is to a session.
pub open spec fn event_of(d: Result<(MessageView, nat), DecodeError>) -> Option<Event> {
    match d {
        Ok((MessageView::Initialize { .. }, _)) => Some(Event::ReceivedInitialize),
        Ok((MessageView::InventoryAnnouncement { .. }, _)) => Some(Event::ReceivedInventory),
        Ok(_) => Some(Event::ReceivedOther),
        Err(DecodeError::WrongMagic) => Some(Event::ReceivedInvalid),
        Err(DecodeError::Malformed) => Some(Event::ReceivedInvalid),
        Err(_) => None,
    }
}

impl Session {
    /// Read the envelope at the start of `bytes` on network `magic` and apply
    /// it to the session. A wrong magic or a malformed payload closes the
    /// session; incomplete bytes and unknown tags leave it as it is. Returns
    /// the actions and the decoded envelope, if any.
    pub fn receive(&mut self, bytes: &[u8], magic: u32, t: Timeouts) -> (r: (
        Vec<Action>,
        Option<Envelope>,
    ))
        ensures
            final(self).link == old(self).link,
            final(self).since == old(self).since,
            final(self).last_active == old(self).last_active,
            match event_of(parse_envelope(bytes@, magic)) {
                Some(e) => (final(self).state, r.0@) == transition(old(self).state, old(self).link, e, t),
                None => final(self).state == old(self).state && r.0@.len() == 0,
            },
            r.1 matches Some(env) ==> parse_envelope(bytes@, magic) matches Ok((m, _)) && env.msg@ == m,
            parse_envelope(bytes@, magic) is Ok ==> r.1 is Some,
    {
        match Envelope::decode(bytes, magic) {
            Ok((env, _)) => {
                let event = match &env.msg {
                    Message::Initialize { .. } => Event::ReceivedInitialize,
                    Message::InventoryAnnouncement { .. } => Event::ReceivedInventory,
                    _ => Event::ReceivedOther,
                };
                let actions = self.step(event, t);
                (actions, Some(env))
            },
            Err(DecodeError::WrongMagic) | Err(DecodeError::Malformed) => {
                let actions = self.step(Event::ReceivedInvalid, t);
                (actions, None)
            },
            Err(_) => (Vec::new(), None),
        }
    }
}

/// Port assumed for addresses that peers advertise.
pub const DEFAULT_PORT: u16 = 8776;

/// Service configuration.
#[derive(Debug)]
pub struct Config {
    pub node_id: Vec<u8>,
    /// Network magic of the envelopes this node accepts and sends.
    pub magic: u32,
    pub git_url: Vec<u8>,
    /// Addresses this node advertises.
    pub listen: Vec<Vec<u8>>,
    /// Projects this node hosts.
    pub inventory: Vec<Vec<u8>>,
    pub timeouts: Timeouts,
}

/// Output of the service, for the reactor to perform.
#[derive(Debug)]
pub enum Io {
    /// Send an envelope to a peer.
    Write(Vec<u8>, Envelope),
    /// Close the connection to a peer.
    Disconnect(Vec<u8>, DisconnectReason),
    /// Wake the service after this many seconds.
    SetTimer(u64),
    /// Send a keepalive to a peer.
    Ping(Vec<u8>),
}

pub enum IoView {
    Write(Seq<u8>, u32, MessageView),
    Disconnect(Seq<u8>, DisconnectReason),
    SetTimer(u64),
    Ping(Seq<u8>),
}

impl Io {
    pub open spec fn view(&self) -> IoView {
        match self {
            Io::Write(peer, env) => IoView::Write(peer@, env.magic, env.msg@),
            Io::Disconnect(peer, reason) => IoView::Disconnect(peer@, *reason),
            Io::SetTimer(t) => IoView::SetTimer(*t),
            Io::Ping(peer) => IoView::Ping(peer@),
        }
    }
}

pub open spec fn outbox_view(v: Seq<Io>) -> Seq<IoView> {
    Seq::new(v.len(), |i: int| v[i]@)
}

/// The output for one action of the session with `peer`, at time `now`.
pub open spec fn io_of(c: ConfigView, now: u64, peer: Seq<u8>, a: Action) -> Seq<IoView> {
    match a {
        Action::SendInitialize => seq![
            IoView::Write(
                peer,
                c.magic,
                MessageView::Initialize {
                    node_id: c.node_id,
                    timestamp: now,
                    addrs: c.listen,
                    git_url: c.git_url,
                },
            ),
        ],
        Action::SendInventory => seq![
            IoView::Write(
                peer,
                c.magic,
                MessageView::InventoryAnnouncement {
                    node_id: c.node_id,
                    inventory: c.inventory,
                    timestamp: now,
                },
            ),
        ],
        Action::Disconnect(r) => seq![IoView::Disconnect(peer, r)],
        Action::Ping => seq![IoView::Ping(peer)],
        _ => seq![],
    }
}

/// The output for a sequence of actions.
pub open spec fn ios_of(c: ConfigView, now: u64, peer: Seq<u8>, acts: Seq<Action>) -> Seq<IoView>
    decreases acts.len(),
{
    if acts.len() == 0 {
        seq![]
    } else {
        ios_of(c, now, peer, acts.drop_last()) + io_of(c, now, peer, acts.last())
    }
}

pub struct ConfigView {
    pub node_id: Seq<u8>,
    pub magic: u32,
    pub git_url: Seq<u8>,
    pub listen: Seq<Seq<u8>>,
    pub inventory: Seq<Seq<u8>>,
    pub timeouts: Timeouts,
}

impl Config {
    pub open spec fn view(&self) -> ConfigView {
        ConfigView {
            node_id: self.node_id@,
            magic: self.magic,
            git_url: self.git_url@,
            listen: items_view(self.listen@),
            inventory: items_view(self.inventory@),
            timeouts: self.timeouts,
        }
    }
}

/// The messages that `out` writes to `remote`, in order.
pub open spec fn writes_to(out: Seq<IoView>, remote: Seq<u8>) -> Seq<MessageView>
    decreases out.len(),
{
    if out.len() == 0 {
        seq![]
    } else {
        let prev = writes_to(out.drop_last(), remote);
        match out.last() {
            IoView::Write(p, _, m) => if p == remote {
                prev.push(m)
            } else {
                prev
            },
            _ => prev,
        }
    }
}

/// The entries of `out` other than writes to `remote`, in order.
pub open spec fn other_than(out: Seq<IoView>, remote: Seq<u8>) -> Seq<IoView>
    decreases out.len(),
{
    if out.len() == 0 {
        seq![]
    } else {
        let prev = other_than(out.drop_last(), remote);
        match out.last() {
            IoView::Write(p, _, _) => if p == remote {
                prev
            } else {
                prev.push(out.last())
            },
            _ => prev.push(out.last()),
        }
    }
}

pub open spec fn messages_view(v: Seq<Message>) -> Seq<MessageView> {
    Seq::new(v.len(), |i: int| v[i]@)
}

/// The position of the session with `peer` is `i`.
pub open spec fn session_at(ss: Seq<(Seq<u8>, Session)>, peer: Seq<u8>, i: int) -> bool {
    0 <= i < ss.len() && ss[i].0 == peer
}

pub open spec fn has_session(ss: Seq<(Seq<u8>, Session)>, peer: Seq<u8>) -> bool {
    exists|i: int| #[trigger] session_at(ss, peer, i)
}

/// The address book `es` after a session answered with `acts` to the decoded
/// envelope `d`: the addresses of an `Initialize` are recorded when the
/// session records its peer.
pub open spec fn recorded(
    es: Seq<KnownAddressView>,
    acts: Seq<Action>,
    d: Result<(MessageView, nat), DecodeError>,
) -> Seq<KnownAddressView> {
    if acts.contains(Action::RecordPeer) {
        match d {
            Ok((MessageView::Initialize { node_id, addrs, .. }, _)) => peers_inserted(
                es,
                addrs,
                DEFAULT_PORT,
                node_id,
            ),
            _ => es,
        }
    } else {
        es
    }
}

/// Seconds since traffic last arrived on `s`, at time `now`.
pub open spec fn idle_of(s: Session, now: u64) -> u64 {
    if now >= s.last_active {
        (now - s.last_active) as u64
    } else {
        0
    }
}

/// An active session after time passed to `now`; others stay as they are.
pub open spec fn ticked_session(s: Session, now: u64, t: Timeouts) -> Session {
    if s.state == State::Active {
        Session { state: transition(s.state, s.link, Event::Idle { idle: idle_of(s, now) }, t).0, ..s }
    } else {
        s
    }
}

pub open spec fn ticked(ss: Seq<(Seq<u8>, Session)>, now: u64, t: Timeouts) -> Seq<(Seq<u8>, Session)> {
    Seq::new(ss.len(), |i: int| (ss[i].0, ticked_session(ss[i].1, now, t)))
}

/// The actions an active session takes when time passed to `now`.
pub open spec fn tick_acts(s: Session, now: u64, t: Timeouts) -> Seq<Action> {
    if s.state == State::Active {
        transition(s.state, s.link, Event::Idle { idle: idle_of(s, now) }, t).1
    } else {
        seq![]
    }
}

/// The output of the first `n` sessions of `ss` when time passed to `now`.
pub open spec fn tick_ios(c: ConfigView, now: u64, ss: Seq<(Seq<u8>, Session)>, n: nat) -> Seq<IoView>
    decreases n,
{
    if n == 0 {
        seq![]
    } else {
        tick_ios(c, now, ss, (n - 1) as nat) + ios_of(c, now, ss[n - 1].0, tick_acts(ss[n - 1].1, now, c.timeouts))
    }
}

/// The per-peer runtime of a node: its sessions, address book and outbox.
#[derive(Debug)]
pub struct Service {
    config: Config,
    clock: u64,
    sessions: Vec<(Vec<u8>, Session)>,
    addresses: AddressBook,
    outbox: Vec<Io>,
    initialized: bool,
}

impl Service {
    pub closed spec fn config(&self) -> ConfigView {
        self.config@
    }

    pub closed spec fn clock(&self) -> u64 {
        self.clock
    }

    pub closed spec fn sessions(&self) -> Seq<(Seq<u8>, Session)> {
        Seq::new(self.sessions@.len(), |i: int| (self.sessions@[i].0@, self.sessions@[i].1))
    }

    pub closed spec fn addresses(&self) -> AddressBook {
        self.addresses
    }

    pub closed spec fn initialized(&self) -> bool {
        self.initialized
    }

    pub closed spec fn outbox_spec(&self) -> Seq<IoView> {
        outbox_view(self.outbox@)
    }

    /// The address book is well formed, and there is one session per peer.
    pub closed spec fn wf(&self) -> bool {
        &&& self.addresses().wf()
        &&& forall|i: int, j: int|
            0 <= i < j < self.sessions().len() ==> (#[trigger] self.sessions()[i]).0 != (#[trigger] self.sessions()[j]).0
    }

    /// A service with no sessions, an empty outbox, and `addresses` as its
    /// address book.
    pub fn new(config: Config, now: u64, addresses: AddressBook) -> (r: Service)
        requires
            addresses.wf(),
        ensures
            r.wf(),
            r.config() == config@,
            r.clock() == now,
            r.sessions().len() == 0,
            r.outbox_spec().len() == 0,
            r.addresses() == addresses,
            !r.initialized(),
    {
        let r = Service {
            config,
            clock: now,
            sessions: Vec::new(),
            addresses,
            outbox: Vec::new(),
            initialized: false,
        };
        assert(r.sessions() =~= Seq::<(Seq<u8>, Session)>::empty());
        assert(r.outbox_spec() =~= Seq::<IoView>::empty());
        r
    }

    /// The node's id.
    pub fn node_id(&self) -> (r: &Vec<u8>)
        ensures
            r@ == self.config().node_id,
    {
        &self.config.node_id
    }

    /// The service's clock, in seconds.
    pub fn timestamp(&self) -> (r: u64)
        ensures
            r == self.clock(),
    {
        self.clock
    }

    /// The address book.
    pub fn address_book(&self) -> (r: &AddressBook)
        ensures
            *r == self.addresses(),
    {
        &self.addresses
    }

    /// Start the service at time `now`: set the clock and ask to be woken
    /// at the keepalive interval. Only the first call has an effect.
    pub fn initialize(&mut self, now: u64)
        requires
            old(self).wf(),
        ensures
            final(self).wf(),
            final(self).initialized(),
            final(self).config() == old(self).config(),
            final(self).sessions() == old(self).sessions(),
            final(self).addresses() == old(self).addresses(),
            old(self).initialized() ==> final(self).clock() == old(self).clock() && final(self).outbox_spec()
                == old(self).outbox_spec(),
            !old(self).initialized() ==> final(self).clock() == now && final(self).outbox_spec()
                == old(self).outbox_spec().push(IoView::SetTimer(old(self).config().timeouts.keepalive)),
    {
        if !self.initialized {
            self.initialized = true;
            self.clock = now;
            let ghost before = self.outbox_spec();
            self.outbox.push(Io::SetTimer(self.config.timeouts.keepalive));
            assert(self.outbox_spec() =~= before.push(IoView::SetTimer(self.config().timeouts.keepalive)));
        }
        assert(self.sessions() =~= old(self).sessions());
    }

    /// An outbound connection to `peer` was attempted now.
    pub fn attempted(&mut self, peer: &Vec<u8>)
        requires
            old(self).wf(),
        ensures
            final(self).initialized() == old(self).initialized(),
            final(self).wf(),
            final(self).config() == old(self).config(),
            final(self).clock() == old(self).clock(),
            final(self).sessions() == old(self).sessions(),
            final(self).outbox_spec() == old(self).outbox_spec(),
            match old(self).addresses().find_spec(peer@) {
                Some(i) => final(self).addresses()@ == old(self).addresses()@.update(
                    i,
                    KnownAddressView { last_attempt: Some(old(self).clock()), ..old(self).addresses()@[i] },
                ),
                None => final(self).addresses()@ == old(self).addresses()@,
            },
    {
        self.addresses.record_attempt(peer, self.clock);
        assert(self.sessions() =~= old(self).sessions());
    }

    /// Advance the clock to `now`, and let each active session see how long
    /// its peer has been idle: past the keepalive interval it is pinged,
    /// past the timeout it is disconnected.
    #[verifier::rlimit(40)]
    pub fn tick(&mut self, now: u64)
        requires
            old(self).wf(),
        ensures
            final(self).wf(),
            final(self).clock() == now,
            final(self).config() == old(self).config(),
            final(self).sessions() == ticked(old(self).sessions(), now, old(self).config().timeouts),
            final(self).outbox_spec() == old(self).outbox_spec() + tick_ios(
                old(self).config(),
                now,
                old(self).sessions(),
                old(self).sessions().len(),
            ),
            final(self).addresses() == old(self).addresses(),
            final(self).initialized() == old(self).initialized(),
    {
        self.clock = now;
        assert(self.sessions() =~= old(self).sessions());
        let ghost ss = self.sessions();
        let ghost ob = self.outbox_spec();
        let t = self.config.timeouts;
        let n = self.sessions.len();
        let mut i: usize = 0;
        while i < n
            invariant
                i <= n,
                n == ss.len(),
                self.sessions@.len() == n,
                t == self.config().timeouts,
                self.clock() == now,
                self.config() == old(self).config(),
                self.addresses() == old(self).addresses(),
                self.initialized() == old(self).initialized(),
                self.addresses().wf(),
                forall|k: int| 0 <= k < n ==> (#[trigger] self.sessions()[k]).0 == ss[k].0,
                forall|k: int| 0 <= k < i ==> #[trigger] self.sessions()[k] == ticked(ss, now, t)[k],
                forall|k: int| i <= k < n ==> #[trigger] self.sessions()[k] == ss[k],
                self.outbox_spec() == ob + tick_ios(self.config(), now, ss, i as nat),
            decreases n - i,
        {
            assert(self.sessions()[i as int] == ss[i as int]);
            let mut session = self.sessions[i].1;
            assert(session == ss[i as int].1);
            if session.state == State::Active {
                let idle = if now >= session.last_active { now - session.last_active } else { 0 };
                let acts = session.step(Event::Idle { idle }, t);
                let peer = clone_bytes(&self.sessions[i].0);
                assert(peer@ == ss[i as int].0);
                let ghost before = self.sessions();
                self.perform(&peer, &acts);
                assert(self.sessions@.len() == self.sessions().len());
                self.sessions.set(i, (peer, session));
                assert(self.sessions() =~= before.update(i as int, (ss[i as int].0, session)));
            }
            i = i + 1;
        }
        assert(self.sessions() =~= ticked(ss, now, t));
        assert(ss == old(self).sessions());
        assert forall|a: int, b: int| 0 <= a < b < self.sessions().len() implies (#[trigger] self.sessions()[a]).0
            != (#[trigger] self.sessions()[b]).0 by {
            assert(ss[a].0 != ss[b].0);
        }
    }

    /// Take every pending output, oldest first.
    pub fn outbox(&mut self) -> (r: Vec<Io>)
        ensures
            outbox_view(r@) == old(self).outbox_spec(),
            final(self).outbox_spec().len() == 0,
            final(self).config() == old(self).config(),
            final(self).clock() == old(self).clock(),
            final(self).sessions() == old(self).sessions(),
            final(self).addresses() == old(self).addresses(),
            final(self).wf() == old(self).wf(),
    {
        let mut r: Vec<Io> = Vec::new();
        r.append(&mut self.outbox);
        assert(self.outbox_spec() =~= Seq::<IoView>::empty());
        assert(outbox_view(r@) =~= old(self).outbox_spec());
        r
    }

    /// Take the messages written to `remote`, oldest first, and keep the
    /// rest of the outbox in order.
    #[verifier::rlimit(40)]
    pub fn messages(&mut self, remote: &Vec<u8>) -> (r: Vec<Message>)
        ensures
            messages_view(r@) == writes_to(old(self).outbox_spec(), remote@),
            final(self).outbox_spec() == other_than(old(self).outbox_spec(), remote@),
            final(self).config() == old(self).config(),
            final(self).clock() == old(self).clock(),
            final(self).sessions() == old(self).sessions(),
            final(self).addresses() == old(self).addresses(),
            final(self).initialized() == old(self).initialized(),
            final(self).wf() == old(self).wf(),
    {
        let mut all: Vec<Io> = Vec::new();
        all.append(&mut self.outbox);
        let ghost whole = outbox_view(all@);
        assert(whole == old(self).outbox_spec());
        let n = all.len();
        let mut msgs: Vec<Message> = Vec::new();
        let mut i: usize = 0;
        assert(whole.subrange(0, 0) =~= Seq::<IoView>::empty());
        assert(self.outbox_spec() =~= Seq::<IoView>::empty());
        while i < n
            invariant
                i <= n,
                all@.len() == n - i,
                outbox_view(all@) == whole.subrange(i as int, n as int),
                whole.len() == n,
                messages_view(msgs@) == writes_to(whole.subrange(0, i as int), remote@),
                self.outbox_spec() == other_than(whole.subrange(0, i as int), remote@),
                self.config() == old(self).config(),
                self.clock() == old(self).clock(),
                self.sessions() == old(self).sessions(),
                self.addresses() == old(self).addresses(),
                self.initialized() == old(self).initialized(),
            decreases n - i,
        {
            let ghost before_all = outbox_view(all@);
            let ghost raw = all@;
            let io = all.remove(0);
            assert(all@ =~= raw.remove(0));
            assert forall|k: int| 0 <= k < all@.len() implies #[trigger] outbox_view(all@)[k] == before_all[k + 1] by {
                assert(all@[k] == raw[k + 1]);
            }
            assert(io@ == whole[i as int]) by {
                assert(before_all[0] == io@);
            }
            assert(outbox_view(all@) =~= whole.subrange(i + 1, n as int));
            let ghost pre = whole.subrange(0, i + 1);
            assert(pre.drop_last() =~= whole.subrange(0, i as int));
            assert(pre.last() == io@);
            let ghost mv = messages_view(msgs@);
            let ghost ov = self.outbox_spec();
            match io {
                Io::Write(p, env) => {
                    if bytes_eq(&p, remote) {
                        msgs.push(env.msg);
                        assert(messages_view(msgs@) =~= mv.push(io@->Write_2));
                    } else {
                        let ghost v = Io::Write(p, env)@;
                        self.outbox.push(Io::Write(p, env));
                        assert(self.outbox_spec() =~= ov.push(v));
                    }
                },
                other => {
                    let ghost v = other@;
                    self.outbox.push(other);
                    assert(self.outbox_spec() =~= ov.push(v));
                },
            }
            i = i + 1;
        }
        assert(whole.subrange(0, n as int) =~= whole);
        assert(self.sessions() =~= old(self).sessions());
        msgs
    }

    fn find_session(&self, peer: &Vec<u8>) -> (r: Option<usize>)
        ensures
            match r {
                Some(i) => session_at(self.sessions(), peer@, i as int),
                None => !has_session(self.sessions(), peer@),
            },
    {
        let mut i: usize = 0;
        while i < self.sessions.len()
            invariant
                i <= self.sessions.len(),
                forall|j: int| 0 <= j < i ==> !#[trigger] session_at(self.sessions(), peer@, j),
            decreases self.sessions.len() - i,
        {
            if bytes_eq(&self.sessions[i].0, peer) {
                return Some(i);
            }
            i = i + 1;
        }
        None
    }

    /// Queue the output of `acts` for `peer`.
    fn perform(&mut self, peer: &Vec<u8>, acts: &Vec<Action>)
        ensures
            final(self).outbox_spec() == old(self).outbox_spec() + ios_of(
                old(self).config(),
                old(self).clock(),
                peer@,
                acts@,
            ),
            final(self).config() == old(self).config(),
            final(self).clock() == old(self).clock(),
            final(self).sessions() == old(self).sessions(),
            final(self).addresses() == old(self).addresses(),
            final(self).initialized() == old(self).initialized(),
    {
        let ghost start = self.outbox_spec();
        let mut i: usize = 0;
        while i < acts.len()
            invariant
                i <= acts.len(),
                self.config() == old(self).config(),
                self.clock() == old(self).clock(),
                self.sessions() == old(self).sessions(),
                self.addresses() == old(self).addresses(),
                self.initialized() == old(self).initialized(),
                start == old(self).outbox_spec(),
                self.outbox_spec() == start + ios_of(
                    self.config(),
                    self.clock(),
                    peer@,
                    acts@.subrange(0, i as int),
                ),
            decreases acts.len() - i,
        {
            let ghost before = self.outbox_spec();
            let a = acts[i];
            match a {
                Action::SendInitialize => {
                    let msg = Message::Initialize {
                        node_id: clone_bytes(&self.config.node_id),
                        timestamp: self.clock,
                        addrs: clone_items(&self.config.listen),
                        git_url: clone_bytes(&self.config.git_url),
                    };
                    self.outbox.push(Io::Write(clone_bytes(peer), Envelope { magic: self.config.magic, msg }));
                },
                Action::SendInventory => {
                    let msg = Message::InventoryAnnouncement {
                        node_id: clone_bytes(&self.config.node_id),
                        inventory: clone_items(&self.config.inventory),
                        timestamp: self.clock,
                    };
                    self.outbox.push(Io::Write(clone_bytes(peer), Envelope { magic: self.config.magic, msg }));
                },
                Action::Disconnect(reason) => {
                    self.outbox.push(Io::Disconnect(clone_bytes(peer), reason));
                },
                Action::Ping => {
                    self.outbox.push(Io::Ping(clone_bytes(peer)));
                },
                _ => {},
            }
            proof {
                let pre = acts@.subrange(0, i + 1);
                assert(pre.drop_last() =~= acts@.subrange(0, i as int));
                assert(pre.last() == a);
                assert(self.outbox_spec() =~= before + io_of(self.config(), self.clock(), peer@, a));
            }
            i = i + 1;
        }
        assert(acts@.subrange(0, acts.len() as int) =~= acts@);
    }

    /// A connection with `peer` was established: start a handshaking session,
    /// in place of any session the peer had. An outbound session sends
    /// `Initialize` and its inventory.
    pub fn connected(&mut self, peer: &Vec<u8>, link: Link)
        requires
            old(self).wf(),
        ensures
            final(self).initialized() == old(self).initialized(),
            final(self).wf(),
            ({
                let fresh = (peer@, Session {
                    link,
                    state: State::Handshaking,
                    since: old(self).clock(),
                    last_active: old(self).clock(),
                });
                if has_session(old(self).sessions(), peer@) {
                    final(self).sessions() == old(self).sessions().update(
                        choose|i: int| session_at(old(self).sessions(), peer@, i),
                        fresh,
                    )
                } else {
                    final(self).sessions() == old(self).sessions().push(fresh)
                }
            }),
            final(self).outbox_spec() == old(self).outbox_spec() + ios_of(
                old(self).config(),
                old(self).clock(),
                peer@,
                transition(State::Handshaking, link, Event::Connected, old(self).config().timeouts).1,
            ),
            final(self).config() == old(self).config(),
            final(self).clock() == old(self).clock(),
            final(self).addresses() == old(self).addresses(),
    {
        let mut session = Session::new(link, self.clock);
        let acts = session.step(Event::Connected, self.config.timeouts);
        self.perform(peer, &acts);
        let ghost before = self.sessions();
        match self.find_session(peer) {
            Some(i) => {
                proof {
                    lemma_session_index(self, peer@, i as int);
                }
                self.sessions.set(i, (clone_bytes(peer), session));
                assert(self.sessions() =~= before.update(i as int, (peer@, session)));
                assert forall|a: int, b: int| 0 <= a < b < self.sessions().len() implies (#[trigger] self.sessions()[a]).0
                    != (#[trigger] self.sessions()[b]).0 by {
                    assert(self.sessions()[a].0 == before[a].0);
                    assert(self.sessions()[b].0 == before[b].0);
                }
            },
            None => {
                self.sessions.push((clone_bytes(peer), session));
                assert(self.sessions() =~= before.push((peer@, session)));
                assert forall|a: int, b: int| 0 <= a < b < self.sessions().len() implies (#[trigger] self.sessions()[a]).0
                    != (#[trigger] self.sessions()[b]).0 by {
                    if b == before.len() {
                        assert(!session_at(before, peer@, a));
                    } else {
                        assert(before[a].0 != before[b].0);
                    }
                }
            },
        }
    }

    /// Bytes arrived from `peer`: apply them to its session and queue what it
    /// calls for. Addresses advertised in an `Initialize` are recorded. Bytes
    /// from a peer without a session are ignored.
    #[verifier::rlimit(40)]
    pub fn received_message(&mut self, peer: &Vec<u8>, bytes: &[u8])
        requires
            old(self).wf(),
        ensures
            final(self).initialized() == old(self).initialized(),
            final(self).wf(),
            final(self).config() == old(self).config(),
            final(self).clock() == old(self).clock(),
            !has_session(old(self).sessions(), peer@) ==> final(self).sessions() == old(self).sessions()
                && final(self).outbox_spec() == old(self).outbox_spec() && final(self).addresses()
                == old(self).addresses(),
            has_session(old(self).sessions(), peer@) ==> {
                let i = choose|i: int| session_at(old(self).sessions(), peer@, i);
                let s = old(self).sessions()[i].1;
                let d = parse_envelope(bytes@, old(self).config().magic);
                match event_of(d) {
                    Some(e) => {
                        let (next, acts) = transition(s.state, s.link, e, old(self).config().timeouts);
                        &&& final(self).sessions() == old(self).sessions().update(
                            i,
                            (peer@, Session { state: next, last_active: old(self).clock(), ..s }),
                        )
                        &&& final(self).outbox_spec() == old(self).outbox_spec() + ios_of(
                            old(self).config(),
                            old(self).clock(),
                            peer@,
                            acts,
                        )
                        &&& final(self).addresses()@ == recorded(old(self).addresses()@, acts, d)
                    },
                    None => final(self).sessions() == old(self).sessions().update(
                        i,
                        (peer@, Session { last_active: old(self).clock(), ..s }),
                    ) && final(self).outbox_spec() == old(self).outbox_spec()
                        && final(self).addresses() == old(self).addresses(),
                }
            },
    {
        let i = match self.find_session(peer) {
            Some(i) => i,
            None => return,
        };
        proof {
            lemma_session_index(self, peer@, i as int);
        }
        let mut session = self.sessions[i].1;
        assert(session == self.sessions()[i as int].1);
        let (acts, env) = session.receive(bytes, self.config.magic, self.config.timeouts);
        session.last_active = self.clock;
        let ghost before = self.sessions();
        let ghost ob = self.outbox_spec();
        self.sessions.set(i, (clone_bytes(peer), session));
        assert(self.sessions() =~= before.update(i as int, (peer@, session)));
        assert forall|x: int| 0 <= x < before.len() implies (#[trigger] self.sessions()[x]).0 == before[x].0 by {}
        assert forall|a: int, b: int| 0 <= a < b < self.sessions().len() implies (#[trigger] self.sessions()[a]).0
            != (#[trigger] self.sessions()[b]).0 by {
            assert(self.sessions()[a].0 == before[a].0);
            assert(self.sessions()[b].0 == before[b].0);
        }
        self.perform(peer, &acts);
        if contains_action(&acts, Action::RecordPeer) {
            if let Some(env) = env {
                if let Message::Initialize { node_id, addrs, .. } = &env.msg {
                    let ghost av = items_view(addrs@);
                    let mut j: usize = 0;
                    assert(av.subrange(0, 0) =~= Seq::<Seq<u8>>::empty());
                    while j < addrs.len()
                        invariant
                            j <= addrs.len(),
                            av == items_view(addrs@),
                            self.wf(),
                            self.initialized() == old(self).initialized(),
                            i < before.len(),
                            self.config() == old(self).config(),
                            self.clock() == old(self).clock(),
                            self.sessions() == before.update(i as int, (peer@, session)),
                            self.outbox_spec() == ob + ios_of(old(self).config(), old(self).clock(), peer@, acts@),
                            self.addresses@ == peers_inserted(
                                old(self).addresses@,
                                av.subrange(0, j as int),
                                DEFAULT_PORT,
                                node_id@,
                            ),
                        decreases addrs.len() - j,
                    {
                        self.addresses.insert_from_peer(&addrs[j], DEFAULT_PORT, node_id);
                        proof {
                            let sub = av.subrange(0, j + 1);
                            assert(sub.drop_last() =~= av.subrange(0, j as int));
                            assert(sub.last() == addrs@[j as int]@);
                        }
                        j = j + 1;
                    }
                    assert(av.subrange(0, addrs.len() as int) =~= av);
                }
            }
        }
    }

    /// The connection with `peer` was closed: drop its session.
    pub fn disconnected(&mut self, peer: &Vec<u8>)
        requires
            old(self).wf(),
        ensures
            final(self).initialized() == old(self).initialized(),
            final(self).wf(),
            !has_session(final(self).sessions(), peer@),
            final(self).config() == old(self).config(),
            final(self).clock() == old(self).clock(),
            final(self).outbox_spec() == old(self).outbox_spec(),
            final(self).addresses() == old(self).addresses(),
            has_session(old(self).sessions(), peer@) ==> final(self).sessions() == old(self).sessions().remove(
                choose|i: int| session_at(old(self).sessions(), peer@, i),
            ),
            !has_session(old(self).sessions(), peer@) ==> final(self).sessions() == old(self).sessions(),
    {
        match self.find_session(peer) {
            None => {},
            Some(i) => {
                proof {
                    lemma_session_index(self, peer@, i as int);
                }
                let ghost before = self.sessions();
                self.sessions.remove(i);
                assert(self.sessions() =~= before.remove(i as int));
                proof {
                    if has_session(self.sessions(), peer@) {
                        let k = choose|k: int| session_at(self.sessions(), peer@, k);
                        if k < i {
                            assert(before[k].0 != before[i as int].0);
                        } else {
                            assert(before[i as int].0 != before[k + 1].0);
                        }
                    }
                    assert forall|a: int, b: int| 0 <= a < b < self.sessions().len() implies (#[trigger] self.sessions()[a]).0
                        != (#[trigger] self.sessions()[b]).0 by {
                        let a2 = if a < i { a } else { a + 1 };
                        let b2 = if b < i { b } else { b + 1 };
                        assert(before[a2].0 != before[b2].0);
                    }
                }
            },
        }
    }
}

fn contains_action(acts: &Vec<Action>, a: Action) -> (r: bool)
    ensures
        r == acts@.contains(a),
{
    let mut i: usize = 0;
    while i < acts.len()
        invariant
            i <= acts.len(),
            forall|j: int| 0 <= j < i ==> acts@[j] != a,
        decreases acts.len() - i,
    {
        if acts[i] == a {
            return true;
        }
        i = i + 1;
    }
    false
}

proof fn lemma_session_index(s: &Service, peer: Seq<u8>, i: int)
    requires
        s.wf(),
        session_at(s.sessions(), peer, i),
    ensures
        has_session(s.sessions(), peer),
        (choose|j: int| session_at(s.sessions(), peer, j)) == i,
{
    let j = choose|j: int| session_at(s.sessions(), peer, j);
    if j < i {
        assert(s.sessions()[j].0 != s.sessions()[i].0);
    } else if j > i {
        assert(s.sessions()[i].0 != s.sessions()[j].0);
    }
}

} // verus!
