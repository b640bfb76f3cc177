use radicle_core::address_book::{AddressBook, KnownAddress, Source};
use radicle_core::message::{Envelope, Message};
use radicle_core::options::{ArgsError, Flag, Options, Show};
use radicle_core::service::{Action, DisconnectReason, Event, Link, Session, State, Timeouts};

const MAGIC: u32 = 0x5241_4431;
const T: Timeouts = Timeouts { keepalive: 60, timeout: 300 };

fn init_bytes(magic: u32) -> Vec<u8> {
    Envelope {
        magic,
        msg: Message::Initialize {
            node_id: b"node-b".to_vec(),
            timestamp: 1,
            addrs: vec![b"10.0.0.2".to_vec()],
            git_url: b"file:///10.0.0.2.git".to_vec(),
        },
    }
    .encode()
}

fn inventory_bytes() -> Vec<u8> {
    Envelope {
        magic: MAGIC,
        msg: Message::InventoryAnnouncement { node_id: b"node-b".to_vec(), inventory: vec![vec![1]], timestamp: 2 },
    }
    .encode()
}

#[test]
fn outbound_handshake() {
    let mut s = Session::new(Link::Outbound, 0);
    assert_eq!(s.step(Event::Connected, T), vec![Action::SendInitialize, Action::SendInventory]);
    assert_eq!(s.state, State::Handshaking);
    let (actions, env) = s.receive(&init_bytes(MAGIC), MAGIC, T);
    assert_eq!(actions, vec![Action::RecordPeer]);
    assert_eq!(s.state, State::Initialized);
    let env = env.unwrap();
    let mut book = AddressBook::new();
    if let Message::Initialize { node_id, addrs, .. } = &env.msg {
        for a in addrs {
            book.insert_from_peer(a, 8776, node_id);
        }
    }
    assert_eq!(book.len(), 1);
    assert_eq!(book.get(0).host, b"10.0.0.2".to_vec());
    assert!(matches!(&book.get(0).source, Source::Peer(id) if id == b"node-b"));
    let (actions, _) = s.receive(&inventory_bytes(), MAGIC, T);
    assert_eq!(actions, vec![Action::MergeInventory]);
    assert_eq!(s.state, State::Active);
}

#[test]
fn inbound_handshake_echoes() {
    let mut s = Session::new(Link::Inbound, 0);
    assert!(s.step(Event::Connected, T).is_empty());
    let (actions, _) = s.receive(&init_bytes(MAGIC), MAGIC, T);
    assert_eq!(actions, vec![Action::RecordPeer, Action::SendInitialize, Action::SendInventory]);
    assert_eq!(s.state, State::Initialized);
}

#[test]
fn magic_mismatch_closes() {
    let mut s = Session::new(Link::Outbound, 0);
    let (actions, env) = s.receive(&init_bytes(0xDEAD_BEEF), MAGIC, T);
    assert!(env.is_none());
    assert_eq!(actions, vec![Action::Disconnect(DisconnectReason::ProtocolError)]);
    assert_eq!(s.state, State::Closing);
    assert!(s.step(Event::ReceivedInitialize, T).is_empty());
    assert_eq!(s.state, State::Closing);
}

#[test]
fn message_before_initialize_is_a_violation() {
    let mut s = Session::new(Link::Inbound, 0);
    let (actions, _) = s.receive(&inventory_bytes(), MAGIC, T);
    assert_eq!(actions, vec![Action::Disconnect(DisconnectReason::ProtocolViolation)]);
    assert_eq!(s.state, State::Closing);
}

#[test]
fn incomplete_bytes_leave_session_alone() {
    let mut s = Session::new(Link::Inbound, 0);
    let bytes = init_bytes(MAGIC);
    let (actions, env) = s.receive(&bytes[..bytes.len() - 1], MAGIC, T);
    assert!(actions.is_empty() && env.is_none());
    assert_eq!(s.state, State::Handshaking);
}

#[test]
fn keepalive_and_timeout() {
    let mut s = Session { link: Link::Outbound, state: State::Active, since: 0, last_active: 0 };
    assert!(s.step(Event::Idle { idle: 10 }, T).is_empty());
    assert_eq!(s.step(Event::Idle { idle: 61 }, T), vec![Action::Ping]);
    assert_eq!(s.state, State::Active);
    assert_eq!(s.step(Event::Idle { idle: 301 }, T), vec![Action::Disconnect(DisconnectReason::Timeout)]);
    assert_eq!(s.state, State::Closing);
}

#[test]
fn stronger_provenance_is_kept() {
    let mut book = AddressBook::new();
    book.insert(KnownAddress {
        host: b"1.1.1.1".to_vec(),
        port: 1,
        source: Source::Bootstrap,
        last_success: Some(5),
        last_attempt: None,
    });
    book.insert_from_peer(&b"1.1.1.1".to_vec(), 2, &b"peer".to_vec());
    assert_eq!(book.len(), 1);
    assert!(matches!(book.get(0).source, Source::Bootstrap));
    assert_eq!(book.get(0).port, 1);
    book.insert_from_peer(&b"2.2.2.2".to_vec(), 3, &b"p1".to_vec());
    book.insert_from_peer(&b"2.2.2.2".to_vec(), 4, &b"p2".to_vec());
    assert_eq!(book.len(), 2);
    assert_eq!(book.get(1).port, 4);
    assert!(matches!(&book.get(1).source, Source::Peer(id) if id == b"p2"));
    assert_eq!(book.find(&b"2.2.2.2".to_vec()), Some(1));
    assert_eq!(book.find(&b"3.3.3.3".to_vec()), None);
}

#[test]
fn self_options() {
    assert_eq!(Options::from_args(&vec![]), Ok(Options { show: Show::All }));
    assert_eq!(Options::from_args(&vec![Flag::Profile]), Ok(Options { show: Show::Profile }));
    assert_eq!(Options::from_args(&vec![Flag::Profile, Flag::Profile]), Err(ArgsError::Unexpected(1)));
    assert_eq!(Options::from_args(&vec![Flag::Profile, Flag::Help]), Err(ArgsError::Help));
    assert_eq!(Options::from_args(&vec![Flag::Other, Flag::Help]), Err(ArgsError::Unexpected(0)));
}

use radicle_core::service::{Config, Io, Service};

fn config(node: &[u8]) -> Config {
    Config {
        node_id: node.to_vec(),
        magic: MAGIC,
        git_url: b"file:///a.git".to_vec(),
        listen: vec![b"10.0.0.1".to_vec()],
        inventory: vec![vec![0x11; 20]],
        timeouts: T,
    }
}

fn messages(svc: &mut Service, remote: &[u8]) -> Vec<Message> {
    svc.messages(&remote.to_vec())
}

#[test]
fn service_outbound_handshake() {
    let b_addr = b"10.0.0.2".to_vec();
    let mut a = Service::new(config(b"node-a"), 1000, AddressBook::new());
    a.connected(&b_addr, Link::Outbound);
    let msgs = messages(&mut a, &b_addr);
    assert_eq!(msgs.len(), 2);
    assert!(matches!(&msgs[0], Message::Initialize { node_id, timestamp: 1000, .. } if node_id == b"node-a"));
    assert!(matches!(&msgs[1], Message::InventoryAnnouncement { node_id, inventory, .. }
        if node_id == b"node-a" && inventory == &vec![vec![0x11; 20]]));

    a.received_message(&b_addr, &init_bytes(MAGIC));
    assert!(a.outbox().is_empty());
    let book = a.address_book();
    assert_eq!(book.len(), 1);
    assert_eq!(book.get(0).host, b_addr);
    assert!(matches!(&book.get(0).source, Source::Peer(id) if id == b"node-b"));
}

#[test]
fn service_magic_mismatch() {
    let b_addr = b"10.0.0.2".to_vec();
    let mut a = Service::new(config(b"node-a"), 0, AddressBook::new());
    a.connected(&b_addr, Link::Inbound);
    assert!(a.outbox().is_empty());
    a.received_message(&b_addr, &init_bytes(0xDEAD_BEEF));
    let out = a.outbox();
    assert_eq!(out.len(), 1);
    assert!(matches!(&out[0], Io::Disconnect(p, DisconnectReason::ProtocolError) if p == &b_addr));
    assert_eq!(a.address_book().len(), 0);
    a.disconnected(&b_addr);
    a.received_message(&b_addr, &init_bytes(MAGIC));
    assert!(a.outbox().is_empty());
}

#[test]
fn service_replay_is_deterministic() {
    let run = || {
        let mut svc = Service::new(config(b"node-a"), 7, AddressBook::new());
        let mut log = Vec::new();
        for i in 0..1000u32 {
            let peer = format!("10.0.{}.{}", i % 7, i % 3).into_bytes();
            match i % 5 {
                0 => svc.connected(&peer, if i % 2 == 0 { Link::Inbound } else { Link::Outbound }),
                1 => svc.received_message(&peer, &init_bytes(MAGIC)),
                2 => svc.received_message(&peer, &inventory_bytes()),
                3 => svc.received_message(&peer, &init_bytes(i)),
                _ => svc.disconnected(&peer),
            }
            svc.tick(7 + i as u64);
            log.push(format!("{:?}", svc.outbox()));
        }
        log
    };
    assert_eq!(run(), run());
}

#[test]
fn service_initialize_once() {
    let mut svc = Service::new(config(b"node-a"), 5, AddressBook::new());
    svc.initialize(100);
    assert_eq!(svc.timestamp(), 100);
    let out = svc.outbox();
    assert_eq!(out.len(), 1);
    assert!(matches!(out[0], Io::SetTimer(60)));
    svc.initialize(200);
    assert_eq!(svc.timestamp(), 100);
    assert!(svc.outbox().is_empty());
    assert_eq!(svc.node_id(), &b"node-a".to_vec());
}

#[test]
fn service_records_attempts() {
    let mut book = AddressBook::new();
    book.insert(KnownAddress {
        host: b"1.2.3.4".to_vec(),
        port: 8776,
        source: Source::Dns,
        last_success: None,
        last_attempt: None,
    });
    let mut svc = Service::new(config(b"node-a"), 42, book);
    svc.attempted(&b"1.2.3.4".to_vec());
    svc.attempted(&b"9.9.9.9".to_vec());
    let book = svc.address_book();
    assert_eq!(book.len(), 1);
    assert_eq!(book.get(0).last_attempt, Some(42));
    assert!(matches!(book.get(0).source, Source::Dns));
}

#[test]
fn service_reconnect_replaces_session() {
    let peer = b"10.0.0.9".to_vec();
    let mut svc = Service::new(config(b"node-a"), 0, AddressBook::new());
    svc.connected(&peer, Link::Inbound);
    svc.received_message(&peer, &init_bytes(MAGIC));
    let _ = svc.outbox();
    svc.connected(&peer, Link::Outbound);
    assert_eq!(messages(&mut svc, &peer).len(), 2);
    // the fresh session is handshaking again: an inventory first is a violation
    svc.received_message(&peer, &inventory_bytes());
    let out = svc.outbox();
    assert!(matches!(&out[0], Io::Disconnect(_, DisconnectReason::ProtocolViolation)));
}

#[test]
fn service_messages_keep_other_output() {
    let (p1, p2) = (b"10.0.0.1".to_vec(), b"10.0.0.2".to_vec());
    let mut svc = Service::new(config(b"node-a"), 0, AddressBook::new());
    svc.connected(&p1, Link::Outbound);
    svc.connected(&p2, Link::Outbound);
    assert_eq!(svc.messages(&p1).len(), 2);
    let rest = svc.outbox();
    assert_eq!(rest.len(), 2);
    assert!(rest.iter().all(|io| matches!(io, Io::Write(p, _) if p == &p2)));
}

#[test]
fn service_keepalive_then_timeout() {
    let peer = b"10.0.0.5".to_vec();
    let mut svc = Service::new(config(b"node-a"), 1000, AddressBook::new());
    svc.connected(&peer, Link::Outbound);
    svc.received_message(&peer, &init_bytes(MAGIC));
    svc.received_message(&peer, &inventory_bytes());
    let _ = svc.outbox();
    svc.tick(1030);
    assert!(svc.outbox().is_empty());
    svc.tick(1061);
    let out = svc.outbox();
    assert_eq!(out.len(), 1);
    assert!(matches!(&out[0], Io::Ping(p) if p == &peer));
    svc.tick(1301);
    let out = svc.outbox();
    assert!(matches!(&out[0], Io::Disconnect(p, DisconnectReason::Timeout) if p == &peer));
    svc.tick(2000);
    assert!(svc.outbox().is_empty());
}

#[test]
fn service_peer_address_does_not_replace_bootstrap() {
    let b_addr = b"10.0.0.2".to_vec();
    let mut book = AddressBook::new();
    book.insert(KnownAddress {
        host: b_addr.clone(),
        port: 1,
        source: Source::Bootstrap,
        last_success: None,
        last_attempt: None,
    });
    let mut svc = Service::new(config(b"node-a"), 0, book);
    svc.connected(&b_addr, Link::Outbound);
    svc.received_message(&b_addr, &init_bytes(MAGIC));
    assert_eq!(svc.address_book().len(), 1);
    assert!(matches!(svc.address_book().get(0).source, Source::Bootstrap));
}
