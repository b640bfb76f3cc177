use radicle_core::message::{DecodeError, Envelope, Message};

const MAGIC: u32 = 0x0102_0304;

fn samples() -> Vec<Message> {
    vec![
        Message::Initialize {
            node_id: vec![1; 32],
            timestamp: 1_700_000_000,
            addrs: vec![b"10.0.0.1:8776".to_vec(), b"seed.example:8776".to_vec()],
            git_url: b"file:///10.0.0.2.git".to_vec(),
        },
        Message::InventoryAnnouncement {
            node_id: vec![2; 32],
            inventory: vec![vec![9; 20], vec![8; 20], vec![]],
            timestamp: 42,
        },
        Message::NodeAnnouncement {
            node_id: vec![3; 32],
            features: 0xdead_beef,
            alias: b"alice".to_vec(),
            addrs: vec![],
            timestamp: u64::MAX,
        },
        Message::RefsAnnouncement {
            node_id: vec![4; 32],
            project: vec![7; 20],
            refs: vec![
                (b"refs/heads/master".to_vec(), vec![0xab; 20]),
                (b"refs/heads/dev".to_vec(), vec![0xcd; 20]),
            ],
            timestamp: 0,
        },
    ]
}

fn same(a: &Message, b: &Message) -> bool {
    format!("{:?}", a) == format!("{:?}", b)
}

#[test]
fn round_trip_every_variant() {
    for msg in samples() {
        let env = Envelope { magic: MAGIC, msg: msg.clone() };
        let mut bytes = env.encode();
        let len = bytes.len();
        bytes.extend_from_slice(&[0xff, 0xee]);
        let (back, used) = Envelope::decode(&bytes, MAGIC).unwrap();
        assert_eq!(used, len);
        assert_eq!(back.magic, MAGIC);
        assert!(same(&back.msg, &msg));
    }
}

#[test]
fn exact_inventory_bytes() {
    let env = Envelope {
        magic: MAGIC,
        msg: Message::InventoryAnnouncement { node_id: vec![0xaa], inventory: vec![vec![1, 2]], timestamp: 5 },
    };
    let expected: Vec<u8> = vec![
        4, 3, 2, 1, // magic
        2, 0, // tag
        23, 0, 0, 0, // payload length
        1, 0, 0, 0, 0xaa, // node id
        1, 0, 0, 0, 2, 0, 0, 0, 1, 2, // inventory
        5, 0, 0, 0, 0, 0, 0, 0, // timestamp
    ];
    assert_eq!(env.encode(), expected);
    assert_eq!(env.msg.tag(), 2);
}

#[test]
fn wrong_magic_is_refused() {
    let env = Envelope { magic: MAGIC, msg: samples().remove(0) };
    let bytes = env.encode();
    assert_eq!(Envelope::decode(&bytes, 0xDEAD_BEEF).unwrap_err(), DecodeError::WrongMagic);
}

#[test]
fn truncated_is_incomplete() {
    let env = Envelope { magic: MAGIC, msg: samples().remove(1) };
    let bytes = env.encode();
    for cut in [0usize, 3, 5, 9, bytes.len() - 1] {
        assert_eq!(Envelope::decode(&bytes[..cut], MAGIC).unwrap_err(), DecodeError::Incomplete);
    }
}

#[test]
fn unknown_tag_is_skippable() {
    let bytes: Vec<u8> = vec![4, 3, 2, 1, 9, 0, 3, 0, 0, 0, 1, 2, 3, 77];
    assert_eq!(
        Envelope::decode(&bytes, MAGIC).unwrap_err(),
        DecodeError::UnknownTag { tag: 9, size: 13 }
    );
}

#[test]
fn malformed_payload() {
    // an inventory payload with a byte left over
    let env = Envelope {
        magic: MAGIC,
        msg: Message::InventoryAnnouncement { node_id: vec![1], inventory: vec![], timestamp: 1 },
    };
    let mut bytes = env.encode();
    bytes[6] += 1;
    bytes.push(0);
    assert_eq!(Envelope::decode(&bytes, MAGIC).unwrap_err(), DecodeError::Malformed);
    // a payload too short for its fields
    let short: Vec<u8> = vec![4, 3, 2, 1, 1, 0, 2, 0, 0, 0, 5, 0];
    assert_eq!(Envelope::decode(&short, MAGIC).unwrap_err(), DecodeError::Malformed);
}
