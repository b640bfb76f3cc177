use vstd::prelude::*;
use vstd::slice::slice_subrange;

use crate::wire::{
    enc_bytes, enc_list, enc_pairs, enc_u16, enc_u32, enc_u64, items_fit, items_view, pairs_fit,
    lemma_bytes_round_trip, lemma_list_round_trip, lemma_pairs_round_trip, lemma_rest_concat,
    lemma_u16_round_trip, lemma_u32_round_trip, lemma_u64_round_trip, pairs_view, parse_bytes, parse_list, parse_pairs, parse_u16, parse_u32, parse_u64, rest,
    read_bytes, read_list, read_pairs, read_u16, read_u32, read_u64, write_bytes, write_list, write_pairs, write_u16, write_u32, write_u64,
};

verus! {

/// Tag of `Message::Initialize` on the wire.
pub const TAG_INITIALIZE: u16 = 1;
/// Tag of `Message::InventoryAnnouncement` on the wire.
pub const TAG_INVENTORY: u16 = 2;
/// Tag of `Message::NodeAnnouncement` on the wire.
pub const TAG_NODE: u16 = 3;
/// Tag of `Message::RefsAnnouncement` on the wire.
pub const TAG_REFS: u16 = 4;

/// A message exchanged between peers. Node ids, object ids, addresses, URLs,
/// ref names and object hashes are carried as byte strings.
#[derive(Debug, Clone)]
pub enum Message {
    /// First message on any new link.
    Initialize { node_id: Vec<u8>, timestamp: u64, addrs: Vec<Vec<u8>>, git_url: Vec<u8> },
    /// The projects a node hosts.
    InventoryAnnouncement { node_id: Vec<u8>, inventory: Vec<Vec<u8>>, timestamp: u64 },
    /// Node metadata.
    NodeAnnouncement {
        node_id: Vec<u8>,
        features: u64,
        alias: Vec<u8>,
        addrs: Vec<Vec<u8>>,
        timestamp: u64,
    },
    /// The refs of one project, as pairs of ref name and object hash.
    RefsAnnouncement {
        node_id: Vec<u8>,
        project: Vec<u8>,
        refs: Vec<(Vec<u8>, Vec<u8>)>,
        timestamp: u64,
    },
}

/// The mathematical value of a `Message`.
pub enum MessageView {
    Initialize { node_id: Seq<u8>, timestamp: u64, addrs: Seq<Seq<u8>>, git_url: Seq<u8> },
    InventoryAnnouncement { node_id: Seq<u8>, inventory: Seq<Seq<u8>>, timestamp: u64 },
    NodeAnnouncement {
        node_id: Seq<u8>,
        features: u64,
        alias: Seq<u8>,
        addrs: Seq<Seq<u8>>,
        timestamp: u64,
    },
    RefsAnnouncement {
        node_id: Seq<u8>,
        project: Seq<u8>,
        refs: Seq<(Seq<u8>, Seq<u8>)>,
        timestamp: u64,
    },
}

impl Message {
    pub open spec fn view(&self) -> MessageView {
        match self {
            Message::Initialize { node_id, timestamp, addrs, git_url } => MessageView::Initialize {
                node_id: node_id@,
                timestamp: *timestamp,
                addrs: items_view(addrs@),
                git_url: git_url@,
            },
            Message::InventoryAnnouncement { node_id, inventory, timestamp } =>
                MessageView::InventoryAnnouncement {
                node_id: node_id@,
                inventory: items_view(inventory@),
                timestamp: *timestamp,
            },
            Message::NodeAnnouncement { node_id, features, alias, addrs, timestamp } =>
                MessageView::NodeAnnouncement {
                node_id: node_id@,
                features: *features,
                alias: alias@,
                addrs: items_view(addrs@),
                timestamp: *timestamp,
            },
            Message::RefsAnnouncement { node_id, project, refs, timestamp } =>
                MessageView::RefsAnnouncement {
                node_id: node_id@,
                project: project@,
                refs: pairs_view(refs@),
                timestamp: *timestamp,
            },
        }
    }

    /// The tag that the message carries on the wire.
    pub fn tag(&self) -> (r: u16)
        ensures
            r == tag_of(self@),
    {
        match self {
            Message::Initialize { .. } => TAG_INITIALIZE,
            Message::InventoryAnnouncement { .. } => TAG_INVENTORY,
            Message::NodeAnnouncement { .. } => TAG_NODE,
            Message::RefsAnnouncement { .. } => TAG_REFS,
        }
    }
}

pub open spec fn tag_of(m: MessageView) -> u16 {
    match m {
        MessageView::Initialize { .. } => TAG_INITIALIZE,
        MessageView::InventoryAnnouncement { .. } => TAG_INVENTORY,
        MessageView::NodeAnnouncement { .. } => TAG_NODE,
        MessageView::RefsAnnouncement { .. } => TAG_REFS,
    }
}

pub open spec fn known_tag(tag: u16) -> bool {
    tag == TAG_INITIALIZE || tag == TAG_INVENTORY || tag == TAG_NODE || tag == TAG_REFS
}

/// The canonical payload bytes of a message, without tag and length.
pub open spec fn enc_payload(m: MessageView) -> Seq<u8> {
    match m {
        MessageView::Initialize { node_id, timestamp, addrs, git_url } => enc_bytes(node_id)
            + enc_u64(timestamp) + enc_list(addrs) + enc_bytes(git_url),
        MessageView::InventoryAnnouncement { node_id, inventory, timestamp } => enc_bytes(node_id)
            + enc_list(inventory) + enc_u64(timestamp),
        MessageView::NodeAnnouncement { node_id, features, alias, addrs, timestamp } => enc_bytes(
            node_id,
        ) + enc_u64(features) + enc_bytes(alias) + enc_list(addrs) + enc_u64(timestamp),
        MessageView::RefsAnnouncement { node_id, project, refs, timestamp } => enc_bytes(node_id)
            + enc_bytes(project) + enc_pairs(refs) + enc_u64(timestamp),
    }
}

/// An envelope on the wire: network magic, message tag, then the payload as a
/// length-prefixed byte string.
pub open spec fn enc_envelope(magic: u32, m: MessageView) -> Seq<u8> {
    enc_u32(magic) + enc_u16(tag_of(m)) + enc_bytes(enc_payload(m))
}

/// Every length in the message, and the payload's own, fits the `u32` that
/// carries it on the wire.
pub open spec fn fits(m: MessageView) -> bool {
    &&& enc_payload(m).len() <= u32::MAX
    &&& match m {
        MessageView::Initialize { node_id, timestamp, addrs, git_url } => node_id.len() <= u32::MAX
            && items_fit(addrs) && git_url.len() <= u32::MAX,
        MessageView::InventoryAnnouncement { node_id, inventory, timestamp } => node_id.len()
            <= u32::MAX && items_fit(inventory),
        MessageView::NodeAnnouncement { node_id, features, alias, addrs, timestamp } =>
            node_id.len() <= u32::MAX && alias.len() <= u32::MAX && items_fit(addrs),
        MessageView::RefsAnnouncement { node_id, project, refs, timestamp } => node_id.len()
            <= u32::MAX && project.len() <= u32::MAX && pairs_fit(refs),
    }
}

fn write_payload(out: &mut Vec<u8>, m: &Message)
    ensures
        final(out)@ == old(out)@ + enc_payload(m@),
{
    let ghost start = out@;
    match m {
        Message::Initialize { node_id, timestamp, addrs, git_url } => {
            write_bytes(out, node_id);
            write_u64(out, *timestamp);
            write_list(out, addrs);
            write_bytes(out, git_url);
        },
        Message::InventoryAnnouncement { node_id, inventory, timestamp } => {
            write_bytes(out, node_id);
            write_list(out, inventory);
            write_u64(out, *timestamp);
        },
        Message::NodeAnnouncement { node_id, features, alias, addrs, timestamp } => {
            write_bytes(out, node_id);
            write_u64(out, *features);
            write_bytes(out, alias);
            write_list(out, addrs);
            write_u64(out, *timestamp);
        },
        Message::RefsAnnouncement { node_id, project, refs, timestamp } => {
            write_bytes(out, node_id);
            write_bytes(out, project);
            write_pairs(out, refs);
            write_u64(out, *timestamp);
        },
    }
    assert(out@ =~= start + enc_payload(m@));
}

/// A message framed for one network.
#[derive(Debug, Clone)]
pub struct Envelope {
    pub magic: u32,
    pub msg: Message,
}

impl Envelope {
    /// The envelope's bytes on the wire. Every length must fit its `u32`
    /// prefix.
    pub fn encode(&self) -> (r: Vec<u8>)
        requires
            fits(self.msg@),
        ensures
            r@ == enc_envelope(self.magic, self.msg@),
    {
        let mut payload: Vec<u8> = Vec::new();
        write_payload(&mut payload, &self.msg);
        assert(payload@ =~= enc_payload(self.msg@));
        let mut out: Vec<u8> = Vec::new();
        write_u32(&mut out, self.magic);
        write_u16(&mut out, self.msg.tag());
        write_bytes(&mut out, &payload);
        assert(out@ =~= enc_envelope(self.magic, self.msg@));
        out
    }
}

pub open spec fn parse_initialize(s: Seq<u8>) -> Option<(MessageView, nat)> {
    match parse_bytes(s) {
        Some((node_id, a)) => match parse_u64(rest(s, a)) {
            Some((timestamp, b)) => match parse_list(rest(s, a + b)) {
                Some((addrs, c)) => match parse_bytes(rest(s, a + b + c)) {
                    Some((git_url, d)) => Some(
                        (MessageView::Initialize { node_id, timestamp, addrs, git_url }, a + b + c + d),
                    ),
                    None => None,
                },
                None => None,
            },
            None => None,
        },
        None => None,
    }
}

pub open spec fn parse_inventory(s: Seq<u8>) -> Option<(MessageView, nat)> {
    match parse_bytes(s) {
        Some((node_id, a)) => match parse_list(rest(s, a)) {
            Some((inventory, b)) => match parse_u64(rest(s, a + b)) {
                Some((timestamp, c)) => Some(
                    (MessageView::InventoryAnnouncement { node_id, inventory, timestamp }, a + b + c),
                ),
                None => None,
            },
            None => None,
        },
        None => None,
    }
}

pub open spec fn parse_node(s: Seq<u8>) -> Option<(MessageView, nat)> {
    match parse_bytes(s) {
        Some((node_id, a)) => match parse_u64(rest(s, a)) {
            Some((features, b)) => match parse_bytes(rest(s, a + b)) {
                Some((alias, c)) => match parse_list(rest(s, a + b + c)) {
                    Some((addrs, d)) => match parse_u64(rest(s, a + b + c + d)) {
                        Some((timestamp, e)) => Some(
                            (
                                MessageView::NodeAnnouncement {
                                    node_id,
                                    features,
                                    alias,
                                    addrs,
                                    timestamp,
                                },
                                a + b + c + d + e,
                            ),
                        ),
                        None => None,
                    },
                    None => None,
                },
                None => None,
            },
            None => None,
        },
        None => None,
    }
}

pub open spec fn parse_refs(s: Seq<u8>) -> Option<(MessageView, nat)> {
    match parse_bytes(s) {
        Some((node_id, a)) => match parse_bytes(rest(s, a)) {
            Some((project, b)) => match parse_pairs(rest(s, a + b)) {
                Some((refs, c)) => match parse_u64(rest(s, a + b + c)) {
                    Some((timestamp, d)) => Some(
                        (
                            MessageView::RefsAnnouncement { node_id, project, refs, timestamp },
                            a + b + c + d,
                        ),
                    ),
                    None => None,
                },
                None => None,
            },
            None => None,
        },
        None => None,
    }
}

/// Parse the payload of a message with a known tag.
pub open spec fn parse_payload(tag: u16, s: Seq<u8>) -> Option<(MessageView, nat)> {
    if tag == TAG_INITIALIZE {
        parse_initialize(s)
    } else if tag == TAG_INVENTORY {
        parse_inventory(s)
    } else if tag == TAG_NODE {
        parse_node(s)
    } else if tag == TAG_REFS {
        parse_refs(s)
    } else {
        None
    }
}

/// Why bytes did not decode to a message.
#[derive(Debug, Clone, Copy, PartialEq, Eq, Structural)]
pub enum DecodeError {
    /// The bytes end before the envelope does.
    Incomplete,
    /// The envelope belongs to another network.
    WrongMagic,
    /// A well-framed envelope whose tag this node does not know; `size`
    /// bytes can be skipped.
    UnknownTag { tag: u16, size: usize },
    /// The payload does not decode, or leaves bytes over.
    Malformed,
}

/// Decoding the envelope at the start of `s` on network `magic`: the message
/// and the number of bytes it took, or why it failed.
pub open spec fn parse_envelope(s: Seq<u8>, magic: u32) -> Result<(MessageView, nat), DecodeError> {
    match parse_u32(s) {
        None => Err(DecodeError::Incomplete),
        Some((m, a)) => if m != magic {
            Err(DecodeError::WrongMagic)
        } else {
            match parse_u16(rest(s, a)) {
                None => Err(DecodeError::Incomplete),
                Some((tag, b)) => match parse_bytes(rest(s, a + b)) {
                    None => Err(DecodeError::Incomplete),
                    Some((payload, c)) => if !known_tag(tag) {
                        Err(DecodeError::UnknownTag { tag, size: (a + b + c) as usize })
                    } else {
                        match parse_payload(tag, payload) {
                            Some((msg, d)) => if d == payload.len() {
                                Ok((msg, a + b + c))
                            } else {
                                Err(DecodeError::Malformed)
                            },
                            None => Err(DecodeError::Malformed),
                        }
                    },
                },
            }
        },
    }
}

fn read_initialize(s: &[u8]) -> (r: Option<(Message, usize)>)
    ensures
        r.is_some() == parse_initialize(s@).is_some(),
        r.is_some() ==> r.unwrap().0@ == parse_initialize(s@).unwrap().0 && r.unwrap().1
            == parse_initialize(s@).unwrap().1,
{
    let (node_id, a) = match read_bytes(s) {
        Some(p) => p,
        None => return None,
    };
    let (timestamp, b) = match read_u64(slice_subrange(s, a, s.len())) {
        Some(p) => p,
        None => return None,
    };
    let (addrs, c) = match read_list(slice_subrange(s, a + b, s.len())) {
        Some(p) => p,
        None => return None,
    };
    let (git_url, d) = match read_bytes(slice_subrange(s, a + b + c, s.len())) {
        Some(p) => p,
        None => return None,
    };
    Some((Message::Initialize { node_id, timestamp, addrs, git_url }, a + b + c + d))
}

fn read_inventory(s: &[u8]) -> (r: Option<(Message, usize)>)
    ensures
        r.is_some() == parse_inventory(s@).is_some(),
        r.is_some() ==> r.unwrap().0@ == parse_inventory(s@).unwrap().0 && r.unwrap().1
            == parse_inventory(s@).unwrap().1,
{
    let (node_id, a) = match read_bytes(s) {
        Some(p) => p,
        None => return None,
    };
    let (inventory, b) = match read_list(slice_subrange(s, a, s.len())) {
        Some(p) => p,
        None => return None,
    };
    let (timestamp, c) = match read_u64(slice_subrange(s, a + b, s.len())) {
        Some(p) => p,
        None => return None,
    };
    Some((Message::InventoryAnnouncement { node_id, inventory, timestamp }, a + b + c))
}

fn read_node(s: &[u8]) -> (r: Option<(Message, usize)>)
    ensures
        r.is_some() == parse_node(s@).is_some(),
        r.is_some() ==> r.unwrap().0@ == parse_node(s@).unwrap().0 && r.unwrap().1 == parse_node(
            s@,
        ).unwrap().1,
{
    let (node_id, a) = match read_bytes(s) {
        Some(p) => p,
        None => return None,
    };
    let (features, b) = match read_u64(slice_subrange(s, a, s.len())) {
        Some(p) => p,
        None => return None,
    };
    let (alias, c) = match read_bytes(slice_subrange(s, a + b, s.len())) {
        Some(p) => p,
        None => return None,
    };
    let (addrs, d) = match read_list(slice_subrange(s, a + b + c, s.len())) {
        Some(p) => p,
        None => return None,
    };
    let (timestamp, e) = match read_u64(slice_subrange(s, a + b + c + d, s.len())) {
        Some(p) => p,
        None => return None,
    };
    Some(
        (
            Message::NodeAnnouncement { node_id, features, alias, addrs, timestamp },
            a + b + c + d + e,
        ),
    )
}

fn read_refs(s: &[u8]) -> (r: Option<(Message, usize)>)
    ensures
        r.is_some() == parse_refs(s@).is_some(),
        r.is_some() ==> r.unwrap().0@ == parse_refs(s@).unwrap().0 && r.unwrap().1 == parse_refs(
            s@,
        ).unwrap().1,
{
    let (node_id, a) = match read_bytes(s) {
        Some(p) => p,
        None => return None,
    };
    let (project, b) = match read_bytes(slice_subrange(s, a, s.len())) {
        Some(p) => p,
        None => return None,
    };
    let (refs, c) = match read_pairs(slice_subrange(s, a + b, s.len())) {
        Some(p) => p,
        None => return None,
    };
    let (timestamp, d) = match read_u64(slice_subrange(s, a + b + c, s.len())) {
        Some(p) => p,
        None => return None,
    };
    Some((Message::RefsAnnouncement { node_id, project, refs, timestamp }, a + b + c + d))
}

fn read_payload(tag: u16, s: &[u8]) -> (r: Option<(Message, usize)>)
    ensures
        r.is_some() == parse_payload(tag, s@).is_some(),
        r.is_some() ==> r.unwrap().0@ == parse_payload(tag, s@).unwrap().0 && r.unwrap().1
            == parse_payload(tag, s@).unwrap().1,
{
    if tag == TAG_INITIALIZE {
        read_initialize(s)
    } else if tag == TAG_INVENTORY {
        read_inventory(s)
    } else if tag == TAG_NODE {
        read_node(s)
    } else if tag == TAG_REFS {
        read_refs(s)
    } else {
        None
    }
}

impl Envelope {
    /// Decode the envelope at the start of `bytes`, on the network whose magic
    /// is `magic`. On success, also says how many bytes the envelope took.
    pub fn decode(bytes: &[u8], magic: u32) -> (r: Result<(Envelope, usize), DecodeError>)
        ensures
            match r {
                Ok((e, n)) => e.magic == magic && parse_envelope(bytes@, magic) == Ok::<
                    (MessageView, nat),
                    DecodeError,
                >((e.msg@, n as nat)),
                Err(err) => parse_envelope(bytes@, magic) == Err::<(MessageView, nat), DecodeError>(
                    err,
                ),
            },
    {
        let (m, a) = match read_u32(bytes) {
            Some(p) => p,
            None => return Err(DecodeError::Incomplete),
        };
        if m != magic {
            return Err(DecodeError::WrongMagic);
        }
        let (tag, b) = match read_u16(slice_subrange(bytes, a, bytes.len())) {
            Some(p) => p,
            None => return Err(DecodeError::Incomplete),
        };
        let (payload, c) = match read_bytes(slice_subrange(bytes, a + b, bytes.len())) {
            Some(p) => p,
            None => return Err(DecodeError::Incomplete),
        };
        if !(tag == TAG_INITIALIZE || tag == TAG_INVENTORY || tag == TAG_NODE || tag == TAG_REFS) {
            return Err(DecodeError::UnknownTag { tag, size: a + b + c });
        }
        match read_payload(tag, payload.as_slice()) {
            Some((msg, d)) => {
                if d == payload.len() {
                    Ok((Envelope { magic, msg }, a + b + c))
                } else {
                    Err(DecodeError::Malformed)
                }
            },
            None => Err(DecodeError::Malformed),
        }
    }
}

/// Decoding the bytes of an envelope, whatever follows them, gives back the
/// message and the envelope's length.
pub proof fn lemma_round_trip(magic: u32, m: MessageView, r: Seq<u8>)
    requires
        fits(m),
    ensures
        parse_envelope(enc_envelope(magic, m) + r, magic) == Ok::<(MessageView, nat), DecodeError>(
            (m, enc_envelope(magic, m).len()),
        ),
{
    let p = enc_payload(m);
    let s = enc_envelope(magic, m) + r;
    lemma_payload_round_trip(m, Seq::empty());
    assert(p + Seq::<u8>::empty() =~= p);
    lemma_u32_round_trip(magic, enc_u16(tag_of(m)) + enc_bytes(p) + r);
    assert(s =~= enc_u32(magic) + (enc_u16(tag_of(m)) + enc_bytes(p) + r));
    lemma_rest_concat(enc_u32(magic), enc_u16(tag_of(m)) + enc_bytes(p) + r);
    lemma_u16_round_trip(tag_of(m), enc_bytes(p) + r);
    assert(enc_u16(tag_of(m)) + enc_bytes(p) + r =~= enc_u16(tag_of(m)) + (enc_bytes(p) + r));
    assert(s =~= (enc_u32(magic) + enc_u16(tag_of(m))) + (enc_bytes(p) + r));
    lemma_rest_concat(enc_u32(magic) + enc_u16(tag_of(m)), enc_bytes(p) + r);
    lemma_bytes_round_trip(p, r);
}

/// An envelope read on another network is refused as such.
pub proof fn lemma_wrong_magic(magic: u32, other: u32, m: MessageView, r: Seq<u8>)
    requires
        magic != other,
    ensures
        parse_envelope(enc_envelope(magic, m) + r, other) == Err::<(MessageView, nat), DecodeError>(
            DecodeError::WrongMagic,
        ),
{
    let s = enc_envelope(magic, m) + r;
    lemma_u32_round_trip(magic, enc_u16(tag_of(m)) + enc_bytes(enc_payload(m)) + r);
    assert(s =~= enc_u32(magic) + (enc_u16(tag_of(m)) + enc_bytes(enc_payload(m)) + r));
}

proof fn lemma_payload_round_trip(m: MessageView, r: Seq<u8>)
    requires
        fits(m),
    ensures
        parse_payload(tag_of(m), enc_payload(m) + r) == Some((m, enc_payload(m).len())),
{
    match m {
        MessageView::Initialize { .. } => lemma_initialize_round_trip(m, r),
        MessageView::InventoryAnnouncement { .. } => lemma_inventory_round_trip(m, r),
        MessageView::NodeAnnouncement { .. } => lemma_node_round_trip(m, r),
        MessageView::RefsAnnouncement { .. } => lemma_refs_round_trip(m, r),
    }
}

#[verifier::rlimit(50)]
proof fn lemma_initialize_round_trip(m: MessageView, r: Seq<u8>)
    requires
        fits(m),
        m is Initialize,
    ensures
        parse_payload(tag_of(m), enc_payload(m) + r) == Some((m, enc_payload(m).len())),
{
    let s = enc_payload(m) + r;
    match m {
        MessageView::Initialize { node_id, timestamp, addrs, git_url } => {
            let e1 = enc_bytes(node_id);
            let e2 = enc_u64(timestamp);
            let e3 = enc_list(addrs);
            let e4 = enc_bytes(git_url);
            lemma_bytes_round_trip(node_id, e2 + e3 + e4 + r);
            assert(s =~= e1 + (e2 + e3 + e4 + r));
            lemma_rest_concat(e1, e2 + e3 + e4 + r);
            lemma_u64_round_trip(timestamp, e3 + e4 + r);
            assert(s =~= (e1 + e2) + (e3 + e4 + r));
            assert(e2 + e3 + e4 + r =~= e2 + (e3 + e4 + r));
            lemma_rest_concat(e1 + e2, e3 + e4 + r);
            lemma_list_round_trip(addrs, e4 + r);
            assert(s =~= (e1 + e2 + e3) + (e4 + r));
            assert(e3 + e4 + r =~= e3 + (e4 + r));
            lemma_rest_concat(e1 + e2 + e3, e4 + r);
            lemma_bytes_round_trip(git_url, r);
        },
        _ => {},
    }
}

#[verifier::rlimit(50)]
proof fn lemma_inventory_round_trip(m: MessageView, r: Seq<u8>)
    requires
        fits(m),
        m is InventoryAnnouncement,
    ensures
        parse_payload(tag_of(m), enc_payload(m) + r) == Some((m, enc_payload(m).len())),
{
    let s = enc_payload(m) + r;
    match m {
        MessageView::InventoryAnnouncement { node_id, inventory, timestamp } => {
            let e1 = enc_bytes(node_id);
            let e2 = enc_list(inventory);
            let e3 = enc_u64(timestamp);
            lemma_bytes_round_trip(node_id, e2 + e3 + r);
            assert(s =~= e1 + (e2 + e3 + r));
            lemma_rest_concat(e1, e2 + e3 + r);
            lemma_list_round_trip(inventory, e3 + r);
            assert(s =~= (e1 + e2) + (e3 + r));
            assert(e2 + e3 + r =~= e2 + (e3 + r));
            lemma_rest_concat(e1 + e2, e3 + r);
            lemma_u64_round_trip(timestamp, r);
        },
        _ => {},
    }
}

#[verifier::rlimit(50)]
proof fn lemma_node_round_trip(m: MessageView, r: Seq<u8>)
    requires
        fits(m),
        m is NodeAnnouncement,
    ensures
        parse_payload(tag_of(m), enc_payload(m) + r) == Some((m, enc_payload(m).len())),
{
    let s = enc_payload(m) + r;
    match m {
        MessageView::NodeAnnouncement { node_id, features, alias, addrs, timestamp } => {
            let e1 = enc_bytes(node_id);
            let e2 = enc_u64(features);
            let e3 = enc_bytes(alias);
            let e4 = enc_list(addrs);
            let e5 = enc_u64(timestamp);
            lemma_bytes_round_trip(node_id, e2 + e3 + e4 + e5 + r);
            assert(s =~= e1 + (e2 + e3 + e4 + e5 + r));
            lemma_rest_concat(e1, e2 + e3 + e4 + e5 + r);
            lemma_u64_round_trip(features, e3 + e4 + e5 + r);
            assert(s =~= (e1 + e2) + (e3 + e4 + e5 + r));
            assert(e2 + e3 + e4 + e5 + r =~= e2 + (e3 + e4 + e5 + r));
            lemma_rest_concat(e1 + e2, e3 + e4 + e5 + r);
            lemma_bytes_round_trip(alias, e4 + e5 + r);
            assert(s =~= (e1 + e2 + e3) + (e4 + e5 + r));
            assert(e3 + e4 + e5 + r =~= e3 + (e4 + e5 + r));
            lemma_rest_concat(e1 + e2 + e3, e4 + e5 + r);
            lemma_list_round_trip(addrs, e5 + r);
            assert(s =~= (e1 + e2 + e3 + e4) + (e5 + r));
            assert(e4 + e5 + r =~= e4 + (e5 + r));
            lemma_rest_concat(e1 + e2 + e3 + e4, e5 + r);
            lemma_u64_round_trip(timestamp, r);
        },
        _ => {},
    }
}

#[verifier::rlimit(50)]
proof fn lemma_refs_round_trip(m: MessageView, r: Seq<u8>)
    requires
        fits(m),
        m is RefsAnnouncement,
    ensures
        parse_payload(tag_of(m), enc_payload(m) + r) == Some((m, enc_payload(m).len())),
{
    let s = enc_payload(m) + r;
    match m {
        MessageView::RefsAnnouncement { node_id, project, refs, timestamp } => {
            let e1 = enc_bytes(node_id);
            let e2 = enc_bytes(project);
            let e3 = enc_pairs(refs);
            let e4 = enc_u64(timestamp);
            lemma_bytes_round_trip(node_id, e2 + e3 + e4 + r);
            assert(s =~= e1 + (e2 + e3 + e4 + r));
            lemma_rest_concat(e1, e2 + e3 + e4 + r);
            lemma_bytes_round_trip(project, e3 + e4 + r);
            assert(s =~= (e1 + e2) + (e3 + e4 + r));
            assert(e2 + e3 + e4 + r =~= e2 + (e3 + e4 + r));
            lemma_rest_concat(e1 + e2, e3 + e4 + r);
            lemma_pairs_round_trip(refs, e4 + r);
            assert(s =~= (e1 + e2 + e3) + (e4 + r));
            assert(e3 + e4 + r =~= e3 + (e4 + r));
            lemma_rest_concat(e1 + e2 + e3, e4 + r);
            lemma_u64_round_trip(timestamp, r);
        },
        _ => {},
    }
}

} // verus!
