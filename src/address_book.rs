use vstd::prelude::*;

use crate::vecs::{bytes_eq, clone_bytes};

verus! {

/// Where an address was learned from.
#[derive(Debug)]
pub enum Source {
    Dns,
    /// Advertised by the peer with this node id.
    Peer(Vec<u8>),
    Imported,
    Bootstrap,
}

pub enum SourceView {
    Dns,
    Peer(Seq<u8>),
    Imported,
    Bootstrap,
}

impl Source {
    pub open spec fn view(&self) -> SourceView {
        match self {
            Source::Dns => SourceView::Dns,
            Source::Peer(id) => SourceView::Peer(id@),
            Source::Imported => SourceView::Imported,
            Source::Bootstrap => SourceView::Bootstrap,
        }
    }
}

/// An entry of the address book. The host is the key: at most one entry per host.
#[derive(Debug)]
pub struct KnownAddress {
    pub host: Vec<u8>,
    pub port: u16,
    pub source: Source,
    pub last_success: Option<u64>,
    pub last_attempt: Option<u64>,
}

pub struct KnownAddressView {
    pub host: Seq<u8>,
    pub port: u16,
    pub source: SourceView,
    pub last_success: Option<u64>,
    pub last_attempt: Option<u64>,
}

impl KnownAddress {
    pub open spec fn view(&self) -> KnownAddressView {
        KnownAddressView {
            host: self.host@,
            port: self.port,
            source: self.source@,
            last_success: self.last_success,
            last_attempt: self.last_attempt,
        }
    }
}

/// The entry of `es` for `host` is at index `i`.
pub open spec fn entry_at(es: Seq<KnownAddressView>, host: Seq<u8>, i: int) -> bool {
    0 <= i < es.len() && es[i].host == host
}

pub open spec fn has_host(es: Seq<KnownAddressView>, host: Seq<u8>) -> bool {
    exists|i: int| #[trigger] entry_at(es, host, i)
}

/// The position of the entry for `host` in `es`, if any.
pub open spec fn host_index(es: Seq<KnownAddressView>, host: Seq<u8>) -> Option<int> {
    if has_host(es, host) {
        Some(choose|i: int| entry_at(es, host, i))
    } else {
        None
    }
}

/// `es` after recording that peer `node` advertised `host`: an entry learned
/// from a peer is replaced, a stronger one stays, and a new host is added.
pub open spec fn peer_inserted(es: Seq<KnownAddressView>, host: Seq<u8>, port: u16, node: Seq<u8>) -> Seq<
    KnownAddressView,
> {
    match host_index(es, host) {
        Some(i) => if es[i].source is Peer {
            es.update(
                i,
                KnownAddressView {
                    host,
                    port,
                    source: SourceView::Peer(node),
                    last_success: es[i].last_success,
                    last_attempt: es[i].last_attempt,
                },
            )
        } else {
            es
        },
        None => es.push(
            KnownAddressView {
                host,
                port,
                source: SourceView::Peer(node),
                last_success: None,
                last_attempt: None,
            },
        ),
    }
}

/// `es` after recording each of `hosts`, in order, as advertised by `node`.
pub open spec fn peers_inserted(es: Seq<KnownAddressView>, hosts: Seq<Seq<u8>>, port: u16, node: Seq<u8>) -> Seq<
    KnownAddressView,
>
    decreases hosts.len(),
{
    if hosts.len() == 0 {
        es
    } else {
        peer_inserted(peers_inserted(es, hosts.drop_last(), port, node), hosts.last(), port, node)
    }
}

/// Known addresses of peers.
#[derive(Debug)]
pub struct AddressBook {
    entries: Vec<KnownAddress>,
}

impl AddressBook {
    pub closed spec fn view(&self) -> Seq<KnownAddressView> {
        Seq::new(self.entries@.len(), |i: int| self.entries@[i]@)
    }

    /// At most one entry per host.
    pub open spec fn wf(&self) -> bool {
        forall|i: int, j: int|
            0 <= i < j < self@.len() ==> (#[trigger] self@[i]).host != (#[trigger] self@[j]).host
    }

    pub fn new() -> (r: AddressBook)
        ensures
            r.wf(),
            r@.len() == 0,
    {
        AddressBook { entries: Vec::new() }
    }

    pub fn len(&self) -> (r: usize)
        ensures
            r == self@.len(),
    {
        self.entries.len()
    }

    /// The entry at position `i`.
    pub fn get(&self, i: usize) -> (r: &KnownAddress)
        requires
            i < self@.len(),
        ensures
            r@ == self@[i as int],
    {
        &self.entries[i]
    }

    /// The position of the entry for `host`, if any.
    pub fn find(&self, host: &Vec<u8>) -> (r: Option<usize>)
        requires
            self.wf(),
        ensures
            match r {
                Some(i) => entry_at(self@, host@, i as int),
                None => !has_host(self@, host@),
            },
    {
        let mut i: usize = 0;
        while i < self.entries.len()
            invariant
                i <= self.entries.len(),
                forall|j: int| 0 <= j < i ==> !#[trigger] entry_at(self@, host@, j),
            decreases self.entries.len() - i,
        {
            if bytes_eq(&self.entries[i].host, host) {
                assert(self@[i as int] == self.entries@[i as int]@);
                return Some(i);
            }
            assert(self@[i as int] == self.entries@[i as int]@);
            i = i + 1;
        }
        None
    }

    /// Insert `addr`, replacing the entry for its host if there is one.
    pub fn insert(&mut self, addr: KnownAddress)
        requires
            old(self).wf(),
        ensures
            final(self).wf(),
            match old(self).find_spec(addr.host@) {
                Some(i) => final(self)@ == old(self)@.update(i, addr@),
                None => final(self)@ == old(self)@.push(addr@),
            },
    {
        let ghost before = self@;
        match self.find(&addr.host) {
            Some(i) => {
                proof {
                    lemma_unique_index(before, addr.host@, i as int);
                }
                let ghost v = addr@;
                self.entries.set(i, addr);
                assert(self@ =~= before.update(i as int, v));
                assert forall|a: int, b: int| 0 <= a < b < self@.len() implies (#[trigger] self@[a]).host
                    != (#[trigger] self@[b]).host by {
                    assert(before[a].host != before[b].host);
                }
            },
            None => {
                let ghost v = addr@;
                self.entries.push(addr);
                assert(self@ =~= before.push(v));
                assert forall|a: int, b: int| 0 <= a < b < self@.len() implies (#[trigger] self@[a]).host
                    != (#[trigger] self@[b]).host by {
                    if b == before.len() {
                        assert(!entry_at(before, v.host, a));
                    } else {
                        assert(before[a].host != before[b].host);
                    }
                }
            },
        }
    }

    /// The position of the entry for `host`.
    pub open spec fn find_spec(&self, host: Seq<u8>) -> Option<int> {
        host_index(self@, host)
    }

    /// Record an address that peer `node` advertised. An entry learned from
    /// DNS, imported or bootstrapped is stronger and stays; an entry learned
    /// from a peer is replaced.
    pub fn insert_from_peer(&mut self, host: &Vec<u8>, port: u16, node: &Vec<u8>)
        requires
            old(self).wf(),
        ensures
            final(self).wf(),
            has_host(final(self)@, host@),
            final(self)@.len() >= old(self)@.len(),
            forall|i: int| 0 <= i < old(self)@.len() ==> (#[trigger] final(self)@[i]).host == old(self)@[i].host,
            final(self)@ == peer_inserted(old(self)@, host@, port, node@),
    {
        match self.find(host) {
            Some(i) => {
                proof {
                    lemma_unique_index(self@, host@, i as int);
                }
                let e = &self.entries[i];
                assert(self@[i as int] == e@);
                proof {
                    assert(entry_at(self@, host@, i as int));
                }
                match e.source {
                    Source::Peer(_) => {
                        let addr = KnownAddress {
                            host: clone_bytes(host),
                            port,
                            source: Source::Peer(clone_bytes(node)),
                            last_success: e.last_success,
                            last_attempt: e.last_attempt,
                        };
                        let ghost before = self@;
                        self.insert(addr);
                        assert(entry_at(self@, host@, i as int));
                        assert forall|k: int| 0 <= k < before.len() implies (#[trigger] self@[k]).host == before[k].host by {
                            if k == i {
                            } else {
                                assert(self@[k] == before[k]);
                            }
                        }
                    },
                    _ => {},
                }
            },
            None => {
                let addr = KnownAddress {
                    host: clone_bytes(host),
                    port,
                    source: Source::Peer(clone_bytes(node)),
                    last_success: None,
                    last_attempt: None,
                };
                let ghost before = self@;
                self.insert(addr);
                assert(entry_at(self@, host@, before.len() as int));
                assert forall|k: int| 0 <= k < before.len() implies (#[trigger] self@[k]).host == before[k].host by {
                    assert(self@[k] == before[k]);
                }
            },
        }
    }

    /// Record an outbound attempt to `host` at time `t`, if the book knows it.
    pub fn record_attempt(&mut self, host: &Vec<u8>, t: u64)
        requires
            old(self).wf(),
        ensures
            final(self).wf(),
            match old(self).find_spec(host@) {
                Some(i) => final(self)@ == old(self)@.update(
                    i,
                    KnownAddressView { last_attempt: Some(t), ..old(self)@[i] },
                ),
                None => final(self)@ == old(self)@,
            },
    {
        match self.find(host) {
            Some(i) => {
                proof {
                    lemma_unique_index(self@, host@, i as int);
                }
                let ghost before = self@;
                let e = &self.entries[i];
                assert(before[i as int] == e@);
                let addr = KnownAddress {
                    host: clone_bytes(&e.host),
                    port: e.port,
                    source: copy_source(&e.source),
                    last_success: e.last_success,
                    last_attempt: Some(t),
                };
                self.insert(addr);
            },
            None => {},
        }
    }
}

fn copy_source(s: &Source) -> (r: Source)
    ensures
        r@ == s@,
{
    match s {
        Source::Dns => Source::Dns,
        Source::Peer(id) => Source::Peer(clone_bytes(id)),
        Source::Imported => Source::Imported,
        Source::Bootstrap => Source::Bootstrap,
    }
}

proof fn lemma_unique_index(es: Seq<KnownAddressView>, host: Seq<u8>, i: int)
    requires
        entry_at(es, host, i),
        forall|a: int, b: int| 0 <= a < b < es.len() ==> (#[trigger] es[a]).host != (#[trigger] es[b]).host,
    ensures
        has_host(es, host),
        (choose|j: int| entry_at(es, host, j)) == i,
{
    let j = choose|j: int| entry_at(es, host, j);
    if j < i {
        assert(es[j].host != es[i].host);
    } else if j > i {
        assert(es[i].host != es[j].host);
    }
}

} // verus!
