use vstd::prelude::*;

use crate::vecs::{bytes_eq, contains_id};
use crate::wire::items_view;

verus! {

/// One change of a collaborative object, as loaded from the backing
/// store. Each change has its own id: no two loaded changes share one.
#[derive(Debug)]
pub struct Change {
    pub id: u64,
    /// The tips that this change supersedes.
    pub parents: Vec<u64>,
    /// The key of the change's author.
    pub author: Vec<u8>,
    /// The identity the object belongs to.
    pub resource: u64,
    pub contents: Vec<Vec<u8>>,
    pub timestamp: u64,
}

pub struct ChangeView {
    pub id: u64,
    pub parents: Seq<u64>,
    pub author: Seq<u8>,
    pub resource: u64,
    pub contents: Seq<Seq<u8>>,
    pub timestamp: u64,
}

impl Change {
    pub open spec fn view(&self) -> ChangeView {
        ChangeView {
            id: self.id,
            parents: self.parents@,
            author: self.author@,
            resource: self.resource,
            contents: items_view(self.contents@),
            timestamp: self.timestamp,
        }
    }
}

pub open spec fn changes_view(cs: Seq<Change>) -> Seq<ChangeView> {
    Seq::new(cs.len(), |i: int| cs[i]@)
}

pub open spec fn unique_ids(cs: Seq<ChangeView>) -> bool {
    forall|i: int, j: int| 0 <= i < j < cs.len() ==> #[trigger] cs[i].id != #[trigger] cs[j].id
}

pub open spec fn authorized(delegates: Seq<Seq<u8>>, key: Seq<u8>) -> bool {
    delegates.contains(key)
}

/// The index of the change with id `p` is `k`, and its depth is known.
pub open spec fn resolved_at(cs: Seq<ChangeView>, ds: Seq<Option<u64>>, p: u64, k: int) -> bool {
    0 <= k < cs.len() && cs[k].id == p && ds[k] is Some
}

/// A resolved change with id `p` has a depth below `d`.
pub open spec fn below(cs: Seq<ChangeView>, ds: Seq<Option<u64>>, p: u64, d: u64) -> bool {
    exists|k: int| #[trigger] resolved_at(cs, ds, p, k) && ds[k]->0 < d
}

/// A resolved change with id `p` has depth `d - 1`.
pub open spec fn just_below(cs: Seq<ChangeView>, ds: Seq<Option<u64>>, p: u64, d: u64) -> bool {
    exists|k: int| #[trigger] resolved_at(cs, ds, p, k) && d == ds[k]->0 + 1
}

/// No resolved change has id `p`.
pub open spec fn unresolved(cs: Seq<ChangeView>, ds: Seq<Option<u64>>, p: u64) -> bool {
    forall|k: int| !#[trigger] resolved_at(cs, ds, p, k)
}

/// The depth `d` of change `i` is one more than the largest depth among its
/// parents, or zero for a change without parents; every parent is resolved.
pub open spec fn depth_rule(cs: Seq<ChangeView>, ds: Seq<Option<u64>>, i: int, d: u64) -> bool {
    &&& forall|q: int| 0 <= q < cs[i].parents.len() ==> #[trigger] below(cs, ds, cs[i].parents[q], d)
    &&& cs[i].parents.len() == 0 ==> d == 0
    &&& cs[i].parents.len() > 0 ==> exists|q: int|
        0 <= q < cs[i].parents.len() && #[trigger] just_below(cs, ds, cs[i].parents[q], d)
}

/// Some parent of change `i` has no resolved change.
pub open spec fn parent_missing(cs: Seq<ChangeView>, ds: Seq<Option<u64>>, i: int) -> bool {
    exists|q: int| 0 <= q < cs[i].parents.len() && #[trigger] unresolved(cs, ds, cs[i].parents[q])
}

/// `ds` gives a depth to the changes that are kept: authorized changes whose
/// parents are all kept. Every kept change obeys the depth rule, and so lies
/// below the number of changes.
pub open spec fn resolution(cs: Seq<ChangeView>, delegates: Seq<Seq<u8>>, ds: Seq<Option<u64>>) -> bool {
    &&& ds.len() == cs.len()
    &&& forall|i: int|
        0 <= i < cs.len() && (#[trigger] ds[i]) is Some ==> authorized(delegates, cs[i].author)
            && depth_rule(cs, ds, i, ds[i]->0) && ds[i]->0 < cs.len()
    &&& forall|i: int|
        0 <= i < cs.len() && (#[trigger] ds[i]) is None ==> !authorized(delegates, cs[i].author)
            || parent_missing(cs, ds, i)
}

spec fn n_resolved(ds: Seq<Option<u64>>) -> nat
    decreases ds.len(),
{
    if ds.len() == 0 {
        0
    } else {
        n_resolved(ds.drop_last()) + if ds.last() is Some {
            1nat
        } else {
            0nat
        }
    }
}

proof fn lemma_n_resolved_bound(ds: Seq<Option<u64>>)
    ensures
        n_resolved(ds) <= ds.len(),
    decreases ds.len(),
{
    if ds.len() > 0 {
        lemma_n_resolved_bound(ds.drop_last());
    }
}

proof fn lemma_n_resolved_update(ds: Seq<Option<u64>>, i: int, d: u64)
    requires
        0 <= i < ds.len(),
        ds[i] is None,
    ensures
        n_resolved(ds.update(i, Some(d))) == n_resolved(ds) + 1,
    decreases ds.len(),
{
    let u = ds.update(i, Some(d));
    if i < ds.len() - 1 {
        assert(u.drop_last() =~= ds.drop_last().update(i, Some(d)));
        lemma_n_resolved_update(ds.drop_last(), i, d);
    } else {
        assert(u.drop_last() =~= ds.drop_last());
    }
}

/// Whether `key` is one of the delegates.
pub fn is_delegate(delegates: &Vec<Vec<u8>>, key: &Vec<u8>) -> (r: bool)
    ensures
        r == authorized(items_view(delegates@), key@),
{
    let mut i: usize = 0;
    while i < delegates.len()
        invariant
            i <= delegates.len(),
            forall|j: int| 0 <= j < i ==> items_view(delegates@)[j] != key@,
        decreases delegates.len() - i,
    {
        if bytes_eq(&delegates[i], key) {
            assert(items_view(delegates@)[i as int] == key@);
            return true;
        }
        i = i + 1;
    }
    false
}

/// The index of the change with id `p` whose depth is known, if any.
fn find_resolved(cs: &Vec<Change>, ds: &Vec<Option<u64>>, p: u64) -> (r: Option<usize>)
    requires
        ds.len() == cs.len(),
    ensures
        match r {
            Some(k) => resolved_at(changes_view(cs@), ds@, p, k as int),
            None => forall|k: int| !resolved_at(changes_view(cs@), ds@, p, k),
        },
{
    let mut k: usize = 0;
    while k < cs.len()
        invariant
            k <= cs.len() == ds.len(),
            forall|j: int| 0 <= j < k ==> !resolved_at(changes_view(cs@), ds@, p, j),
        decreases cs.len() - k,
    {
        if cs[k].id == p && ds[k].is_some() {
            return Some(k);
        }
        k = k + 1;
    }
    None
}

/// The depth of change `i` if all its parents are resolved.
fn depth_of(cs: &Vec<Change>, ds: &Vec<Option<u64>>, i: usize, bound: u64) -> (r: Option<u64>)
    requires
        ds.len() == cs.len(),
        i < cs.len(),
        forall|k: int| 0 <= k < ds.len() && (#[trigger] ds@[k]) is Some ==> ds@[k]->0 < bound,
    ensures
        match r {
            Some(d) => depth_rule(changes_view(cs@), ds@, i as int, d) && d <= bound,
            None => parent_missing(changes_view(cs@), ds@, i as int),
        },
{
    let ghost cv = changes_view(cs@);
    let parents = &cs[i].parents;
    assert(cv[i as int].parents == parents@);
    let mut best: u64 = 0;
    let mut q: usize = 0;
    while q < parents.len()
        invariant
            cv == changes_view(cs@),
            ds.len() == cs.len(),
            i < cs.len(),
            cv[i as int].parents == parents@,
            forall|k: int| 0 <= k < ds.len() && (#[trigger] ds@[k]) is Some ==> ds@[k]->0 < bound,
            q <= parents.len(),
            best <= bound,
            forall|j: int| 0 <= j < q ==> #[trigger] below(cv, ds@, cv[i as int].parents[j], best),
            q > 0 ==> exists|j: int|
                0 <= j < q && #[trigger] just_below(cv, ds@, cv[i as int].parents[j], best),
            q == 0 ==> best == 0,
        decreases parents.len() - q,
    {
        match find_resolved(cs, ds, parents[q]) {
            None => {
                assert(unresolved(cv, ds@, cv[i as int].parents[q as int]));
                return None;
            },
            Some(k) => {
                let d = ds[k].unwrap();
                assert(ds@[k as int] is Some);
                assert(resolved_at(cv, ds@, cv[i as int].parents[q as int], k as int));
                let ghost old_best = best;
                if d + 1 > best {
                    best = d + 1;
                    assert(just_below(cv, ds@, cv[i as int].parents[q as int], best));
                }
                assert(below(cv, ds@, cv[i as int].parents[q as int], best));
                assert forall|j: int| 0 <= j < q implies #[trigger] below(cv, ds@, cv[i as int].parents[j], best) by {
                    assert(below(cv, ds@, cv[i as int].parents[j], old_best));
                    let k2 = choose|k2: int| resolved_at(cv, ds@, cv[i as int].parents[j], k2) && ds@[k2]->0 < old_best;
                    assert(resolved_at(cv, ds@, cv[i as int].parents[j], k2));
                }
                q = q + 1;
            },
        }
    }
    Some(best)
}

/// `b` knows every depth that `a` knows, with the same value.
pub open spec fn extends(a: Seq<Option<u64>>, b: Seq<Option<u64>>) -> bool {
    &&& a.len() == b.len()
    &&& forall|k: int| 0 <= k < a.len() && (#[trigger] a[k]) is Some ==> b[k] == a[k]
}

proof fn lemma_depth_rule_stays(
    cs: Seq<ChangeView>,
    a: Seq<Option<u64>>,
    b: Seq<Option<u64>>,
    i: int,
    d: u64,
)
    requires
        0 <= i < cs.len(),
        a.len() == cs.len(),
        extends(a, b),
        depth_rule(cs, a, i, d),
    ensures
        depth_rule(cs, b, i, d),
{
    assert forall|q: int| 0 <= q < cs[i].parents.len() implies #[trigger] below(
        cs,
        b,
        cs[i].parents[q],
        d,
    ) by {
        assert(below(cs, a, cs[i].parents[q], d));
        let k = choose|k: int| #[trigger] resolved_at(cs, a, cs[i].parents[q], k) && a[k]->0 < d;
        assert(a[k] is Some);
        assert(resolved_at(cs, b, cs[i].parents[q], k));
    }
    if cs[i].parents.len() > 0 {
        let q = choose|q: int|
            0 <= q < cs[i].parents.len() && #[trigger] just_below(cs, a, cs[i].parents[q], d);
        let k = choose|k: int| #[trigger] resolved_at(cs, a, cs[i].parents[q], k) && d == a[k]->0 + 1;
        assert(a[k] is Some);
        assert(resolved_at(cs, b, cs[i].parents[q], k));
        assert(just_below(cs, b, cs[i].parents[q], d));
    }
}

/// Every resolved change is authorized, obeys the depth rule, and lies below `bound`.
pub open spec fn resolved_ok(
    cs: Seq<ChangeView>,
    delegates: Seq<Seq<u8>>,
    ds: Seq<Option<u64>>,
    bound: nat,
) -> bool {
    &&& ds.len() == cs.len()
    &&& forall|i: int|
        0 <= i < cs.len() && (#[trigger] ds[i]) is Some ==> authorized(delegates, cs[i].author)
            && depth_rule(cs, ds, i, ds[i]->0) && ds[i]->0 < bound
}

proof fn lemma_resolve_one(
    cs: Seq<ChangeView>,
    delegates: Seq<Seq<u8>>,
    ds: Seq<Option<u64>>,
    i: int,
    d: u64,
)
    requires
        0 <= i < cs.len(),
        ds[i] is None,
        resolved_ok(cs, delegates, ds, n_resolved(ds)),
        authorized(delegates, cs[i].author),
        depth_rule(cs, ds, i, d),
        d <= n_resolved(ds),
    ensures
        resolved_ok(cs, delegates, ds.update(i, Some(d)), n_resolved(ds.update(i, Some(d)))),
        n_resolved(ds.update(i, Some(d))) == n_resolved(ds) + 1,
{
    let b = ds.update(i, Some(d));
    lemma_n_resolved_update(ds, i, d);
    assert(extends(ds, b));
    assert forall|j: int| 0 <= j < cs.len() && (#[trigger] b[j]) is Some implies authorized(
        delegates,
        cs[j].author,
    ) && depth_rule(cs, b, j, b[j]->0) && b[j]->0 < n_resolved(b) by {
        if j == i {
            lemma_depth_rule_stays(cs, ds, b, i, d);
        } else {
            assert(ds[j] is Some);
            lemma_depth_rule_stays(cs, ds, b, j, ds[j]->0);
        }
    }
}

/// Give a depth to every authorized change whose parents all have one,
/// until no more can be given.
fn resolve(cs: &Vec<Change>, delegates: &Vec<Vec<u8>>) -> (ds: Vec<Option<u64>>)
    ensures
        resolution(changes_view(cs@), items_view(delegates@), ds@),
{
    let ghost cv = changes_view(cs@);
    let ghost dv = items_view(delegates@);
    let n = cs.len();
    let mut ds: Vec<Option<u64>> = Vec::new();
    while ds.len() < n
        invariant
            ds.len() <= n == cs.len(),
            forall|k: int| 0 <= k < ds.len() ==> (#[trigger] ds@[k]) is None,
        decreases n - ds.len(),
    {
        ds.push(None);
    }
    proof {
        assert forall|k: int| 0 <= k <= n implies #[trigger] n_resolved(ds@.subrange(0, k)) == 0 by {
            lemma_none_prefix(ds@, k);
        }
        assert(ds@.subrange(0, n as int) =~= ds@);
    }
    let mut nres: usize = 0;
    let mut progress = true;
    while progress
        invariant
            cv == changes_view(cs@),
            dv == items_view(delegates@),
            n == cs.len() == ds.len(),
            nres == n_resolved(ds@),
            nres <= n,
            resolved_ok(cv, dv, ds@, nres as nat),
            !progress ==> forall|j: int|
                0 <= j < n && (#[trigger] ds@[j]) is None ==> !authorized(dv, cv[j].author)
                    || parent_missing(cv, ds@, j),
        decreases n - nres + if progress {
            1int
        } else {
            0int
        },
    {
        let ghost start = nres;
        progress = false;
        let mut i: usize = 0;
        while i < n
            invariant
                cv == changes_view(cs@),
                dv == items_view(delegates@),
                n == cs.len() == ds.len(),
                nres == n_resolved(ds@),
                nres <= n,
                start <= nres,
                progress == (nres > start),
                resolved_ok(cv, dv, ds@, nres as nat),
                i <= n,
                !progress ==> forall|j: int|
                    0 <= j < i && (#[trigger] ds@[j]) is None ==> !authorized(dv, cv[j].author)
                        || parent_missing(cv, ds@, j),
            decreases n - i,
        {
            if ds[i].is_none() {
                assert(cv[i as int].author == cs@[i as int].author@);
                if is_delegate(delegates, &cs[i].author) {
                    match depth_of(cs, &ds, i, nres as u64) {
                        Some(d) => {
                            proof {
                                lemma_resolve_one(cv, dv, ds@, i as int, d);
                                lemma_n_resolved_bound(ds@.update(i as int, Some(d)));
                            }
                            ds.set(i, Some(d));
                            nres = nres + 1;
                            progress = true;
                        },
                        None => {},
                    }
                }
            }
            i = i + 1;
        }
    }
    ds
}

proof fn lemma_none_prefix(ds: Seq<Option<u64>>, k: int)
    requires
        0 <= k <= ds.len(),
        forall|j: int| 0 <= j < ds.len() ==> (#[trigger] ds[j]) is None,
    ensures
        n_resolved(ds.subrange(0, k)) == 0,
    decreases k,
{
    if k > 0 {
        assert(ds.subrange(0, k).drop_last() =~= ds.subrange(0, k - 1));
        lemma_none_prefix(ds, k - 1);
    }
}

/// An evaluated change: the change and its depth in the graph.
#[derive(Debug)]
pub struct Entry {
    pub change: Change,
    pub depth: u64,
}

impl Entry {
    pub open spec fn view(&self) -> (ChangeView, u64) {
        (self.change@, self.depth)
    }
}

/// Entries are ordered by depth, then timestamp, then id.
pub open spec fn key_lt(a: (ChangeView, u64), b: (ChangeView, u64)) -> bool {
    ||| a.1 < b.1
    ||| a.1 == b.1 && a.0.timestamp < b.0.timestamp
    ||| a.1 == b.1 && a.0.timestamp == b.0.timestamp && a.0.id < b.0.id
}

pub open spec fn sorted(es: Seq<(ChangeView, u64)>) -> bool {
    forall|i: int, j: int| 0 <= i < j < es.len() ==> key_lt(#[trigger] es[i], #[trigger] es[j])
}

/// `e` is the entry of a change at index `lo` or later to which `ds` gives a depth.
pub open spec fn entry_of(cs: Seq<ChangeView>, ds: Seq<Option<u64>>, lo: int, e: (ChangeView, u64)) -> bool {
    exists|i: int| lo <= i < cs.len() && (#[trigger] ds[i]) is Some && e == (cs[i], ds[i]->0)
}

/// `es` holds, in key order, exactly the changes to which `ds` gives a depth,
/// each with that depth.
pub open spec fn lists(cs: Seq<ChangeView>, ds: Seq<Option<u64>>, es: Seq<(ChangeView, u64)>) -> bool {
    &&& sorted(es)
    &&& forall|j: int| 0 <= j < es.len() ==> #[trigger] entry_of(cs, ds, 0, es[j])
    &&& forall|i: int|
        0 <= i < cs.len() && (#[trigger] ds[i]) is Some ==> exists|j: int|
            0 <= j < es.len() && #[trigger] es[j] == (cs[i], ds[i]->0)
}

/// The evaluated history of a collaborative object: its entries in key order.
#[derive(Debug)]
pub struct History {
    entries: Vec<Entry>,
}

pub open spec fn entries_view(v: Seq<Entry>) -> Seq<(ChangeView, u64)> {
    Seq::new(v.len(), |i: int| v[i]@)
}

fn entry_lt(a: &Entry, b: &Entry) -> (r: bool)
    ensures
        r == key_lt(a@, b@),
{
    a.depth < b.depth || (a.depth == b.depth && a.change.timestamp < b.change.timestamp) || (
    a.depth == b.depth && a.change.timestamp == b.change.timestamp && a.change.id < b.change.id)
}

impl History {
    pub closed spec fn view(&self) -> Seq<(ChangeView, u64)> {
        entries_view(self.entries@)
    }

    pub closed spec fn wf(&self) -> bool {
        sorted(self@)
    }

    /// Number of entries.
    pub fn len(&self) -> (r: usize)
        ensures
            r == self@.len(),
    {
        self.entries.len()
    }

    /// The entry at position `i`.
    pub fn get(&self, i: usize) -> (r: &Entry)
        requires
            i < self@.len(),
        ensures
            r@ == self@[i as int],
    {
        &self.entries[i]
    }

    /// Evaluate a change graph: keep the changes authored by a delegate whose
    /// parents are all kept, give each its depth, and order them by depth,
    /// timestamp and id.
    #[verifier::rlimit(40)]
    pub fn evaluate(changes: Vec<Change>, delegates: &Vec<Vec<u8>>) -> (h: History)
        requires
            unique_ids(changes_view(changes@)),
        ensures
            h.wf(),
            forall|j: int| 0 <= j < h@.len() ==> (#[trigger] h@[j]).1 < changes@.len(),
            exists|ds: Seq<Option<u64>>|
                #[trigger] resolution(changes_view(changes@), items_view(delegates@), ds) && lists(
                    changes_view(changes@),
                    ds,
                    h@,
                ),
    {
        let ghost cv = changes_view(changes@);
        let ds = resolve(&changes, delegates);
        let n = changes.len();
        let mut rest = changes;
        let mut out: Vec<Entry> = Vec::new();
        while rest.len() > 0
            invariant
                n == cv.len() == ds.len(),
                unique_ids(cv),
                rest.len() <= n,
                changes_view(rest@) == cv.subrange(0, rest.len() as int),
                sorted(entries_view(out@)),
                forall|j: int|
                    0 <= j < out.len() ==> #[trigger] entry_of(cv, ds@, rest.len() as int, entries_view(out@)[j]),
                forall|i: int|
                    rest.len() <= i < n && (#[trigger] ds@[i]) is Some ==> exists|j: int|
                        0 <= j < out.len() && #[trigger] entries_view(out@)[j] == (cv[i], ds@[i]->0),
            decreases rest.len(),
        {
            let ghost before = rest@;
            let c = rest.pop().unwrap();
            let m = rest.len();
            proof {
                assert(c@ == changes_view(before)[m as int]);
                assert(changes_view(rest@) =~= cv.subrange(0, m as int));
            }
            match ds[m] {
                None => {
                    assert forall|j: int| 0 <= j < out.len() implies #[trigger] entry_of(
                        cv,
                        ds@,
                        m as int,
                        entries_view(out@)[j],
                    ) by {
                        assert(entry_of(cv, ds@, m + 1, entries_view(out@)[j]));
                        let i = choose|i: int|
                            m + 1 <= i < n && (#[trigger] ds@[i]) is Some && entries_view(out@)[j] == (cv[i], ds@[i]->0);
                        assert(ds@[i] is Some);
                    }
                },
                Some(d) => {
                    let e = Entry { change: c, depth: d };
                    let ghost ov = entries_view(out@);
                    assert(e@ == (cv[m as int], ds@[m as int]->0));
                    let mut p: usize = 0;
                    while p < out.len() && entry_lt(&out[p], &e)
                        invariant
                            p <= out.len(),
                            ov == entries_view(out@),
                            forall|j: int| 0 <= j < p ==> key_lt(#[trigger] ov[j], e@),
                        decreases out.len() - p,
                    {
                        p = p + 1;
                    }
                    proof {
                        // every entry at or after `p` comes after the new one
                        assert forall|j: int| p <= j < ov.len() implies key_lt(e@, #[trigger] ov[j]) by {
                            assert(entry_of(cv, ds@, m + 1, ov[j]));
                            let i = choose|i: int|
                                m + 1 <= i < n && (#[trigger] ds@[i]) is Some && ov[j] == (cv[i], ds@[i]->0);
                            assert(cv[i].id != cv[m as int].id);
                            if j > p {
                                assert(key_lt(ov[p as int], ov[j]));
                            }
                        }
                    }
                    out.insert(p, e);
                    proof {
                        let nv = entries_view(out@);
                        assert(nv =~= ov.insert(p as int, e@));
                        assert forall|a: int, b: int| 0 <= a < b < nv.len() implies key_lt(
                            #[trigger] nv[a],
                            #[trigger] nv[b],
                        ) by {
                            if b < p {
                            } else if b == p {
                            } else if a < p {
                                assert(key_lt(ov[a], e@));
                                assert(key_lt(e@, ov[b - 1]));
                            } else if a == p {
                            } else {
                                assert(key_lt(ov[a - 1], ov[b - 1]));
                            }
                        }
                        assert forall|j: int| 0 <= j < nv.len() implies #[trigger] entry_of(cv, ds@, m as int, nv[j]) by {
                            if j < p {
                                assert(nv[j] == ov[j]);
                                assert(entry_of(cv, ds@, m + 1, ov[j]));
                            } else if j == p {
                                assert(ds@[m as int] is Some);
                            } else {
                                assert(nv[j] == ov[j - 1]);
                                assert(entry_of(cv, ds@, m + 1, ov[j - 1]));
                            }
                        }
                        assert forall|i: int| m <= i < n && (#[trigger] ds@[i]) is Some implies exists|j: int|
                            0 <= j < nv.len() && #[trigger] nv[j] == (cv[i], ds@[i]->0) by {
                            if i == m {
                                assert(nv[p as int] == e@);
                            } else {
                                let j = choose|j: int|
                                    0 <= j < ov.len() && #[trigger] ov[j] == (cv[i], ds@[i]->0);
                                if j < p {
                                    assert(nv[j] == ov[j]);
                                } else {
                                    assert(nv[j + 1] == ov[j]);
                                }
                            }
                        }
                    }
                },
            }
        }
        let h = History { entries: out };
        assert(lists(cv, ds@, h@));
        assert forall|j: int| 0 <= j < h@.len() implies (#[trigger] h@[j]).1 < n by {
            assert(entry_of(cv, ds@, 0, h@[j]));
            let i = choose|i: int| 0 <= i < n && (#[trigger] ds@[i]) is Some && h@[j] == (cv[i], ds@[i]->0);
        }
        h
    }
}

/// Some entry of `es` names `id` among its parents.
pub open spec fn has_child(es: Seq<(ChangeView, u64)>, id: u64) -> bool {
    exists|k: int| 0 <= k < es.len() && (#[trigger] es[k]).0.parents.contains(id)
}

/// The ids of the first `n` entries of `es` that no entry names as a parent,
/// in history order.
pub open spec fn tips_upto(es: Seq<(ChangeView, u64)>, n: nat) -> Seq<u64>
    decreases n,
{
    if n == 0 {
        Seq::empty()
    } else if has_child(es, es[n - 1].0.id) {
        tips_upto(es, (n - 1) as nat)
    } else {
        tips_upto(es, (n - 1) as nat).push(es[n - 1].0.id)
    }
}

/// The tips of a history: the ids of its sinks, in history order.
pub open spec fn tips_of(es: Seq<(ChangeView, u64)>) -> Seq<u64> {
    tips_upto(es, es.len())
}

/// The depth that a change extending every tip of `es` gets.
pub open spec fn next_depth(es: Seq<(ChangeView, u64)>) -> int {
    if es.len() == 0 {
        0
    } else {
        es.last().1 + 1
    }
}

impl History {
    /// An empty history.
    pub fn new() -> (h: History)
        ensures
            h.wf(),
            h@.len() == 0,
    {
        History { entries: Vec::new() }
    }

    fn has_child(&self, id: u64) -> (r: bool)
        ensures
            r == has_child(self@, id),
    {
        let mut k: usize = 0;
        while k < self.entries.len()
            invariant
                k <= self.entries.len(),
                forall|j: int| 0 <= j < k ==> !(#[trigger] self@[j]).0.parents.contains(id),
            decreases self.entries.len() - k,
        {
            if contains_id(&self.entries[k].change.parents, id) {
                assert(self@[k as int].0.parents.contains(id));
                return true;
            }
            k = k + 1;
        }
        false
    }

    /// The ids of the changes that no other change of the history supersedes.
    pub fn tips(&self) -> (r: Vec<u64>)
        ensures
            r@ == tips_of(self@),
    {
        let mut r: Vec<u64> = Vec::new();
        let mut j: usize = 0;
        while j < self.entries.len()
            invariant
                j <= self.entries.len(),
                r@ == tips_upto(self@, j as nat),
            decreases self.entries.len() - j,
        {
            let id = self.entries[j].change.id;
            if !self.has_child(id) {
                r.push(id);
            }
            j = j + 1;
        }
        r
    }

    /// Append a change that supersedes every tip of the history. Its depth is
    /// one more than the deepest entry's, so the history stays in key order.
    pub fn extend(&mut self, change: Change)
        requires
            old(self).wf(),
            next_depth(old(self)@) <= u64::MAX,
        ensures
            final(self).wf(),
            final(self)@ == old(self)@.push((change@, next_depth(old(self)@) as u64)),
    {
        let n = self.entries.len();
        let depth = if n == 0 {
            0
        } else {
            self.entries[n - 1].depth + 1
        };
        let ghost before = self@;
        self.entries.push(Entry { change, depth });
        assert(self@ =~= before.push((change@, depth)));
        assert forall|a: int, b: int| 0 <= a < b < self@.len() implies key_lt(
            #[trigger] self@[a],
            #[trigger] self@[b],
        ) by {
            if b == n {
                if a < n - 1 {
                    assert(key_lt(before[a], before[n - 1]));
                }
            } else {
                assert(key_lt(before[a], before[b]));
            }
        }
    }
}

/// Histories are deterministic: two ordered histories that hold the same
/// entries are the same sequence, whatever order the changes arrived in.
#[verifier::rlimit(40)]
pub proof fn lemma_history_determined(a: Seq<(ChangeView, u64)>, b: Seq<(ChangeView, u64)>)
    requires
        sorted(a),
        sorted(b),
        forall|e: (ChangeView, u64)| a.contains(e) <==> b.contains(e),
    ensures
        a == b,
    decreases a.len(),
{
    if a.len() == 0 {
        if b.len() > 0 {
            assert(b.contains(b[0]));
        }
        assert(a =~= b);
    } else {
        assert(a.contains(a[0]));
        let j = choose|j: int| 0 <= j < b.len() && b[j] == a[0];
        assert(b.contains(b[0]));
        let i = choose|i: int| 0 <= i < a.len() && a[i] == b[0];
        if j > 0 {
            assert(key_lt(b[0], b[j]));
            if i > 0 {
                assert(key_lt(a[0], a[i]));
            }
        }
        assert(b[0] == a[0]);
        let a1 = a.subrange(1, a.len() as int);
        let b1 = b.subrange(1, b.len() as int);
        assert forall|e: (ChangeView, u64)| a1.contains(e) <==> b1.contains(e) by {
            if a1.contains(e) {
                let x = choose|x: int| 0 <= x < a1.len() && a1[x] == e;
                assert(key_lt(a[0], a[x + 1]));
                assert(a.contains(e));
                let y = choose|y: int| 0 <= y < b.len() && b[y] == e;
                if y == 0 {
                    assert(false);
                }
                assert(b1[y - 1] == e);
            }
            if b1.contains(e) {
                let x = choose|x: int| 0 <= x < b1.len() && b1[x] == e;
                assert(key_lt(b[0], b[x + 1]));
                assert(b.contains(e));
                let y = choose|y: int| 0 <= y < a.len() && a[y] == e;
                if y == 0 {
                    assert(false);
                }
                assert(a1[y - 1] == e);
            }
        }
        assert(sorted(a1)) by {
            assert forall|x: int, y: int| 0 <= x < y < a1.len() implies key_lt(#[trigger] a1[x], #[trigger] a1[y]) by {
                assert(key_lt(a[x + 1], a[y + 1]));
            }
        }
        assert(sorted(b1)) by {
            assert forall|x: int, y: int| 0 <= x < y < b1.len() implies key_lt(#[trigger] b1[x], #[trigger] b1[y]) by {
                assert(key_lt(b[x + 1], b[y + 1]));
            }
        }
        lemma_history_determined(a1, b1);
        assert(a.len() == b.len());
        assert forall|k: int| 0 <= k < a.len() implies a[k] == b[k] by {
            if k > 0 {
                assert(a[k] == a1[k - 1]);
                assert(b[k] == b1[k - 1]);
            }
        }
        assert(a =~= b);
    }
}

/// `rank` orders the graph: every parent that is a change of `cs` ranks
/// below its child, so the graph has no cycle.
pub open spec fn ranked(cs: Seq<ChangeView>, rank: spec_fn(u64) -> nat) -> bool {
    forall|i: int, q: int, k: int|
        0 <= i < cs.len() && 0 <= q < cs[i].parents.len() && 0 <= k < cs.len() && #[trigger] cs[k].id
            == #[trigger] cs[i].parents[q] ==> rank(cs[k].id) < rank(cs[i].id)
}

/// If `a` gives change `i` a depth and both agree on its parents, `b` gives
/// it the same depth.
#[verifier::rlimit(50)]
#[verifier::spinoff_prover]
proof fn lemma_same_depth(
    cs: Seq<ChangeView>,
    delegates: Seq<Seq<u8>>,
    a: Seq<Option<u64>>,
    b: Seq<Option<u64>>,
    i: int,
)
    requires
        0 <= i < cs.len(),
        unique_ids(cs),
        resolution(cs, delegates, a),
        resolution(cs, delegates, b),
        a[i] is Some,
        forall|q: int, k: int|
            0 <= q < cs[i].parents.len() && 0 <= k < cs.len() && #[trigger] cs[k].id
                == #[trigger] cs[i].parents[q] ==> a[k] == b[k],
    ensures
        b[i] == a[i],
{
    let d1 = a[i]->0;
    let ps = cs[i].parents;
    assert(depth_rule(cs, a, i, d1));
    assert forall|q: int| 0 <= q < ps.len() implies !#[trigger] unresolved(cs, b, ps[q]) by {
        assert(below(cs, a, ps[q], d1));
        let k = choose|k: int| #[trigger] resolved_at(cs, a, ps[q], k) && a[k]->0 < d1;
        assert(cs[k].id == cs[i].parents[q]);
        assert(resolved_at(cs, b, ps[q], k));
    }
    assert(!parent_missing(cs, b, i));
    assert(b[i] is Some);
    let d2 = b[i]->0;
    assert(depth_rule(cs, b, i, d2));
    if ps.len() > 0 {
        let q1 = choose|q: int| 0 <= q < ps.len() && #[trigger] just_below(cs, a, ps[q], d1);
        let k1 = choose|k: int| #[trigger] resolved_at(cs, a, ps[q1], k) && d1 == a[k]->0 + 1;
        assert(cs[k1].id == cs[i].parents[q1]);
        assert(below(cs, b, ps[q1], d2));
        let k1b = choose|k: int| #[trigger] resolved_at(cs, b, ps[q1], k) && b[k]->0 < d2;
        if k1b != k1 {
            if k1b < k1 {
                assert(cs[k1b].id != cs[k1].id);
            } else {
                assert(cs[k1].id != cs[k1b].id);
            }
        }
        let q2 = choose|q: int| 0 <= q < ps.len() && #[trigger] just_below(cs, b, ps[q], d2);
        let k2 = choose|k: int| #[trigger] resolved_at(cs, b, ps[q2], k) && d2 == b[k]->0 + 1;
        assert(cs[k2].id == cs[i].parents[q2]);
        assert(below(cs, a, ps[q2], d1));
        let k2a = choose|k: int| #[trigger] resolved_at(cs, a, ps[q2], k) && a[k]->0 < d1;
        if k2a != k2 {
            if k2a < k2 {
                assert(cs[k2a].id != cs[k2].id);
            } else {
                assert(cs[k2].id != cs[k2a].id);
            }
        }
    }
}

proof fn lemma_unique_below(
    cs: Seq<ChangeView>,
    delegates: Seq<Seq<u8>>,
    a: Seq<Option<u64>>,
    b: Seq<Option<u64>>,
    rank: spec_fn(u64) -> nat,
    n: nat,
)
    requires
        unique_ids(cs),
        ranked(cs, rank),
        resolution(cs, delegates, a),
        resolution(cs, delegates, b),
    ensures
        forall|i: int| 0 <= i < cs.len() && rank(cs[i].id) < n ==> #[trigger] a[i] == b[i],
    decreases n,
{
    if n > 0 {
        lemma_unique_below(cs, delegates, a, b, rank, (n - 1) as nat);
        assert forall|i: int| 0 <= i < cs.len() && rank(cs[i].id) < n implies #[trigger] a[i] == b[i] by {
            if rank(cs[i].id) == n - 1 {
                assert forall|q: int, k: int|
                    0 <= q < cs[i].parents.len() && 0 <= k < cs.len() && #[trigger] cs[k].id
                        == #[trigger] cs[i].parents[q] implies a[k] == b[k] by {
                    assert(rank(cs[k].id) < rank(cs[i].id));
                }
                if a[i] is Some {
                    lemma_same_depth(cs, delegates, a, b, i);
                } else if b[i] is Some {
                    lemma_same_depth(cs, delegates, b, a, i);
                }
            }
        }
    }
}

/// On a graph without cycles, the depths are determined: two resolutions of
/// the same changes are equal.
pub proof fn lemma_resolution_unique(
    cs: Seq<ChangeView>,
    delegates: Seq<Seq<u8>>,
    a: Seq<Option<u64>>,
    b: Seq<Option<u64>>,
    rank: spec_fn(u64) -> nat,
)
    requires
        unique_ids(cs),
        ranked(cs, rank),
        resolution(cs, delegates, a),
        resolution(cs, delegates, b),
    ensures
        a == b,
{
    let top = max_rank(cs, rank, cs.len()) + 1;
    lemma_max_rank(cs, rank, cs.len());
    lemma_unique_below(cs, delegates, a, b, rank, top);
    assert(a =~= b);
}

spec fn max_rank(cs: Seq<ChangeView>, rank: spec_fn(u64) -> nat, n: nat) -> nat
    decreases n,
{
    if n == 0 {
        0
    } else {
        let m = max_rank(cs, rank, (n - 1) as nat);
        let r = rank(cs[n - 1].id);
        if r > m { r } else { m }
    }
}

proof fn lemma_max_rank(cs: Seq<ChangeView>, rank: spec_fn(u64) -> nat, n: nat)
    requires
        n <= cs.len(),
    ensures
        forall|i: int| 0 <= i < n ==> rank(#[trigger] cs[i].id) <= max_rank(cs, rank, n),
    decreases n,
{
    if n > 0 {
        lemma_max_rank(cs, rank, (n - 1) as nat);
    }
}

/// `b` holds the changes of `a` in another order: `b[j] == a[perm(j)]`, and
/// `inv` undoes `perm`.
pub open spec fn reordered(
    a: Seq<ChangeView>,
    b: Seq<ChangeView>,
    perm: spec_fn(int) -> int,
    inv: spec_fn(int) -> int,
) -> bool {
    &&& a.len() == b.len()
    &&& forall|j: int|
        0 <= j < b.len() ==> 0 <= #[trigger] perm(j) < a.len() && inv(perm(j)) == j && b[j] == a[perm(j)]
    &&& forall|i: int| 0 <= i < a.len() ==> 0 <= #[trigger] inv(i) < b.len() && perm(inv(i)) == i
}

#[verifier::rlimit(40)]
proof fn lemma_reordered_resolution(
    a: Seq<ChangeView>,
    b: Seq<ChangeView>,
    perm: spec_fn(int) -> int,
    inv: spec_fn(int) -> int,
    delegates: Seq<Seq<u8>>,
    da: Seq<Option<u64>>,
) -> (db: Seq<Option<u64>>)
    requires
        reordered(a, b, perm, inv),
        resolution(a, delegates, da),
    ensures
        db.len() == b.len(),
        forall|j: int| 0 <= j < b.len() ==> #[trigger] db[j] == da[perm(j)],
        resolution(b, delegates, db),
{
    let db = Seq::new(b.len(), |j: int| da[perm(j)]);
    assert forall|p: u64, k: int| #[trigger] resolved_at(a, da, p, k) implies resolved_at(b, db, p, inv(k)) by {
        assert(perm(inv(k)) == k);
    }
    assert forall|p: u64, j: int| #[trigger] resolved_at(b, db, p, j) implies resolved_at(a, da, p, perm(j)) by {}
    assert forall|p: u64, d: u64| #[trigger] below(a, da, p, d) implies below(b, db, p, d) by {
        let k = choose|k: int| #[trigger] resolved_at(a, da, p, k) && da[k]->0 < d;
        assert(resolved_at(b, db, p, inv(k)));
    }
    assert forall|p: u64, d: u64| #[trigger] just_below(a, da, p, d) implies just_below(b, db, p, d) by {
        let k = choose|k: int| #[trigger] resolved_at(a, da, p, k) && d == da[k]->0 + 1;
        assert(resolved_at(b, db, p, inv(k)));
    }
    assert forall|p: u64| #[trigger] unresolved(a, da, p) implies unresolved(b, db, p) by {
        assert forall|j: int| !#[trigger] resolved_at(b, db, p, j) by {
            if resolved_at(b, db, p, j) {
                assert(resolved_at(a, da, p, perm(j)));
            }
        }
    }
    assert forall|j: int| 0 <= j < b.len() && (#[trigger] db[j]) is Some implies authorized(
        delegates,
        b[j].author,
    ) && depth_rule(b, db, j, db[j]->0) && db[j]->0 < b.len() by {
        let i = perm(j);
        let d = db[j]->0;
        assert(da[i] is Some);
        assert(depth_rule(a, da, i, d));
        assert forall|q: int| 0 <= q < b[j].parents.len() implies #[trigger] below(b, db, b[j].parents[q], d) by {
            assert(below(a, da, a[i].parents[q], d));
        }
        if b[j].parents.len() > 0 {
            let q = choose|q: int| 0 <= q < a[i].parents.len() && #[trigger] just_below(a, da, a[i].parents[q], d);
            assert(just_below(b, db, b[j].parents[q], d));
        }
    }
    assert forall|j: int| 0 <= j < b.len() && (#[trigger] db[j]) is None implies !authorized(
        delegates,
        b[j].author,
    ) || parent_missing(b, db, j) by {
        let i = perm(j);
        assert(da[i] is None);
        if authorized(delegates, b[j].author) {
            assert(parent_missing(a, da, i));
            let q = choose|q: int| 0 <= q < a[i].parents.len() && #[trigger] unresolved(a, da, a[i].parents[q]);
            assert(unresolved(b, db, b[j].parents[q]));
        }
    }
    db
}

/// History evaluation is deterministic: on a graph without cycles, any order
/// of the same changes evaluates to the identical history.
#[verifier::rlimit(40)]
pub proof fn lemma_evaluation_deterministic(
    a: Seq<ChangeView>,
    b: Seq<ChangeView>,
    perm: spec_fn(int) -> int,
    inv: spec_fn(int) -> int,
    rank: spec_fn(u64) -> nat,
    delegates: Seq<Seq<u8>>,
    da: Seq<Option<u64>>,
    db: Seq<Option<u64>>,
    ea: Seq<(ChangeView, u64)>,
    eb: Seq<(ChangeView, u64)>,
)
    requires
        unique_ids(a),
        ranked(a, rank),
        reordered(a, b, perm, inv),
        resolution(a, delegates, da),
        lists(a, da, ea),
        resolution(b, delegates, db),
        lists(b, db, eb),
    ensures
        ea == eb,
{
    let dr = lemma_reordered_resolution(a, b, perm, inv, delegates, da);
    assert(unique_ids(b)) by {
        assert forall|x: int, y: int| 0 <= x < y < b.len() implies #[trigger] b[x].id != #[trigger] b[y].id by {
            if perm(x) < perm(y) {
                assert(a[perm(x)].id != a[perm(y)].id);
            } else if perm(y) < perm(x) {
                assert(a[perm(y)].id != a[perm(x)].id);
            } else {
                assert(inv(perm(x)) == x && inv(perm(y)) == y);
            }
        }
    }
    assert(ranked(b, rank)) by {
        assert forall|i: int, q: int, k: int|
            0 <= i < b.len() && 0 <= q < b[i].parents.len() && 0 <= k < b.len() && #[trigger] b[k].id
                == #[trigger] b[i].parents[q] implies rank(b[k].id) < rank(b[i].id) by {
            assert(a[perm(k)].id == a[perm(i)].parents[q]);
        }
    }
    lemma_resolution_unique(b, delegates, db, dr, rank);
    assert forall|e: (ChangeView, u64)| ea.contains(e) implies eb.contains(e) by {
        let x = choose|x: int| 0 <= x < ea.len() && ea[x] == e;
        assert(entry_of(a, da, 0, ea[x]));
        let i = choose|i: int| 0 <= i < a.len() && (#[trigger] da[i]) is Some && ea[x] == (a[i], da[i]->0);
        let j = inv(i);
        assert(db[j] == da[i]);
        assert(b[j] == a[i]);
        let y = choose|y: int| 0 <= y < eb.len() && #[trigger] eb[y] == (b[j], db[j]->0);
        assert(eb[y] == e);
    }
    assert forall|e: (ChangeView, u64)| eb.contains(e) implies ea.contains(e) by {
        let y = choose|y: int| 0 <= y < eb.len() && eb[y] == e;
        assert(entry_of(b, db, 0, eb[y]));
        let j = choose|j: int| 0 <= j < b.len() && (#[trigger] db[j]) is Some && eb[y] == (b[j], db[j]->0);
        let i = perm(j);
        assert(da[i] is Some);
        let x = choose|x: int| 0 <= x < ea.len() && #[trigger] ea[x] == (a[i], da[i]->0);
        assert(ea[x] == e);
    }
    lemma_history_determined(ea, eb);
}

/// Among `cs` is a root for object `obj`: a change with that id and no
/// parents, authored by a delegate. Evaluation always keeps such a change.
pub open spec fn valid_root(cs: Seq<ChangeView>, delegates: Seq<Seq<u8>>, obj: u64) -> bool {
    exists|i: int|
        0 <= i < cs.len() && (#[trigger] cs[i]).id == obj && cs[i].parents.len() == 0 && authorized(
            delegates,
            cs[i].author,
        )
}

/// Whether `cs` holds a valid root for object `obj`.
pub fn has_valid_root(cs: &Vec<Change>, delegates: &Vec<Vec<u8>>, obj: u64) -> (r: bool)
    ensures
        r == valid_root(changes_view(cs@), items_view(delegates@), obj),
{
    let ghost cv = changes_view(cs@);
    let mut i: usize = 0;
    while i < cs.len()
        invariant
            i <= cs.len(),
            cv == changes_view(cs@),
            forall|j: int|
                0 <= j < i ==> !((#[trigger] cv[j]).id == obj && cv[j].parents.len() == 0 && authorized(
                    items_view(delegates@),
                    cv[j].author,
                )),
        decreases cs.len() - i,
    {
        assert(cv[i as int] == cs@[i as int]@);
        if cs[i].id == obj && cs[i].parents.len() == 0 && is_delegate(delegates, &cs[i].author) {
            return true;
        }
        i = i + 1;
    }
    false
}

/// The changes among the first `n` of `cs` that may belong to object `obj`:
/// its root, and every change with parents. Another change without parents
/// would be a second root.
pub open spec fn rooted_upto(cs: Seq<ChangeView>, obj: u64, n: nat) -> Seq<ChangeView>
    decreases n,
{
    if n == 0 {
        seq![]
    } else if cs[n - 1].parents.len() > 0 || cs[n - 1].id == obj {
        rooted_upto(cs, obj, (n - 1) as nat).push(cs[n - 1])
    } else {
        rooted_upto(cs, obj, (n - 1) as nat)
    }
}

pub open spec fn rooted(cs: Seq<ChangeView>, obj: u64) -> Seq<ChangeView> {
    rooted_upto(cs, obj, cs.len())
}

/// `c` is one of the first `n` changes of `cs`.
pub open spec fn among(cs: Seq<ChangeView>, n: nat, c: ChangeView) -> bool {
    exists|i: int| 0 <= i < n && #[trigger] cs[i] == c
}

/// Keeping the rooted changes keeps ids unique, keeps only changes of `cs`,
/// leaves no other change without parents, and keeps a valid root.
#[verifier::rlimit(40)]
pub proof fn lemma_rooted_props(cs: Seq<ChangeView>, delegates: Seq<Seq<u8>>, obj: u64, n: nat)
    requires
        n <= cs.len(),
        unique_ids(cs),
    ensures
        unique_ids(rooted_upto(cs, obj, n)),
        forall|j: int|
            0 <= j < rooted_upto(cs, obj, n).len() ==> #[trigger] among(cs, n, rooted_upto(cs, obj, n)[j]),
        forall|j: int|
            0 <= j < rooted_upto(cs, obj, n).len() ==> (#[trigger] rooted_upto(cs, obj, n)[j]).parents.len() > 0
                || rooted_upto(cs, obj, n)[j].id == obj,
        (exists|i: int|
            0 <= i < n && (#[trigger] cs[i]).id == obj && cs[i].parents.len() == 0 && authorized(
                delegates,
                cs[i].author,
            )) ==> valid_root(rooted_upto(cs, obj, n), delegates, obj),
    decreases n,
{
    if n > 0 {
        lemma_rooted_props(cs, delegates, obj, (n - 1) as nat);
        let prev = rooted_upto(cs, obj, (n - 1) as nat);
        let cur = rooted_upto(cs, obj, n);
        assert forall|j: int| 0 <= j < cur.len() implies #[trigger] among(cs, n, cur[j]) by {
            if j < prev.len() {
                assert(cur[j] == prev[j]);
                assert(among(cs, (n - 1) as nat, prev[j]));
                let i = choose|i: int| 0 <= i < n - 1 && #[trigger] cs[i] == prev[j];
                assert(cs[i] == cur[j]);
            } else {
                assert(cs[n - 1] == cur[j]);
            }
        }
        assert forall|j: int| 0 <= j < cur.len() implies (#[trigger] cur[j]).parents.len() > 0 || cur[j].id == obj by {
            if j < prev.len() {
                assert(cur[j] == prev[j]);
            }
        }
        if cs[n - 1].parents.len() > 0 || cs[n - 1].id == obj {
            assert forall|a: int, b: int| 0 <= a < b < cur.len() implies #[trigger] cur[a].id != #[trigger] cur[b].id by {
                assert(cur[a] == prev[a]);
                if b < prev.len() {
                    assert(cur[b] == prev[b]);
                } else {
                    assert(among(cs, (n - 1) as nat, prev[a]));
                    let i = choose|i: int| 0 <= i < n - 1 && #[trigger] cs[i] == prev[a];
                    assert(cs[i].id != cs[n - 1].id);
                }
            }
        }
        if exists|i: int|
            0 <= i < n && (#[trigger] cs[i]).id == obj && cs[i].parents.len() == 0 && authorized(
                delegates,
                cs[i].author,
            ) {
            let i = choose|i: int|
                0 <= i < n && (#[trigger] cs[i]).id == obj && cs[i].parents.len() == 0 && authorized(
                    delegates,
                    cs[i].author,
                );
            if i == n - 1 {
                assert(cur[cur.len() - 1] == cs[i]);
            } else {
                assert(valid_root(prev, delegates, obj));
                let k = choose|k: int|
                    0 <= k < prev.len() && (#[trigger] prev[k]).id == obj && prev[k].parents.len() == 0
                        && authorized(delegates, prev[k].author);
                assert(cur[k] == prev[k]);
            }
        }
    }
}

/// The changes of `cs` that may belong to object `obj`, in order: its root
/// and every change with parents.
pub fn keep_rooted(cs: Vec<Change>, obj: u64) -> (r: Vec<Change>)
    ensures
        changes_view(r@) == rooted(changes_view(cs@), obj),
{
    let ghost whole = changes_view(cs@);
    let n = cs.len();
    let mut rest = cs;
    let mut out: Vec<Change> = Vec::new();
    let mut i: usize = 0;
    while i < n
        invariant
            i <= n,
            whole.len() == n,
            rest@.len() == n - i,
            changes_view(rest@) == whole.subrange(i as int, n as int),
            changes_view(out@) == rooted_upto(whole, obj, i as nat),
        decreases n - i,
    {
        let ghost raw = rest@;
        let c = rest.remove(0);
        assert(c@ == whole[i as int]) by {
            assert(changes_view(raw)[0] == c@);
        }
        assert(changes_view(rest@) =~= whole.subrange(i + 1, n as int)) by {
            assert forall|k: int| 0 <= k < rest@.len() implies #[trigger] changes_view(rest@)[k] == whole[i + 1 + k] by {
                assert(rest@[k] == raw[k + 1]);
                assert(changes_view(raw)[k + 1] == whole[i + 1 + k]);
            }
        }
        if c.parents.len() > 0 || c.id == obj {
            let ghost before = changes_view(out@);
            out.push(c);
            assert(changes_view(out@) =~= before.push(whole[i as int]));
        }
        i = i + 1;
    }
    out
}

/// The root of an object comes first in its history, when the changes hold a
/// valid root and no other change without parents.
#[verifier::rlimit(40)]
pub proof fn lemma_root_first(
    cs: Seq<ChangeView>,
    delegates: Seq<Seq<u8>>,
    obj: u64,
    ds: Seq<Option<u64>>,
    es: Seq<(ChangeView, u64)>,
)
    requires
        unique_ids(cs),
        valid_root(cs, delegates, obj),
        forall|i: int| 0 <= i < cs.len() ==> (#[trigger] cs[i]).parents.len() > 0 || cs[i].id == obj,
        resolution(cs, delegates, ds),
        lists(cs, ds, es),
    ensures
        es.len() > 0,
        es[0].0.id == obj,
        es[0].0.parents.len() == 0,
        es[0].1 == 0,
{
    let i = choose|i: int|
        0 <= i < cs.len() && (#[trigger] cs[i]).id == obj && cs[i].parents.len() == 0 && authorized(
            delegates,
            cs[i].author,
        );
    if ds[i] is None {
        assert(parent_missing(cs, ds, i));
        let q = choose|q: int| 0 <= q < cs[i].parents.len() && #[trigger] unresolved(cs, ds, cs[i].parents[q]);
    }
    assert(ds[i] is Some);
    assert(depth_rule(cs, ds, i, ds[i]->0));
    assert(ds[i]->0 == 0);
    let j = choose|j: int| 0 <= j < es.len() && #[trigger] es[j] == (cs[i], ds[i]->0);
    if j > 0 {
        assert(key_lt(es[0], es[j]));
        assert(entry_of(cs, ds, 0, es[0]));
        let k = choose|k: int| 0 <= k < cs.len() && (#[trigger] ds[k]) is Some && es[0] == (cs[k], ds[k]->0);
        assert(ds[k]->0 == 0);
        assert(depth_rule(cs, ds, k, 0));
        if cs[k].parents.len() > 0 {
            assert(below(cs, ds, cs[k].parents[0], 0));
        } else {
            if k != i {
                if k < i {
                    assert(cs[k].id != cs[i].id);
                } else {
                    assert(cs[i].id != cs[k].id);
                }
            }
        }
    }
}

/// An entry that no entry of `es` supersedes is among the tips.
pub proof fn lemma_tip_listed(es: Seq<(ChangeView, u64)>, n: nat, j: int)
    requires
        n <= es.len(),
        0 <= j < n,
        !has_child(es, es[j].0.id),
    ensures
        tips_upto(es, n).contains(es[j].0.id),
    decreases n,
{
    if j < n - 1 {
        lemma_tip_listed(es, (n - 1) as nat, j);
        let t = tips_upto(es, (n - 1) as nat);
        let k = choose|k: int| 0 <= k < t.len() && t[k] == es[j].0.id;
        if !has_child(es, es[n - 1].0.id) {
            assert(tips_upto(es, n)[k] == t[k]);
        }
    } else {
        assert(tips_upto(es, n).last() == es[j].0.id);
    }
}

/// Every tip is the id of an entry.
pub proof fn lemma_tips_are_entries(es: Seq<(ChangeView, u64)>, n: nat)
    requires
        n <= es.len(),
    ensures
        forall|k: int|
            0 <= k < tips_upto(es, n).len() ==> exists|j: int|
                0 <= j < n && #[trigger] tips_upto(es, n)[k] == es[j].0.id,
    decreases n,
{
    if n > 0 {
        lemma_tips_are_entries(es, (n - 1) as nat);
        let t = tips_upto(es, (n - 1) as nat);
        assert forall|k: int| 0 <= k < tips_upto(es, n).len() implies exists|j: int|
            0 <= j < n && #[trigger] tips_upto(es, n)[k] == es[j].0.id by {
            if k < t.len() {
                assert(tips_upto(es, n)[k] == t[k]);
                let j = choose|j: int| 0 <= j < n - 1 && #[trigger] t[k] == es[j].0.id;
            } else {
                assert(tips_upto(es, n)[k] == es[n - 1].0.id);
            }
        }
    }
}

/// Every entry of `es` has a child, so the first `n` hold no tip.
proof fn lemma_no_tips(es: Seq<(ChangeView, u64)>, n: nat)
    requires
        n <= es.len(),
        forall|j: int| 0 <= j < n ==> has_child(es, #[trigger] es[j].0.id),
    ensures
        tips_upto(es, n) == Seq::<u64>::empty(),
    decreases n,
{
    if n > 0 {
        lemma_no_tips(es, (n - 1) as nat);
        assert(has_child(es, es[n - 1].0.id));
    }
}

/// A change that supersedes every tip of `prior`, and that no entry of
/// `prior` names as a parent, is the only tip after it is appended.
pub proof fn lemma_single_tip(prior: Seq<(ChangeView, u64)>, new: (ChangeView, u64))
    requires
        new.0.parents == tips_of(prior),
        forall|j: int| 0 <= j < prior.len() ==> !(#[trigger] prior[j]).0.parents.contains(new.0.id),
        forall|j: int| 0 <= j < prior.len() ==> (#[trigger] prior[j]).0.id != new.0.id,
    ensures
        tips_of(prior.push(new)) == seq![new.0.id],
{
    let es = prior.push(new);
    let n = prior.len();
    assert forall|j: int| 0 <= j < n implies has_child(es, #[trigger] es[j].0.id) by {
        assert(es[j] == prior[j]);
        if has_child(prior, prior[j].0.id) {
            let k = choose|k: int| 0 <= k < prior.len() && (#[trigger] prior[k]).0.parents.contains(prior[j].0.id);
            assert(es[k] == prior[k]);
        } else {
            lemma_tip_listed(prior, n, j);
            assert(es[n as int] == new);
        }
    }
    lemma_no_tips(es, n);
    lemma_tips_are_entries(prior, n);
    assert(!has_child(es, new.0.id)) by {
        if has_child(es, new.0.id) {
            let k = choose|k: int| 0 <= k < es.len() && (#[trigger] es[k]).0.parents.contains(new.0.id);
            if k < n {
                assert(es[k] == prior[k]);
            } else {
                let t = tips_of(prior);
                let x = choose|x: int| 0 <= x < t.len() && t[x] == new.0.id;
                let j = choose|j: int| 0 <= j < n && #[trigger] t[x] == prior[j].0.id;
            }
        }
    }
    assert(es[n as int] == new);
    assert(tips_of(es) =~= seq![new.0.id]);
}

} // verus!
