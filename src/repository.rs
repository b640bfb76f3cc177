use vstd::prelude::*;

use crate::history::{changes_view, unique_ids, Change, ChangeView};
use crate::vecs::{bytes_eq, clone_bytes, clone_ids, clone_items, contains_id};
use crate::wire::items_view;

verus! {

/// The identity that collaborative objects belong to: its id and
/// the keys allowed to publish changes.
#[derive(Debug)]
pub struct Identity {
    pub resource: u64,
    pub delegates: Vec<Vec<u8>>,
}

/// A change as the backing store keeps it: with the kind and the object it belongs to.
#[derive(Debug)]
pub struct StoredChange {
    pub change: Change,
    pub typename: String,
    pub object: u64,
    pub message: String,
    pub history_type: String,
}

/// A stored change: the change, its kind, its object, its message and its
/// history type.
pub type StoredView = (ChangeView, Seq<char>, u64, Seq<char>, Seq<char>);

impl StoredChange {
    pub open spec fn view(&self) -> StoredView {
        (self.change@, self.typename@, self.object, self.message@, self.history_type@)
    }
}

/// A ref: under the namespace of one key, the latest change of one object.
#[derive(Debug)]
pub struct ObjRef {
    pub namespace: Vec<u8>,
    pub typename: String,
    pub object: u64,
    pub change: u64,
}

impl ObjRef {
    pub open spec fn view(&self) -> (Seq<u8>, Seq<char>, u64, u64) {
        (self.namespace@, self.typename@, self.object, self.change)
    }
}

/// In-memory backing store of collaborative objects (a `BackingStore`): changes addressed by id,
/// refs that witness objects, and the identity they belong to.
#[derive(Debug)]
pub struct Repository {
    identity: Option<Identity>,
    changes: Vec<StoredChange>,
    refs: Vec<ObjRef>,
    next_id: u64,
}

pub open spec fn stored_view(v: Seq<StoredChange>) -> Seq<StoredView> {
    Seq::new(v.len(), |i: int| v[i]@)
}

pub open spec fn refs_view(v: Seq<ObjRef>) -> Seq<RefView> {
    Seq::new(v.len(), |i: int| v[i]@)
}

/// The changes among the first `n` stored ones that belong to object `obj` of
/// kind `ty`, in store order.
pub open spec fn object_changes_upto(
    cs: Seq<StoredView>,
    ty: Seq<char>,
    obj: u64,
    n: nat,
) -> Seq<ChangeView>
    decreases n,
{
    if n == 0 {
        Seq::empty()
    } else if cs[n - 1].1 == ty && cs[n - 1].2 == obj {
        object_changes_upto(cs, ty, obj, (n - 1) as nat).push(cs[n - 1].0)
    } else {
        object_changes_upto(cs, ty, obj, (n - 1) as nat)
    }
}

pub open spec fn object_changes(
    cs: Seq<StoredView>,
    ty: Seq<char>,
    obj: u64,
) -> Seq<ChangeView> {
    object_changes_upto(cs, ty, obj, cs.len())
}

/// Some ref witnesses object `obj` of kind `ty`.
pub open spec fn has_object(refs: Seq<RefView>, ty: Seq<char>, obj: u64) -> bool {
    exists|k: int| 0 <= k < refs.len() && (#[trigger] refs[k]).1 == ty && refs[k].2 == obj
}

/// The distinct objects of kind `ty` among the first `n` refs, in the order
/// their first ref appears.
pub open spec fn object_ids_upto(refs: Seq<RefView>, ty: Seq<char>, n: nat) -> Seq<u64>
    decreases n,
{
    if n == 0 {
        Seq::empty()
    } else {
        let prev = object_ids_upto(refs, ty, (n - 1) as nat);
        if refs[n - 1].1 == ty && !prev.contains(refs[n - 1].2) {
            prev.push(refs[n - 1].2)
        } else {
            prev
        }
    }
}

pub open spec fn object_ids(refs: Seq<RefView>, ty: Seq<char>) -> Seq<u64> {
    object_ids_upto(refs, ty, refs.len())
}

/// `new` is `old` with the ref of `(ns, ty, obj)` pointed at `change`: the
/// first such ref is replaced, or one is added.
pub open spec fn ref_set(
    old: Seq<RefView>,
    new: Seq<RefView>,
    ns: Seq<u8>,
    ty: Seq<char>,
    obj: u64,
    change: u64,
) -> bool {
    ||| exists|k: int|
        0 <= k < old.len() && (#[trigger] old[k]).0 == ns && old[k].1 == ty && old[k].2 == obj
            && new == old.update(k, (ns, ty, obj, change))
    ||| (forall|k: int|
        0 <= k < old.len() ==> !((#[trigger] old[k]).0 == ns && old[k].1 == ty && old[k].2 == obj))
        && new == old.push((ns, ty, obj, change))
}

/// An object with changes has a stored change that names it.
pub proof fn lemma_object_named(cs: Seq<StoredView>, ty: Seq<char>, obj: u64, n: nat)
    requires
        n <= cs.len(),
        object_changes_upto(cs, ty, obj, n).len() > 0,
    ensures
        exists|i: int| 0 <= i < n && (#[trigger] cs[i]).2 == obj,
    decreases n,
{
    if !(cs[n - 1].1 == ty && cs[n - 1].2 == obj) {
        lemma_object_named(cs, ty, obj, (n - 1) as nat);
    } else {
        assert(cs[n - 1].2 == obj);
    }
}

/// No stored change names `obj`, so it has no changes.
pub proof fn lemma_object_unnamed(cs: Seq<StoredView>, ty: Seq<char>, obj: u64, n: nat)
    requires
        n <= cs.len(),
        forall|i: int| 0 <= i < n ==> (#[trigger] cs[i]).2 != obj,
    ensures
        object_changes_upto(cs, ty, obj, n).len() == 0,
    decreases n,
{
    if n > 0 {
        lemma_object_unnamed(cs, ty, obj, (n - 1) as nat);
    }
}

pub fn clone_change(c: &Change) -> (r: Change)
    ensures
        r@ == c@,
{
    Change {
        id: c.id,
        parents: clone_ids(&c.parents),
        author: clone_bytes(&c.author),
        resource: c.resource,
        contents: clone_items(&c.contents),
        timestamp: c.timestamp,
    }
}

/// `c` is the change of one of the first `n` stored changes.
pub open spec fn in_store(cs: Seq<StoredView>, n: nat, c: ChangeView) -> bool {
    exists|i: int| 0 <= i < n && (#[trigger] cs[i]).0 == c
}

/// The changes of an object are stored changes.
pub proof fn lemma_object_changes_from_store(
    cs: Seq<StoredView>,
    ty: Seq<char>,
    obj: u64,
    n: nat,
)
    requires
        n <= cs.len(),
    ensures
        forall|j: int|
            0 <= j < object_changes_upto(cs, ty, obj, n).len() ==> #[trigger] in_store(
                cs,
                n,
                object_changes_upto(cs, ty, obj, n)[j],
            ),
    decreases n,
{
    if n > 0 {
        lemma_object_changes_from_store(cs, ty, obj, (n - 1) as nat);
        let prev = object_changes_upto(cs, ty, obj, (n - 1) as nat);
        let cur = object_changes_upto(cs, ty, obj, n);
        assert forall|j: int| 0 <= j < cur.len() implies #[trigger] in_store(cs, n, cur[j]) by {
            if j < prev.len() {
                assert(cur[j] == prev[j]);
                assert(in_store(cs, (n - 1) as nat, prev[j]));
                let i = choose|i: int| 0 <= i < n - 1 && (#[trigger] cs[i]).0 == prev[j];
            } else {
                assert(cs[n - 1].0 == cur[j]);
            }
        }
    }
}

proof fn lemma_object_changes_unique(cs: Seq<StoredView>, ty: Seq<char>, obj: u64, n: nat)
    requires
        n <= cs.len(),
        forall|i: int, j: int| 0 <= i < j < cs.len() ==> (#[trigger] cs[i]).0.id != (#[trigger] cs[j]).0.id,
    ensures
        unique_ids(object_changes_upto(cs, ty, obj, n)),
    decreases n,
{
    if n > 0 {
        lemma_object_changes_unique(cs, ty, obj, (n - 1) as nat);
        lemma_object_changes_from_store(cs, ty, obj, (n - 1) as nat);
        let prev = object_changes_upto(cs, ty, obj, (n - 1) as nat);
        let cur = object_changes_upto(cs, ty, obj, n);
        if cs[n - 1].1 == ty && cs[n - 1].2 == obj {
            assert forall|a: int, b: int| 0 <= a < b < cur.len() implies #[trigger] cur[a].id
                != #[trigger] cur[b].id by {
                if b < prev.len() {
                    assert(cur[a] == prev[a] && cur[b] == prev[b]);
                } else {
                    assert(cur[a] == prev[a]);
                    assert(in_store(cs, (n - 1) as nat, prev[a]));
                    let i = choose|i: int| 0 <= i < n - 1 && (#[trigger] cs[i]).0 == prev[a];
                    assert(cs[i].0.id != cs[n - 1].0.id);
                }
            }
        }
    }
}

impl Repository {
    pub closed spec fn changes(&self) -> Seq<StoredView> {
        stored_view(self.changes@)
    }

    pub closed spec fn refs(&self) -> Seq<RefView> {
        refs_view(self.refs@)
    }

    pub closed spec fn next_id(&self) -> u64 {
        self.next_id
    }

    pub closed spec fn identity(&self) -> Option<(u64, Seq<Seq<u8>>)> {
        match &self.identity {
            Some(id) => Some((id.resource, items_view(id.delegates@))),
            None => None,
        }
    }

    /// Change ids are unique, and below the next id to hand out.
    pub closed spec fn wf(&self) -> bool {
        &&& forall|i: int, j: int|
            0 <= i < j < self.changes@.len() ==> (#[trigger] self.changes@[i]).change.id
                != (#[trigger] self.changes@[j]).change.id
        &&& forall|i: int|
            0 <= i < self.changes@.len() ==> (#[trigger] self.changes@[i]).change.id < self.next_id
                && self.changes@[i].object < self.next_id
    }

    /// Stored ids and object ids are below the next id.
    pub proof fn lemma_wf(&self)
        requires
            self.wf(),
        ensures
            forall|i: int|
                0 <= i < self.changes().len() ==> (#[trigger] self.changes()[i]).0.id < self.next_id()
                    && self.changes()[i].2 < self.next_id(),
    {
        assert forall|i: int| 0 <= i < self.changes().len() implies (#[trigger] self.changes()[i]).0.id
            < self.next_id() && self.changes()[i].2 < self.next_id() by {
            assert(self.changes()[i] == self.changes@[i]@);
        }
    }

    /// An empty store for objects of `identity`, if it has one.
    pub fn new(identity: Option<Identity>) -> (r: Repository)
        ensures
            r.wf(),
            r.changes().len() == 0,
            r.refs().len() == 0,
            r.next_id() == 1,
            r.identity() == match identity {
                Some(id) => Some((id.resource, items_view(id.delegates@))),
                None => None::<(u64, Seq<Seq<u8>>)>,
            },
    {
        Repository { identity, changes: Vec::new(), refs: Vec::new(), next_id: 1 }
    }

    /// A copy of the identity the objects belong to.
    pub fn identity_copy(&self) -> (r: Option<Identity>)
        ensures
            match r {
                Some(id) => self.identity() == Some((id.resource, items_view(id.delegates@))),
                None => self.identity() is None,
            },
    {
        match &self.identity {
            Some(id) => Some(Identity { resource: id.resource, delegates: clone_items(&id.delegates) }),
            None => None,
        }
    }

    /// Whether a ref witnesses object `obj` of kind `ty`.
    pub fn has_object(&self, ty: &String, obj: u64) -> (r: bool)
        ensures
            r == has_object(self.refs(), ty@, obj),
    {
        let mut k: usize = 0;
        while k < self.refs.len()
            invariant
                k <= self.refs.len(),
                forall|j: int| 0 <= j < k ==> !((#[trigger] self.refs()[j]).1 == ty@ && self.refs()[j].2 == obj),
            decreases self.refs.len() - k,
        {
            let r = &self.refs[k];
            if r.object == obj && r.typename == *ty {
                assert(self.refs()[k as int] == r@);
                return true;
            }
            k = k + 1;
        }
        false
    }

    /// Copies of the changes of object `obj` of kind `ty`, in store order.
    pub fn load(&self, ty: &String, obj: u64) -> (r: Vec<Change>)
        requires
            self.wf(),
        ensures
            changes_view(r@) == object_changes(self.changes(), ty@, obj),
            unique_ids(changes_view(r@)),
    {
        let mut r: Vec<Change> = Vec::new();
        let mut i: usize = 0;
        while i < self.changes.len()
            invariant
                i <= self.changes.len(),
                changes_view(r@) == object_changes_upto(self.changes(), ty@, obj, i as nat),
            decreases self.changes.len() - i,
        {
            let s = &self.changes[i];
            assert(self.changes()[i as int] == s@);
            if s.object == obj && s.typename == *ty {
                let c = clone_change(&s.change);
                let ghost before = changes_view(r@);
                r.push(c);
                assert(changes_view(r@) =~= before.push(c@));
            }
            i = i + 1;
        }
        proof {
            assert forall|a: int, b: int| 0 <= a < b < self.changes().len() implies (#[trigger] self.changes()[a]).0.id
                != (#[trigger] self.changes()[b]).0.id by {
                assert(self.changes@[a].change.id != self.changes@[b].change.id);
            }
            lemma_object_changes_unique(self.changes(), ty@, obj, self.changes().len());
        }
        r
    }

    /// Store a new change of object `obj` (or of a new object, named by the
    /// change's own id, when `obj` is `None`) and return a copy of it. Fails
    /// when ids have run out.
    pub fn create(
        &mut self,
        ty: &String,
        obj: Option<u64>,
        parents: Vec<u64>,
        author: &Vec<u8>,
        resource: u64,
        contents: &Vec<Vec<u8>>,
        message: &str,
        history_type: &String,
        timestamp: u64,
    ) -> (r: Option<Change>)
        requires
            old(self).wf(),
        ensures
            final(self).wf(),
            final(self).refs() == old(self).refs(),
            final(self).identity() == old(self).identity(),
            r is None <==> old(self).next_id() == u64::MAX || (obj matches Some(o) && o >= old(self).next_id()),
            r is None ==> *final(self) == *old(self),
            r is Some ==> final(self).next_id() == old(self).next_id() + 1,
            r matches Some(c) ==> {
                &&& c@ == (ChangeView {
                    id: old(self).next_id(),
                    parents: parents@,
                    author: author@,
                    resource,
                    contents: items_view(contents@),
                    timestamp,
                })
                &&& final(self).changes() == old(self).changes().push(
                    (c@, ty@, match obj {
                        Some(o) => o,
                        None => c.id,
                    }, message@, history_type@),
                )
            },
    {
        if self.next_id == u64::MAX {
            return None;
        }
        if let Some(o) = obj {
            if o >= self.next_id {
                return None;
            }
        }
        let id = self.next_id;
        let change = Change {
            id,
            parents,
            author: clone_bytes(author),
            resource,
            contents: clone_items(contents),
            timestamp,
        };
        let copy = clone_change(&change);
        let object = match obj {
            Some(o) => o,
            None => id,
        };
        let stored = StoredChange {
            change,
            typename: ty.clone(),
            object,
            message: message.to_owned(),
            history_type: history_type.clone(),
        };
        let ghost before = self.changes@;
        self.changes.push(stored);
        self.next_id = id + 1;
        assert(stored_view(self.changes@) =~= stored_view(before).push(
            (copy@, ty@, object, message@, history_type@),
        ));
        assert forall|i: int| 0 <= i < self.changes@.len() implies (#[trigger] self.changes@[i]).change.id < self.next_id by {
            if i < before.len() {
                assert(self.changes@[i] == before[i]);
            }
        }
        assert forall|i: int, j: int|
            0 <= i < j < self.changes@.len() implies (#[trigger] self.changes@[i]).change.id
                != (#[trigger] self.changes@[j]).change.id by {
            assert(self.changes@[i] == before[i]);
            if j < before.len() {
                assert(self.changes@[j] == before[j]);
            }
        }
        Some(copy)
    }

    /// Point the ref of `(ns, ty, obj)` at `change`.
    pub fn update(&mut self, ns: &Vec<u8>, ty: &String, obj: u64, change: u64)
        requires
            old(self).wf(),
        ensures
            final(self).wf(),
            final(self).changes() == old(self).changes(),
            final(self).next_id() == old(self).next_id(),
            final(self).identity() == old(self).identity(),
            ref_set(old(self).refs(), final(self).refs(), ns@, ty@, obj, change),
    {
        let new_ref = ObjRef { namespace: clone_bytes(ns), typename: ty.clone(), object: obj, change };
        let ghost old_refs = self.refs();
        let mut k: usize = 0;
        let mut found = false;
        while k < self.refs.len()
            invariant
                k <= self.refs.len(),
                old_refs == self.refs(),
                forall|j: int|
                    0 <= j < k ==> !((#[trigger] old_refs[j]).0 == ns@ && old_refs[j].1 == ty@
                        && old_refs[j].2 == obj),
                found ==> k < self.refs.len() && old_refs[k as int].0 == ns@ && old_refs[k as int].1 == ty@
                    && old_refs[k as int].2 == obj,
            ensures
                !found ==> k == self.refs.len(),
                k <= self.refs.len(),
                old_refs == self.refs(),
                forall|j: int|
                    0 <= j < k ==> !((#[trigger] old_refs[j]).0 == ns@ && old_refs[j].1 == ty@
                        && old_refs[j].2 == obj),
                found ==> k < self.refs.len() && old_refs[k as int].0 == ns@ && old_refs[k as int].1 == ty@
                    && old_refs[k as int].2 == obj,
            decreases self.refs.len() - k + if found { 0int } else { 1int },
        {
            let r = &self.refs[k];
            assert(old_refs[k as int] == r@);
            if r.object == obj && r.typename == *ty && bytes_eq(&r.namespace, ns) {
                found = true;
                break;
            }
            k = k + 1;
        }
        assert(old_refs == old(self).refs());
        assert(new_ref@ == (ns@, ty@, obj, change));
        if found {
            self.refs.set(k, new_ref);
            assert(self.refs() =~= old_refs.update(k as int, (ns@, ty@, obj, change)));
            assert(old_refs[k as int].0 == ns@);
        } else {
            self.refs.push(new_ref);
            assert(k == old_refs.len());
            assert(self.refs() =~= old_refs.push((ns@, ty@, obj, change)));
        }
    }

    /// The distinct objects of kind `ty`, in the order their first ref appears.
    pub fn object_ids(&self, ty: &String) -> (r: Vec<u64>)
        ensures
            r@ == object_ids(self.refs(), ty@),
    {
        let mut r: Vec<u64> = Vec::new();
        let mut k: usize = 0;
        while k < self.refs.len()
            invariant
                k <= self.refs.len(),
                r@ == object_ids_upto(self.refs(), ty@, k as nat),
            decreases self.refs.len() - k,
        {
            let x = &self.refs[k];
            assert(self.refs()[k as int] == x@);
            if x.typename == *ty && !contains_id(&r, x.object) {
                r.push(x.object);
            }
            k = k + 1;
        }
        r
    }
}

/// A ref: namespace, kind, object and the change it points at.
pub type RefView = (Seq<u8>, Seq<char>, u64, u64);

/// Why the backing store failed.
#[derive(Debug, Clone, Copy, PartialEq, Eq, Structural)]
pub enum BackendError {
    /// Refs could not be read or written.
    Refs,
}

/// The backing store of collaborative objects: it enumerates the refs that
/// witness an object, loads its changes, creates changes and publishes refs.
pub trait BackingStore: Sized {
    /// The stored changes, in store order.
    spec fn stored(&self) -> Seq<StoredView>;

    /// The refs.
    spec fn ref_list(&self) -> Seq<RefView>;

    /// The id the next created change gets.
    spec fn next(&self) -> u64;

    /// The identity the objects belong to.
    spec fn owner(&self) -> Option<(u64, Seq<Seq<u8>>)>;

    /// Change ids are unique, and below `next`.
    spec fn valid(&self) -> bool;

    /// Whether reading or writing refs can fail.
    spec fn fallible(&self) -> bool;

    /// In a valid store, every stored change's id and object id is below `next`.
    proof fn lemma_valid(&self)
        requires
            self.valid(),
        ensures
            forall|i: int|
                0 <= i < self.stored().len() ==> (#[trigger] self.stored()[i]).0.id < self.next()
                    && self.stored()[i].2 < self.next(),
    ;

    /// Whether a ref witnesses object `obj` of kind `ty`, or why the refs
    /// could not be read.
    fn objects(&self, ty: &String, obj: u64) -> (r: Result<bool, BackendError>)
        ensures
            r matches Ok(b) ==> b == has_object(self.ref_list(), ty@, obj),
            !self.fallible() ==> r is Ok,
    ;

    /// Copies of the changes of object `obj` of kind `ty`, in store order.
    fn load(&self, ty: &String, obj: u64) -> (r: Vec<Change>)
        requires
            self.valid(),
        ensures
            changes_view(r@) == object_changes(self.stored(), ty@, obj),
            unique_ids(changes_view(r@)),
    ;

    /// Store a new change of object `obj`, or of a new object named by the
    /// change's own id when `obj` is `None`; `None` when ids have run out.
    fn create(
        &mut self,
        ty: &String,
        obj: Option<u64>,
        parents: Vec<u64>,
        author: &Vec<u8>,
        resource: u64,
        contents: &Vec<Vec<u8>>,
        message: &str,
        history_type: &String,
        timestamp: u64,
    ) -> (r: Option<Change>)
        requires
            old(self).valid(),
        ensures
            final(self).valid(),
            final(self).ref_list() == old(self).ref_list(),
            final(self).owner() == old(self).owner(),
            r is None <==> old(self).next() == u64::MAX || (obj matches Some(o) && o >= old(self).next()),
            r is None ==> *final(self) == *old(self),
            r is Some ==> final(self).next() == old(self).next() + 1,
            final(self).fallible() == old(self).fallible(),
            r matches Some(c) ==> {
                &&& c@ == (ChangeView {
                    id: old(self).next(),
                    parents: parents@,
                    author: author@,
                    resource,
                    contents: items_view(contents@),
                    timestamp,
                })
                &&& final(self).stored() == old(self).stored().push(
                    (c@, ty@, match obj {
                        Some(o) => o,
                        None => c.id,
                    }, message@, history_type@),
                )
            },
    ;

    /// Point the ref of `(ns, ty, obj)` at `change`; on failure nothing changes.
    fn update(&mut self, ns: &Vec<u8>, ty: &String, obj: u64, change: u64) -> (r: Result<(), BackendError>)
        requires
            old(self).valid(),
        ensures
            !old(self).fallible() ==> r is Ok,
            r is Err ==> *final(self) == *old(self),
            final(self).fallible() == old(self).fallible(),
            final(self).valid(),
            final(self).stored() == old(self).stored(),
            final(self).next() == old(self).next(),
            final(self).owner() == old(self).owner(),
            ref_set(old(self).ref_list(), final(self).ref_list(), ns@, ty@, obj, change),
    ;
}

impl BackingStore for Repository {
    open spec fn stored(&self) -> Seq<StoredView> {
        self.changes()
    }

    open spec fn ref_list(&self) -> Seq<RefView> {
        self.refs()
    }

    open spec fn next(&self) -> u64 {
        self.next_id()
    }

    open spec fn owner(&self) -> Option<(u64, Seq<Seq<u8>>)> {
        self.identity()
    }

    open spec fn valid(&self) -> bool {
        self.wf()
    }

    open spec fn fallible(&self) -> bool {
        false
    }

    proof fn lemma_valid(&self) {
        self.lemma_wf();
    }

    fn objects(&self, ty: &String, obj: u64) -> (r: Result<bool, BackendError>) {
        Ok(Repository::has_object(self, ty, obj))
    }

    fn load(&self, ty: &String, obj: u64) -> (r: Vec<Change>) {
        Repository::load(self, ty, obj)
    }

    fn create(
        &mut self,
        ty: &String,
        obj: Option<u64>,
        parents: Vec<u64>,
        author: &Vec<u8>,
        resource: u64,
        contents: &Vec<Vec<u8>>,
        message: &str,
        history_type: &String,
        timestamp: u64,
    ) -> (r: Option<Change>) {
        Repository::create(self, ty, obj, parents, author, resource, contents, message, history_type, timestamp)
    }

    fn update(&mut self, ns: &Vec<u8>, ty: &String, obj: u64, change: u64) -> (r: Result<(), BackendError>) {
        Repository::update(self, ns, ty, obj, change);
        Ok(())
    }
}

} // verus!
