use vstd::prelude::*;

use crate::clock::Physical;
use crate::history::{
    among, authorized, below, changes_view, depth_rule, entry_of, has_valid_root, lemma_single_tip,
    resolved_at, is_delegate, keep_rooted, lemma_root_first,
    lemma_rooted_props, rooted, valid_root, lists, next_depth, resolution, tips_of, ChangeView, History,
};
use crate::repository::{
    in_store, lemma_object_changes_from_store, lemma_object_named, lemma_object_unnamed, BackingStore, has_object, object_changes, object_ids, ref_set, Identity, Repository,
};
use crate::vecs::clone_bytes;
use crate::wire::items_view;

verus! {

/// Store error.
#[derive(Debug, PartialEq, Eq)]
pub enum Error {
    /// The store has no identity to publish under.
    Identity,
    /// No ref witnesses the object.
    NoSuchObject,
    /// The store has no change id left to hand out.
    IdsExhausted,
    /// The signer is not a delegate of the identity.
    Unauthorized,
    /// The backing store could not read or write refs.
    Refs,
    /// The object of the given type and id was not found.
    NotFound(String, u64),
    /// A history did not make an object of the expected type.
    Invalid,
}

/// A type that can be materialized from an event history.
/// All collaborative objects implement this trait.
pub trait FromHistory: Sized {
    /// The object type name.
    fn typename() -> String;

    /// Create an object from a history.
    fn from_history(history: &History) -> Result<Self, Error>;
}

/// The author of a change: its key.
#[derive(Debug)]
pub struct Author {
    pub id: Vec<u8>,
}

/// A collaborative object: its id, kind and evaluated history.
#[derive(Debug)]
pub struct CollaborativeObject {
    pub id: u64,
    pub typename: String,
    pub history: History,
}

impl CollaborativeObject {
    /// The ids of the changes that no other change supersedes.
    pub fn tips(&self) -> (r: Vec<u64>)
        ensures
            r@ == tips_of(self.history@),
    {
        self.history.tips()
    }
}

/// `es` is the evaluated history of the changes `cs` under `delegates`.
pub open spec fn evaluated(cs: Seq<ChangeView>, delegates: Seq<Seq<u8>>, es: Seq<(ChangeView, u64)>) -> bool {
    exists|ds: Seq<Option<u64>>| #[trigger] resolution(cs, delegates, ds) && lists(cs, ds, es)
}

/// The data required to update an object.
#[derive(Debug)]
pub struct Update {
    /// The type of history that will be used for this object.
    pub history_type: String,
    /// The CRDT changes to add to the object.
    pub changes: Vec<Vec<u8>>,
    /// The object ID of the object to be updated.
    pub object_id: u64,
    /// The typename of the object to be updated.
    pub typename: String,
    /// The message to add when updating this object.
    pub message: String,
}

/// Object `obj` of kind `ty` lives in `repo`: a ref witnesses it and its
/// changes hold a valid root.
pub open spec fn live<S: BackingStore>(repo: S, delegates: Seq<Seq<u8>>, ty: Seq<char>, obj: u64) -> bool {
    has_object(repo.ref_list(), ty, obj) && valid_root(object_changes(repo.stored(), ty, obj), delegates, obj)
}

/// The outcome `r` of updating object `obj` of kind `ty` from store `old` to
/// store `new`, authored by `signer` with `contents`, `message` and `history_type`.
pub open spec fn updated<S: BackingStore>(
    old: S,
    new: S,
    delegates: Seq<Seq<u8>>,
    resource: u64,
    ty: Seq<char>,
    obj: u64,
    signer: Seq<u8>,
    contents: Seq<Seq<u8>>,
    message: Seq<char>,
    history_type: Seq<char>,
    r: Result<CollaborativeObject, Error>,
) -> bool {
    let refs_failed = r == Err::<CollaborativeObject, Error>(Error::Refs);
    &&& new.valid()
    &&& new.owner() == old.owner()
    &&& new.fallible() == old.fallible()
    &&& !old.fallible() ==> !refs_failed
    &&& r is Err && !refs_failed ==> new == old
    &&& refs_failed ==> new.ref_list() == old.ref_list() && (new == old || (new.stored().len()
        == old.stored().len() + 1 && new.stored().drop_last() == old.stored() && new.stored().last().2
        == obj))
    &&& !live(old, delegates, ty, obj) ==> r == Err::<CollaborativeObject, Error>(Error::NoSuchObject)
        || refs_failed
    &&& live(old, delegates, ty, obj) && !authorized(delegates, signer) ==> r == Err::<
        CollaborativeObject,
        Error,
    >(Error::Unauthorized) || refs_failed
    &&& live(old, delegates, ty, obj) && authorized(delegates, signer) && old.next() == u64::MAX
        ==> r == Err::<CollaborativeObject, Error>(Error::IdsExhausted) || refs_failed
    &&& live(old, delegates, ty, obj) && authorized(delegates, signer) && old.next() < u64::MAX
        ==> r is Ok || refs_failed
    &&& r matches Ok(o) ==> {
        let es = o.history@;
        let prior = es.drop_last();
        let change = es.last();
        &&& o.id == obj
        &&& o.typename@ == ty
        &&& es.len() > 0
        &&& evaluated(rooted(object_changes(old.stored(), ty, obj), obj), delegates, prior)
        &&& prior.len() > 0 && prior[0].0.id == obj && prior[0].0.parents.len() == 0 && prior[0].1 == 0
        &&& change.0.id == old.next()
        &&& change.0.parents == tips_of(prior)
        &&& change.0.author == signer
        &&& change.0.resource == resource
        &&& change.0.contents == contents
        &&& change.1 == next_depth(prior)
        &&& tips_of(es) == seq![change.0.id]
        &&& new.stored() == old.stored().push((change.0, ty, obj, message, history_type))
        &&& new.next() == old.next() + 1
        &&& new.owner() == old.owner()
        &&& ref_set(old.ref_list(), new.ref_list(), signer, ty, obj, change.0.id)
    }
}

/// Issuing the same update twice stores two distinct changes with the same
/// contents, the second superseding the tips of the history it was made on.
pub proof fn lemma_update_twice<S: BackingStore>(
    r0: S,
    r1: S,
    r2: S,
    delegates: Seq<Seq<u8>>,
    resource: u64,
    ty: Seq<char>,
    obj: u64,
    signer: Seq<u8>,
    contents: Seq<Seq<u8>>,
    message: Seq<char>,
    history_type: Seq<char>,
    first: Result<CollaborativeObject, Error>,
    second: Result<CollaborativeObject, Error>,
)
    requires
        updated(r0, r1, delegates, resource, ty, obj, signer, contents, message, history_type, first),
        updated(r1, r2, delegates, resource, ty, obj, signer, contents, message, history_type, second),
        first is Ok,
        second is Ok,
    ensures
        first->Ok_0.history@.last().0.id != second->Ok_0.history@.last().0.id,
        first->Ok_0.history@.last().0.contents == second->Ok_0.history@.last().0.contents,
        r2.stored() == r0.stored().push(
            (first->Ok_0.history@.last().0, ty, obj, message, history_type),
        ).push((second->Ok_0.history@.last().0, ty, obj, message, history_type)),
        second->Ok_0.history@.last().0.parents == tips_of(second->Ok_0.history@.drop_last()),
{
    assert(r1.next() == r0.next() + 1);
}

/// When every change has an id below `next`, so do the entries of its
/// history and their parents.
proof fn lemma_history_below(
    cv: Seq<ChangeView>,
    dv: Seq<Seq<u8>>,
    ds: Seq<Option<u64>>,
    es: Seq<(ChangeView, u64)>,
    next: u64,
)
    requires
        forall|x: int| 0 <= x < cv.len() ==> (#[trigger] cv[x]).id < next,
        resolution(cv, dv, ds),
        lists(cv, ds, es),
    ensures
        forall|j: int| 0 <= j < es.len() ==> (#[trigger] es[j]).0.id != next,
        forall|j: int| 0 <= j < es.len() ==> !(#[trigger] es[j]).0.parents.contains(next),
{
    assert forall|j: int| 0 <= j < es.len() implies (#[trigger] es[j]).0.id != next
        && !es[j].0.parents.contains(next) by {
        assert(entry_of(cv, ds, 0, es[j]));
        let i = choose|i: int| 0 <= i < cv.len() && (#[trigger] ds[i]) is Some && es[j] == (cv[i], ds[i]->0);
        assert(depth_rule(cv, ds, i, ds[i]->0));
        if cv[i].parents.contains(next) {
            let q = choose|q: int| 0 <= q < cv[i].parents.len() && cv[i].parents[q] == next;
            assert(below(cv, ds, cv[i].parents[q], ds[i]->0));
            let k = choose|k: int| #[trigger] resolved_at(cv, ds, cv[i].parents[q], k) && ds[k]->0 < ds[i]->0;
            assert(cv[k].id < next);
        }
    }
}

/// Update an existing collaborative object in `storage`: load and evaluate
/// its changes, store a change that supersedes the history's tips, authored
/// by `signer` for the identity `resource`, and point the signer's ref at it.
#[verifier::rlimit(40)]
pub fn update<S: BackingStore>(storage: &mut S, signer: &Vec<u8>, resource: &Identity, args: Update) -> (r:
    Result<CollaborativeObject, Error>)
    requires
        old(storage).valid(),
    ensures
        updated(
            *old(storage),
            *final(storage),
            items_view(resource.delegates@),
            resource.resource,
            args.typename@,
            args.object_id,
            signer@,
            items_view(args.changes@),
            args.message@,
            args.history_type@,
            r,
        ),
{
    let Update { history_type, changes, object_id, typename, message } = args;
    match storage.objects(&typename, object_id) {
        Err(_) => return Err(Error::Refs),
        Ok(false) => return Err(Error::NoSuchObject),
        Ok(true) => {},
    }
    let loaded = storage.load(&typename, object_id);
    if !has_valid_root(&loaded, &resource.delegates, object_id) {
        return Err(Error::NoSuchObject);
    }
    if !is_delegate(&resource.delegates, signer) {
        return Err(Error::Unauthorized);
    }
    let ghost dv = items_view(resource.delegates@);
    let ghost full = changes_view(loaded@);
    proof {
        lemma_rooted_props(changes_view(loaded@), dv, object_id, loaded@.len());
        storage.lemma_valid();
        lemma_object_named(storage.stored(), typename@, object_id, storage.stored().len());
    }
    let loaded = keep_rooted(loaded, object_id);
    let n = loaded.len();
    let ghost cv = changes_view(loaded@);
    let mut history = History::evaluate(loaded, &resource.delegates);
    let ghost prior = history@;
    proof {
        let ds = choose|ds: Seq<Option<u64>>| #[trigger] resolution(cv, dv, ds) && lists(cv, ds, prior);
        lemma_root_first(cv, dv, object_id, ds, prior);
        let st = storage.stored();
        lemma_object_changes_from_store(st, typename@, object_id, st.len());
        assert forall|x: int| 0 <= x < cv.len() implies (#[trigger] cv[x]).id < storage.next() by {
            assert(among(full, full.len(), cv[x]));
            let i = choose|i: int| 0 <= i < full.len() && #[trigger] full[i] == cv[x];
            assert(in_store(st, st.len(), full[i]));
            let k = choose|k: int| 0 <= k < st.len() && (#[trigger] st[k]).0 == full[i];
        }
        lemma_history_below(cv, dv, ds, prior, storage.next());
    }
    let tips = history.tips();
    let now = Physical::now().as_secs();
    let change = match storage.create(
        &typename,
        Some(object_id),
        tips,
        signer,
        resource.resource,
        &changes,
        message.as_str(),
        &history_type,
        now,
    ) {
        Some(c) => c,
        None => return Err(Error::IdsExhausted),
    };
    let id = change.id;
    proof {
        if prior.len() > 0 {
            assert(prior[prior.len() - 1].1 < n);
        }
    }
    let ghost cview = change@;
    history.extend(change);
    let ghost created = storage.stored();
    proof {
        assert(created.drop_last() =~= old(storage).stored());
        assert(created.last().2 == object_id);
    }
    match storage.update(signer, &typename, object_id, id) {
        Err(_) => return Err(Error::Refs),
        Ok(()) => {},
    }
    let obj = CollaborativeObject { id: object_id, typename, history };
    assert(obj.history@.drop_last() =~= prior);
    proof {
        lemma_single_tip(prior, (cview, next_depth(prior) as u64));
    }
    Ok(obj)
}

/// Storage for collaborative objects of a specific type `T` in a single project.
pub struct Store<T> {
    whoami: Vec<u8>,
    project: Identity,
    typename: String,
    raw: Repository,
    witness: core::marker::PhantomData<T>,
}

impl<T> Store<T> {
    pub closed spec fn whoami(&self) -> Seq<u8> {
        self.whoami@
    }

    pub closed spec fn typename(&self) -> Seq<char> {
        self.typename@
    }

    pub closed spec fn repo(&self) -> Repository {
        self.raw
    }

    pub closed spec fn resource(&self) -> u64 {
        self.project.resource
    }

    pub closed spec fn delegates(&self) -> Seq<Seq<u8>> {
        items_view(self.project.delegates@)
    }

    /// The backing store is well formed and holds the project's identity.
    pub closed spec fn wf(&self) -> bool {
        &&& self.raw.wf()
        &&& self.raw.identity() == Some((self.project.resource, items_view(self.project.delegates@)))
    }

    /// The changes of object `id` in the backing store.
    pub open spec fn changes_of(&self, id: u64) -> Seq<ChangeView> {
        object_changes(self.repo().changes(), self.typename(), id)
    }

    /// Get this store's author.
    pub fn author(&self) -> (r: Author)
        ensures
            r.id@ == self.whoami(),
    {
        Author { id: clone_bytes(&self.whoami) }
    }

    /// Get the public key associated with this store.
    pub fn public_key(&self) -> (r: &Vec<u8>)
        ensures
            r@ == self.whoami(),
    {
        &self.whoami
    }

    /// The backing store.
    pub fn repository(&self) -> (r: &Repository)
        ensures
            *r == self.repo(),
    {
        &self.raw
    }
}

impl<T: FromHistory> Store<T> {
    /// Open a store over `store` for the key `whoami`. Fails when the backing
    /// store has no identity.
    pub fn open(whoami: Vec<u8>, store: Repository) -> (r: Result<Store<T>, Error>)
        requires
            store.wf(),
        ensures
            store.identity() is None ==> r == Err::<Store<T>, Error>(Error::Identity),
            store.identity() is Some ==> r is Ok,
            r matches Ok(s) ==> s.wf() && s.whoami() == whoami@ && s.repo() == store && Some(
                (s.resource(), s.delegates()),
            ) == store.identity(),
    {
        match store.identity_copy() {
            None => Err(Error::Identity),
            Some(project) => {
                let typename = T::typename();
                Ok(Store { whoami, project, typename, raw: store, witness: core::marker::PhantomData })
            },
        }
    }

    /// Update an object: evaluate its history, add a change that supersedes
    /// the history's tips, and point the signer's ref at it.
    pub fn update(
        &mut self,
        object_id: u64,
        message: &str,
        changes: Vec<Vec<u8>>,
        signer: &Vec<u8>,
    ) -> (r: Result<CollaborativeObject, Error>)
        requires
            old(self).wf(),
        ensures
            final(self).wf(),
            final(self).whoami() == old(self).whoami(),
            final(self).typename() == old(self).typename(),
            final(self).resource() == old(self).resource(),
            final(self).delegates() == old(self).delegates(),
            updated(
                old(self).repo(),
                final(self).repo(),
                old(self).delegates(),
                old(self).resource(),
                old(self).typename(),
                object_id,
                signer@,
                items_view(changes@),
                message@,
                Seq::<char>::empty(),
                r,
            ),
    {
        let args = Update {
            history_type: String::new(),
            changes,
            object_id,
            typename: self.typename.clone(),
            message: message.to_owned(),
        };
        update(&mut self.raw, signer, &self.project, args)
    }

    /// Create an object: its root change has no parents, and its id is the
    /// object's id. The history type is the default, the empty string.
    pub fn create(&mut self, message: &str, contents: Vec<Vec<u8>>, signer: &Vec<u8>) -> (r: Result<
        CollaborativeObject,
        Error,
    >)
        requires
            old(self).wf(),
        ensures
            final(self).wf(),
            final(self).whoami() == old(self).whoami(),
            final(self).typename() == old(self).typename(),
            final(self).resource() == old(self).resource(),
            final(self).delegates() == old(self).delegates(),
            r is Err ==> final(self).repo() == old(self).repo(),
            !authorized(old(self).delegates(), signer@) ==> r == Err::<CollaborativeObject, Error>(
                Error::Unauthorized,
            ),
            authorized(old(self).delegates(), signer@) && old(self).repo().next_id() == u64::MAX ==> r
                == Err::<CollaborativeObject, Error>(Error::IdsExhausted),
            authorized(old(self).delegates(), signer@) && old(self).repo().next_id() < u64::MAX ==> r is Ok,
            r matches Ok(obj) ==> {
                let root = obj.history@[0].0;
                &&& obj.id == old(self).repo().next_id()
                &&& obj.typename@ == old(self).typename()
                &&& obj.history@.len() == 1
                &&& obj.history@[0].1 == 0
                &&& root.id == obj.id
                &&& root.parents.len() == 0
                &&& root.author == signer@
                &&& root.resource == old(self).resource()
                &&& root.contents == items_view(contents@)
                &&& final(self).repo().changes() == old(self).repo().changes().push(
                    (root, old(self).typename(), obj.id, message@, Seq::<char>::empty()),
                )
                &&& final(self).changes_of(obj.id) == seq![root]
                &&& live(final(self).repo(), final(self).delegates(), final(self).typename(), obj.id)
                &&& ref_set(
                    old(self).repo().refs(),
                    final(self).repo().refs(),
                    signer@,
                    old(self).typename(),
                    obj.id,
                    obj.id,
                )
            },
    {
        if !is_delegate(&self.project.delegates, signer) {
            return Err(Error::Unauthorized);
        }
        let now = Physical::now().as_secs();
        let history_type = String::new();
        let change = match self.raw.create(
            &self.typename,
            None,
            Vec::new(),
            signer,
            self.project.resource,
            &contents,
            message,
            &history_type,
            now,
        ) {
            Some(c) => c,
            None => return Err(Error::IdsExhausted),
        };
        let id = change.id;
        let ghost root = change@;
        let ghost ty = self.typename@;
        let mut history = History::new();
        history.extend(change);
        self.raw.update(signer, &self.typename, id, id);
        proof {
            let old_cs = old(self).raw.changes();
            let cs = self.raw.changes();
            old(self).raw.lemma_wf();
            assert forall|i: int| 0 <= i < old_cs.len() implies (#[trigger] cs[i]).2 != id by {
                assert(cs[i] == old_cs[i]);
            }
            lemma_object_unnamed(cs, ty, id, old_cs.len());
            assert(cs[old_cs.len() as int] == (root, ty, id, message@, Seq::<char>::empty()));
            assert(object_changes(cs, ty, id) =~= seq![root]);
            assert(valid_root(seq![root], self.delegates(), id)) by {
                assert(seq![root][0] == root);
            }
            let refs = self.raw.refs();
            let old_refs = old(self).raw.refs();
            if exists|k: int|
                0 <= k < old_refs.len() && (#[trigger] old_refs[k]).0 == signer@ && old_refs[k].1 == ty
                    && old_refs[k].2 == id && refs == old_refs.update(k, (signer@, ty, id, id)) {
                let k = choose|k: int|
                    0 <= k < old_refs.len() && (#[trigger] old_refs[k]).0 == signer@ && old_refs[k].1 == ty
                        && old_refs[k].2 == id && refs == old_refs.update(k, (signer@, ty, id, id));
                assert(refs[k].1 == ty && refs[k].2 == id);
            } else {
                assert(refs[old_refs.len() as int].1 == ty);
            }
        }
        Ok(CollaborativeObject { id, typename: self.typename.clone(), history })
    }

    /// The evaluated history of object `id`, or `None` when the object does
    /// not live in the store.
    pub fn history(&self, id: u64) -> (r: Option<History>)
        requires
            self.wf(),
        ensures
            r is None <==> !live(self.repo(), self.delegates(), self.typename(), id),
            r matches Some(h) ==> h.wf() && evaluated(rooted(self.changes_of(id), id), self.delegates(), h@)
                && h@.len() > 0 && h@[0].0.id == id && h@[0].0.parents.len() == 0,
    {
        if !self.raw.has_object(&self.typename, id) {
            return None;
        }
        let loaded = self.raw.load(&self.typename, id);
        if !has_valid_root(&loaded, &self.project.delegates, id) {
            return None;
        }
        let ghost dv = items_view(self.project.delegates@);
        proof {
            lemma_rooted_props(changes_view(loaded@), dv, id, loaded@.len());
        }
        let loaded = keep_rooted(loaded, id);
        let ghost cv = changes_view(loaded@);
        let h = History::evaluate(loaded, &self.project.delegates);
        proof {
            let ds = choose|ds: Seq<Option<u64>>| #[trigger] resolution(cv, dv, ds) && lists(cv, ds, h@);
            lemma_root_first(cv, dv, id, ds, h@);
        }
        Some(h)
    }

    /// Get an object: `None` when it does not live in the store, else what
    /// `T` makes of its evaluated history (the one `history` gives).
    pub fn get(&self, id: u64) -> (r: Result<Option<T>, Error>)
        requires
            self.wf(),
        ensures
            !live(self.repo(), self.delegates(), self.typename(), id) <==> r matches Ok(None),
            r is Err ==> live(self.repo(), self.delegates(), self.typename(), id),
    {
        match self.history(id) {
            None => Ok(None),
            Some(h) => match T::from_history(&h) {
                Ok(obj) => Ok(Some(obj)),
                Err(e) => Err(e),
            },
        }
    }

    /// The ids among the first `n` of `ids` whose objects live in the store,
    /// in order.
    pub open spec fn live_upto(&self, ids: Seq<u64>, n: nat) -> Seq<u64>
        decreases n,
    {
        if n == 0 {
            seq![]
        } else if live(self.repo(), self.delegates(), self.typename(), ids[n - 1]) {
            self.live_upto(ids, (n - 1) as nat).push(ids[n - 1])
        } else {
            self.live_upto(ids, (n - 1) as nat)
        }
    }

    proof fn lemma_live_grows(&self, ids: Seq<u64>, m: nat, n: nat)
        requires
            m <= n,
        ensures
            self.live_upto(ids, m).len() <= self.live_upto(ids, n).len(),
        decreases n,
    {
        if m < n {
            self.lemma_live_grows(ids, m, (n - 1) as nat);
        }
    }

    /// The objects of this store's type that live in it, each once, in the
    /// order their first ref appears.
    pub open spec fn live_ids(&self) -> Seq<u64> {
        let ids = object_ids(self.repo().refs(), self.typename());
        self.live_upto(ids, ids.len())
    }

    /// List the objects of this store's type that live in it, each once, in
    /// the order their first ref appears. Each is what `T` makes of the
    /// history that `history` gives for its id.
    pub fn list(&self) -> (r: Result<Vec<(u64, T)>, Error>)
        requires
            self.wf(),
        ensures
            self.live_ids().len() == 0 ==> (r matches Ok(v) && v@.len() == 0),
            r matches Ok(v) ==> v@.len() == self.live_ids().len() && forall|i: int|
                0 <= i < v@.len() ==> (#[trigger] v@[i]).0 == self.live_ids()[i],
    {
        let ids = self.raw.object_ids(&self.typename);
        let mut out: Vec<(u64, T)> = Vec::new();
        let mut i: usize = 0;
        while i < ids.len()
            invariant
                self.wf(),
                i <= ids.len(),
                ids@ == object_ids(self.repo().refs(), self.typename()),
                out@.len() == self.live_upto(ids@, i as nat).len(),
                forall|j: int| 0 <= j < out@.len() ==> (#[trigger] out@[j]).0 == self.live_upto(ids@, i as nat)[j],
                self.live_upto(ids@, i as nat).len() == 0 ==> out@.len() == 0,
            decreases ids.len() - i,
        {
            let id = ids[i];
            match self.history(id) {
                None => {},
                Some(h) => match T::from_history(&h) {
                    Ok(obj) => out.push((id, obj)),
                    Err(e) => {
                        proof {
                            self.lemma_live_grows(ids@, (i + 1) as nat, ids@.len());
                        }
                        return Err(e);
                    },
                },
            }
            i = i + 1;
        }
        Ok(out)
    }
}

} // verus!
