use radicle_core::history::History;
use radicle_core::repository::{Identity, Repository};
use radicle_core::store::{update, Error, FromHistory, Store, Update};

#[derive(Debug)]
struct Counter {
    entries: usize,
}

impl FromHistory for Counter {
    fn typename() -> String {
        "xyz.radicle.counter".to_string()
    }

    fn from_history(history: &History) -> Result<Self, Error> {
        Ok(Counter { entries: history.len() })
    }
}

fn repo() -> Repository {
    Repository::new(Some(Identity { resource: 77, delegates: vec![b"alice".to_vec(), b"bob".to_vec()] }))
}

#[test]
fn open_needs_identity() {
    assert!(matches!(Store::<Counter>::open(b"alice".to_vec(), Repository::new(None)), Err(Error::Identity)));
    let s = Store::<Counter>::open(b"alice".to_vec(), repo()).unwrap();
    assert_eq!(s.public_key(), &b"alice".to_vec());
    assert_eq!(s.author().id, b"alice".to_vec());
}

#[test]
fn create_then_update() {
    let alice = b"alice".to_vec();
    let mut s = Store::<Counter>::open(alice.clone(), repo()).unwrap();
    let obj = s.create("create", vec![b"title".to_vec()], &alice).unwrap();
    assert_eq!(obj.id, 1);
    assert_eq!(obj.typename, "xyz.radicle.counter");
    assert_eq!(obj.history.len(), 1);
    assert_eq!(obj.tips(), vec![1]);

    let obj = s.update(1, "comment", vec![b"hello".to_vec()], &b"bob".to_vec()).unwrap();
    assert_eq!(obj.id, 1);
    assert_eq!(obj.history.len(), 2);
    let last = obj.history.get(1);
    assert_eq!(last.change.id, 2);
    assert_eq!(last.change.parents, vec![1]);
    assert_eq!(last.change.author, b"bob".to_vec());
    assert_eq!(last.change.resource, 77);
    assert_eq!(last.change.contents, vec![b"hello".to_vec()]);
    assert_eq!(last.depth, 1);
    assert_eq!(obj.tips(), vec![2]);

    assert_eq!(s.get(1).unwrap().unwrap().entries, 2);
    assert!(s.get(5).unwrap().is_none());
}

#[test]
fn update_twice_with_same_contents() {
    let alice = b"alice".to_vec();
    let mut s = Store::<Counter>::open(alice.clone(), repo()).unwrap();
    s.create("create", vec![], &alice).unwrap();
    let a = s.update(1, "edit", vec![b"same".to_vec()], &alice).unwrap();
    let b = s.update(1, "edit", vec![b"same".to_vec()], &alice).unwrap();
    assert_eq!(a.history.get(1).change.id, 2);
    assert_eq!(b.history.get(2).change.id, 3);
    assert_eq!(b.history.get(2).change.parents, vec![2]);
    assert_eq!(b.history.len(), 3);
    assert_eq!(b.tips(), vec![3]);
    assert_eq!(s.get(1).unwrap().unwrap().entries, 3);
}

#[test]
fn update_of_missing_object() {
    let alice = b"alice".to_vec();
    let mut s = Store::<Counter>::open(alice.clone(), repo()).unwrap();
    assert!(matches!(s.update(3, "x", vec![], &alice), Err(Error::NoSuchObject)));
}

#[test]
fn unauthorized_signer_is_refused() {
    let alice = b"alice".to_vec();
    let eve = b"eve".to_vec();
    let mut s = Store::<Counter>::open(alice.clone(), repo()).unwrap();
    assert!(matches!(s.create("create", vec![], &eve), Err(Error::Unauthorized)));
    s.create("create", vec![], &alice).unwrap();
    assert!(matches!(s.update(1, "spam", vec![b"x".to_vec()], &eve), Err(Error::Unauthorized)));
    let obj = s.update(1, "edit", vec![b"y".to_vec()], &alice).unwrap();
    assert_eq!(obj.history.len(), 2);
    assert_eq!(obj.history.get(1).change.id, 2);
    assert_eq!(obj.history.get(1).change.parents, vec![1]);
}

#[test]
fn dangling_ref_is_no_object() {
    let alice = b"alice".to_vec();
    let ty = "xyz.radicle.counter".to_string();
    let mut raw = repo();
    raw.update(&alice, &ty, 9, 9);
    let identity = Identity { resource: 77, delegates: vec![alice.clone()] };
    let args = Update {
        history_type: String::new(),
        changes: vec![],
        object_id: 9,
        typename: ty.clone(),
        message: "m".to_string(),
    };
    assert!(matches!(update(&mut raw, &alice, &identity, args), Err(Error::NoSuchObject)));
    let mut s = Store::<Counter>::open(alice.clone(), raw).unwrap();
    assert!(s.get(9).unwrap().is_none());
    assert!(s.history(9).is_none());
    assert!(matches!(s.update(9, "x", vec![], &alice), Err(Error::NoSuchObject)));
}

#[test]
fn created_object_reads_back() {
    let alice = b"alice".to_vec();
    let mut s = Store::<Counter>::open(alice.clone(), repo()).unwrap();
    let obj = s.create("create", vec![b"c".to_vec()], &alice).unwrap();
    let h = s.history(obj.id).unwrap();
    assert_eq!(h.len(), 1);
    assert_eq!(h.get(0).change.contents, vec![b"c".to_vec()]);
    assert_eq!(s.get(obj.id).unwrap().unwrap().entries, 1);
    assert!(s.list().unwrap().len() == 1);
}

#[test]
fn empty_store_lists_nothing() {
    let s = Store::<Counter>::open(b"alice".to_vec(), repo()).unwrap();
    assert!(s.list().unwrap().is_empty());
}

#[test]
fn list_objects_once_each() {
    let alice = b"alice".to_vec();
    let bob = b"bob".to_vec();
    let mut s = Store::<Counter>::open(alice.clone(), repo()).unwrap();
    s.create("one", vec![], &alice).unwrap();
    s.create("two", vec![], &bob).unwrap();
    s.update(1, "edit", vec![], &bob).unwrap();
    let listed = s.list().unwrap();
    let ids: Vec<u64> = listed.iter().map(|(id, _)| *id).collect();
    assert_eq!(ids, vec![1, 2]);
    assert_eq!(listed[0].1.entries, 2);
    assert_eq!(listed[1].1.entries, 1);
}

#[test]
fn free_update_function() {
    let alice = b"alice".to_vec();
    let identity = Identity { resource: 5, delegates: vec![alice.clone()] };
    let mut raw = Repository::new(Some(Identity { resource: 5, delegates: vec![alice.clone()] }));
    let args = Update {
        history_type: String::new(),
        changes: vec![],
        object_id: 1,
        typename: "t".to_string(),
        message: "m".to_string(),
    };
    assert!(matches!(update(&mut raw, &alice, &identity, args), Err(Error::NoSuchObject)));
    let id = raw
        .create(&"t".to_string(), None, vec![], &alice, 5, &vec![], "root", &String::new(), 1)
        .unwrap()
        .id;
    raw.update(&alice, &"t".to_string(), id, id);
    let args = Update {
        history_type: String::new(),
        changes: vec![vec![1]],
        object_id: id,
        typename: "t".to_string(),
        message: "m".to_string(),
    };
    let obj = update(&mut raw, &alice, &identity, args).unwrap();
    assert_eq!(obj.history.len(), 2);
    assert_eq!(obj.history.get(1).change.resource, 5);
    assert_eq!(raw.object_ids(&"t".to_string()), vec![id]);
}

#[test]
fn second_root_is_ignored() {
    let alice = b"alice".to_vec();
    let ty = "xyz.radicle.counter".to_string();
    let mut raw = repo();
    let root = raw.create(&ty, None, vec![], &alice, 77, &vec![], "root", &String::new(), 5).unwrap().id;
    raw.update(&alice, &ty, root, root);
    // a parentless change filed under the same object, older than the root
    raw.create(&ty, Some(root), vec![], &alice, 77, &vec![], "stray", &String::new(), 1).unwrap();
    let s = Store::<Counter>::open(alice.clone(), raw).unwrap();
    let h = s.history(root).unwrap();
    assert_eq!(h.len(), 1);
    assert_eq!(h.get(0).change.id, root);
}

#[test]
fn list_skips_objects_without_root() {
    let alice = b"alice".to_vec();
    let ty = "xyz.radicle.counter".to_string();
    let mut raw = repo();
    raw.update(&alice, &ty, 9, 9);
    let mut s = Store::<Counter>::open(alice.clone(), raw).unwrap();
    assert!(s.list().unwrap().is_empty());
    s.create("one", vec![], &alice).unwrap();
    let ids: Vec<u64> = s.list().unwrap().iter().map(|(id, _)| *id).collect();
    assert_eq!(ids, vec![1]);
}

#[test]
fn update_leaves_one_tip() {
    let alice = b"alice".to_vec();
    let ty = "xyz.radicle.counter".to_string();
    let mut raw = repo();
    let root = raw.create(&ty, None, vec![], &alice, 77, &vec![], "root", &String::new(), 1).unwrap().id;
    raw.update(&alice, &ty, root, root);
    let a = raw.create(&ty, Some(root), vec![root], &alice, 77, &vec![], "a", &String::new(), 2).unwrap().id;
    let b = raw.create(&ty, Some(root), vec![root], &alice, 77, &vec![], "b", &String::new(), 2).unwrap().id;
    let mut s = Store::<Counter>::open(alice.clone(), raw).unwrap();
    let obj = s.update(root, "merge", vec![b"m".to_vec()], &alice).unwrap();
    let last = obj.history.get(obj.history.len() - 1);
    assert_eq!(last.change.parents, vec![a, b]);
    assert_eq!(obj.tips(), vec![last.change.id]);
    assert_eq!(obj.history.len(), 4);
}

#[test]
fn change_for_unknown_object_is_refused() {
    let alice = b"alice".to_vec();
    let mut raw = repo();
    assert!(raw.create(&"t".to_string(), Some(5), vec![], &alice, 77, &vec![], "x", &String::new(), 1).is_none());
}
