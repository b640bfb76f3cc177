use radicle_core::history::{Change, History};

fn change(id: u64, parents: Vec<u64>, author: &[u8], timestamp: u64) -> Change {
    Change {
        id,
        parents,
        author: author.to_vec(),
        resource: 77,
        contents: vec![vec![id as u8]],
        timestamp,
    }
}

fn ids(h: &History) -> Vec<(u64, u64)> {
    (0..h.len()).map(|i| (h.get(i).change.id, h.get(i).depth)).collect()
}

const ALICE: &[u8] = b"alice";
const BOB: &[u8] = b"bob";
const EVE: &[u8] = b"eve";

fn delegates() -> Vec<Vec<u8>> {
    vec![ALICE.to_vec(), BOB.to_vec()]
}

#[test]
fn concurrent_updates_order_by_id() {
    let cs = vec![change(5, vec![1], BOB, 20), change(1, vec![], ALICE, 10), change(3, vec![1], ALICE, 20)];
    let h = History::evaluate(cs, &delegates());
    assert_eq!(ids(&h), vec![(1, 0), (3, 1), (5, 1)]);
    assert_eq!(h.tips(), vec![3, 5]);
}

#[test]
fn timestamp_breaks_depth_ties() {
    let cs = vec![change(2, vec![1], BOB, 30), change(1, vec![], ALICE, 10), change(9, vec![1], ALICE, 20)];
    let h = History::evaluate(cs, &delegates());
    assert_eq!(ids(&h), vec![(1, 0), (9, 1), (2, 1)]);
}

#[test]
fn unauthorized_change_is_dropped() {
    let cs = vec![
        change(1, vec![], ALICE, 10),
        change(7, vec![1], EVE, 11),
        change(8, vec![7], ALICE, 12),
        change(4, vec![1], BOB, 13),
    ];
    let h = History::evaluate(cs, &delegates());
    assert_eq!(ids(&h), vec![(1, 0), (4, 1)]);
    assert_eq!(h.tips(), vec![4]);
}

#[test]
fn missing_parent_is_dropped() {
    let cs = vec![change(1, vec![], ALICE, 10), change(6, vec![1, 99], ALICE, 11)];
    let h = History::evaluate(cs, &delegates());
    assert_eq!(ids(&h), vec![(1, 0)]);
}

#[test]
fn depth_is_one_more_than_deepest_parent() {
    let cs = vec![
        change(9, vec![3, 5], ALICE, 1),
        change(5, vec![3], BOB, 1),
        change(3, vec![1], ALICE, 1),
        change(1, vec![], ALICE, 1),
        change(2, vec![1], ALICE, 1),
        change(10, vec![2, 9], BOB, 1),
    ];
    let h = History::evaluate(cs, &delegates());
    assert_eq!(ids(&h), vec![(1, 0), (2, 1), (3, 1), (5, 2), (9, 3), (10, 4)]);
    assert_eq!(h.tips(), vec![10]);
}

#[test]
fn evaluation_ignores_input_order() {
    let make = || {
        vec![
            change(1, vec![], ALICE, 10),
            change(4, vec![1], BOB, 12),
            change(3, vec![1], ALICE, 12),
            change(8, vec![3, 4], ALICE, 15),
            change(6, vec![1], EVE, 11),
        ]
    };
    let reference = ids(&History::evaluate(make(), &delegates()));
    let orders: Vec<Vec<usize>> = vec![vec![4, 3, 2, 1, 0], vec![2, 0, 4, 1, 3], vec![3, 1, 0, 4, 2]];
    for order in orders {
        let mut all: Vec<Option<Change>> = make().into_iter().map(Some).collect();
        let permuted: Vec<Change> = order.iter().map(|&i| all[i].take().unwrap()).collect();
        assert_eq!(ids(&History::evaluate(permuted, &delegates())), reference);
    }
    assert_eq!(reference, vec![(1, 0), (3, 1), (4, 1), (8, 2)]);
}

#[test]
fn identical_concurrent_contents_give_two_entries() {
    let mut a = change(11, vec![1], ALICE, 50);
    let mut b = change(12, vec![1], BOB, 50);
    a.contents = vec![b"same".to_vec()];
    b.contents = vec![b"same".to_vec()];
    let root = change(1, vec![], ALICE, 1);
    let h1 = History::evaluate(vec![root, a, b], &delegates());
    let mut a = change(11, vec![1], ALICE, 50);
    let mut b = change(12, vec![1], BOB, 50);
    a.contents = vec![b"same".to_vec()];
    b.contents = vec![b"same".to_vec()];
    let h2 = History::evaluate(vec![b, change(1, vec![], ALICE, 1), a], &delegates());
    assert_eq!(ids(&h1), vec![(1, 0), (11, 1), (12, 1)]);
    assert_eq!(ids(&h1), ids(&h2));
    assert_eq!(h1.tips(), vec![11, 12]);
}

#[test]
fn extend_appends_above_every_tip() {
    let mut h = History::evaluate(vec![change(1, vec![], ALICE, 1), change(2, vec![1], ALICE, 2)], &delegates());
    h.extend(change(3, vec![2], BOB, 3));
    assert_eq!(ids(&h), vec![(1, 0), (2, 1), (3, 2)]);
    let mut e = History::new();
    assert_eq!(e.len(), 0);
    assert!(e.tips().is_empty());
    e.extend(change(1, vec![], ALICE, 1));
    assert_eq!(ids(&e), vec![(1, 0)]);
}
