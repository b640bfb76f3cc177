use radicle_core::clock::{Lamport, Max, Physical};

#[test]
fn lamport_merge_dominates_both() {
    let mut a = Lamport::from(5);
    let mut b = Lamport::from(3);
    assert_eq!(a.merge(b).get(), 6);
    assert_eq!(a.get(), 6);
    assert_eq!(b.merge(a).get(), 7);
    assert_eq!(b.get(), 7);
}

#[test]
fn lamport_tick_and_reset() {
    let mut a = Lamport::default();
    assert_eq!(a.get(), 0);
    assert_eq!(a.tick().get(), 1);
    assert_eq!(a.tick().get(), 2);
    a.reset();
    assert_eq!(a.get(), 0);
}

#[test]
fn lamport_bounds() {
    assert_eq!(Lamport::min_value().get(), 0);
    assert_eq!(Lamport::max_value().get(), u64::MAX);
}

#[test]
fn lamport_merge_commutes_on_values() {
    let mut a = Lamport::from(10);
    let mut b = Lamport::from(4);
    let ab = a.clone().merge(b).get();
    let ba = b.merge(a).get();
    assert_eq!(ab, ba);
    assert_eq!(ab, 11);
    a.reset();
    assert_eq!(a.get(), 0);
}

#[test]
fn max_laws_on_values() {
    let vals = [0u64, 3, 7, u64::MAX];
    for &x in &vals {
        for &y in &vals {
            let mut a = Max::new(x);
            a.merge(Max::new(y));
            let mut b = Max::new(y);
            b.merge(Max::new(x));
            assert_eq!(a.get(), b.get());
            assert_eq!(a.get(), x.max(y));
            for &z in &vals {
                let mut l = Max::new(x);
                l.merge(Max::new(y));
                l.merge(Max::new(z));
                let mut r = Max::new(y);
                r.merge(Max::new(z));
                let mut l2 = Max::new(x);
                l2.merge(r);
                assert_eq!(l.get(), l2.get());
            }
        }
        let mut a = Max::new(x);
        a.merge(Max::new(x));
        assert_eq!(a.get(), x);
    }
}

#[test]
fn max_incr() {
    let mut m = Max::new(41);
    assert_eq!(m.incr(), 42);
    assert_eq!(m.get(), 42);
}

#[test]
fn physical_clock() {
    let p = Physical::new(100);
    assert_eq!(p.as_secs(), 100);
    assert_eq!(p.add(20).as_secs(), 120);
    assert_eq!(Physical::from(7).as_secs(), 7);
    assert_eq!(Physical::min_value().as_secs(), 0);
    assert_eq!(Physical::max_value().as_secs(), u64::MAX);
    assert!(Physical::now().as_secs() > 1_600_000_000);
    assert!(Physical::new(1) < Physical::new(2));
}

#[test]
fn from_gives_the_value() {
    assert_eq!(Lamport::from(9).get(), 9);
    assert_eq!(Physical::from(12).as_secs(), 12);
}
