use cxl_os::cxl::hash_ring::{mix64, vnode_point, HashRing, VNODES};
use cxl_os::cxl::CxlCardId;

fn ring_with(cards: &[usize]) -> HashRing {
    let mut r = HashRing::new();
    for &c in cards {
        r.add_node(CxlCardId(c));
    }
    r
}

#[test]
fn empty_ring_routes_nowhere() {
    let r = HashRing::new();
    assert_eq!(r.node_count(), 0);
    assert!(r.route(42).is_none());
    assert!(r.route(0).is_none());
    assert!(r.route(u64::MAX).is_none());
}

#[test]
fn single_card_takes_every_key() {
    let r = ring_with(&[0]);
    assert_eq!(r.route(42), Some(&CxlCardId(0)));
    for key in 0..1000u64 {
        assert_eq!(r.route(key), Some(&CxlCardId(0)));
    }
}

#[test]
fn adding_a_card_twice_changes_nothing() {
    let mut r = ring_with(&[3]);
    let before: Vec<Option<CxlCardId>> = (0..500u64).map(|k| r.route(k).copied()).collect();
    r.add_node(CxlCardId(3));
    assert_eq!(r.node_count(), 1);
    let after: Vec<Option<CxlCardId>> = (0..500u64).map(|k| r.route(k).copied()).collect();
    assert_eq!(before, after);
}

#[test]
fn remove_missing_card_fails() {
    let mut r = ring_with(&[0, 1]);
    assert_eq!(r.remove_node(CxlCardId(99)), None);
    assert_eq!(r.node_count(), 2);
}

#[test]
fn double_remove_and_route_after_full_removal() {
    let mut r = ring_with(&[0]);
    assert_eq!(r.remove_node(CxlCardId(0)), Some(CxlCardId(0)));
    assert_eq!(r.remove_node(CxlCardId(0)), None);
    assert!(r.route(42).is_none());
    assert!(!r.contains_node(CxlCardId(0)));
}

#[test]
fn insert_remove_insert_cycle() {
    let mut r = HashRing::new();
    for c in 0..3usize {
        r.add_node(CxlCardId(c));
        assert!(r.contains_node(CxlCardId(c)));
        assert_eq!(r.remove_node(CxlCardId(c)), Some(CxlCardId(c)));
        r.add_node(CxlCardId(c));
        assert!(r.contains_node(CxlCardId(c)));
    }
    assert_eq!(r.node_count(), 3);
}

#[test]
fn routes_go_to_registered_cards_only() {
    let r = ring_with(&[1, 4, 6]);
    for key in 0..2000u64 {
        let c = r.route(key).copied().unwrap();
        assert!(c == CxlCardId(1) || c == CxlCardId(4) || c == CxlCardId(6));
    }
}

#[test]
fn removing_a_card_keeps_other_routes() {
    let mut r = ring_with(&[0, 1, 2, 3, 4, 5]);
    let before: Vec<CxlCardId> = (0..5000u64).map(|k| *r.route(k).unwrap()).collect();
    r.remove_node(CxlCardId(1));
    for k in 0..5000u64 {
        let now = *r.route(k).unwrap();
        assert_ne!(now, CxlCardId(1));
        if before[k as usize] != CxlCardId(1) {
            assert_eq!(now, before[k as usize]);
        }
    }
}

#[test]
fn adding_a_card_moves_keys_only_to_it() {
    let mut r = ring_with(&[0, 2, 3]);
    let before: Vec<CxlCardId> = (0..5000u64).map(|k| *r.route(k).unwrap()).collect();
    r.add_node(CxlCardId(5));
    let mut moved = 0;
    for k in 0..5000u64 {
        let now = *r.route(k).unwrap();
        if now != before[k as usize] {
            assert_eq!(now, CxlCardId(5));
            moved += 1;
        }
    }
    assert!(moved > 0);
}

#[test]
fn six_cards_share_keys_uniformly() {
    let r = ring_with(&[0, 1, 2, 3, 4, 5]);
    let mut counts = [0u64; 6];
    for key in 0..10000u64 {
        let c = r.route(key).unwrap().0;
        counts[c] += 1;
    }
    let expected = 10000.0f64 / 6.0;
    let mut chi2 = 0.0f64;
    for c in 0..6 {
        let got = counts[c] as f64;
        let dev = (got - expected).abs() / expected * 100.0;
        assert!(dev <= 20.0, "card {} deviation {}", c, dev);
        chi2 += (got - expected) * (got - expected) / expected;
    }
    assert!(chi2 < 16.0, "chi2 {}", chi2);
}

#[test]
fn mix64_known_values() {
    // splitmix64 finalizer of 0 + gamma.
    assert_eq!(mix64(0), 0xE220_A839_7B1D_CDAF);
    assert_ne!(mix64(1), mix64(2));
}

#[test]
fn vnode_points_differ_per_card_and_replica() {
    let a = vnode_point(CxlCardId(0), 0);
    let b = vnode_point(CxlCardId(0), 1);
    let c = vnode_point(CxlCardId(1), 0);
    assert_ne!(a, b);
    assert_ne!(a, c);
    assert_eq!(VNODES, 2048);
}

