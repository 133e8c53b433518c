use permgroup::perm::Group;
use permgroup::perm::PermError;

#[test]
fn test_get_id() {
    let group: Group = Group::id();
    for i in -100..100 {
        assert_eq!(i, group.get(i));
    }
}

#[test]
fn test_get_small() {
    let pairs: Vec<(i64, i64)> = vec![(0, 1), (1, 3), (3, 2), (2, 0), (4, 5), (5, 4)];
    let group = Group::from_pairs(&pairs);
    assert_eq!(-1, group.get(-1));
    assert_eq!(1, group.get(0));
    assert_eq!(3, group.get(1));
    assert_eq!(0, group.get(2));
    assert_eq!(2, group.get(3));
    assert_eq!(5, group.get(4));
    assert_eq!(4, group.get(5));
    assert_eq!(10, group.get(10));
    assert_eq!(321, group.get(321));
}

#[test]
fn test_eq() {
    let group1 = Group::from_pairs(&vec![(0, 1), (1, 2), (2, 3), (3, 0), (4, 5), (5, 4)]);
    let group2: Group = Group::id();
    let group3 = Group::from_pairs(&vec![(3, 0), (2, 3), (1, 2), (0, 1), (5, 4), (4, 5)]);
    let group4 = Group::from_pairs(&vec![(1, 1)]);

    assert_eq!(group1, group1);
    assert_ne!(group1, group2);
    assert_eq!(group1, group3);
    assert_ne!(group1, group4);

    assert_ne!(group2, group1);
    assert_eq!(group2, group2);
    assert_ne!(group2, group3);
    assert_eq!(group2, group4);

    assert_eq!(group3, group1);
    assert_ne!(group3, group2);
    assert_eq!(group3, group3);
    assert_ne!(group3, group4);

    assert_ne!(group4, group1);
    assert_eq!(group4, group2);
    assert_ne!(group4, group3);
    assert_eq!(group4, group4);
}

#[test]
fn test_redundant_fixed_point_is_identity() {
    for k in [-3i64, 0, 42, 1_000_000] {
        let fixed = Group::from_pairs(&vec![(k, k)]);
        assert!(Group::id().equals(&fixed));
        assert!(fixed.equals(&Group::id()));
    }
}

#[test]
fn test_from_pairs_order_independent() {
    let pairs: Vec<(i64, i64)> = vec![(0, 1), (1, 3), (3, 2), (2, 0), (4, 5), (5, 4)];
    let mut reversed = pairs.clone();
    reversed.reverse();
    let a = Group::from_pairs(&pairs);
    let b = Group::from_pairs(&reversed);
    assert!(a.equals(&b));
    assert_eq!(a, b);
}

#[test]
fn test_from_pairs_duplicate_source_last_wins() {
    let group = Group::from_pairs(&vec![(0, 1), (0, 2)]);
    assert_eq!(2, group.get(0));
}

#[test]
fn test_from_cycle_values() {
    let group = Group::from_cycle(&vec![0, 1, 2, 3]).unwrap();
    assert_eq!(1, group.get(0));
    assert_eq!(2, group.get(1));
    assert_eq!(3, group.get(2));
    assert_eq!(0, group.get(3));
    assert_eq!(9, group.get(9));
}

#[test]
fn test_from_cycle_singleton() {
    let group = Group::from_cycle(&vec![7]).unwrap();
    assert_eq!(7, group.get(7));
    assert!(group.equals(&Group::id()));
}

#[test]
fn test_from_cycle_empty_is_error() {
    let r = Group::from_cycle(&Vec::new());
    assert!(matches!(r, Err(PermError::EmptyCycle)));
}

#[test]
fn test_from_cycles_empty_inner_is_error() {
    let r = Group::from_cycles(&vec![vec![0, 1], Vec::new()]);
    assert!(matches!(r, Err(PermError::EmptyCycle)));
}

#[test]
fn test_from_cycles_disjoint_order_independent() {
    let c1: Vec<i64> = vec![0, 1, 2, 3];
    let c2: Vec<i64> = vec![4, 5];
    let a = Group::from_cycles(&vec![c1.clone(), c2.clone()]).unwrap();
    let b = Group::from_cycles(&vec![c2, c1]).unwrap();
    assert_eq!(a, b);
    let direct = Group::from_pairs(&vec![(0, 1), (1, 2), (2, 3), (3, 0), (4, 5), (5, 4)]);
    assert_eq!(a, direct);
    assert_eq!(b, direct);
}

#[test]
fn test_compose_values() {
    let a = Group::from_cycle(&vec![0, 1]).unwrap();
    let b = Group::from_cycle(&vec![1, 2]).unwrap();
    let c = a.compose(&b);
    assert_eq!(1, c.get(0));
    assert_eq!(2, c.get(1));
    assert_eq!(0, c.get(2));
    assert_eq!(5, c.get(5));
}

#[test]
fn test_compose_with_identity() {
    let p = Group::from_cycle(&vec![2, 4, 6]).unwrap();
    assert_eq!(p.compose(&Group::id()), p);
    assert_eq!(Group::id().compose(&p), p);
}

#[test]
fn test_compose_with_inverse_is_identity() {
    let p = Group::from_cycle(&vec![0, 1, 2]).unwrap();
    let q = Group::from_cycle(&vec![2, 1, 0]).unwrap();
    assert_eq!(p.compose(&q), Group::id());
}

#[test]
fn test_compose_associative() {
    let a = Group::from_cycle(&vec![0, 1]).unwrap();
    let b = Group::from_cycle(&vec![1, 2]).unwrap();
    let c = Group::from_cycle(&vec![2, 3]).unwrap();
    assert_eq!(a.compose(&b).compose(&c), a.compose(&b.compose(&c)));
}

#[test]
fn test_cycles_single_orbit() {
    let p = Group::from_cycle(&vec![1, 2, 3]).unwrap();
    let cs = p.cycles();
    assert_eq!(cs, vec![vec![1, 2, 3]]);
}

#[test]
fn test_cycles_explicit_fixed_point_is_singleton() {
    let p = Group::from_pairs(&vec![(7, 7)]);
    let cs = p.cycles();
    assert_eq!(cs, vec![vec![7]]);
}

#[test]
fn test_cycles_identity_is_empty() {
    let p: Group = Group::id();
    let cs = p.cycles();
    assert!(cs.is_empty());
}

#[test]
fn test_cycles_round_trip() {
    let p = Group::from_cycles(&vec![vec![0, 1, 2, 3], vec![4, 5], vec![10, 20, 30]]).unwrap();
    let cs = p.cycles();
    let total: usize = cs.iter().map(|c| c.len()).sum();
    assert_eq!(9, total);
    let rebuilt = Group::from_cycles(&cs).unwrap();
    assert_eq!(p, rebuilt);
    assert!(p.equals(&rebuilt));
}
