use ahc018::dsu::Dsu;

#[test]
fn merge_joins_classes() {
    let mut d = Dsu::new(6);
    for i in 0..6 {
        assert_eq!(d.leader(i), i);
    }
    assert!(d.merge(0, 1));
    assert!(d.merge(2, 3));
    assert!(!d.merge(1, 0));
    assert!(d.same(0, 1));
    assert!(!d.same(1, 2));
    assert!(d.merge(3, 1));
    assert!(d.same(0, 2));
    assert!(d.same(3, 1));
    assert!(!d.same(4, 0));
    assert!(!d.same(4, 5));
    let l = d.leader(3);
    for i in 0..4 {
        assert_eq!(d.leader(i), l);
    }
    assert_eq!(d.leader(5), 5);
}

#[test]
fn larger_class_leads() {
    let mut d = Dsu::new(5);
    assert!(d.merge(1, 2));
    assert!(d.merge(1, 3));
    let big = d.leader(1);
    assert!(d.merge(0, 3));
    assert_eq!(d.leader(0), big);
    assert_eq!(d.leader(4), 4);
}

#[test]
fn long_chain_compresses() {
    let n = 1000;
    let mut d = Dsu::new(n);
    for i in 1..n {
        assert!(d.merge(i, i - 1));
    }
    let l = d.leader(0);
    for i in 0..n {
        assert_eq!(d.leader(i), l);
    }
}

#[test]
fn tie_keeps_first_leader() {
    let mut d = Dsu::new(4);
    assert!(d.merge(2, 3));
    assert_eq!(d.leader(3), 2);
    assert!(d.merge(1, 0));
    assert_eq!(d.leader(0), 1);
}
