use ahc018::heap::MinHeap;
use ahc018::{abs_diff, Grid, Point, SetMinMax, N};

#[test]
fn abs_diff_both_orders() {
    assert_eq!(abs_diff(3, 10), 7);
    assert_eq!(abs_diff(10, 3), 7);
    assert_eq!(abs_diff(5, 5), 0);
}

#[test]
fn point_accessors_and_distance() {
    let a = Point::new(2, 9);
    let b = Point::new(7, 1);
    assert_eq!(a.x(), 2);
    assert_eq!(a.y(), 9);
    assert_eq!(a.manhattan(&b), 13);
    assert_eq!(b.manhattan(&a), 13);
}

#[test]
fn neighbors_stay_on_grid() {
    let last = (N - 1) as u32;
    assert_eq!(Point::new(0, 0).neighbors(), vec![Point::new(1, 0), Point::new(0, 1)]);
    assert_eq!(
        Point::new(last, last).neighbors(),
        vec![Point::new(last - 1, last), Point::new(last, last - 1)]
    );
    assert_eq!(
        Point::new(5, 6).neighbors(),
        vec![Point::new(4, 6), Point::new(6, 6), Point::new(5, 5), Point::new(5, 7)]
    );
}

#[test]
fn grid_get_set_and_from_vec() {
    let mut g = Grid::new(7u32);
    assert_eq!(*g.get(Point::new(199, 199)), 7);
    g.set(Point::new(3, 4), 11);
    assert_eq!(*g.get(Point::new(3, 4)), 11);
    assert_eq!(*g.get(Point::new(4, 3)), 7);
    assert!(Grid::from_vec(vec![0u8; 10]).is_none());
    let data: Vec<u32> = (0..(N * N) as u32).collect();
    let h = Grid::from_vec(data).unwrap();
    assert_eq!(*h.get(Point::new(5, 2)), 2 * N as u32 + 5);
}

#[test]
fn heap_pops_in_key_order() {
    let mut h = MinHeap::new();
    let keys = [50u64, 3, 77, 3, 0, 12, 99, 41];
    for (i, &k) in keys.iter().enumerate() {
        h.push(k, Point::new(i as u32, 0));
    }
    assert_eq!(h.len(), keys.len());
    let mut out = Vec::new();
    while let Some((k, _)) = h.pop() {
        out.push(k);
    }
    let mut sorted = keys.to_vec();
    sorted.sort();
    assert_eq!(out, sorted);
    assert!(h.pop().is_none());
}

#[test]
fn setmin_setmax() {
    let mut a: u32 = 10;
    assert!(a.setmin(4));
    assert_eq!(a, 4);
    assert!(!a.setmin(4));
    assert!(a.setmax(9));
    assert_eq!(a, 9);
    let mut b: u64 = 5;
    assert!(!b.setmax(1));
    assert_eq!(b, 5);
}
