use ahc018::cost::guess_power;
use ahc018::{Grid, Point, N};

fn uniform(v: u32) -> Grid<u32> {
    Grid::from_vec(vec![v; N * N]).unwrap()
}

fn with_cell(base: u32, p: Point, v: u32) -> Grid<u32> {
    let mut g = uniform(base);
    g.set(p, v);
    g
}

fn curve(samples: &[u32], c: u32, q: u32) -> u32 {
    samples.iter().map(|&d| (c + q) * ((d + q - 1) / q)).sum()
}

#[test]
fn single_sample_is_broken_in_one_probe() {
    let p = Point::new(3, 7);
    for &(h, c) in &[(1u32, 1u32), (100, 8), (2345, 64), (5000, 128)] {
        let g = with_cell(10, p, h);
        assert_eq!(guess_power(&[g], p, c, 0), (h, h + c));
    }
}

#[test]
fn single_residual_after_spend() {
    let p = Point::new(0, 0);
    let ens = vec![with_cell(10, p, 300), with_cell(10, p, 900)];
    // 300 is used up by a spend of 400; 500 of the other sample remains.
    assert_eq!(guess_power(&ens, p, 4, 400), (500, 504));
}

#[test]
fn no_residual_gives_default() {
    let p = Point::new(5, 5);
    let ens = vec![with_cell(10, p, 300), with_cell(10, p, 900)];
    assert_eq!(guess_power(&ens, p, 16, 900), (100, 116));
    assert_eq!(guess_power(&ens, p, 16, 5000), (100, 116));
    let empty: Vec<Grid<u32>> = Vec::new();
    assert_eq!(guess_power(&empty, p, 2, 0), (100, 102));
}

#[test]
fn uniform_ensemble_exact_value() {
    let p = Point::new(1, 1);
    let ens: Vec<Grid<u32>> = (0..10).map(|_| uniform(100)).collect();
    // cost(10) = 10 * 18 * 10 = 1800, cost(11) = 10 * 19 * 10 = 1900.
    assert_eq!(guess_power(&ens, p, 8, 0), (10, 1800));
}

#[test]
fn recommended_power_is_local_minimum() {
    let p = Point::new(17, 42);
    let cases: Vec<(Vec<u32>, u32)> = vec![
        (vec![1000, 2000], 1),
        (vec![4000, 4500, 5000], 128),
        (vec![20, 3000, 777, 1234, 4999], 32),
        (vec![50, 60], 2),
    ];
    for (samples, c) in cases {
        let ens: Vec<Grid<u32>> = samples.iter().map(|&v| with_cell(10, p, v)).collect();
        let (q, cost) = guess_power(&ens, p, c, 0);
        assert!((10..=5000).contains(&q));
        assert_eq!(cost, curve(&samples, c, q));
        if q > 10 {
            assert!(curve(&samples, c, q - 1) > cost);
        }
        if q < 5000 {
            assert!(curve(&samples, c, q + 1) >= cost);
        }
        for x in 10..q {
            assert!(curve(&samples, c, x + 1) < curve(&samples, c, x));
        }
    }
}

#[test]
fn closed_forms_hold_for_large_overhead() {
    let p = Point::new(9, 9);
    let c = 4_000_000u32;
    let ens = vec![with_cell(10, p, 700), with_cell(10, p, 40)];
    // Only the 700 sample outlasts a spend of 40.
    assert_eq!(guess_power(&ens, p, c, 40), (660, 660 + c));
    assert_eq!(guess_power(&ens, p, c, 700), (100, 100 + c));
}
