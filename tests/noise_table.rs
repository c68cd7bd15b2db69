use ahc018::noise::{NoiseHasher, PermutationTable, Perlin};

fn entries(t: &PermutationTable) -> Vec<u8> {
    (0..256).map(|i| t.value(i)).collect()
}

#[test]
fn table_is_a_seeded_permutation() {
    let a = PermutationTable::new(12345);
    let mut sorted = entries(&a);
    sorted.sort();
    assert_eq!(sorted, (0..=255u8).collect::<Vec<_>>());
    // Shuffled, not handed back in order.
    assert_ne!(entries(&a), (0..=255u8).collect::<Vec<_>>());
    assert_eq!(entries(&a), entries(&PermutationTable::new(12345)));
    assert_ne!(entries(&a), entries(&PermutationTable::new(12346)));
}

#[test]
fn hash_folds_through_table() {
    let t = PermutationTable::new(7);
    assert_eq!(t.hash(&[5]), t.value(5) as usize);
    assert_eq!(t.hash(&[-1]), t.value(255) as usize);
    let inner = t.value(3) ^ 9u8;
    assert_eq!(t.hash(&[3, 9]), t.value(inner as usize) as usize);
    assert_eq!(t.hash(&[259, 265]), t.hash(&[3, 9]));
}

#[test]
fn perlin_uses_seeded_table() {
    let p = Perlin::new(Perlin::DEFAULT_SEED);
    assert_eq!(entries(p.perm_table()), entries(&PermutationTable::new(0)));
}

#[test]
fn default_perlin_uses_default_seed() {
    let p = Perlin::default();
    assert_eq!(entries(p.perm_table()), entries(&PermutationTable::new(Perlin::DEFAULT_SEED)));
}
