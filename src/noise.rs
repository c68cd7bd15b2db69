//! Integer part of Perlin noise: the seeded permutation table that hashes
//! lattice points.
use vstd::prelude::*;

use rand::seq::SliceRandom;
use rand::SeedableRng;
use rand_xorshift::XorShiftRng;

verus! {

/// Number of entries of a permutation table.
pub const TABLE_SIZE: usize = 256;

/// What shuffling `values` with an xorshift generator seeded with `seed` gives.
pub uninterp spec fn xorshift_shuffled(seed: Seq<u8>, values: Seq<u8>) -> Seq<u8>;

/// Relies on rand_xorshift's `XorShiftRng::from_seed` and rand's
/// `SliceRandom::shuffle`: the generator depends on the seed alone, and the
/// shuffle only swaps elements.
#[verifier::external_body]
fn shuffle_with_seed(values: &mut Vec<u8>, seed: &Vec<u8>)
    requires
        seed@.len() == 16,
    ensures
        final(values)@ == xorshift_shuffled(seed@, old(values)@),
        final(values)@.to_multiset() == old(values)@.to_multiset(),
{
    let mut bytes = [0u8; 16];
    bytes.copy_from_slice(seed.as_slice());
    let mut rng = XorShiftRng::from_seed(bytes);
    values.as_mut_slice().shuffle(&mut rng);
}

/// Byte `k` (least significant first) of `seed`.
pub open spec fn seed_byte(seed: u32, k: u32) -> u8 {
    ((seed >> (8 * k)) & 0xffu32) as u8
}

/// The generator seed made from a `u32` seed: a leading one, three zero
/// bytes, then the seed's four bytes, least significant first, three times.
pub open spec fn seed_bytes(seed: u32) -> Seq<u8> {
    Seq::new(
        16,
        |i: int|
            if i == 0 {
                1u8
            } else if i < 4 {
                0u8
            } else {
                seed_byte(seed, (i % 4) as u32)
            },
    )
}

/// The values `0, 1, ..., 255` in order.
pub open spec fn identity_table() -> Seq<u8> {
    Seq::new(TABLE_SIZE as nat, |i: int| i as u8)
}

/// Lowest eight bits of a lattice coordinate, in two's complement.
pub open spec fn low_byte(a: isize) -> u64 {
    (a as u64) & 0xffu64
}

/// The table index that hashing the coordinates `s` ends at: the first
/// coordinate's low byte, then for each next coordinate the table entry there
/// xor that coordinate's low byte.
pub open spec fn hash_index(values: Seq<u8>, s: Seq<isize>) -> int
    decreases s.len(),
{
    if s.len() <= 1 {
        low_byte(s[0]) as int
    } else {
        (values[hash_index(values, s.drop_last())] ^ (low_byte(s.last()) as u8)) as int
    }
}

/// Hashes lattice coordinates to a number below the table size.
pub trait NoiseHasher {
    /// What hashing the coordinates `s` gives.
    spec fn hash_spec(&self, s: Seq<isize>) -> int;

    fn hash(&self, to_hash: &[isize]) -> (r: usize)
        requires
            to_hash@.len() >= 1,
        ensures
            r < TABLE_SIZE,
            r == self.hash_spec(to_hash@),
    ;
}

/// A seeded permutation of `0..256`, required by the noise functions.
pub struct PermutationTable {
    values: Vec<u8>,
}

impl PermutationTable {
    /// The table's entries, in order.
    pub closed spec fn view(&self) -> Seq<u8> {
        self.values@
    }

    #[verifier::type_invariant]
    spec fn wf(&self) -> bool {
        self.values@.len() == TABLE_SIZE
    }

    /// The table of `seed`: the identity table shuffled by an xorshift
    /// generator seeded from `seed`.
    pub fn new(seed: u32) -> (r: PermutationTable)
        ensures
            r@ == xorshift_shuffled(seed_bytes(seed), identity_table()),
            r@.to_multiset() == identity_table().to_multiset(),
    {
        let mut seed_buf: Vec<u8> = Vec::new();
        seed_buf.push(1);
        seed_buf.push(0);
        seed_buf.push(0);
        seed_buf.push(0);
        let mut i: usize = 1;
        while i < 4
            invariant
                1 <= i <= 4,
                seed_buf@.len() == 4 * i,
                forall|j: int| 0 <= j < seed_buf@.len() ==> #[trigger] seed_buf@[j] == seed_bytes(seed)[j],
            decreases 4 - i,
        {
            proof {
                assert(seed_byte(seed, 0) == seed as u8) by (bit_vector);
                assert(seed_byte(seed, 1) == (seed >> 8u32) as u8) by (bit_vector);
                assert(seed_byte(seed, 2) == (seed >> 16u32) as u8) by (bit_vector);
                assert(seed_byte(seed, 3) == (seed >> 24u32) as u8) by (bit_vector);
            }
            seed_buf.push(seed as u8);
            seed_buf.push((seed >> 8) as u8);
            seed_buf.push((seed >> 16) as u8);
            seed_buf.push((seed >> 24) as u8);
            i = i + 1;
        }
        assert(seed_buf@ =~= seed_bytes(seed));
        let mut values: Vec<u8> = Vec::new();
        let mut k: usize = 0;
        while k < TABLE_SIZE
            invariant
                k <= TABLE_SIZE,
                values@ =~= identity_table().take(k as int),
            decreases TABLE_SIZE - k,
        {
            values.push(k as u8);
            k = k + 1;
        }
        assert(values@ =~= identity_table());
        let ghost before = values@;
        shuffle_with_seed(&mut values, &seed_buf);
        proof {
            broadcast use vstd::seq_lib::group_to_multiset_ensures;

            assert(before.to_multiset().len() == before.len());
            assert(values@.to_multiset().len() == values@.len());
        }
        PermutationTable { values }
    }

    /// Entry `i` of the table.
    pub fn value(&self, i: usize) -> (r: u8)
        requires
            i < TABLE_SIZE,
        ensures
            r == self@[i as int],
    {
        proof {
            use_type_invariant(self);
        }
        self.values[i]
    }
}

impl NoiseHasher for PermutationTable {
    open spec fn hash_spec(&self, s: Seq<isize>) -> int {
        self@[hash_index(self@, s)] as int
    }

    /// Folds the coordinates through the table: starts from the first
    /// coordinate's low byte, and for each next one takes the table entry there
    /// xor that coordinate's low byte; returns the table entry reached.
    fn hash(&self, to_hash: &[isize]) -> (r: usize) {
        proof {
            use_type_invariant(self);
        }
        let a0: u64 = low_byte_of(to_hash[0]);
        let mut index: usize = a0 as usize;
        let mut k: usize = 1;
        proof {
            assert(to_hash@.take(1).len() == 1);
            assert(to_hash@.take(1)[0] == to_hash@[0]);
        }
        while k < to_hash.len()
            invariant
                1 <= k <= to_hash@.len(),
                self.values@.len() == TABLE_SIZE,
                index < TABLE_SIZE,
                index == hash_index(self.values@, to_hash@.take(k as int)),
            decreases to_hash@.len() - k,
        {
            let b: u64 = low_byte_of(to_hash[k]);
            let v: u8 = self.values[index];
            let x: u8 = v ^ (b as u8);
            proof {
                let t = to_hash@.take(k as int + 1);
                assert(t.drop_last() =~= to_hash@.take(k as int));
                assert(t.last() == to_hash@[k as int]);
            }
            index = x as usize;
            k = k + 1;
        }
        proof {
            assert(to_hash@.take(k as int) =~= to_hash@);
        }
        self.values[index] as usize
    }
}

/// Lowest eight bits of a lattice coordinate, in two's complement.
fn low_byte_of(a: isize) -> (r: u64)
    ensures
        r == low_byte(a),
        r < 256,
{
    #[verifier::truncate]
    let x: u64 = a as u64;
    let r = x & 0xff;
    assert(r < 256) by (bit_vector)
        requires r == x & 0xffu64;
    r
}

/// Perlin noise over a seeded permutation table.
pub struct Perlin {
    perm_table: PermutationTable,
}

impl Perlin {
    pub const DEFAULT_SEED: u32 = 0;

    pub closed spec fn table(&self) -> PermutationTable {
        self.perm_table
    }

    pub fn new(seed: u32) -> (r: Perlin)
        ensures
            r.table()@ == xorshift_shuffled(seed_bytes(seed), identity_table()),
    {
        Perlin { perm_table: PermutationTable::new(seed) }
    }

    /// The permutation table that hashes lattice points.
    pub fn perm_table(&self) -> (r: &PermutationTable)
        ensures
            *r == self.table(),
    {
        &self.perm_table
    }
}

impl Default for Perlin {
    fn default() -> (r: Perlin)
        ensures
            r.table()@ == xorshift_shuffled(seed_bytes(Perlin::DEFAULT_SEED), identity_table()),
    {
        Perlin::new(Perlin::DEFAULT_SEED)
    }
}

} // verus!
