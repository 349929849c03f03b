use vstd::prelude::*;

use rand::seq::SliceRandom;

verus! {

/// The number of lattice entries along each axis.
pub const POINT_COUNT: usize = 256;

/// The integer half of Perlin noise: three random permutations of
/// `0..POINT_COUNT`, one per axis, whose entries are combined to pick the
/// gradient at each corner of a unit lattice cell.
pub struct PerlinLattice {
    pub perm_x: Vec<i32>,
    pub perm_y: Vec<i32>,
    pub perm_z: Vec<i32>,
}

/// The values `0, 1, ..., POINT_COUNT - 1`.
pub open spec fn lattice_values() -> Seq<i32> {
    Seq::new(POINT_COUNT as nat, |i: int| i as i32)
}

/// `p` holds each of `0..POINT_COUNT` exactly once.
pub open spec fn is_lattice_permutation(p: Seq<i32>) -> bool {
    p.to_multiset() == lattice_values().to_multiset()
}

/// The lattice coordinate `c + d` wrapped into `0..POINT_COUNT`.
pub open spec fn wrap(c: int, d: int) -> int {
    (c + d) % (POINT_COUNT as int)
}

/// Relies on rand's `SliceRandom::shuffle` driven by `thread_rng()`: the
/// values are permuted in place, by swaps, none lost or added.
#[verifier::external_body]
fn shuffle(values: &mut Vec<i32>)
    ensures
        final(values)@.to_multiset() == old(values)@.to_multiset(),
{
    values.shuffle(&mut rand::thread_rng());
}

proof fn lemma_permutation_entries(p: Seq<i32>)
    requires
        is_lattice_permutation(p),
    ensures
        p.len() == POINT_COUNT,
        forall|j: int| 0 <= j < p.len() ==> 0 <= #[trigger] p[j] < POINT_COUNT,
{
    broadcast use vstd::seq_lib::group_to_multiset_ensures;

    assert(p.len() == p.to_multiset().len());
    assert(lattice_values().len() == lattice_values().to_multiset().len());
    assert forall|j: int| 0 <= j < p.len() implies 0 <= #[trigger] p[j] < POINT_COUNT by {
        assert(p.contains(p[j]));
        assert(p.to_multiset().count(p[j]) > 0);
        assert(lattice_values().contains(p[j]));
    }
}

/// Wraps a lattice coordinate into `0..POINT_COUNT`; the coordinate is a
/// floor of a point's component, so it may be negative.
fn wrap_coordinate(c: i32, d: usize) -> (r: usize)
    requires
        d < 2,
    ensures
        r as int == wrap(c as int, d as int),
        r < POINT_COUNT,
{
    let shifted: u64 = (c as i64 + 2147483648i64 + d as i64) as u64;
    let r = (shifted % 256) as usize;
    proof {
        vstd::arithmetic::div_mod::lemma_mod_multiples_vanish(
            8388608,
            c as int + d as int,
            256,
        );
        assert(shifted as int == 256 * 8388608 + (c as int + d as int));
    }
    r
}

impl PerlinLattice {
    pub open spec fn wf(&self) -> bool {
        &&& is_lattice_permutation(self.perm_x@)
        &&& is_lattice_permutation(self.perm_y@)
        &&& is_lattice_permutation(self.perm_z@)
    }

    /// A random permutation of `0..POINT_COUNT`.
    pub fn perlin_generate_perm() -> (r: Vec<i32>)
        ensures
            is_lattice_permutation(r@),
            r@.len() == POINT_COUNT,
    {
        let mut p: Vec<i32> = Vec::new();
        let mut i: usize = 0;
        while i < POINT_COUNT
            invariant
                i <= POINT_COUNT,
                p@ == Seq::new(i as nat, |k: int| k as i32),
            decreases POINT_COUNT - i,
        {
            p.push(i as i32);
            i = i + 1;
            proof {
                assert(p@ =~= Seq::new(i as nat, |k: int| k as i32));
            }
        }
        shuffle(&mut p);
        proof {
            broadcast use vstd::seq_lib::group_to_multiset_ensures;

            assert(p@.len() == p@.to_multiset().len());
            assert(lattice_values().len() == lattice_values().to_multiset().len());
        }
        p
    }

    /// Three fresh permutations.
    pub fn new() -> (r: Self)
        ensures
            r.wf(),
    {
        PerlinLattice {
            perm_x: Self::perlin_generate_perm(),
            perm_y: Self::perlin_generate_perm(),
            perm_z: Self::perlin_generate_perm(),
        }
    }

    /// The gradient index for the corner `(i + di, j + dj, k + dk)` of the
    /// lattice cell whose lowest corner is `(i, j, k)`: the exclusive or of
    /// the three permutations' entries at the wrapped coordinates.
    pub fn corner_index(&self, i: i32, j: i32, k: i32, di: usize, dj: usize, dk: usize) -> (r: usize)
        requires
            self.wf(),
            di < 2,
            dj < 2,
            dk < 2,
        ensures
            r < POINT_COUNT,
            r as i32 == self.perm_x@[wrap(i as int, di as int)] ^ self.perm_y@[wrap(
                j as int,
                dj as int,
            )] ^ self.perm_z@[wrap(k as int, dk as int)],
    {
        let x = wrap_coordinate(i, di);
        let y = wrap_coordinate(j, dj);
        let z = wrap_coordinate(k, dk);
        proof {
            lemma_permutation_entries(self.perm_x@);
            lemma_permutation_entries(self.perm_y@);
            lemma_permutation_entries(self.perm_z@);
        }
        let a = self.perm_x[x];
        let b = self.perm_y[y];
        let c = self.perm_z[z];
        let v = a ^ b ^ c;
        assert(0 <= v < 256) by (bit_vector)
            requires
                0 <= a < 256,
                0 <= b < 256,
                0 <= c < 256,
                v == a ^ b ^ c,
        ;
        v as usize
    }
}

} // verus!
