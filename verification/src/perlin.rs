//! The lattice of a gradient noise: three permutation tables that assign one of
//! `point_count` gradients to every point with whole-number coordinates.

use crate::random::shuffle;
use vstd::prelude::*;

verus! {

/// The numbers below `n`, each once, in rising order.
pub open spec fn identity(n: nat) -> Seq<usize> {
    Seq::new(n, |i: int| i as usize)
}

/// `table` holds the numbers below `n`, each once, in some order.
pub open spec fn is_permutation(table: Seq<usize>, n: nat) -> bool {
    table.to_multiset() == identity(n).to_multiset()
}

/// Where a coordinate falls in a table with `limit + 1` entries: the bits of
/// `i` that `limit` has.
pub open spec fn slot(i: isize, limit: isize) -> isize {
    i & limit
}

/// The tables of a noise lattice.
#[derive(Debug)]
pub struct Perlin {
    pub point_count: usize,
    pub perm_x: Vec<usize>,
    pub perm_y: Vec<usize>,
    pub perm_z: Vec<usize>,
}

/// A permutation of the numbers below `n` has `n` entries, all below `n`.
pub proof fn lemma_permutation_in_range(table: Seq<usize>, n: nat)
    requires
        is_permutation(table, n),
    ensures
        table.len() == n,
        forall|i: int| 0 <= i < table.len() ==> 0 <= #[trigger] table[i] < n,
{
    vstd::seq_lib::to_multiset_len(table);
    vstd::seq_lib::to_multiset_len(identity(n));
    assert forall|i: int| 0 <= i < table.len() implies 0 <= #[trigger] table[i] < n by {
        assert(table.contains(table[i]));
        vstd::seq_lib::to_multiset_contains(table, table[i]);
        vstd::seq_lib::to_multiset_contains(identity(n), table[i]);
        let j = choose|j: int| 0 <= j < identity(n).len() && identity(n)[j] == table[i];
        assert(identity(n)[j] == j as usize);
    }
}

/// The bits that a coordinate shares with a limit that is not negative lie
/// between zero and the limit.
pub proof fn lemma_slot_in_range(i: isize, limit: isize)
    requires
        limit >= 0,
    ensures
        0 <= slot(i, limit) <= limit,
{
    assert(0 <= i & limit <= limit) by (bit_vector)
        requires
            limit >= 0,
    ;
}

/// `n` is one of 1, 2, 4, 8 and so on.
pub open spec fn is_power_of_two(n: usize) -> bool {
    n > 0 && n & ((n - 1) as usize) == 0
}

/// Below a power of two, combining two numbers bit by bit stays below it.
pub proof fn lemma_xor_below_power_of_two(a: usize, b: usize, n: usize)
    requires
        is_power_of_two(n),
        a < n,
        b < n,
    ensures
        a ^ b < n,
{
    assert(a ^ b < n) by (bit_vector)
        requires
            n > 0 && n & ((n - 1) as usize) == 0,
            a < n,
            b < n,
    ;
}

impl Perlin {
    /// Each table is a permutation of the numbers below `point_count`.
    pub open spec fn wf(self) -> bool {
        &&& is_permutation(self.perm_x@, self.point_count as nat)
        &&& is_permutation(self.perm_y@, self.point_count as nat)
        &&& is_permutation(self.perm_z@, self.point_count as nat)
    }

    /// The gradient that the lattice assigns to the point `(i, j, k)`: the
    /// entries of the three tables at the slots of the coordinates, combined
    /// bit by bit, each bit set where an odd number of the three have it.
    pub open spec fn gradient_at(self, i: isize, j: isize, k: isize) -> usize {
        let limit = (self.point_count - 1) as isize;
        self.perm_x@[slot(i, limit) as int] ^ self.perm_y@[slot(j, limit) as int]
            ^ self.perm_z@[slot(k, limit) as int]
    }

    /// The numbers below `point_count` in an order drawn at random.
    fn generate_perm(point_count: usize) -> (table: Vec<usize>)
        ensures
            is_permutation(table@, point_count as nat),
    {
        let mut table: Vec<usize> = Vec::new();
        let mut n: usize = 0;
        while n < point_count
            invariant
                n <= point_count,
                table@ == identity(n as nat),
            decreases point_count - n,
        {
            table.push(n);
            n = n + 1;
            assert(table@ =~= identity(n as nat));
        }
        shuffle(&mut table);
        table
    }

    /// Draws the three tables of a lattice with `point_count` gradients, first
    /// the one for x, then y, then z.
    pub fn new(point_count: usize) -> (lattice: Perlin)
        ensures
            lattice.point_count == point_count,
            lattice.wf(),
    {
        let perm_x = Self::generate_perm(point_count);
        let perm_y = Self::generate_perm(point_count);
        let perm_z = Self::generate_perm(point_count);
        Perlin { point_count, perm_x, perm_y, perm_z }
    }

    /// Looks up the gradient of the lattice point `(i, j, k)`.
    ///
    /// A lattice needs at least one gradient, and few enough for their number
    /// to be a coordinate.
    pub fn gradient_index(&self, i: isize, j: isize, k: isize) -> (index: usize)
        requires
            self.wf(),
            1 <= self.point_count <= isize::MAX,
        ensures
            index == self.gradient_at(i, j, k),
            is_power_of_two(self.point_count) ==> index < self.point_count,
    {
        let limit: isize = (self.point_count - 1) as isize;
        proof {
            lemma_permutation_in_range(self.perm_x@, self.point_count as nat);
            lemma_permutation_in_range(self.perm_y@, self.point_count as nat);
            lemma_permutation_in_range(self.perm_z@, self.point_count as nat);
            lemma_slot_in_range(i, limit);
            lemma_slot_in_range(j, limit);
            lemma_slot_in_range(k, limit);
        }
        let a: usize = self.perm_x[(i & limit) as usize];
        let b: usize = self.perm_y[(j & limit) as usize];
        let c: usize = self.perm_z[(k & limit) as usize];
        proof {
            if is_power_of_two(self.point_count) {
                lemma_xor_below_power_of_two(a, b, self.point_count);
                lemma_xor_below_power_of_two(a ^ b, c, self.point_count);
            }
        }
        a ^ b ^ c
    }
}

} // verus!
