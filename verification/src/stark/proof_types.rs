//! The proofs of a machine, shard by shard.
use vstd::prelude::*;
use crate::basefold::openings::BasefoldProof;
use crate::field::{ExtensionField, Field, PrimeField32};
use crate::recursion::shape::HeightMap;
use crate::stark::keys::Dimensions;
use crate::stark::permutation;
use crate::stark::septic_digest;
use crate::stark::septic_curve::Point;
use crate::stark::septic_digest::SepticDigest;

verus! {

/// A polynomial by its values at 0, 1, 2 and so on.
#[derive(Clone, Debug, PartialEq, Eq)]
pub struct UniPolyEvals<EF> {
    pub evals: Vec<EF>,
}

/// The polynomials of a sumcheck, round by round.
#[derive(Clone, Debug)]
pub struct SumcheckProof<EF> {
    pub unipolys: Vec<UniPolyEvals<EF>>,
}

/// The commitments of a shard.
#[derive(Clone, Debug)]
pub struct SCShardCommitment<C> {
    pub main_commit: C,
    pub permutation_commit: Option<C>,
}

/// The values of a table's columns at a point.
#[derive(Clone, Debug)]
pub struct SCAirOpenedValues<EF> {
    pub local: Vec<EF>,
}

/// The opened values of a table.
#[derive(Clone, Debug)]
pub struct SCChipOpenedValues<F, EF> {
    pub preprocessed: SCAirOpenedValues<EF>,
    pub main: SCAirOpenedValues<EF>,
    pub permutation: SCAirOpenedValues<EF>,
    pub global_cumulative_sum: SepticDigest<F>,
    pub local_cumulative_sum: EF,
    pub log_height: usize,
}

/// The opened values of a shard's tables.
#[derive(Clone, Debug)]
pub struct SCShardOpenedValues<F, EF> {
    pub chips: Vec<SCChipOpenedValues<F, EF>>,
}

impl<F, EF> Default for SCShardOpenedValues<F, EF> {
    fn default() -> (r: Self)
        ensures
            r.chips@.len() == 0,
    {
        SCShardOpenedValues { chips: Vec::new() }
    }
}

/// The names of a shard's tables with the logarithms of their heights, in the shard's order.
#[derive(Debug)]
pub struct OrderedShape {
    pub inner: Vec<(String, usize)>,
}

/// The proof of a shard.
#[derive(Debug)]
pub struct SCShardProof<F, EF> {
    pub commitment: SCShardCommitment<Vec<F>>,
    pub opened_values: SCShardOpenedValues<F, EF>,
    pub opening_proof: BasefoldProof<F, EF>,
    pub sumcheck_proof: SumcheckProof<EF>,
    pub dimensions: Vec<Vec<Dimensions>>,
    /// The places of the tables in the shard, by name.
    pub chip_ordering: HeightMap,
    pub public_values: Vec<F>,
}

/// The proofs of all shards.
#[derive(Debug)]
pub struct SCMachineProof<F, EF> {
    pub shard_proofs: Vec<SCShardProof<F, EF>>,
}

/// The public values of a shard that the checks across shards speak of.
#[derive(Clone, Copy, Debug, PartialEq, Eq)]
pub struct PublicValues<F> {
    pub execution_shard: F,
    pub start_clk: F,
    pub exit_clk: F,
    pub start_pc: F,
    pub next_pc: F,
    pub previous_init_addr: F,
    pub last_init_addr: F,
    pub previous_finalize_addr: F,
    pub last_finalize_addr: F,
}

impl<F: Field> PublicValues<F> {
    /// Whether the shard holds executed instructions: its clock has moved.
    pub fn contains_cpu(&self) -> (r: bool)
        ensures
            r == (self.start_clk != self.exit_clk),
    {
        !self.start_clk.is_equal(&self.exit_clk)
    }
}

/// The local sums of the tables.
pub open spec fn local_sums<F, EF>(chips: Seq<SCChipOpenedValues<F, EF>>) -> Seq<EF> {
    Seq::new(chips.len(), |i: int| chips[i].local_cumulative_sum)
}

/// The global sums of the tables.
pub open spec fn global_sums<F, EF>(chips: Seq<SCChipOpenedValues<F, EF>>) -> Seq<Point<F>> {
    Seq::new(chips.len(), |i: int| chips[i].global_cumulative_sum@)
}

/// The largest of the first `n` logarithms of heights; zero where there is none.
pub open spec fn largest_log_height<F, EF>(chips: Seq<SCChipOpenedValues<F, EF>>, n: nat) -> usize
    decreases n,
{
    if n == 0 {
        0
    } else {
        let before = largest_log_height(chips, (n - 1) as nat);
        if chips[n - 1].log_height > before {
            chips[n - 1].log_height
        } else {
            before
        }
    }
}

impl<F: PrimeField32, EF: ExtensionField<F>> SCShardProof<F, EF> {
    /// The sum of the local sums of the shard's tables.
    pub fn local_cumulative_sum(&self) -> (r: EF)
        ensures
            r == permutation::total(
                local_sums(self.opened_values.chips@),
                self.opened_values.chips@.len(),
            ),
    {
        let n: usize = self.opened_values.chips.len();
        let ghost sums = local_sums(self.opened_values.chips@);
        let mut r = EF::zero();
        let mut i: usize = 0;
        while i < n
            invariant
                i <= n,
                n == self.opened_values.chips@.len(),
                sums == local_sums(self.opened_values.chips@),
                r == permutation::total(sums, i as nat),
            decreases n - i,
        {
            r = r.add(self.opened_values.chips[i].local_cumulative_sum);
            i += 1;
        }
        r
    }

    /// The sum of the global sums of the shard's tables; `None` where one of the additions has no
    /// slope.
    pub fn global_cumulative_sum(&self) -> (r: Option<SepticDigest<F>>)
        ensures
            r is Some <==> septic_digest::digest_sum(
                global_sums(self.opened_values.chips@),
            ) is Some,
            r matches Some(sum) ==> septic_digest::digest_sum(
                global_sums(self.opened_values.chips@),
            ) == Some(sum@),
    {
        let n: usize = self.opened_values.chips.len();
        let mut digests: Vec<SepticDigest<F>> = Vec::new();
        let mut i: usize = 0;
        while i < n
            invariant
                i <= n,
                n == self.opened_values.chips@.len(),
                digests@.len() == i,
                forall|j: int|
                    0 <= j < i ==> #[trigger] digests@[j]
                        == self.opened_values.chips@[j].global_cumulative_sum,
            decreases n - i,
        {
            digests.push(self.opened_values.chips[i].global_cumulative_sum);
            i += 1;
        }
        assert(septic_digest::points(digests@) =~= global_sums(self.opened_values.chips@));
        SepticDigest::sum(&digests)
    }

    /// The largest logarithm of a table's height.
    pub fn log_degree_cpu(&self) -> (r: usize)
        ensures
            r == largest_log_height(
                self.opened_values.chips@,
                self.opened_values.chips@.len(),
            ),
    {
        let n: usize = self.opened_values.chips.len();
        let mut r: usize = 0;
        let mut i: usize = 0;
        while i < n
            invariant
                i <= n,
                n == self.opened_values.chips@.len(),
                r == largest_log_height(self.opened_values.chips@, i as nat),
            decreases n - i,
        {
            let h: usize = self.opened_values.chips[i].log_height;
            if h > r {
                r = h;
            }
            i += 1;
        }
        r
    }

    /// Whether the shard has the table of the memory's first values.
    pub fn contains_global_memory_init(&self) -> (r: bool)
        ensures
            r == self.chip_ordering@.dom().contains("MemoryGlobalInit"@),
    {
        self.chip_ordering.get(&"MemoryGlobalInit".to_string()).is_some()
    }

    /// Whether the shard has the table of the memory's last values.
    pub fn contains_global_memory_finalize(&self) -> (r: bool)
        ensures
            r == self.chip_ordering@.dom().contains("MemoryGlobalFinalize"@),
    {
        self.chip_ordering.get(&"MemoryGlobalFinalize".to_string()).is_some()
    }
}

} // verus!
