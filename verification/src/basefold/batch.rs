//! The committed matrices: their groups of equal height, the linear combinations of their columns
//! and of their opened rows.
use vstd::prelude::*;
use vstd::arithmetic::power2::*;
use crate::basefold::math;
use crate::basefold::math::compute_dotproduct_mix;
use crate::basefold::mmcs;
use crate::basefold::mmcs::{Dimensions, MerkleField};
use crate::basefold::openings::{
    BaseFoldError, BatchOpening, CrossRoundQueryProof, QueryProof,
};
use crate::basefold::pcs::BaseFoldPcs;
use crate::basefold::poseidon::Rounds;
use crate::basefold::query;
use crate::basefold::query::Iopp;
use crate::basefold::schedule::CommitGroup;
use crate::bits;
use crate::field::algebra;
use crate::field::{ExtensionField, Field, TwoAdicExtension};

verus! {

/// A matrix of a group with the coefficients of its columns.
#[derive(Debug, Clone)]
pub struct Entry<EF> {
    pub batch: usize,
    pub matrix: usize,
    pub coeffs: Vec<EF>,
}

/// The matrices of one height with the coefficients of their columns, and the linear combination
/// of the values that are claimed of the columns.
#[derive(Debug, Clone)]
pub struct HeightGroup<EF> {
    pub log_height: usize,
    pub entries: Vec<Entry<EF>>,
    pub claim: EF,
}

/// An [`Entry`], mathematically.
#[verifier::ext_equal]
pub struct EntryModel<EF> {
    pub batch: nat,
    pub matrix: nat,
    pub coeffs: Seq<EF>,
}

/// A [`HeightGroup`], mathematically.
#[verifier::ext_equal]
pub struct GroupModel<EF> {
    pub log_height: nat,
    pub entries: Seq<EntryModel<EF>>,
    pub claim: EF,
}

impl<EF> View for Entry<EF> {
    type V = EntryModel<EF>;

    open spec fn view(&self) -> EntryModel<EF> {
        EntryModel {
            batch: self.batch as nat,
            matrix: self.matrix as nat,
            coeffs: self.coeffs@,
        }
    }
}

impl<EF> View for HeightGroup<EF> {
    type V = GroupModel<EF>;

    open spec fn view(&self) -> GroupModel<EF> {
        GroupModel {
            log_height: self.log_height as nat,
            entries: Seq::new(self.entries@.len(), |i: int| self.entries@[i]@),
            claim: self.claim,
        }
    }
}

pub open spec fn group_models<EF>(groups: Seq<HeightGroup<EF>>) -> Seq<GroupModel<EF>> {
    Seq::new(groups.len(), |i: int| groups[i]@)
}

/// The linear combination of the opened rows `rows[batch][matrix]`.
pub open spec fn leaf_sum<F: Field, EF: ExtensionField<F>>(
    entries: Seq<EntryModel<EF>>,
    rows: Seq<Seq<Seq<F>>>,
) -> EF
    decreases entries.len(),
{
    if entries.len() == 0 {
        EF::zero_elem()
    } else {
        let e = entries.last();
        leaf_sum(entries.drop_last(), rows).plus(
            math::dot(
                e.coeffs,
                math::mixed::<F, EF>(rows[e.batch as int][e.matrix as int], e.coeffs.len()),
            ),
        )
    }
}

/// For each group the logarithm of the length of its codewords and the linear combination of the
/// opened rows.
pub open spec fn leaf_sums<F: Field, EF: ExtensionField<F>>(
    groups: Seq<GroupModel<EF>>,
    rows: Seq<Seq<Seq<F>>>,
    log_blowup: nat,
) -> Seq<(usize, EF)> {
    Seq::new(
        groups.len(),
        |i: int|
            ((groups[i].log_height + log_blowup) as usize, leaf_sum(groups[i].entries, rows)),
    )
}

/// The entry has a row, with one element or one set of coordinates for each coefficient.
pub open spec fn entry_fits<F: Field, EF: ExtensionField<F>>(
    e: EntryModel<EF>,
    rows: Seq<Seq<Seq<F>>>,
) -> bool {
    &&& e.batch < rows.len()
    &&& e.matrix < rows[e.batch as int].len()
    &&& ({
        let n = rows[e.batch as int][e.matrix as int].len();
        n == e.coeffs.len() || n == e.coeffs.len() * EF::degree()
    })
}

/// Every entry of every group has a row.
pub open spec fn rows_fit<F: Field, EF: ExtensionField<F>>(
    groups: Seq<GroupModel<EF>>,
    rows: Seq<Seq<Seq<F>>>,
) -> bool {
    forall|i: int, j: int|
        0 <= i < groups.len() && 0 <= j < groups[i].entries.len() ==> entry_fits(
            #[trigger] groups[i].entries[j],
            rows,
        )
}

/// The rows of each batch, mathematically.
pub open spec fn borrowed_rows<F>(rows: Seq<&Vec<Vec<F>>>) -> Seq<Seq<Seq<F>>> {
    Seq::new(rows.len(), |i: int| mmcs::rows_of(rows[i]@))
}

/// The opened rows of each batch.
pub open spec fn opening_rows<F>(openings: Seq<BatchOpening<F>>) -> Seq<Seq<Seq<F>>> {
    Seq::new(openings.len(), |i: int| mmcs::rows_of(openings[i].opened_values@))
}

/// Whether every entry of every group has a row.
pub fn check_rows<F: Field, EF: ExtensionField<F>>(
    groups: &Vec<HeightGroup<EF>>,
    rows: &Vec<&Vec<Vec<F>>>,
) -> (r: bool)
    ensures
        r == rows_fit(group_models(groups@), borrowed_rows(rows@)),
{
    let ghost models = group_models(groups@);
    let ghost all = borrowed_rows(rows@);
    let degree: usize = EF::extension_degree();
    proof {
        EF::law_coeffs(EF::zero_elem(), Seq::empty());
    }
    let mut i: usize = 0;
    while i < groups.len()
        invariant
            i <= groups@.len(),
            models == group_models(groups@),
            all == borrowed_rows(rows@),
            degree == EF::degree(),
            degree > 0,
            forall|a: int, b: int|
                0 <= a < i && 0 <= b < models[a].entries.len() ==> entry_fits(
                    #[trigger] models[a].entries[b],
                    all,
                ),
        decreases groups@.len() - i,
    {
        let group: &HeightGroup<EF> = &groups[i];
        let mut j: usize = 0;
        while j < group.entries.len()
            invariant
                j <= group.entries@.len(),
                i < groups@.len(),
                *group == groups@[i as int],
                models == group_models(groups@),
                all == borrowed_rows(rows@),
                degree == EF::degree(),
                degree > 0,
                forall|a: int, b: int|
                    0 <= a < i && 0 <= b < models[a].entries.len() ==> entry_fits(
                        #[trigger] models[a].entries[b],
                        all,
                    ),
                forall|b: int|
                    0 <= b < j ==> entry_fits(#[trigger] models[i as int].entries[b], all),
            decreases group.entries@.len() - j,
        {
            let entry: &Entry<EF> = &group.entries[j];
            let ghost e = models[i as int].entries[j as int];
            assert(e == entry@);
            if entry.batch >= rows.len() || entry.matrix >= rows[entry.batch].len() {
                assert(!entry_fits(e, all));
                return false;
            }
            let n: usize = rows[entry.batch][entry.matrix].len();
            let count: usize = entry.coeffs.len();
            proof {
                vstd::arithmetic::div_mod::lemma_fundamental_div_mod(n as int, degree as int);
                if n == count * degree {
                    vstd::arithmetic::div_mod::lemma_fundamental_div_mod_converse(
                        n as int,
                        degree as int,
                        count as int,
                        0,
                    );
                }
                if n % degree == 0 && n / degree == count {
                    assert(n == count * degree) by (nonlinear_arith)
                        requires
                            n == degree * (n as int / degree as int) + n as int % degree as int,
                            n as int % degree as int == 0,
                            n as int / degree as int == count,
                    ;
                }
            }
            if n != count && !(n % degree == 0 && n / degree == count) {
                assert(!entry_fits(e, all));
                return false;
            }
            j += 1;
        }
        i += 1;
    }
    true
}

/// Computes the linear combinations of the opened rows.
pub fn compute_leaf_sums<F: Field, EF: ExtensionField<F>>(
    groups: &Vec<HeightGroup<EF>>,
    rows: &Vec<&Vec<Vec<F>>>,
    log_blowup: usize,
) -> (r: Vec<(usize, EF)>)
    requires
        rows_fit(group_models(groups@), borrowed_rows(rows@)),
        forall|i: int|
            0 <= i < groups@.len() ==> (#[trigger] groups@[i]).log_height + log_blowup
                <= usize::MAX,
    ensures
        r@ == leaf_sums(group_models(groups@), borrowed_rows(rows@), log_blowup as nat),
        forall|i: int| 0 <= i < r@.len() ==> (#[trigger] r@[i]).1.valid(),
{
    let ghost models = group_models(groups@);
    let ghost all = borrowed_rows(rows@);
    let mut r: Vec<(usize, EF)> = Vec::new();
    let mut i: usize = 0;
    while i < groups.len()
        invariant
            i <= groups@.len(),
            models == group_models(groups@),
            all == borrowed_rows(rows@),
            rows_fit(models, all),
            forall|k: int|
                0 <= k < groups@.len() ==> (#[trigger] groups@[k]).log_height + log_blowup
                    <= usize::MAX,
            r@ == leaf_sums(models, all, log_blowup as nat).take(i as int),
            forall|k: int| 0 <= k < r@.len() ==> (#[trigger] r@[k]).1.valid(),
        decreases groups@.len() - i,
    {
        broadcast use algebra::group_valid;

        let group: &HeightGroup<EF> = &groups[i];
        let ghost entries = models[i as int].entries;
        let mut sum: EF = EF::zero();
        let mut j: usize = 0;
        proof {
            assert(entries.take(0) =~= Seq::empty());
        }
        while j < group.entries.len()
            invariant
                j <= group.entries@.len(),
                i < groups@.len(),
                *group == groups@[i as int],
                models == group_models(groups@),
                all == borrowed_rows(rows@),
                rows_fit(models, all),
                entries == models[i as int].entries,
                entries.len() == group.entries@.len(),
                sum == leaf_sum(entries.take(j as int), all),
                sum.valid(),
            decreases group.entries@.len() - j,
        {
            broadcast use algebra::group_valid;

            let entry: &Entry<EF> = &group.entries[j];
            proof {
                assert(models[i as int].entries[j as int] == entry@);
                assert(entry_fits(models[i as int].entries[j as int], all));
                assert(entries.take(j + 1).drop_last() =~= entries.take(j as int));
            }
            let row: &Vec<F> = &rows[entry.batch][entry.matrix];
            let value: EF = compute_dotproduct_mix(entry.coeffs.as_slice(), row.as_slice());
            sum = sum.add(value);
            j += 1;
        }
        proof {
            assert(entries.take(j as int) =~= entries);
        }
        r.push((group.log_height + log_blowup, sum));
        i += 1;
        proof {
            assert(r@ =~= leaf_sums(models, all, log_blowup as nat).take(i as int));
        }
    }
    proof {
        assert(r@ =~= leaf_sums(models, all, log_blowup as nat));
    }
    r
}

/// The greatest logarithm of a height.
pub open spec fn max_log_height(heights: Seq<nat>) -> nat
    decreases heights.len(),
{
    if heights.len() == 0 {
        0
    } else {
        let m = max_log_height(heights.drop_last());
        if bits::log2(heights.last()) > m {
            bits::log2(heights.last())
        } else {
            m
        }
    }
}

/// The heights are powers of two of at most `num_vars` variables.
pub open spec fn heights_wf(heights: Seq<nat>, num_vars: nat) -> bool {
    forall|i: int|
        0 <= i < heights.len() ==> bits::power_of_two(#[trigger] heights[i]) && bits::log2(
            heights[i],
        ) <= num_vars
}

pub proof fn lemma_max_log_height(heights: Seq<nat>, num_vars: nat)
    requires
        heights_wf(heights, num_vars),
    ensures
        max_log_height(heights) <= num_vars,
        forall|i: int|
            0 <= i < heights.len() ==> bits::log2(#[trigger] heights[i]) <= max_log_height(heights),
    decreases heights.len(),
{
    if heights.len() > 0 {
        lemma_max_log_height(heights.drop_last(), num_vars);
        assert forall|i: int| 0 <= i < heights.len() implies bits::log2(#[trigger] heights[i])
            <= max_log_height(heights) by {
            if i < heights.len() - 1 {
                assert(heights.drop_last()[i] == heights[i]);
            }
        }
    }
}

/// The heights of the codewords.
pub open spec fn blown_up(heights: Seq<nat>, log_blowup: nat) -> Seq<nat> {
    Seq::new(heights.len(), |i: int| heights[i] * pow2(log_blowup))
}

/// The sizes of each batch, mathematically.
pub open spec fn size_heights(sizes: Seq<Vec<Dimensions>>) -> Seq<Seq<nat>> {
    Seq::new(sizes.len(), |i: int| mmcs::dim_heights(sizes[i]@))
}

/// Every batch has matrices, and their heights are powers of two of at most `num_vars` variables.
pub open spec fn sizes_wf(sizes: Seq<Seq<nat>>, num_vars: nat) -> bool {
    forall|i: int|
        0 <= i < sizes.len() ==> (#[trigger] sizes[i]).len() > 0 && heights_wf(sizes[i], num_vars)
}

/// There is an opened row for each matrix of the batch, and the rows are accepted for a query.
pub open spec fn leaf_accepted<F: MerkleField>(
    rounds: Rounds<F>,
    log_blowup: nat,
    num_vars: nat,
    root: Seq<F>,
    heights: Seq<nat>,
    opening: BatchOpening<F>,
    query: nat,
) -> bool {
    opening.opened_values@.len() >= heights.len() && F::accepts(
        rounds,
        root,
        blown_up(heights, log_blowup),
        query / pow2((num_vars - max_log_height(heights)) as nat),
        mmcs::rows_of(opening.opened_values@),
        mmcs::rows_of(opening.opening_proof@),
    )
}

/// The opened rows of each batch are accepted for a query.
pub open spec fn leaves_accepted<F: MerkleField>(
    rounds: Rounds<F>,
    log_blowup: nat,
    num_vars: nat,
    roots: Seq<Seq<F>>,
    sizes: Seq<Seq<nat>>,
    openings: Seq<BatchOpening<F>>,
    query: nat,
) -> bool {
    forall|i: int|
        0 <= i < sizes.len() && i < roots.len() && i < openings.len() ==> #[trigger] leaf_accepted(
            rounds,
            log_blowup,
            num_vars,
            roots[i],
            sizes[i],
            openings[i],
            query,
        )
}

/// The openings hold digests and canonical elements.
pub open spec fn openings_canonical<F: MerkleField>(openings: Seq<BatchOpening<F>>) -> bool {
    forall|i: int|
        0 <= i < openings.len() ==> mmcs::rows_valid(
            mmcs::rows_of((#[trigger] openings[i]).opened_values@),
        ) && mmcs::are_digests(mmcs::rows_of(openings[i].opening_proof@))
}

/// The sizes of the codewords of a batch.
pub fn codeword_dims(dims: &Vec<Dimensions>, log_blowup: usize, num_vars: usize) -> (r: Vec<
    Dimensions,
>)
    requires
        heights_wf(mmcs::dim_heights(dims@), num_vars as nat),
        num_vars + log_blowup < usize::BITS,
    ensures
        mmcs::dim_heights(r@) == blown_up(mmcs::dim_heights(dims@), log_blowup as nat),
        mmcs::heights_fit(mmcs::dim_heights(r@)),
        r@.len() == dims@.len(),
{
    let blowup: usize = bits::two_to_the(log_blowup);
    let mut r: Vec<Dimensions> = Vec::new();
    let mut i: usize = 0;
    while i < dims.len()
        invariant
            i <= dims@.len(),
            heights_wf(mmcs::dim_heights(dims@), num_vars as nat),
            num_vars + log_blowup < usize::BITS,
            blowup == pow2(log_blowup as nat),
            r@.len() == i,
            forall|j: int|
                0 <= j < i ==> (#[trigger] r@[j]).height == dims@[j].height * pow2(
                    log_blowup as nat,
                ) && r@[j].height <= pow2((usize::BITS - 1) as nat),
        decreases dims@.len() - i,
    {
        proof {
            let h = mmcs::dim_heights(dims@)[i as int];
            assert(bits::power_of_two(h));
            let k = bits::log2(h) + log_blowup;
            lemma_pow2_adds(bits::log2(h), log_blowup as nat);
            bits::lemma_pow2_bits();
            if k < usize::BITS - 1 {
                lemma_pow2_strictly_increases(k as nat, (usize::BITS - 1) as nat);
            }
            lemma_pow2_strictly_increases((usize::BITS - 1) as nat, usize::BITS as nat);
        }
        r.push(Dimensions { width: 0, height: dims[i].height * blowup });
        i += 1;
    }
    proof {
        assert(mmcs::dim_heights(r@) =~= blown_up(
            mmcs::dim_heights(dims@),
            log_blowup as nat,
        ));
    }
    r
}

/// The greatest logarithm of a height.
pub fn compute_max_log_height(dims: &Vec<Dimensions>) -> (r: usize)
    requires
        forall|i: int|
            0 <= i < dims@.len() ==> bits::power_of_two((#[trigger] dims@[i]).height as nat),
    ensures
        r as nat == max_log_height(mmcs::dim_heights(dims@)),
        r < usize::BITS,
{
    let ghost heights = mmcs::dim_heights(dims@);
    let mut r: usize = 0;
    let mut i: usize = 0;
    proof {
        assert(heights.take(0) =~= Seq::empty());
    }
    while i < dims.len()
        invariant
            i <= dims@.len(),
            heights == mmcs::dim_heights(dims@),
            forall|j: int|
                0 <= j < dims@.len() ==> bits::power_of_two((#[trigger] dims@[j]).height as nat),
            r as nat == max_log_height(heights.take(i as int)),
            r < usize::BITS,
        decreases dims@.len() - i,
    {
        proof {
            assert(heights.take(i + 1).drop_last() =~= heights.take(i as int));
            assert(bits::power_of_two(dims@[i as int].height as nat));
        }
        let k: usize = bits::log2_strict(dims[i].height);
        if k > r {
            r = k;
        }
        i += 1;
    }
    proof {
        assert(heights.take(i as int) =~= heights);
    }
    r
}

/// The verdict on a query whose codewords are opened round by round.
pub open spec fn batch_query_verdict<F: MerkleField, EF: TwoAdicExtension<F>>(
    c: Iopp<F, EF>,
    roots: Seq<Seq<F>>,
    sizes: Seq<Seq<nat>>,
    groups: Seq<GroupModel<EF>>,
    query_proof: QueryProof<F, EF>,
    leaf_openings: Seq<BatchOpening<F>>,
    query_point: usize,
) -> Result<(), BaseFoldError> {
    if !leaves_accepted(
        c.rounds,
        c.log_blowup,
        c.num_vars(),
        roots,
        sizes,
        leaf_openings,
        query_point as nat,
    ) {
        Err(BaseFoldError::CommitmentCheckFailed)
    } else if !rows_fit(groups, opening_rows(leaf_openings)) {
        Err(BaseFoldError::InvalidInputError)
    } else {
        query::query_verdict(
            c,
            leaf_sums(groups, opening_rows(leaf_openings), c.log_blowup),
            query_proof.commit_phase_openings@,
            query_point,
        )
    }
}

/// The verdict on a query whose codewords are opened group by group.
pub open spec fn cross_query_verdict<F: MerkleField, EF: TwoAdicExtension<F>>(
    c: Iopp<F, EF>,
    roots: Seq<Seq<F>>,
    sizes: Seq<Seq<nat>>,
    groups: Seq<GroupModel<EF>>,
    schedule: Seq<CommitGroup>,
    cross_proof: CrossRoundQueryProof<F, EF>,
    leaf_openings: Seq<BatchOpening<F>>,
    query_point: usize,
) -> Result<(), BaseFoldError> {
    if !leaves_accepted(
        c.rounds,
        c.log_blowup,
        c.num_vars(),
        roots,
        sizes,
        leaf_openings,
        query_point as nat,
    ) {
        Err(BaseFoldError::CommitmentCheckFailed)
    } else if !rows_fit(groups, opening_rows(leaf_openings)) {
        Err(BaseFoldError::InvalidInputError)
    } else {
        query::cross_round_verdict(
            c,
            leaf_sums(groups, opening_rows(leaf_openings), c.log_blowup),
            schedule,
            cross_proof.group_openings@,
            query_point,
        )
    }
}

/// The heights of the groups leave room for the blowup, and there is a challenge for each merge.
pub open spec fn groups_wf<EF>(groups: Seq<GroupModel<EF>>, num_vars: nat, betas: nat) -> bool {
    &&& groups.len() <= betas + 1
    &&& forall|i: int| 0 <= i < groups.len() ==> (#[trigger] groups[i]).log_height <= num_vars
}

impl<F: MerkleField> BaseFoldPcs<F> {
    /// Checks the opened rows of each batch.
    pub fn verify_leaf_openings(
        &self,
        commitments: &Vec<Vec<F>>,
        query_point: usize,
        sizes: &Vec<Vec<Dimensions>>,
        num_vars: usize,
        leaf_openings: &Vec<BatchOpening<F>>,
    ) -> (r: bool)
        requires
            mmcs::are_digests(mmcs::rows_of(commitments@)),
            sizes_wf(size_heights(sizes@), num_vars as nat),
            openings_canonical(leaf_openings@),
            num_vars + self.fri.log_blowup < usize::BITS,
        ensures
            r == leaves_accepted(
                self.rounds(),
                self.fri.log_blowup as nat,
                num_vars as nat,
                mmcs::rows_of(commitments@),
                size_heights(sizes@),
                leaf_openings@,
                query_point as nat,
            ),
    {
        let log_blowup: usize = self.fri.log_blowup;
        let ghost roots = mmcs::rows_of(commitments@);
        let ghost heights = size_heights(sizes@);
        let mut i: usize = 0;
        while i < sizes.len() && i < commitments.len() && i < leaf_openings.len()
            invariant
                i <= sizes@.len(),
                log_blowup == self.fri.log_blowup,
                roots == mmcs::rows_of(commitments@),
                heights == size_heights(sizes@),
                mmcs::are_digests(roots),
                sizes_wf(heights, num_vars as nat),
                openings_canonical(leaf_openings@),
                num_vars + log_blowup < usize::BITS,
                forall|j: int|
                    0 <= j < i ==> #[trigger] leaf_accepted(
                        self.rounds(),
                        log_blowup as nat,
                        num_vars as nat,
                        roots[j],
                        heights[j],
                        leaf_openings@[j],
                        query_point as nat,
                    ),
            decreases sizes@.len() - i,
        {
            let ghost h = heights[i as int];
            let opening: &BatchOpening<F> = &leaf_openings[i];
            proof {
                assert(h == mmcs::dim_heights(sizes@[i as int]@));
                assert(heights_wf(h, num_vars as nat));
                lemma_max_log_height(h, num_vars as nat);
                assert forall|j: int| 0 <= j < sizes@[i as int]@.len() implies bits::power_of_two(
                    (#[trigger] sizes@[i as int]@[j]).height as nat,
                ) by {
                    assert(bits::power_of_two(h[j]));
                }
                assert(mmcs::is_digest(roots[i as int]));
                assert(mmcs::rows_valid(
                    mmcs::rows_of(leaf_openings@[i as int].opened_values@),
                ));
            }
            if opening.opened_values.len() < sizes[i].len() {
                assert(!leaf_accepted(
                    self.rounds(),
                    log_blowup as nat,
                    num_vars as nat,
                    roots[i as int],
                    heights[i as int],
                    leaf_openings@[i as int],
                    query_point as nat,
                ));
                return false;
            }
            let max_log: usize = compute_max_log_height(&sizes[i]);
            let dims: Vec<Dimensions> = codeword_dims(&sizes[i], log_blowup, num_vars);
            let index: usize = bits::shift_right(query_point, num_vars - max_log);
            if !F::verify_batch(
                &self.permutation,
                &commitments[i],
                &dims,
                index,
                &opening.opened_values,
                &opening.opening_proof,
            ) {
                assert(!leaf_accepted(
                    self.rounds(),
                    log_blowup as nat,
                    num_vars as nat,
                    roots[i as int],
                    heights[i as int],
                    leaf_openings@[i as int],
                    query_point as nat,
                ));
                return false;
            }
            i += 1;
        }
        true
    }

    /// Checks a query whose codewords are opened round by round.
    pub fn verify_query_p3_batch_basefold<EF: TwoAdicExtension<F>>(
        &self,
        commitments: &Vec<Vec<F>>,
        iopp_commitments: &Vec<Vec<F>>,
        query_point: usize,
        matrices_size_batch: &Vec<Vec<Dimensions>>,
        query_proof: &QueryProof<F, EF>,
        leaf_openings: &Vec<BatchOpening<F>>,
        groups: &Vec<HeightGroup<EF>>,
        folding_challenges: &Vec<EF>,
        merge_betas: &Vec<EF>,
        opening_point: &Vec<EF>,
        expected_final_value: &EF,
        final_codeword: &Option<Vec<EF>>,
    ) -> (r: Result<(), BaseFoldError>)
        requires
            mmcs::are_digests(mmcs::rows_of(commitments@)),
            sizes_wf(size_heights(matrices_size_batch@), folding_challenges@.len()),
            openings_canonical(leaf_openings@),
            groups_wf(group_models(groups@), folding_challenges@.len(), merge_betas@.len()),
            self.iopp(
                iopp_commitments@,
                folding_challenges@,
                merge_betas@,
                opening_point@,
                *expected_final_value,
                *final_codeword,
            ).wf(),
            query::steps_wf(query_proof.commit_phase_openings@),
            query_point < pow2(folding_challenges@.len() + self.fri.log_blowup as nat),
            2 * EF::degree() <= usize::MAX,
            ({
                let c = self.iopp(
                    iopp_commitments@,
                    folding_challenges@,
                    merge_betas@,
                    opening_point@,
                    *expected_final_value,
                    *final_codeword,
                );
                let n = query_proof.commit_phase_openings@.len();
                query::tail_fits(c, query_point as nat / pow2(query::committed(c, n)), n)
            }),
        ensures
            r == batch_query_verdict(
                self.iopp(
                    iopp_commitments@,
                    folding_challenges@,
                    merge_betas@,
                    opening_point@,
                    *expected_final_value,
                    *final_codeword,
                ),
                mmcs::rows_of(commitments@),
                size_heights(matrices_size_batch@),
                group_models(groups@),
                *query_proof,
                leaf_openings@,
                query_point,
            ),
    {
        if !self.verify_leaf_openings(
            commitments,
            query_point,
            matrices_size_batch,
            folding_challenges.len(),
            leaf_openings,
        ) {
            return Err(BaseFoldError::CommitmentCheckFailed);
        }
        let sums: Vec<(usize, EF)> = match self.opening_sums(
            groups,
            leaf_openings,
            folding_challenges.len(),
            merge_betas,
        ) {
            None => {
                return Err(BaseFoldError::InvalidInputError);
            },
            Some(sums) => sums,
        };
        self.verify_iopp_query_basefold(
            iopp_commitments,
            query_point,
            &sums,
            query_proof,
            folding_challenges,
            merge_betas,
            opening_point,
            expected_final_value,
            final_codeword,
        )
    }

    /// The linear combinations of the opened rows of a query, where there are rows for them.
    pub(crate) fn opening_sums<EF: TwoAdicExtension<F>>(
        &self,
        groups: &Vec<HeightGroup<EF>>,
        leaf_openings: &Vec<BatchOpening<F>>,
        num_vars: usize,
        merge_betas: &Vec<EF>,
    ) -> (r: Option<Vec<(usize, EF)>>)
        requires
            groups_wf(group_models(groups@), num_vars as nat, merge_betas@.len()),
            num_vars + self.fri.log_blowup < usize::BITS,
        ensures
            r is Some <==> rows_fit(group_models(groups@), opening_rows(leaf_openings@)),
            r matches Some(sums) ==> sums@ == leaf_sums(
                group_models(groups@),
                opening_rows(leaf_openings@),
                self.fri.log_blowup as nat,
            ) && query::sums_wf(sums@, merge_betas@),
    {
        let mut rows: Vec<&Vec<Vec<F>>> = Vec::new();
        let mut i: usize = 0;
        while i < leaf_openings.len()
            invariant
                i <= leaf_openings@.len(),
                rows@.len() == i,
                forall|j: int|
                    0 <= j < i ==> *(#[trigger] rows@[j]) == leaf_openings@[j].opened_values,
            decreases leaf_openings@.len() - i,
        {
            rows.push(&leaf_openings[i].opened_values);
            i += 1;
        }
        proof {
            assert(borrowed_rows(rows@) =~= opening_rows(leaf_openings@));
            assert forall|i: int| 0 <= i < groups@.len() implies (
            #[trigger] groups@[i]).log_height + self.fri.log_blowup <= usize::MAX by {
                assert(group_models(groups@)[i].log_height <= num_vars);
            }
        }
        if !check_rows(groups, &rows) {
            return None;
        }
        Some(compute_leaf_sums(groups, &rows, self.fri.log_blowup))
    }

    /// Checks a query whose codewords are opened group by group.
    pub fn verify_cross_round_query_basefold<EF: TwoAdicExtension<F>>(
        &self,
        commitments: &Vec<Vec<F>>,
        iopp_commitments: &Vec<Vec<F>>,
        query_point: usize,
        matrices_size_batch: &Vec<Vec<Dimensions>>,
        cross_proof: &CrossRoundQueryProof<F, EF>,
        commit_schedule: &Vec<CommitGroup>,
        leaf_openings: &Vec<BatchOpening<F>>,
        groups: &Vec<HeightGroup<EF>>,
        folding_challenges: &Vec<EF>,
        merge_betas: &Vec<EF>,
        opening_point: &Vec<EF>,
        expected_final_value: &EF,
        final_codeword: &Option<Vec<EF>>,
    ) -> (r: Result<(), BaseFoldError>)
        requires
            mmcs::are_digests(mmcs::rows_of(commitments@)),
            sizes_wf(size_heights(matrices_size_batch@), folding_challenges@.len()),
            openings_canonical(leaf_openings@),
            groups_wf(group_models(groups@), folding_challenges@.len(), merge_betas@.len()),
            self.iopp(
                iopp_commitments@,
                folding_challenges@,
                merge_betas@,
                opening_point@,
                *expected_final_value,
                *final_codeword,
            ).wf(),
            query::group_steps_wf(cross_proof.group_openings@),
            query::schedule_fits(commit_schedule@, folding_challenges@.len()),
            cross_proof.group_openings@.len() >= commit_schedule@.len(),
            iopp_commitments@.len() >= commit_schedule@.len(),
            query_point < pow2(folding_challenges@.len() + self.fri.log_blowup as nat),
            pow2(folding_challenges@.len()) * EF::degree() <= usize::MAX,
            ({
                let c = self.iopp(
                    iopp_commitments@,
                    folding_challenges@,
                    merge_betas@,
                    opening_point@,
                    *expected_final_value,
                    *final_codeword,
                );
                let n = query::rounds_before(commit_schedule@, commit_schedule@.len());
                query::tail_fits(c, query_point as nat / pow2(n), n)
            }),
        ensures
            r == cross_query_verdict(
                self.iopp(
                    iopp_commitments@,
                    folding_challenges@,
                    merge_betas@,
                    opening_point@,
                    *expected_final_value,
                    *final_codeword,
                ),
                mmcs::rows_of(commitments@),
                size_heights(matrices_size_batch@),
                group_models(groups@),
                commit_schedule@,
                *cross_proof,
                leaf_openings@,
                query_point,
            ),
    {
        if !self.verify_leaf_openings(
            commitments,
            query_point,
            matrices_size_batch,
            folding_challenges.len(),
            leaf_openings,
        ) {
            return Err(BaseFoldError::CommitmentCheckFailed);
        }
        let sums: Vec<(usize, EF)> = match self.opening_sums(
            groups,
            leaf_openings,
            folding_challenges.len(),
            merge_betas,
        ) {
            None => {
                return Err(BaseFoldError::InvalidInputError);
            },
            Some(sums) => sums,
        };
        self.verify_cross_round_groups(
            iopp_commitments,
            query_point,
            &sums,
            cross_proof,
            commit_schedule,
            folding_challenges,
            merge_betas,
            opening_point,
            expected_final_value,
            final_codeword,
        )
    }
}

} // verus!
