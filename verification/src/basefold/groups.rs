//! The grouping of the committed matrices by height.
use vstd::prelude::*;
use vstd::arithmetic::power2::*;
use crate::basefold::batch;
use crate::basefold::batch::{Entry, EntryModel, GroupModel, HeightGroup};
use crate::basefold::mmcs;
use crate::basefold::mmcs::Dimensions;
use crate::basefold::openings::BaseFoldError;
use crate::bits;
use crate::field;
use crate::field::algebra;
use crate::field::Field;

verus! {

/// The size of a matrix with its number among the matrices of all batches.
#[derive(Debug, Clone, Copy, PartialEq, Eq)]
pub struct DimAndNo {
    pub dim: Dimensions,
    pub num: usize,
}

/// The number of matrices of the first `i` batches.
pub open spec fn count_before(lens: Seq<nat>, i: nat) -> nat
    decreases i,
{
    if i == 0 {
        0
    } else {
        count_before(lens, (i - 1) as nat) + lens[i - 1]
    }
}

/// The numbers of matrices of the batches.
pub open spec fn batch_lens<T>(batches: Seq<Vec<T>>) -> Seq<nat> {
    Seq::new(batches.len(), |i: int| batches[i]@.len())
}

pub proof fn lemma_count_before(lens: Seq<nat>, a: nat, b: nat)
    requires
        a <= b <= lens.len(),
    ensures
        count_before(lens, a) <= count_before(lens, b),
        a < b ==> count_before(lens, a) + lens[a as int] <= count_before(lens, b),
    decreases b,
{
    if a < b {
        lemma_count_before(lens, a, (b - 1) as nat);
    }
}

/// Finds the batch and the place in it of a matrix by its number among the matrices of all
/// batches.
pub struct MatricesSizeIndex {
    /// The number of matrices of the first batches.
    pub prefix_sums: Vec<usize>,
}

impl MatricesSizeIndex {
    /// The numbers of matrices before each batch start from zero and do not descend.
    pub open spec fn wf(self) -> bool {
        &&& self.prefix_sums@.len() > 0
        &&& self.prefix_sums@[0] == 0
        &&& forall|i: int, j: int|
            0 <= i <= j < self.prefix_sums@.len() ==> (#[trigger] self.prefix_sums@[i]) <= (
            #[trigger] self.prefix_sums@[j])
    }

    /// The index of the batches.
    pub fn new(matrices_size: &Vec<Vec<Dimensions>>) -> (r: Self)
        requires
            count_before(batch_lens(matrices_size@), matrices_size@.len()) <= usize::MAX,
        ensures
            r.wf(),
            r.prefix_sums@.len() == matrices_size@.len() + 1,
            forall|i: int|
                0 <= i <= matrices_size@.len() ==> #[trigger] r.prefix_sums@[i] == count_before(
                    batch_lens(matrices_size@),
                    i as nat,
                ),
    {
        let ghost lens = batch_lens(matrices_size@);
        let mut prefix_sums: Vec<usize> = Vec::new();
        prefix_sums.push(0);
        let mut sum: usize = 0;
        let mut i: usize = 0;
        while i < matrices_size.len()
            invariant
                i <= matrices_size@.len(),
                lens == batch_lens(matrices_size@),
                count_before(lens, matrices_size@.len()) <= usize::MAX,
                sum == count_before(lens, i as nat),
                prefix_sums@.len() == i + 1,
                forall|j: int|
                    0 <= j <= i ==> #[trigger] prefix_sums@[j] == count_before(lens, j as nat),
            decreases matrices_size@.len() - i,
        {
            proof {
                lemma_count_before(lens, (i + 1) as nat, lens.len());
            }
            sum = sum + matrices_size[i].len();
            prefix_sums.push(sum);
            i += 1;
        }
        proof {
            assert forall|a: int, b: int| 0 <= a <= b < prefix_sums@.len() implies (
            #[trigger] prefix_sums@[a]) <= (#[trigger] prefix_sums@[b]) by {
                lemma_count_before(lens, a as nat, b as nat);
            }
        }
        MatricesSizeIndex { prefix_sums }
    }

    /// The batch and the place in it of the matrix with the given number.
    pub fn find_position(&self, index: usize) -> (r: (usize, usize))
        requires
            self.wf(),
            index < self.prefix_sums@.last(),
        ensures
            r.0 + 1 < self.prefix_sums@.len(),
            self.prefix_sums@[r.0 as int] <= index < self.prefix_sums@[r.0 + 1],
            r.1 == index - self.prefix_sums@[r.0 as int],
    {
        let mut low: usize = 0;
        let mut high: usize = self.prefix_sums.len() - 1;
        // The last batch whose number of matrices before it does not exceed the index.
        while high - low > 1
            invariant
                low < high < self.prefix_sums@.len(),
                self.prefix_sums@[low as int] <= index < self.prefix_sums@[high as int],
            decreases high - low,
        {
            let mid: usize = low + (high - low) / 2;
            if self.prefix_sums[mid] <= index {
                low = mid;
            } else {
                high = mid;
            }
        }
        (low, index - self.prefix_sums[low])
    }
}

/// The lengths of the opened values of each matrix fit the widths of the matrices: one for each
/// column, or one for each set of columns that holds the coordinates of an extension element.
pub open spec fn values_fit(degree: nat, widths: Seq<nat>, values: Seq<nat>) -> bool {
    &&& widths.len() == values.len()
    &&& forall|m: int|
        0 <= m < widths.len() ==> values[m] == #[trigger] widths[m] || values[m] * degree
            == widths[m]
}

pub open spec fn widths_of(dims: Seq<Dimensions>) -> Seq<nat> {
    Seq::new(dims.len(), |i: int| dims[i].width as nat)
}

/// The sizes of commitments, matrices and opened values belong together.
pub open spec fn inputs_match(
    degree: nat,
    commitments: nat,
    widths: Seq<Seq<nat>>,
    values: Seq<Seq<nat>>,
) -> bool {
    &&& widths.len() == values.len()
    &&& commitments == widths.len()
    &&& forall|b: int| 0 <= b < widths.len() ==> values_fit(degree, #[trigger] widths[b], values[b])
}

pub open spec fn all_widths(sizes: Seq<Vec<Dimensions>>) -> Seq<Seq<nat>> {
    Seq::new(sizes.len(), |b: int| widths_of(sizes[b]@))
}

pub open spec fn value_lens<EF>(values: Seq<Vec<Vec<EF>>>) -> Seq<Seq<nat>> {
    Seq::new(values.len(), |b: int| batch_lens(values[b]@))
}

/// Whether the lengths of the opened values of one batch fit its matrices.
fn check_values_fit(degree: usize, widths: &Vec<usize>, values: &Vec<usize>) -> (r: bool)
    requires
        degree > 0,
    ensures
        r == values_fit(
            degree as nat,
            Seq::new(widths@.len(), |i: int| widths@[i] as nat),
            Seq::new(values@.len(), |i: int| values@[i] as nat),
        ),
{
    let ghost ws = Seq::new(widths@.len(), |i: int| widths@[i] as nat);
    let ghost vs = Seq::new(values@.len(), |i: int| values@[i] as nat);
    if widths.len() != values.len() {
        return false;
    }
    let mut m: usize = 0;
    while m < widths.len()
        invariant
            m <= widths@.len() == values@.len(),
            degree > 0,
            ws == Seq::new(widths@.len(), |i: int| widths@[i] as nat),
            vs == Seq::new(values@.len(), |i: int| values@[i] as nat),
            forall|k: int| 0 <= k < m ==> vs[k] == #[trigger] ws[k] || vs[k] * degree == ws[k],
        decreases widths@.len() - m,
    {
        let w: usize = widths[m];
        let v: usize = values[m];
        proof {
            vstd::arithmetic::div_mod::lemma_fundamental_div_mod(w as int, degree as int);
            vstd::arithmetic::mul::lemma_mul_is_commutative(degree as int, w as int / degree as int);
            if v * degree == w {
                vstd::arithmetic::div_mod::lemma_fundamental_div_mod_converse(
                    w as int,
                    degree as int,
                    v as int,
                    0,
                );
            }
            assert(vs[m as int] == v && ws[m as int] == w);
        }
        if v != w && !(w % degree == 0 && w / degree == v) {
            return false;
        }
        m += 1;
    }
    true
}

/// Checks that the sizes of commitments, matrices and opened values belong together.
pub fn validate_verify_inputs<EF>(
    degree: usize,
    commitments: usize,
    sizes: &Vec<Vec<Dimensions>>,
    opened_values: &Vec<Vec<Vec<EF>>>,
) -> (r: Result<(), BaseFoldError>)
    requires
        degree > 0,
    ensures
        r == (if inputs_match(
            degree as nat,
            commitments as nat,
            all_widths(sizes@),
            value_lens(opened_values@),
        ) {
            Ok(())
        } else {
            Err(BaseFoldError::InvalidInputError)
        }),
{
    if sizes.len() != opened_values.len() || commitments != sizes.len() {
        return Err(BaseFoldError::InvalidInputError);
    }
    let ghost widths = all_widths(sizes@);
    let ghost values = value_lens(opened_values@);
    let mut b: usize = 0;
    while b < sizes.len()
        invariant
            b <= sizes@.len(),
            degree > 0,
            sizes@.len() == opened_values@.len(),
            widths == all_widths(sizes@),
            values == value_lens(opened_values@),
            forall|k: int|
                0 <= k < b ==> values_fit(degree as nat, #[trigger] widths[k], values[k]),
        decreases sizes@.len() - b,
    {
        let dims: &Vec<Dimensions> = &sizes[b];
        let vals: &Vec<Vec<EF>> = &opened_values[b];
        let mut ws: Vec<usize> = Vec::new();
        let mut i: usize = 0;
        while i < dims.len()
            invariant
                i <= dims@.len(),
                ws@.len() == i,
                forall|k: int| 0 <= k < i ==> #[trigger] ws@[k] == dims@[k].width,
            decreases dims@.len() - i,
        {
            ws.push(dims[i].width);
            i += 1;
        }
        let mut vs: Vec<usize> = Vec::new();
        let mut i: usize = 0;
        while i < vals.len()
            invariant
                i <= vals@.len(),
                vs@.len() == i,
                forall|k: int| 0 <= k < i ==> #[trigger] vs@[k] == vals@[k]@.len(),
            decreases vals@.len() - i,
        {
            vs.push(vals[i].len());
            i += 1;
        }
        proof {
            assert(Seq::new(ws@.len(), |i: int| ws@[i] as nat) =~= widths[b as int]);
            assert(Seq::new(vs@.len(), |i: int| vs@[i] as nat) =~= values[b as int]);
        }
        if !check_values_fit(degree, &ws, &vs) {
            assert(!values_fit(degree as nat, widths[b as int], values[b as int]));
            return Err(BaseFoldError::InvalidInputError);
        }
        b += 1;
    }
    Ok(())
}

/// The matrices of one batch among the first `m` that have the given height.
pub open spec fn matrices_at(heights: Seq<nat>, log_height: nat, batch: nat, m: nat) -> Seq<
    (nat, nat),
>
    decreases m,
{
    if m == 0 {
        Seq::empty()
    } else {
        let before = matrices_at(heights, log_height, batch, (m - 1) as nat);
        if bits::log2(heights[m - 1]) == log_height {
            before.push((batch, (m - 1) as nat))
        } else {
            before
        }
    }
}

/// The matrices of the first `b` batches that have the given height.
pub open spec fn positions_at(sizes: Seq<Seq<nat>>, log_height: nat, b: nat) -> Seq<(nat, nat)>
    decreases b,
{
    if b == 0 {
        Seq::empty()
    } else {
        positions_at(sizes, log_height, (b - 1) as nat) + matrices_at(
            sizes[b - 1],
            log_height,
            (b - 1) as nat,
            sizes[b - 1].len(),
        )
    }
}

/// Successive powers of the challenge for the columns of the matrices: the columns of all matrices
/// are numbered from `used` on.
pub open spec fn entries_for<EF: Field>(
    positions: Seq<(nat, nat)>,
    values: Seq<Seq<Seq<EF>>>,
    alpha: EF,
    used: nat,
) -> Seq<EntryModel<EF>>
    decreases positions.len(),
{
    if positions.len() == 0 {
        Seq::empty()
    } else {
        let before = positions.drop_last();
        let (b, m) = positions.last();
        let start = used + columns_of(before, values);
        entries_for(before, values, alpha, used).push(
            EntryModel {
                batch: b,
                matrix: m,
                coeffs: Seq::new(
                    values[b as int][m as int].len(),
                    |c: int| field::power(alpha, start + c as nat),
                ),
            },
        )
    }
}

/// The number of columns of the matrices.
pub open spec fn columns_of<EF>(positions: Seq<(nat, nat)>, values: Seq<Seq<Seq<EF>>>) -> nat
    decreases positions.len(),
{
    if positions.len() == 0 {
        0
    } else {
        let (b, m) = positions.last();
        columns_of(positions.drop_last(), values) + values[b as int][m as int].len()
    }
}

/// The linear combination of the values of the columns.
pub open spec fn claim_of<EF: Field>(entries: Seq<EntryModel<EF>>, values: Seq<Seq<Seq<EF>>>) -> EF
    decreases entries.len(),
{
    if entries.len() == 0 {
        EF::zero_elem()
    } else {
        let e = entries.last();
        claim_of(entries.drop_last(), values).plus(
            crate::basefold::math::dot(values[e.batch as int][e.matrix as int], e.coeffs),
        )
    }
}

/// The groups of the heights below `2^end`, from the greatest down. The columns of all matrices
/// are numbered from `used` on.
pub open spec fn groups_below<EF: Field>(
    sizes: Seq<Seq<nat>>,
    values: Seq<Seq<Seq<EF>>>,
    alpha: EF,
    used: nat,
    end: nat,
) -> Seq<GroupModel<EF>>
    decreases end,
{
    if end == 0 {
        Seq::empty()
    } else {
        let h = (end - 1) as nat;
        let positions = positions_at(sizes, h, sizes.len());
        if positions.len() == 0 {
            groups_below(sizes, values, alpha, used, h)
        } else {
            let entries = entries_for(positions, values, alpha, used);
            seq![GroupModel { log_height: h, entries, claim: claim_of(entries, values) }]
                + groups_below(sizes, values, alpha, used + columns_of(positions, values), h)
        }
    }
}

/// The number of values of all matrices.
pub open spec fn values_shape<EF>(values: Seq<Seq<Seq<EF>>>, sizes: Seq<Seq<nat>>) -> bool {
    &&& values.len() == sizes.len()
    &&& forall|b: int|
        0 <= b < sizes.len() ==> (#[trigger] values[b]).len() == sizes[b].len()
}

/// The linear combination of one matrix, with successive powers of the challenge.
fn combine_columns<EF: Field>(values: &Vec<EF>, alpha: EF, current: EF, Ghost(used): Ghost<nat>) -> (
    r: (Vec<EF>, EF, EF))
    requires
        current == field::power(alpha, used),
    ensures
        r.0@ == Seq::new(values@.len(), |c: int| field::power(alpha, used + c as nat)),
        r.1 == crate::basefold::math::dot(values@, r.0@),
        r.2 == field::power(alpha, used + values@.len()),
{
    let mut coeffs: Vec<EF> = Vec::new();
    let mut power: EF = current;
    let mut i: usize = 0;
    while i < values.len()
        invariant
            i <= values@.len(),
            coeffs@.len() == i,
            power == field::power(alpha, used + i as nat),
            forall|k: int| 0 <= k < i ==> #[trigger] coeffs@[k] == field::power(alpha, used + k as nat),
        decreases values@.len() - i,
    {
        coeffs.push(power);
        power = power.mul(alpha);
        i += 1;
    }
    proof {
        assert(coeffs@ =~= Seq::new(
            values@.len(),
            |c: int| field::power(alpha, used + c as nat),
        ));
    }
    let sum: EF = crate::basefold::math::compute_dotproduct(values.as_slice(), coeffs.as_slice());
    (coeffs, sum, power)
}

/// The group of one height: the matrices of that height with successive powers of the challenge,
/// and the next power.
fn group_at<EF: Field>(
    sizes: &Vec<Vec<Dimensions>>,
    values: &Vec<Vec<Vec<EF>>>,
    alpha: EF,
    current: EF,
    log_height: usize,
    Ghost(used): Ghost<nat>,
) -> (r: (HeightGroup<EF>, EF))
    requires
        values_shape(mmcs::row_sets_of(values@), batch::size_heights(sizes@)),
        forall|b: int, m: int|
            0 <= b < sizes@.len() && 0 <= m < sizes@[b]@.len() ==> bits::power_of_two(
                (#[trigger] sizes@[b]@[m]).height as nat,
            ),
        current == field::power(alpha, used),
    ensures
        ({
            let heights = batch::size_heights(sizes@);
            let vals = mmcs::row_sets_of(values@);
            let positions = positions_at(heights, log_height as nat, heights.len());
            let entries = entries_for(positions, vals, alpha, used);
            &&& r.0@ == (GroupModel {
                log_height: log_height as nat,
                entries,
                claim: claim_of(entries, vals),
            })
            &&& r.1 == field::power(alpha, used + columns_of(positions, vals))
        }),
{
    let ghost heights = batch::size_heights(sizes@);
    let ghost vals = mmcs::row_sets_of(values@);
    let ghost h = log_height as nat;
    let mut entries: Vec<Entry<EF>> = Vec::new();
    let mut claim: EF = EF::zero();
    let mut power: EF = current;
    let ghost mut positions: Seq<(nat, nat)> = Seq::empty();
    let ghost mut models: Seq<EntryModel<EF>> = Seq::empty();
    let mut b: usize = 0;
    while b < sizes.len()
        invariant
            b <= sizes@.len(),
            heights == batch::size_heights(sizes@),
            vals == mmcs::row_sets_of(values@),
            h == log_height,
            values_shape(vals, heights),
            forall|b: int, m: int|
                0 <= b < sizes@.len() && 0 <= m < sizes@[b]@.len() ==> bits::power_of_two(
                    (#[trigger] sizes@[b]@[m]).height as nat,
                ),
            positions == positions_at(heights, h, b as nat),
            models == entries_for(positions, vals, alpha, used),
            models.len() == entries@.len(),
            forall|i: int| 0 <= i < models.len() ==> models[i] == (#[trigger] entries@[i])@,
            claim == claim_of(models, vals),
            power == field::power(alpha, used + columns_of(positions, vals)),
        decreases sizes@.len() - b,
    {
        let dims: &Vec<Dimensions> = &sizes[b];
        let ghost before = positions;
        proof {
            assert(heights[b as int] == mmcs::dim_heights(dims@));
            assert(vals[b as int].len() == heights[b as int].len());
            assert(before =~= before + matrices_at(heights[b as int], h, b as nat, 0));
        }
        let mut m: usize = 0;
        while m < dims.len()
            invariant
                b < sizes@.len(),
                m <= dims@.len(),
                *dims == sizes@[b as int],
                heights == batch::size_heights(sizes@),
                vals == mmcs::row_sets_of(values@),
                h == log_height,
                values_shape(vals, heights),
                heights[b as int] == mmcs::dim_heights(dims@),
                vals[b as int].len() == heights[b as int].len(),
                forall|b: int, m: int|
                    0 <= b < sizes@.len() && 0 <= m < sizes@[b]@.len() ==> bits::power_of_two(
                        (#[trigger] sizes@[b]@[m]).height as nat,
                    ),
                positions == before + matrices_at(heights[b as int], h, b as nat, m as nat),
                models == entries_for(positions, vals, alpha, used),
                models.len() == entries@.len(),
                forall|i: int| 0 <= i < models.len() ==> models[i] == (#[trigger] entries@[i])@,
                claim == claim_of(models, vals),
                power == field::power(alpha, used + columns_of(positions, vals)),
            decreases dims@.len() - m,
        {
            proof {
                assert(bits::power_of_two(sizes@[b as int]@[m as int].height as nat));
            }
            if bits::log2_strict(dims[m].height) == log_height {
                let (coeffs, sum, next): (Vec<EF>, EF, EF) = combine_columns(
                    &values[b][m],
                    alpha,
                    power,
                    Ghost(used + columns_of(positions, vals)),
                );
                let ghost old_models = models;
                proof {
                    let old_positions = positions;
                    positions = old_positions.push((b as nat, m as nat));
                    assert(positions =~= before + matrices_at(
                        heights[b as int],
                        h,
                        b as nat,
                        (m + 1) as nat,
                    ));
                    assert(positions.drop_last() =~= old_positions);
                    models = entries_for(positions, vals, alpha, used);
                    assert(models.drop_last() =~= old_models);
                }
                entries.push(Entry { batch: b, matrix: m, coeffs });
                claim = claim.add(sum);
                power = next;
                proof {
                    assert(models.last() =~= entries@[entries@.len() - 1]@);
                    assert forall|i: int| 0 <= i < models.len() implies models[i] == (
                    #[trigger] entries@[i])@ by {
                        if i < old_models.len() {
                            assert(models[i] == old_models[i]);
                        }
                    }
                }
            }
            m += 1;
        }
        b += 1;
    }
    let group = HeightGroup { log_height, entries, claim };
    proof {
        assert(group@.entries =~= models);
    }
    (group, power)
}

/// Groups the matrices by height, from the greatest of at most `2^num_vars` down, with successive
/// powers of the challenge for their columns.
pub fn group_by_height<EF: Field>(
    sizes: &Vec<Vec<Dimensions>>,
    values: &Vec<Vec<Vec<EF>>>,
    alpha: EF,
    num_vars: usize,
) -> (r: Vec<HeightGroup<EF>>)
    requires
        num_vars < usize::MAX,
        values_shape(mmcs::row_sets_of(values@), batch::size_heights(sizes@)),
        forall|b: int, m: int|
            0 <= b < sizes@.len() && 0 <= m < sizes@[b]@.len() ==> bits::power_of_two(
                (#[trigger] sizes@[b]@[m]).height as nat,
            ),
    ensures
        batch::group_models(r@) == groups_below(
            batch::size_heights(sizes@),
            mmcs::row_sets_of(values@),
            alpha,
            0,
            (num_vars + 1) as nat,
        ),
{
    let ghost heights = batch::size_heights(sizes@);
    let ghost vals = mmcs::row_sets_of(values@);
    let ghost goal = groups_below(heights, vals, alpha, 0, (num_vars + 1) as nat);
    let mut r: Vec<HeightGroup<EF>> = Vec::new();
    let mut power: EF = EF::one();
    let ghost mut used: nat = 0;
    let mut end: usize = num_vars + 1;
    proof {
        assert(batch::group_models(r@) =~= Seq::empty());
        assert(goal =~= batch::group_models(r@) + goal);
    }
    while end > 0
        invariant
            heights == batch::size_heights(sizes@),
            vals == mmcs::row_sets_of(values@),
            values_shape(vals, heights),
            forall|b: int, m: int|
                0 <= b < sizes@.len() && 0 <= m < sizes@[b]@.len() ==> bits::power_of_two(
                    (#[trigger] sizes@[b]@[m]).height as nat,
                ),
            power == field::power(alpha, used),
            goal == batch::group_models(r@) + groups_below(heights, vals, alpha, used, end as nat),
        decreases end,
    {
        let ghost before = batch::group_models(r@);
        let h: usize = end - 1;
        let (group, next): (HeightGroup<EF>, EF) = group_at(
            sizes,
            values,
            alpha,
            power,
            h,
            Ghost(used),
        );
        let ghost positions = positions_at(heights, h as nat, heights.len());
        proof {
            lemma_entries_len(positions, vals, alpha, used);
        }
        if group.entries.len() > 0 {
            let ghost model = group@;
            r.push(group);
            power = next;
            proof {
                assert(model.entries.len() > 0);
                let rest = groups_below(
                    heights,
                    vals,
                    alpha,
                    used + columns_of(positions, vals),
                    h as nat,
                );
                assert(groups_below(heights, vals, alpha, used, end as nat) == seq![model] + rest);
                assert(batch::group_models(r@) =~= before.push(model));
                assert(before + (seq![model] + rest) =~= before.push(model) + rest);
                used = used + columns_of(positions, vals);
            }
        } else {
            proof {
                assert(group@.entries.len() == 0);
            }
        }
        end = h;
    }
    proof {
        assert(goal =~= batch::group_models(r@));
    }
    r
}

pub proof fn lemma_entries_len<EF: Field>(
    positions: Seq<(nat, nat)>,
    values: Seq<Seq<Seq<EF>>>,
    alpha: EF,
    used: nat,
)
    ensures
        entries_for(positions, values, alpha, used).len() == positions.len(),
    decreases positions.len(),
{
    if positions.len() > 0 {
        lemma_entries_len(positions.drop_last(), values, alpha, used);
    }
}

/// The heights of the groups, from the greatest of less than `2^end` down.
pub open spec fn group_heights(sizes: Seq<Seq<nat>>, end: nat) -> Seq<nat>
    decreases end,
{
    if end == 0 {
        Seq::empty()
    } else {
        let h = (end - 1) as nat;
        if positions_at(sizes, h, sizes.len()).len() == 0 {
            group_heights(sizes, h)
        } else {
            seq![h] + group_heights(sizes, h)
        }
    }
}

/// The position is one of a matrix.
pub open spec fn is_position(sizes: Seq<Seq<nat>>, p: (nat, nat)) -> bool {
    p.0 < sizes.len() && p.1 < sizes[p.0 as int].len()
}

proof fn lemma_matrices_at(sizes: Seq<Seq<nat>>, h: nat, b: nat, m: nat)
    requires
        b < sizes.len(),
        m <= sizes[b as int].len(),
    ensures
        forall|i: int|
            0 <= i < matrices_at(sizes[b as int], h, b, m).len() ==> is_position(
                sizes,
                #[trigger] matrices_at(sizes[b as int], h, b, m)[i],
            ),
    decreases m,
{
    if m > 0 {
        lemma_matrices_at(sizes, h, b, (m - 1) as nat);
        let front = matrices_at(sizes[b as int], h, b, (m - 1) as nat);
        let all = matrices_at(sizes[b as int], h, b, m);
        assert forall|i: int| 0 <= i < all.len() implies is_position(sizes, #[trigger] all[i]) by {
            if i < front.len() {
                assert(all[i] == front[i]);
            }
        }
    }
}

pub proof fn lemma_positions_at(sizes: Seq<Seq<nat>>, h: nat, b: nat)
    requires
        b <= sizes.len(),
    ensures
        forall|i: int|
            0 <= i < positions_at(sizes, h, b).len() ==> is_position(
                sizes,
                #[trigger] positions_at(sizes, h, b)[i],
            ),
    decreases b,
{
    if b > 0 {
        let c = (b - 1) as nat;
        lemma_positions_at(sizes, h, c);
        lemma_matrices_at(sizes, h, c, sizes[c as int].len());
        let front = positions_at(sizes, h, c);
        let all = positions_at(sizes, h, b);
        assert forall|i: int| 0 <= i < all.len() implies is_position(sizes, #[trigger] all[i]) by {
            if i < front.len() {
                assert(all[i] == front[i]);
            } else {
                assert(all[i] == matrices_at(sizes[c as int], h, c, sizes[c as int].len())[i
                    - front.len()]);
            }
        }
    }
}

/// The entry belongs to a matrix and has a coefficient for each value.
pub open spec fn entry_wf<EF>(
    sizes: Seq<Seq<nat>>,
    values: Seq<Seq<Seq<EF>>>,
    e: EntryModel<EF>,
) -> bool {
    &&& is_position(sizes, (e.batch, e.matrix))
    &&& e.coeffs.len() == values[e.batch as int][e.matrix as int].len()
}

pub proof fn lemma_entries_wf<EF: Field>(
    sizes: Seq<Seq<nat>>,
    positions: Seq<(nat, nat)>,
    values: Seq<Seq<Seq<EF>>>,
    alpha: EF,
    used: nat,
)
    requires
        forall|i: int| 0 <= i < positions.len() ==> is_position(sizes, #[trigger] positions[i]),
    ensures
        forall|i: int|
            0 <= i < entries_for(positions, values, alpha, used).len() ==> entry_wf(
                sizes,
                values,
                #[trigger] entries_for(positions, values, alpha, used)[i],
            ),
    decreases positions.len(),
{
    if positions.len() > 0 {
        let front = positions.drop_last();
        assert forall|i: int| 0 <= i < front.len() implies is_position(
            sizes,
            #[trigger] front[i],
        ) by {
            assert(front[i] == positions[i]);
        }
        lemma_entries_wf(sizes, front, values, alpha, used);
        assert(is_position(sizes, positions[positions.len() - 1]));
        let before = entries_for(front, values, alpha, used);
        let all = entries_for(positions, values, alpha, used);
        assert forall|i: int| 0 <= i < all.len() implies entry_wf(
            sizes,
            values,
            #[trigger] all[i],
        ) by {
            if i < before.len() {
                assert(all[i] == before[i]);
            }
        }
    }
}

/// The groups have the heights of the matrices, and their entries belong to matrices.
pub proof fn lemma_groups_wf<EF: Field>(
    sizes: Seq<Seq<nat>>,
    values: Seq<Seq<Seq<EF>>>,
    alpha: EF,
    used: nat,
    end: nat,
)
    ensures
        ({
            let g = groups_below(sizes, values, alpha, used, end);
            &&& g.len() == group_heights(sizes, end).len()
            &&& forall|i: int|
                0 <= i < g.len() ==> (#[trigger] g[i]).log_height == group_heights(sizes, end)[i]
            &&& forall|i: int, j: int|
                0 <= i < g.len() && 0 <= j < g[i].entries.len() ==> entry_wf(
                    sizes,
                    values,
                    #[trigger] g[i].entries[j],
                )
        }),
    decreases end,
{
    if end > 0 {
        let h = (end - 1) as nat;
        let positions = positions_at(sizes, h, sizes.len());
        let g = groups_below(sizes, values, alpha, used, end);
        if positions.len() == 0 {
            lemma_groups_wf(sizes, values, alpha, used, h);
        } else {
            let used2 = used + columns_of(positions, values);
            lemma_groups_wf(sizes, values, alpha, used2, h);
            lemma_positions_at(sizes, h, sizes.len());
            lemma_entries_wf(sizes, positions, values, alpha, used);
            let rest = groups_below(sizes, values, alpha, used2, h);
            assert forall|i: int| 0 <= i < g.len() implies (#[trigger] g[i]).log_height
                == group_heights(sizes, end)[i] by {
                if i > 0 {
                    assert(g[i] == rest[i - 1]);
                }
            }
            assert forall|i: int, j: int|
                0 <= i < g.len() && 0 <= j < g[i].entries.len() implies entry_wf(
                sizes,
                values,
                #[trigger] g[i].entries[j],
            ) by {
                if i > 0 {
                    assert(g[i] == rest[i - 1]);
                    assert(entry_wf(sizes, values, rest[i - 1].entries[j]));
                } else {
                    assert(g[0].entries == entries_for(positions, values, alpha, used));
                }
            }
        }
    }
}

/// The matrix at the position has the height.
pub open spec fn has_height(sizes: Seq<Seq<nat>>, p: (nat, nat), h: nat) -> bool {
    bits::log2(sizes[p.0 as int][p.1 as int]) == h
}

proof fn lemma_matrices_height(sizes: Seq<Seq<nat>>, h: nat, b: nat, m: nat)
    requires
        b < sizes.len(),
        m <= sizes[b as int].len(),
    ensures
        forall|i: int|
            0 <= i < matrices_at(sizes[b as int], h, b, m).len() ==> has_height(
                sizes,
                #[trigger] matrices_at(sizes[b as int], h, b, m)[i],
                h,
            ),
    decreases m,
{
    if m > 0 {
        lemma_matrices_height(sizes, h, b, (m - 1) as nat);
        let front = matrices_at(sizes[b as int], h, b, (m - 1) as nat);
        let all = matrices_at(sizes[b as int], h, b, m);
        assert forall|i: int| 0 <= i < all.len() implies has_height(
            sizes,
            #[trigger] all[i],
            h,
        ) by {
            if i < front.len() {
                assert(all[i] == front[i]);
            }
        }
    }
}

proof fn lemma_positions_height(sizes: Seq<Seq<nat>>, h: nat, b: nat)
    requires
        b <= sizes.len(),
    ensures
        forall|i: int|
            0 <= i < positions_at(sizes, h, b).len() ==> has_height(
                sizes,
                #[trigger] positions_at(sizes, h, b)[i],
                h,
            ),
    decreases b,
{
    if b > 0 {
        let c = (b - 1) as nat;
        lemma_positions_height(sizes, h, c);
        lemma_matrices_height(sizes, h, c, sizes[c as int].len());
        let front = positions_at(sizes, h, c);
        let all = positions_at(sizes, h, b);
        assert forall|i: int| 0 <= i < all.len() implies has_height(
            sizes,
            #[trigger] all[i],
            h,
        ) by {
            if i < front.len() {
                assert(all[i] == front[i]);
            } else {
                assert(all[i] == matrices_at(sizes[c as int], h, c, sizes[c as int].len())[i
                    - front.len()]);
            }
        }
    }
}

proof fn lemma_entries_height<EF: Field>(
    sizes: Seq<Seq<nat>>,
    positions: Seq<(nat, nat)>,
    values: Seq<Seq<Seq<EF>>>,
    alpha: EF,
    used: nat,
    h: nat,
)
    requires
        alpha.valid(),
        forall|i: int| 0 <= i < positions.len() ==> has_height(sizes, #[trigger] positions[i], h),
    ensures
        forall|i: int|
            0 <= i < entries_for(positions, values, alpha, used).len() ==> has_height(
                sizes,
                (
                    (#[trigger] entries_for(positions, values, alpha, used)[i]).batch,
                    entries_for(positions, values, alpha, used)[i].matrix,
                ),
                h,
            ) && field::all_valid(entries_for(positions, values, alpha, used)[i].coeffs),
    decreases positions.len(),
{
    if positions.len() > 0 {
        let front = positions.drop_last();
        assert forall|i: int| 0 <= i < front.len() implies has_height(
            sizes,
            #[trigger] front[i],
            h,
        ) by {
            assert(front[i] == positions[i]);
        }
        lemma_entries_height(sizes, front, values, alpha, used, h);
        assert(has_height(sizes, positions[positions.len() - 1], h));
        let before = entries_for(front, values, alpha, used);
        let all = entries_for(positions, values, alpha, used);
        assert forall|i: int| 0 <= i < all.len() implies has_height(
            sizes,
            ((#[trigger] all[i]).batch, all[i].matrix),
            h,
        ) && field::all_valid(all[i].coeffs) by {
            if i < before.len() {
                assert(all[i] == before[i]);
            } else {
                let start = used + columns_of(front, values);
                assert forall|c: int| 0 <= c < all[i].coeffs.len() implies (
                #[trigger] all[i].coeffs[c]).valid() by {
                    algebra::lemma_power_valid(alpha, start + c as nat);
                }
            }
        }
    }
}

/// The entries of a group name matrices of the group's height, with canonical coefficients.
pub proof fn lemma_groups_heights<EF: Field>(
    sizes: Seq<Seq<nat>>,
    values: Seq<Seq<Seq<EF>>>,
    alpha: EF,
    used: nat,
    end: nat,
)
    requires
        alpha.valid(),
    ensures
        ({
            let g = groups_below(sizes, values, alpha, used, end);
            forall|i: int, j: int|
                0 <= i < g.len() && 0 <= j < g[i].entries.len() ==> has_height(
                    sizes,
                    ((#[trigger] g[i].entries[j]).batch, g[i].entries[j].matrix),
                    g[i].log_height,
                ) && field::all_valid(g[i].entries[j].coeffs)
        }),
    decreases end,
{
    if end > 0 {
        let h = (end - 1) as nat;
        let positions = positions_at(sizes, h, sizes.len());
        let g = groups_below(sizes, values, alpha, used, end);
        if positions.len() == 0 {
            lemma_groups_heights(sizes, values, alpha, used, h);
        } else {
            let used2 = used + columns_of(positions, values);
            lemma_groups_heights(sizes, values, alpha, used2, h);
            lemma_positions_height(sizes, h, sizes.len());
            lemma_entries_height(sizes, positions, values, alpha, used, h);
            let rest = groups_below(sizes, values, alpha, used2, h);
            assert forall|i: int, j: int|
                0 <= i < g.len() && 0 <= j < g[i].entries.len() implies has_height(
                sizes,
                ((#[trigger] g[i].entries[j]).batch, g[i].entries[j].matrix),
                g[i].log_height,
            ) && field::all_valid(g[i].entries[j].coeffs) by {
                if i > 0 {
                    assert(g[i] == rest[i - 1]);
                    assert(has_height(
                        sizes,
                        (rest[i - 1].entries[j].batch, rest[i - 1].entries[j].matrix),
                        rest[i - 1].log_height,
                    ));
                } else {
                    assert(g[0].entries == entries_for(positions, values, alpha, used));
                }
            }
        }
    }
}

proof fn lemma_matrix_found(heights: Seq<nat>, h: nat, b: nat, m: nat, n: nat)
    requires
        m < n <= heights.len(),
        bits::log2(heights[m as int]) == h,
    ensures
        matrices_at(heights, h, b, n).len() > 0,
    decreases n,
{
    if m < n - 1 {
        lemma_matrix_found(heights, h, b, m, (n - 1) as nat);
    }
}

proof fn lemma_position_found(sizes: Seq<Seq<nat>>, h: nat, b: nat, m: nat, n: nat)
    requires
        b < n <= sizes.len(),
        m < sizes[b as int].len(),
        bits::log2(sizes[b as int][m as int]) == h,
    ensures
        positions_at(sizes, h, n).len() > 0,
    decreases n,
{
    if b < n - 1 {
        lemma_position_found(sizes, h, b, m, (n - 1) as nat);
    } else {
        lemma_matrix_found(sizes[b as int], h, b, m, sizes[b as int].len());
    }
}

/// The greatest height is that of the first group.
pub proof fn lemma_height_found(sizes: Seq<Seq<nat>>, h: nat, b: nat, m: nat)
    requires
        b < sizes.len(),
        m < sizes[b as int].len(),
        bits::log2(sizes[b as int][m as int]) == h,
    ensures
        group_heights(sizes, h + 1).len() > 0,
        group_heights(sizes, h + 1)[0] == h,
{
    lemma_position_found(sizes, h, b, m, sizes.len());
}

} // verus!
