//! Where the values of padded tables, keys and rounds stand.
use vstd::prelude::*;
use vstd::arithmetic::div_mod::*;
use vstd::arithmetic::mul::*;
use vstd::utf8::*;
use crate::basefold::challenger::Transcript;
use crate::basefold::mmcs::MerkleField;
use crate::basefold::sponge;
use crate::field;
use crate::field::algebra;
use crate::field::Field;
use crate::stark::keys;
use crate::stark::keys::{Dimensions, SCStarkVerifyingKey};
use crate::stark::messages;
use crate::stark::permutation;
use crate::stark::proof_types;
use crate::stark::proof_types::SCChipOpenedValues;
use crate::stark::septic_curve::Point;
use crate::stark::sumcheck_utils;
use crate::stark::trace;
use crate::stark::trace::{CompressedMatrix, PaddingRow};

verus! {

/// The padding has an entry, which it is.
pub open spec fn fills<F: Field>(padding: PaddingRow<F>, column: int, x: F) -> bool {
    match padding {
        PaddingRow::Absent => false,
        PaddingRow::Zero { .. } => x == F::zero_elem(),
        PaddingRow::Constant { value, .. } => x == value,
        PaddingRow::General(row) => 0 <= column < row@.len() && x == row@[column],
    }
}

proof fn lemma_repeated<F>(entries: Seq<F>, row: Seq<F>, count: nat, i: nat, j: int)
    requires
        i < count,
        0 <= j < row.len(),
    ensures
        trace::repeated_rows(entries, row, count).len() == entries.len() + count * row.len(),
        trace::repeated_rows(entries, row, count)[entries.len() + i * row.len() + j] == row[j],
        trace::repeated_rows(entries, row, count).take(entries.len() as int) == entries,
    decreases count,
{
    let m = (count - 1) as nat;
    let w = row.len() as int;
    lemma_mul_is_distributive_add_other_way(w, m as int, 1);
    let r = trace::repeated_rows(entries, row, count);
    if m == 0 {
        assert(trace::repeated_rows(entries, row, 0) == entries);
        assert(0 * w == 0);
    } else {
        let k: nat = if i < m {
            i
        } else {
            0
        };
        lemma_repeated(entries, row, m, k, j);
        if i < m {
            assert((i + 1) * w <= m * w) by {
                lemma_mul_inequality((i + 1) as int, m as int, w);
            }
            lemma_mul_is_distributive_add_other_way(w, i as int, 1);
        }
        assert(i * w >= 0) by {
            lemma_mul_nonnegative(i as int, w);
        }
    }
    assert(r.take(entries.len() as int) =~= entries);
}

/// Law: the table written out holds the stored rows and then the padding in every row up to its height.
pub proof fn law_decompressed<F: Field>(m: CompressedMatrix<F>, stored: nat, i: nat, j: int)
    requires
        m.width > 0,
        m.main@.len() == stored * m.width,
        stored <= m.total_height,
        0 <= j < m.width,
        i < m.total_height,
        stored < m.total_height ==> (match m.padding_row {
            PaddingRow::Absent => false,
            PaddingRow::General(row) => row@.len() == m.width,
            _ => true,
        }),
    ensures
        trace::decompressed(m).len() == m.total_height * m.width,
        i < stored ==> trace::decompressed(m)[i * m.width + j] == m.main@[i * m.width + j],
        i >= stored ==> fills(m.padding_row, j, trace::decompressed(m)[i * m.width + j]),
{
    let w = m.width as int;
    lemma_mul_is_commutative(stored as int, w);
    lemma_div_multiples_vanish(stored as int, w);
    assert(trace::stored_height(m) == stored);
    let d = trace::decompressed(m);
    if i < stored {
        assert((i + 1) * w <= stored * w) by {
            lemma_mul_inequality((i + 1) as int, stored as int, w);
        }
        lemma_mul_is_distributive_add_other_way(w, i as int, 1);
        lemma_mul_nonnegative(i as int, w);
    }
    if stored < m.total_height {
        let row = trace::padding_entries(m.padding_row, m.width as nat)->0;
        let count = (m.total_height - stored) as nat;
        lemma_mul_is_distributive_add_other_way(w, stored as int, count as int);
        let k: nat = if i < stored {
            0
        } else {
            (i - stored) as nat
        };
        lemma_repeated(m.main@, row, count, k, j);
        if i >= stored {
            lemma_mul_is_distributive_add_other_way(w, stored as int, k as int);
        } else {
            let t = d.take(m.main@.len() as int);
            assert(t[i * w + j] == d[i * w + j]);
        }
    }
}

/// Law: the rounds go down one level at a time to the threshold, and by whole steps below it.
pub proof fn law_level(max: nat, skip: nat, threshold: nat, round: nat)
    ensures
        sumcheck_utils::level(max, skip, threshold, round) == if max <= threshold {
            max - round * skip
        } else if round <= max - threshold {
            max - round
        } else {
            threshold - (round - (max - threshold)) * skip
        },
    decreases round,
{
    if round > 0 {
        law_level(max, skip, threshold, (round - 1) as nat);
        lemma_mul_is_distributive_add_other_way(skip as int, round - 1, 1);
        let past = round - 1 - (max - threshold);
        lemma_mul_is_distributive_add_other_way(skip as int, past, 1);
        if max > threshold && past >= 0 {
            lemma_mul_nonnegative(past, skip as int);
        }
        if max <= threshold {
            lemma_mul_nonnegative(round - 1, skip as int);
        }
    } else {
        assert(0 * skip == 0);
    }
}

/// The tables of a height, in order.
pub open spec fn of_height(log_heights: Seq<usize>, h: int) -> Seq<usize> {
    log_heights.filter(|x: usize| x == h)
}

/// Law: a round joins the tables whose height is its level to those of the rounds before it.
pub proof fn law_tables_joined(log_heights: Seq<usize>, skip: nat, threshold: nat, round: nat)
    requires
        log_heights.len() > 0,
    ensures
        ({
            let here = of_height(
                log_heights,
                sumcheck_utils::level(log_heights[0] as nat, skip, threshold, round),
            ).len();
            let joined = sumcheck_utils::tables_joined(log_heights, skip, threshold, round);
            &&& round == 0 ==> joined == here
            &&& round > 0 ==> joined == here + sumcheck_utils::tables_joined(
                log_heights,
                skip,
                threshold,
                (round - 1) as nat,
            )
        }),
{
    lemma_of_height(
        log_heights,
        sumcheck_utils::level(log_heights[0] as nat, skip, threshold, round),
    );
}

proof fn lemma_of_height(s: Seq<usize>, h: int)
    ensures
        sumcheck_utils::tables_at(s, h) == of_height(s, h).len(),
    decreases s.len(),
{
    reveal(Seq::filter);
    if s.len() > 0 {
        lemma_of_height(s.drop_last(), h);
    }
}

/// Law: over all tables, first to last, and within a table from its last constraint to its first, the
/// constraints have the powers of the challenge, from the zeroth on and each once.
pub proof fn law_constraint_powers<F: Field>(alpha: F, counts: Seq<usize>, i: nat, j: int)
    requires
        alpha.valid(),
        i < counts.len(),
        0 <= j < counts[i as int],
    ensures
        ({
            let own = sumcheck_utils::powers_down(
                alpha,
                sumcheck_utils::constraints_before(counts, i),
                counts[i as int] as nat,
            );
            let next = sumcheck_utils::constraints_before(counts, i + 1);
            &&& own.len() == counts[i as int]
            &&& i == 0 && j == own.len() - 1 ==> own[j] == F::one_elem()
            &&& j + 1 < own.len() ==> own[j] == own[j + 1].times(alpha)
            &&& j == 0 ==> field::power(alpha, next) == own[j].times(alpha)
            &&& j == own.len() - 1 ==> own[j] == field::power(
                alpha,
                sumcheck_utils::constraints_before(counts, i),
            )
        }),
{
    broadcast use algebra::group_valid;

    reveal_with_fuel(field::power, 2);
    let start = sumcheck_utils::constraints_before(counts, i);
    let e = (start + counts[i as int] - 1 - j) as nat;
    algebra::lemma_power_sum(alpha, e, 1);
    algebra::lemma_power_small(alpha);
    if j + 1 < counts[i as int] {
        algebra::lemma_power_sum(alpha, (e - 1) as nat, 1);
    }
}

/// Law: the largest height among tables is not below that of any of them, and is that of one of them.
pub proof fn law_largest_height<F, EF>(chips: Seq<SCChipOpenedValues<F, EF>>, n: nat)
    requires
        n <= chips.len(),
    ensures
        forall|i: int|
            0 <= i < n ==> (#[trigger] chips[i]).log_height <= proof_types::largest_log_height(
                chips,
                n,
            ),
        n > 0 ==> exists|i: int|
            0 <= i < n && (#[trigger] chips[i]).log_height == proof_types::largest_log_height(
                chips,
                n,
            ),
        n == 0 ==> proof_types::largest_log_height(chips, n) == 0,
    decreases n,
{
    if n > 0 {
        law_largest_height(chips, (n - 1) as nat);
        let h = proof_types::largest_log_height(chips, n);
        assert(chips[n - 1].log_height <= h);
        if chips[n - 1].log_height == h {
        } else {
            let i = choose|i: int|
                0 <= i < n - 1 && (#[trigger] chips[i]).log_height
                    == proof_types::largest_log_height(chips, (n - 1) as nat);
            assert(chips[i].log_height == h);
        }
    }
}

/// Law: the local sum of a shard is the sum of the local sums of all its tables.
pub proof fn law_local_sum<F, EF: Field>(chips: Seq<SCChipOpenedValues<F, EF>>)
    ensures
        permutation::total(proof_types::local_sums(chips), chips.len()) == messages::sum_of(
            chips.map_values(|c: SCChipOpenedValues<F, EF>| c.local_cumulative_sum),
        ),
{
    let s = proof_types::local_sums(chips);
    lemma_total(s, s.len());
    assert(s.take(s.len() as int) =~= s);
    assert(s =~= chips.map_values(|c: SCChipOpenedValues<F, EF>| c.local_cumulative_sum));
}

proof fn lemma_total<EF: Field>(s: Seq<EF>, n: nat)
    requires
        n <= s.len(),
    ensures
        permutation::total(s, n) == messages::sum_of(s.take(n as int)),
    decreases n,
{
    if n > 0 {
        lemma_total(s, (n - 1) as nat);
        assert(s.take(n as int).drop_last() =~= s.take(n - 1));
    }
}

/// Law: a key is shown to the transcript as one list: the commitment, the first program counter, both
/// coordinates of the initial sum, and a zero.
pub proof fn law_key_observed<F: MerkleField>(
    t: Transcript<F>,
    commit: Seq<F>,
    pc_start: F,
    sum: Point<F>,
)
    ensures
        keys::observed_key(t, commit, pc_start, sum) == t.observed_all(
            commit + seq![pc_start] + sum.x + sum.y + seq![F::zero_elem()],
        ),
{
    let zero = F::zero_elem();
    let a = commit + seq![pc_start];
    sponge::law_observed_in_parts(t, commit, seq![pc_start]);
    lemma_one(t.observed_all(commit), pc_start);
    sponge::law_observed_in_parts(t, a, sum.x);
    sponge::law_observed_in_parts(t, a + sum.x, sum.y);
    sponge::law_observed_in_parts(t, a + sum.x + sum.y, seq![zero]);
    lemma_one(t.observed_all(a + sum.x + sum.y), zero);
}

proof fn lemma_one<F: MerkleField>(t: Transcript<F>, x: F)
    ensures
        t.observed_all(seq![x]) == t.observed(x),
{
    assert(seq![x].drop_last() =~= Seq::<F>::empty());
    assert(t.observed_all(Seq::<F>::empty()) == t);
}

/// Law: with lanes laid over the rows of a full table, the selector of the first row is set in the lane
/// of row zero, and that of the last row in the lane of the last one.
pub proof fn law_selectors<F: Field>(
    offset: nat,
    width: nat,
    total: nat,
    stored: nat,
    value: F,
    lane: int,
)
    requires
        width > 0,
        offset % width == 0,
        offset < total,
        total % width == 0 || total <= width,
        0 <= lane < width,
    ensures
        ({
            let first = sumcheck_utils::lanes_with(
                width,
                sumcheck_utils::first_place(offset),
                value,
            );
            let last = sumcheck_utils::lanes_with(
                width,
                sumcheck_utils::last_place(offset, width, total, stored),
                value,
            );
            &&& first.len() == width && last.len() == width
            &&& first[lane] == if offset + lane == 0 {
                value
            } else {
                F::zero_elem()
            }
            &&& last[lane] == if offset + lane == total - 1 && stored >= total {
                value
            } else {
                F::zero_elem()
            }
        }),
{
    let w = width as int;
    lemma_fundamental_div_mod(offset as int, w);
    lemma_fundamental_div_mod(total as int, w);
    let q = offset as int / w;
    let t = total as int / w;
    lemma_div_pos_is_pos(offset as int, w);
    if total <= width {
        assert(q == 0) by (nonlinear_arith)
            requires
                w * q < w,
                q >= 0,
                w > 0,
        ;
        assert(w * 0 == 0);
        assert(offset == 0);
    } else if offset + lane == total - 1 {
        assert(w * t - w * q == lane + 1);
        assert(t - q == 1) by (nonlinear_arith)
            requires
                0 < w * t - w * q <= w,
                w > 0,
        ;
        lemma_mul_is_distributive_add(w, q, 1);
    }
}

/// Law: after the counted rounds nothing is left above level zero.
pub proof fn law_rounds_end(max: nat, skip: nat, threshold: nat)
    requires
        skip > 0,
        threshold % skip == 0,
        max > threshold || max % skip == 0,
    ensures
        sumcheck_utils::level(
            max,
            skip,
            threshold,
            sumcheck_utils::round_count(max, skip, threshold),
        ) == 0,
{
    let n = sumcheck_utils::round_count(max, skip, threshold);
    law_level(max, skip, threshold, n);
    lemma_fundamental_div_mod(threshold as int, skip as int);
    lemma_fundamental_div_mod(max as int, skip as int);
    lemma_mul_is_commutative(skip as int, threshold as int / skip as int);
    lemma_mul_is_commutative(skip as int, max as int / skip as int);
    if max > threshold && n == max - threshold {
        assert(threshold / skip == 0);
        assert(0 * skip == 0);
    }
}

/// Law: the inputs of a key's hash begin with the commitment, the first program counter and both
/// coordinates of the initial sum, in this order.
pub proof fn law_key_inputs<F: Field>(key: SCStarkVerifyingKey<F>)
    ensures
        ({
            let s = keys::key_inputs(key);
            let c = key.commit@.len() as int;
            let sum = key.initial_global_cumulative_sum@;
            let x = sum.x.len() as int;
            let y = sum.y.len() as int;
            &&& s.len() >= c + 1 + x + y
            &&& s.take(c) == key.commit@
            &&& s[c] == key.pc_start
            &&& s.subrange(c + 1, c + 1 + x) == sum.x
            &&& s.subrange(c + 1 + x, c + 1 + x + y) == sum.y
            &&& s.skip(c + 1 + x + y) == keys::chips_inputs::<F>(
                key.chip_information@,
                key.chip_information@.len(),
            )
        }),
{
    let s = keys::key_inputs(key);
    let c = key.commit@.len() as int;
    let sum = key.initial_global_cumulative_sum@;
    let x = sum.x.len() as int;
    let y = sum.y.len() as int;
    assert(s.take(c) =~= key.commit@);
    assert(s.subrange(c + 1, c + 1 + x) =~= sum.x);
    assert(s.subrange(c + 1 + x, c + 1 + x + y) =~= sum.y);
    assert(s.skip(c + 1 + x + y) =~= keys::chips_inputs::<F>(
        key.chip_information@,
        key.chip_information@.len(),
    ));
}

/// Law: every table adds its width, its height, the number of bytes of its name and the bytes, behind
/// what the tables before it add.
pub proof fn law_chip_inputs<F: Field>(chips: Seq<(String, Dimensions)>, n: nat, i: nat)
    requires
        i < n <= chips.len(),
    ensures
        ({
            let s = keys::chips_inputs::<F>(chips, n);
            let at = keys::chips_inputs::<F>(chips, i).len() as int;
            let bytes = encode_utf8(chips[i as int].0@);
            &&& at + 3 + bytes.len() <= s.len()
            &&& keys::chips_inputs::<F>(chips, i + 1).len() == at + 3 + bytes.len()
            &&& s[at] == F::from_int(chips[i as int].1.width as int)
            &&& s[at + 1] == F::from_int(chips[i as int].1.height as int)
            &&& s[at + 2] == F::from_int(bytes.len() as int)
            &&& forall|j: int|
                0 <= j < bytes.len() ==> #[trigger] s[at + 3 + j] == F::from_int(bytes[j] as int)
        }),
    decreases n,
{
    let k = (n - 1) as nat;
    let s = keys::chips_inputs::<F>(chips, n);
    let less = keys::chips_inputs::<F>(chips, k);
    let at = keys::chips_inputs::<F>(chips, i).len() as int;
    let bytes = encode_utf8(chips[i as int].0@);
    let own = keys::chip_inputs::<F>(chips[i as int].0@, chips[i as int].1);
    assert(keys::chips_inputs::<F>(chips, i + 1).len() == at + own.len());
    if i < k {
        law_chip_inputs::<F>(chips, k, i);
        assert forall|j: int| 0 <= j < less.len() implies #[trigger] s[j] == less[j] by {}
    } else {
        assert forall|j: int| 0 <= j < own.len() implies #[trigger] s[at + j] == own[j] by {}
        assert(s[at] == s[at + 0]);
        assert forall|j: int| 0 <= j < bytes.len() implies #[trigger] s[at + 3 + j] == F::from_int(
            bytes[j] as int,
        ) by {
            assert(s[at + (3 + j)] == own[3 + j]);
        }
    }
}

} // verus!
