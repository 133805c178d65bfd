//! Helpers of the sumcheck protocol: the rounds in which tables join, powers of challenges,
//! selectors, and interpolation.
use vstd::prelude::*;
use crate::basefold::math;
use crate::field;
use crate::field::algebra;
use crate::field::{ExtensionField, Field};

verus! {

/// The height of a round: above the threshold the heights go down by one, below it by several.
pub open spec fn level(max: nat, skip: nat, threshold: nat, round: nat) -> int
    decreases round,
{
    if round == 0 {
        max as int
    } else {
        let before = level(max, skip, threshold, (round - 1) as nat);
        if before > threshold {
            before - 1
        } else {
            before - skip
        }
    }
}

/// The number of tables of a height.
pub open spec fn tables_at(log_heights: Seq<usize>, h: int) -> nat
    decreases log_heights.len(),
{
    if log_heights.len() == 0 {
        0
    } else {
        tables_at(log_heights.drop_last(), h) + if log_heights.last() == h {
            1nat
        } else {
            0nat
        }
    }
}

/// The number of tables that have joined by a round: those of the heights of the rounds so far.
pub open spec fn tables_joined(
    log_heights: Seq<usize>,
    skip: nat,
    threshold: nat,
    round: nat,
) -> nat
    decreases round,
{
    let here = tables_at(log_heights, level(log_heights[0] as nat, skip, threshold, round));
    if round == 0 {
        here
    } else {
        here + tables_joined(log_heights, skip, threshold, (round - 1) as nat)
    }
}

/// The number of tables of at least a height.
spec fn tables_above(log_heights: Seq<usize>, h: int) -> nat
    decreases log_heights.len(),
{
    if log_heights.len() == 0 {
        0
    } else {
        tables_above(log_heights.drop_last(), h) + if log_heights.last() >= h {
            1nat
        } else {
            0nat
        }
    }
}

proof fn lemma_tables_above(log_heights: Seq<usize>, h: int, g: int)
    requires
        h < g,
    ensures
        tables_at(log_heights, h) + tables_above(log_heights, g) <= tables_above(log_heights, h),
        tables_at(log_heights, h) <= tables_above(log_heights, h) <= log_heights.len(),
    decreases log_heights.len(),
{
    if log_heights.len() > 0 {
        lemma_tables_above(log_heights.drop_last(), h, g);
    }
}

proof fn lemma_joined(log_heights: Seq<usize>, skip: nat, threshold: nat, round: nat)
    requires
        skip > 0,
    ensures
        tables_joined(log_heights, skip, threshold, round) <= tables_above(
            log_heights,
            level(log_heights[0] as nat, skip, threshold, round),
        ) <= log_heights.len(),
    decreases round,
{
    let max = log_heights[0] as nat;
    let here = level(max, skip, threshold, round);
    if round > 0 {
        lemma_joined(log_heights, skip, threshold, (round - 1) as nat);
        lemma_tables_above(log_heights, here, level(max, skip, threshold, (round - 1) as nat));
    } else {
        lemma_tables_above(log_heights, here, here + 1);
    }
}

/// The number of rounds: one for each height above the threshold, and one for each step below it.
pub open spec fn round_count(max: nat, skip: nat, threshold: nat) -> nat {
    if max > threshold {
        (max - threshold + threshold / skip) as nat
    } else {
        max / skip
    }
}

/// The number of tables of a height.
fn count_tables(log_heights: &[usize], h: usize) -> (r: usize)
    ensures
        r == tables_at(log_heights@, h as int),
{
    let n: usize = log_heights.len();
    let mut r: usize = 0;
    let mut i: usize = 0;
    assert(log_heights@.take(0) =~= Seq::empty());
    while i < n
        invariant
            i <= n,
            n == log_heights@.len(),
            r <= i,
            r == tables_at(log_heights@.take(i as int), h as int),
        decreases n - i,
    {
        if log_heights[i] == h {
            r += 1;
        }
        i += 1;
        assert(log_heights@.take(i as int).drop_last() =~= log_heights@.take(i - 1));
    }
    assert(log_heights@.take(n as int) =~= log_heights@);
    r
}

/// The number of tables that take part in each round: tables of smaller heights join later. The
/// first table is the highest.
pub fn compute_num_chips_each_round(
    log_heights: &[usize],
    num_skip_rounds: usize,
    log_height_threshold: usize,
) -> (r: Vec<usize>)
    requires
        log_heights@.len() > 0,
        forall|i: int| 0 <= i < log_heights@.len() ==> (#[trigger] log_heights@[i]) <= log_heights@[0],
        num_skip_rounds > 0,
        log_height_threshold % num_skip_rounds == 0,
    ensures
        r@.len() == round_count(
            log_heights@[0] as nat,
            num_skip_rounds as nat,
            log_height_threshold as nat,
        ),
        forall|i: int|
            0 <= i < r@.len() ==> #[trigger] r@[i] == tables_joined(
                log_heights@,
                num_skip_rounds as nat,
                log_height_threshold as nat,
                i as nat,
            ),
{
    let max: usize = log_heights[0];
    let ghost skip = num_skip_rounds as nat;
    let ghost threshold = log_height_threshold as nat;
    let high: usize = if max > log_height_threshold {
        max - log_height_threshold
    } else {
        0
    };
    let low: usize = if max > log_height_threshold {
        log_height_threshold / num_skip_rounds
    } else {
        max / num_skip_rounds
    };
    let ghost total = round_count(max as nat, skip, threshold);
    proof {
        let bound = if max > threshold { threshold as int } else { max as int };
        vstd::arithmetic::div_mod::lemma_fundamental_div_mod(bound, skip as int);
        assert(low * skip <= bound) by (nonlinear_arith)
            requires
                skip * low + bound % (skip as int) == bound,
                0 <= bound % (skip as int),
        ;
        assert(low <= low * skip) by (nonlinear_arith)
            requires
                skip > 0,
        ;
    }
    let rounds: usize = high + low;
    let mut r: Vec<usize> = Vec::new();
    let mut current: usize = max;
    let mut joined: usize = 0;
    let mut i: usize = 0;
    while i < rounds
        invariant
            i <= rounds,
            rounds == high + low,
            skip == num_skip_rounds > 0,
            threshold == log_height_threshold,
            max == log_heights@[0],
            log_heights@.len() > 0,
            high == (if max > threshold {
                max - threshold
            } else {
                0
            }),
            low * skip <= (if max > threshold {
                threshold as int
            } else {
                max as int
            }),
            i <= high ==> current == max - i,
            i > high ==> current == max - high - (i - high) * skip,
            current as int == level(max as nat, skip, threshold, i as nat),
            i > 0 ==> joined == tables_joined(log_heights@, skip, threshold, (i - 1) as nat),
            i == 0 ==> joined == 0,
            r@.len() == i,
            forall|j: int|
                0 <= j < i ==> #[trigger] r@[j] == tables_joined(
                    log_heights@,
                    skip,
                    threshold,
                    j as nat,
                ),
        decreases rounds - i,
    {
        proof {
            lemma_joined(log_heights@, skip, threshold, i as nat);
        }
        let len: usize = log_heights.len();
        let here: usize = count_tables(log_heights, current);
        joined = joined + here;
        r.push(joined);
        proof {
            if i >= high {
                assert((i + 1 - high) * skip <= low * skip) by (nonlinear_arith)
                    requires
                        i + 1 - high <= low,
                ;
                assert((i + 1 - high) * skip == (i - high) * skip + skip) by (nonlinear_arith);
            }
        }
        if current > log_height_threshold {
            current = current - 1;
        } else {
            proof {
                if i < high {
                    assert(false);
                }
                if i == high {
                    assert((i - high) * skip == 0) by (nonlinear_arith)
                        requires
                            i == high,
                    ;
                }
            }
            current = current - num_skip_rounds;
        }
        i += 1;
    }
    r
}

/// The number of constraints of the first `i` tables.
pub open spec fn constraints_before(counts: Seq<usize>, i: nat) -> nat
    decreases i,
{
    if i == 0 {
        0
    } else {
        constraints_before(counts, (i - 1) as nat) + counts[i - 1] as nat
    }
}

/// The powers of the challenge that belong to one table, from the greatest down.
pub open spec fn powers_down<F: Field>(alpha: F, start: nat, len: nat) -> Seq<F> {
    Seq::new(len, |j: int| field::power(alpha, (start + len - 1 - j) as nat))
}

/// The powers of the challenge for the constraints of each table: consecutive powers, in reverse
/// order within each table.
pub fn compute_powers_of_alpha<F: Field>(alpha: F, num_constraints: &Vec<usize>) -> (r: Vec<Vec<F>>)
    requires
        alpha.valid(),
    ensures
        r@.len() == num_constraints@.len(),
        forall|i: int|
            0 <= i < r@.len() ==> (#[trigger] r@[i])@ == powers_down(
                alpha,
                constraints_before(num_constraints@, i as nat),
                num_constraints@[i] as nat,
            ),
{
    broadcast use algebra::group_valid;

    let n: usize = num_constraints.len();
    let mut power = F::one();
    let mut r: Vec<Vec<F>> = Vec::new();
    let mut i: usize = 0;
    while i < n
        invariant
            i <= n,
            n == num_constraints@.len(),
            alpha.valid(),
            power == field::power(alpha, constraints_before(num_constraints@, i as nat)),
            r@.len() == i,
            forall|j: int|
                0 <= j < i ==> (#[trigger] r@[j])@ == powers_down(
                    alpha,
                    constraints_before(num_constraints@, j as nat),
                    num_constraints@[j] as nat,
                ),
        decreases n - i,
    {
        let len: usize = num_constraints[i];
        let ghost start = constraints_before(num_constraints@, i as nat);
        let mut up: Vec<F> = Vec::new();
        let mut j: usize = 0;
        while j < len
            invariant
                j <= len,
                alpha.valid(),
                power == field::power(alpha, start + j as nat),
                up@.len() == j,
                forall|k: int| 0 <= k < j ==> #[trigger] up@[k] == field::power(
                    alpha,
                    start + k as nat,
                ),
            decreases len - j,
        {
            up.push(power);
            power = power.mul(alpha);
            proof {
                algebra::lemma_power_valid(alpha, start + j as nat);
            }
            j += 1;
        }
        let mut down: Vec<F> = Vec::new();
        let mut j: usize = 0;
        while j < len
            invariant
                j <= len,
                up@.len() == len,
                forall|k: int| 0 <= k < len ==> #[trigger] up@[k] == field::power(
                    alpha,
                    start + k as nat,
                ),
                down@.len() == j,
                forall|k: int|
                    0 <= k < j ==> #[trigger] down@[k] == powers_down(alpha, start, len as nat)[k],
            decreases len - j,
        {
            down.push(up[len - 1 - j]);
            j += 1;
        }
        assert(down@ =~= powers_down(alpha, start, len as nat));
        r.push(down);
        i += 1;
    }
    r
}

/// Lifts public values into the extension.
pub fn extend_pv<F: Field, EF: ExtensionField<F>>(public_values: &[F]) -> (r: Vec<EF>)
    ensures
        r@ == Seq::new(public_values@.len(), |i: int| EF::embed(public_values@[i])),
{
    let n: usize = public_values.len();
    let mut r: Vec<EF> = Vec::new();
    let mut i: usize = 0;
    while i < n
        invariant
            i <= n,
            n == public_values@.len(),
            r@.len() == i,
            forall|j: int| 0 <= j < i ==> #[trigger] r@[j] == EF::embed(public_values@[j]),
        decreases n - i,
    {
        r.push(EF::from_base(public_values[i]));
        i += 1;
    }
    assert(r@ =~= Seq::new(public_values@.len(), |i: int| EF::embed(public_values@[i])));
    r
}

/// Lanes that hold a value in one place, if any, and zeros elsewhere.
pub open spec fn lanes_with<F: Field>(width: nat, place: Option<int>, value: F) -> Seq<F> {
    Seq::new(
        width,
        |i: int|
            if place == Some(i) {
                value
            } else {
                F::zero_elem()
            },
    )
}

fn make_lanes<F: Field>(width: usize, place: Option<usize>, value: F) -> (r: Vec<F>)
    ensures
        r@ == lanes_with(
            width as nat,
            match place {
                Some(p) => Some(p as int),
                None => None,
            },
            value,
        ),
{
    let ghost at: Option<int> = match place {
        Some(p) => Some(p as int),
        None => None,
    };
    let mut r: Vec<F> = Vec::new();
    let mut i: usize = 0;
    while i < width
        invariant
            i <= width,
            at == (match place {
                Some(p) => Some(p as int),
                None => None,
            }),
            r@ == lanes_with(width as nat, at, value).take(i as int),
        decreases width - i,
    {
        let here: bool = match place {
            Some(p) => p == i,
            None => false,
        };
        r.push(
            if here {
                value
            } else {
                F::zero()
            },
        );
        i += 1;
        assert(r@ =~= lanes_with(width as nat, at, value).take(i as int));
    }
    assert(r@ =~= lanes_with(width as nat, at, value));
    r
}

/// The place of the first row among the rows from `offset` on.
pub open spec fn first_place(offset: nat) -> Option<int> {
    if offset == 0 {
        Some(0int)
    } else {
        None
    }
}

/// The place of the last row among the `width` rows from `offset` on, where it is stored.
pub open spec fn last_place(offset: nat, width: nat, total: nat, stored: nat) -> Option<int> {
    if stored < total {
        None
    } else if total <= width {
        Some(total - 1)
    } else if offset + width == total {
        Some(width - 1)
    } else {
        None
    }
}

/// The selector of the first row, for the `width` rows from `offset` on.
pub fn get_first_sel_packed<F: Field>(
    offset: usize,
    first_value: F,
    total_height: usize,
    stored_height: usize,
    width: usize,
) -> (r: Vec<F>)
    ensures
        r@ == lanes_with(width as nat, first_place(offset as nat), first_value),
{
    make_lanes(
        width,
        if offset == 0 {
            Some(0)
        } else {
            None
        },
        first_value,
    )
}

/// The selector of the last row, for the `width` rows from `offset` on.
pub fn get_last_sel_packed<F: Field>(
    offset: usize,
    last_value: F,
    total_height: usize,
    stored_height: usize,
    width: usize,
) -> (r: Vec<F>)
    requires
        offset + width <= usize::MAX,
    ensures
        r@ == lanes_with(
            width as nat,
            last_place(offset as nat, width as nat, total_height as nat, stored_height as nat),
            last_value,
        ),
{
    let place: Option<usize> = if stored_height < total_height {
        None
    } else if total_height <= width {
        if total_height == 0 {
            None
        } else {
            Some(total_height - 1)
        }
    } else if offset + width == total_height {
        if width == 0 {
            None
        } else {
            Some(width - 1)
        }
    } else {
        None
    };
    let r = make_lanes(width, place, last_value);
    assert(r@ =~= lanes_with(
        width as nat,
        last_place(offset as nat, width as nat, total_height as nat, stored_height as nat),
        last_value,
    ));
    r
}

/// The selector of the first row with a value of the extension.
pub fn get_first_sel_ext_packed<F: Field, EF: ExtensionField<F>>(
    offset: usize,
    first_value: EF,
    total_height: usize,
    stored_height: usize,
    width: usize,
) -> (r: Vec<EF>)
    ensures
        r@ == lanes_with(width as nat, first_place(offset as nat), first_value),
{
    get_first_sel_packed(offset, first_value, total_height, stored_height, width)
}

/// The selector of the last row with a value of the extension.
pub fn get_last_sel_ext_packed<F: Field, EF: ExtensionField<F>>(
    offset: usize,
    last_value: EF,
    total_height: usize,
    stored_height: usize,
    width: usize,
) -> (r: Vec<EF>)
    requires
        offset + width <= usize::MAX,
    ensures
        r@ == lanes_with(
            width as nat,
            last_place(offset as nat, width as nat, total_height as nat, stored_height as nat),
            last_value,
        ),
{
    get_last_sel_packed(offset, last_value, total_height, stored_height, width)
}

/// Splits a sequence into the elements at even and at odd indices.
pub fn deinterleave<F: Copy>(data: &[F]) -> (r: (Vec<F>, Vec<F>))
    ensures
        r.0@ == Seq::new(((data@.len() + 1) / 2) as nat, |i: int| data@[2 * i]),
        r.1@ == Seq::new((data@.len() / 2) as nat, |i: int| data@[2 * i + 1]),
{
    let n: usize = data.len();
    let mut evens: Vec<F> = Vec::new();
    let mut odds: Vec<F> = Vec::new();
    let mut i: usize = 0;
    while i < n
        invariant
            i <= n,
            n == data@.len(),
            evens@.len() == (i + 1) / 2,
            odds@.len() == i / 2,
            forall|j: int| 0 <= j < evens@.len() ==> #[trigger] evens@[j] == data@[2 * j],
            forall|j: int| 0 <= j < odds@.len() ==> #[trigger] odds@[j] == data@[2 * j + 1],
        decreases n - i,
    {
        if i % 2 == 0 {
            evens.push(data[i]);
        } else {
            odds.push(data[i]);
        }
        i += 1;
    }
    assert(evens@ =~= Seq::new(((data@.len() + 1) / 2) as nat, |i: int| data@[2 * i]));
    assert(odds@ =~= Seq::new((data@.len() / 2) as nat, |i: int| data@[2 * i + 1]));
    (evens, odds)
}

/// The product of a sequence.
pub open spec fn product<F: Field>(s: Seq<F>) -> F
    decreases s.len(),
{
    if s.len() == 0 {
        F::one_elem()
    } else {
        product(s.drop_last()).times(s.last())
    }
}

pub proof fn lemma_product_valid<F: Field>(s: Seq<F>)
    ensures
        product(s).valid(),
{
    broadcast use algebra::group_valid;

    F::law_constants();
}

/// A factor may be taken from the front.
proof fn lemma_product_front<F: Field>(s: Seq<F>)
    requires
        s.len() > 0,
        field::all_valid(s),
    ensures
        product(s) == product(s.drop_first()).times(s[0]),
    decreases s.len(),
{
    broadcast use algebra::group_valid;

    F::law_constants();
    assert(s[0].valid());
    if s.len() == 1 {
        assert(s.drop_last() =~= Seq::empty());
        assert(s.drop_first() =~= Seq::empty());
    } else {
        let front = s.drop_last();
        assert forall|i: int| 0 <= i < front.len() implies (#[trigger] front[i]).valid() by {
            assert(front[i] == s[i]);
        }
        lemma_product_front(front);
        assert(s.drop_first().drop_last() =~= front.drop_first());
        let p = product(front.drop_first());
        lemma_product_valid(front.drop_first());
        assert(s.last().valid());
        algebra::lemma_products(p, s[0], s.last());
    }
}

/// The product of all elements but one is the product of the others.
pub proof fn law_product_without<F: Field>(s: Seq<F>, i: int)
    requires
        0 <= i < s.len(),
        field::all_valid(s),
    ensures
        product(s.take(i)).times(product(s.skip(i + 1))) == product(s.remove(i)),
{
    broadcast use algebra::group_valid;

    F::law_constants();
    lemma_product_valid(s.take(i));
    if i + 1 == s.len() {
        assert(s.skip(i + 1) =~= Seq::empty());
        assert(s.remove(i) =~= s.take(i));
        algebra::lemma_products(product(s.take(i)), F::one_elem(), F::one_elem());
    } else {
        lemma_without_step(s, i);
    }
}

proof fn lemma_without_step<F: Field>(s: Seq<F>, i: int)
    requires
        0 <= i < s.len() - 1,
        field::all_valid(s),
    ensures
        product(s.take(i)).times(product(s.skip(i + 1))) == product(s.remove(i)),
    decreases s.len(),
{
    broadcast use algebra::group_valid;

    F::law_constants();
    let front = s.drop_last();
    let last = s.last();
    assert(s[s.len() - 1].valid());
    assert forall|j: int| 0 <= j < front.len() implies (#[trigger] front[j]).valid() by {
        assert(front[j] == s[j]);
    }
    let a = product(s.take(i));
    lemma_product_valid(s.take(i));
    assert(front.take(i) =~= s.take(i));
    assert(s.skip(i + 1).drop_last() =~= front.skip(i + 1));
    assert(s.remove(i).drop_last() =~= front.remove(i));
    let b = product(front.skip(i + 1));
    lemma_product_valid(front.skip(i + 1));
    if i < front.len() - 1 {
        lemma_without_step(front, i);
    } else {
        assert(front.skip(i + 1) =~= Seq::empty());
        assert(front.remove(i) =~= front.take(i));
        algebra::lemma_products(a, b, b);
    }
    algebra::lemma_products(a, b, last);
}

/// For each index the product of all other elements.
pub fn products_all_but_one<F: Field>(a: &[F]) -> (r: Vec<F>)
    requires
        field::all_valid(a@),
    ensures
        r@.len() == a@.len(),
        forall|i: int| 0 <= i < r@.len() ==> #[trigger] r@[i] == product(a@.remove(i)),
{
    broadcast use algebra::group_valid;

    let n: usize = a.len();
    let mut before: Vec<F> = Vec::new();
    let mut prefix = F::one();
    let mut i: usize = 0;
    assert(a@.take(0) =~= Seq::empty());
    while i < n
        invariant
            i <= n,
            n == a@.len(),
            prefix == product(a@.take(i as int)),
            before@.len() == i,
            forall|j: int| 0 <= j < i ==> #[trigger] before@[j] == product(a@.take(j)),
        decreases n - i,
    {
        before.push(prefix);
        prefix = prefix.mul(a[i]);
        i += 1;
        assert(a@.take(i as int).drop_last() =~= a@.take(i - 1));
    }
    let mut back: Vec<F> = Vec::new();
    let mut suffix = F::one();
    let mut k: usize = n;
    assert(a@.skip(n as int) =~= Seq::empty());
    while k > 0
        invariant
            k <= n,
            n == a@.len(),
            field::all_valid(a@),
            suffix == product(a@.skip(k as int)),
            before@.len() == n,
            forall|j: int| 0 <= j < n ==> #[trigger] before@[j] == product(a@.take(j)),
            back@.len() == n - k,
            forall|j: int|
                0 <= j < back@.len() ==> #[trigger] back@[j] == product(a@.remove(n - 1 - j)),
        decreases k,
    {
        let i: usize = k - 1;
        proof {
            law_product_without(a@, i as int);
            let tail = a@.skip(i as int);
            assert forall|j: int| 0 <= j < tail.len() implies (#[trigger] tail[j]).valid() by {
                assert(tail[j] == a@[i + j]);
            }
            lemma_product_front(tail);
            assert(tail.drop_first() =~= a@.skip(k as int));
        }
        back.push(before[i].mul(suffix));
        suffix = suffix.mul(a[i]);
        k = i;
    }
    let mut r: Vec<F> = Vec::new();
    let mut i: usize = 0;
    while i < n
        invariant
            i <= n,
            n == a@.len(),
            back@.len() == n,
            forall|j: int|
                0 <= j < back@.len() ==> #[trigger] back@[j] == product(a@.remove(n - 1 - j)),
            r@.len() == i,
            forall|j: int| 0 <= j < i ==> #[trigger] r@[j] == product(a@.remove(j)),
        decreases n - i,
    {
        r.push(back[n - 1 - i]);
        i += 1;
    }
    r
}

/// The lists as sequences.
pub open spec fn contents_of<F>(vectors: Seq<&[F]>) -> Seq<Seq<F>> {
    Seq::new(vectors.len(), |k: int| vectors[k]@)
}

/// The entries of the vectors at an index.
pub open spec fn entries_at<F>(vectors: Seq<Seq<F>>, i: int) -> Seq<F> {
    Seq::new(vectors.len(), |k: int| vectors[k][i])
}

/// The weighted sum of vectors.
pub fn linear_combination_slices<F: Field>(weights: &[F], vectors: &[&[F]]) -> (r: Vec<F>)
    requires
        weights@.len() == vectors@.len(),
        forall|k: int|
            0 <= k < vectors@.len() ==> (#[trigger] contents_of(vectors@)[k]).len() == contents_of(
                vectors@,
            )[0].len(),
    ensures
        r@ == (if weights@.len() == 0 {
            Seq::empty()
        } else {
            Seq::new(
                contents_of(vectors@)[0].len(),
                |i: int| math::dot(weights@, entries_at(contents_of(vectors@), i)),
            )
        }),
{
    let k: usize = weights.len();
    let ghost all = contents_of(vectors@);
    if k == 0 {
        return Vec::new();
    }
    assert(all[0].len() == vectors@[0]@.len());
    let m: usize = vectors[0].len();
    let mut r: Vec<F> = Vec::new();
    let mut i: usize = 0;
    while i < m
        invariant
            i <= m,
            k == weights@.len(),
            k == vectors@.len(),
            all == contents_of(vectors@),
            forall|j: int| 0 <= j < all.len() ==> (#[trigger] all[j]).len() == m,
            r@.len() == i,
            forall|j: int| 0 <= j < i ==> #[trigger] r@[j] == math::dot(weights@, entries_at(all, j)),
        decreases m - i,
    {
        let ghost column = entries_at(all, i as int);
        let mut acc = F::zero();
        let mut j: usize = 0;
        assert(weights@.take(0) =~= Seq::empty());
        while j < k
            invariant
                j <= k,
                i < m,
                k == weights@.len(),
                k == vectors@.len(),
                all == contents_of(vectors@),
                column == entries_at(all, i as int),
                forall|j: int| 0 <= j < all.len() ==> (#[trigger] all[j]).len() == m,
                acc == math::dot(weights@.take(j as int), column.take(j as int)),
            decreases k - j,
        {
            assert(all[j as int].len() == m && all[j as int] == vectors@[j as int]@);
            let v: &[F] = vectors[j];
            acc = acc.add(weights[j].mul(v[i]));
            j += 1;
            assert(weights@.take(j as int).drop_last() =~= weights@.take(j - 1));
            assert(column.take(j as int).drop_last() =~= column.take(j - 1));
        }
        assert(weights@.take(k as int) =~= weights@);
        assert(column.take(k as int) =~= column);
        r.push(acc);
        i += 1;
    }
    assert(r@ =~= Seq::new(all[0].len(), |i: int| math::dot(weights@, entries_at(all, i))));
    r
}

} // verus!
