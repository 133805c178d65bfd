//! Folding of Reed-Solomon codewords.
use vstd::prelude::*;
use vstd::arithmetic::power2::*;
use crate::bits;
use crate::field;
use crate::field::algebra;
use crate::field::{Field, TwoAdicField};

verus! {

/// The evaluation point of pair `i` of a codeword of length `2^log_n` in bit-reversed order: the
/// pair holds the values at this point and at its opposite.
pub open spec fn point<EF: TwoAdicField>(log_n: nat, i: nat) -> EF {
    field::power(EF::generator_elem(log_n), bits::reversed(i, (log_n - 1) as nat))
}

/// The slope of the line through `(x, e0)` and `(-x, e1)`.
pub open spec fn slope<EF: Field>(e0: EF, e1: EF, x: EF) -> EF {
    field::quotient(e1.minus(e0), x.opposite().minus(x))
}

/// The value at `beta` of the line through `(x, e0)` and `(-x, e1)`.
pub open spec fn line_at<EF: Field>(e0: EF, e1: EF, x: EF, beta: EF) -> EF {
    e0.minus(slope(e0, e1, x).times(x)).plus(slope(e0, e1, x).times(beta))
}

/// The codeword of half the length whose entry `i` is the value at `beta` of the line through the
/// entries of pair `i`.
pub open spec fn folded<EF: TwoAdicField>(codeword: Seq<EF>, beta: EF) -> Seq<EF> {
    Seq::new(
        codeword.len() / 2,
        |i: int|
            line_at(
                codeword[2 * i],
                codeword[2 * i + 1],
                point(bits::log2(codeword.len()), i as nat),
                beta,
            ),
    )
}

/// A codeword folded once for each challenge.
pub open spec fn folded_all<EF: TwoAdicField>(codeword: Seq<EF>, challenges: Seq<EF>) -> Seq<EF>
    decreases challenges.len(),
{
    if challenges.len() == 0 {
        codeword
    } else {
        folded_all(folded(codeword, challenges[0]), challenges.drop_first())
    }
}

/// One fold of row `j` of a codeword of length `2^log_len` cut into rows of `row.len()` entries.
pub open spec fn row_folded<EF: TwoAdicField>(
    row: Seq<EF>,
    j: nat,
    log_len: nat,
    beta: EF,
) -> Seq<EF> {
    let half = row.len() / 2;
    Seq::new(
        half,
        |p: int| line_at(row[2 * p], row[2 * p + 1], point(log_len, j * half + p as nat), beta),
    )
}

/// Row `j` of a codeword of length `2^log_len`, folded once for each challenge.
pub open spec fn row_folded_all<EF: TwoAdicField>(
    row: Seq<EF>,
    j: nat,
    log_len: nat,
    challenges: Seq<EF>,
) -> Seq<EF>
    decreases challenges.len(),
{
    if challenges.len() == 0 {
        row
    } else {
        row_folded_all(
            row_folded(row, j, log_len, challenges[0]),
            j,
            (log_len - 1) as nat,
            challenges.drop_first(),
        )
    }
}

/// The denominator of the slope is a unit where the point is.
pub proof fn lemma_denominator<EF: Field>(x: EF)
    requires
        x.valid(),
        field::is_unit(x),
    ensures
        x.opposite().minus(x) == EF::from_int(2).times(x).opposite(),
        field::is_unit(x.opposite().minus(x)),
        field::inverse(x.opposite().minus(x)) == field::inverse(EF::from_int(2)).times(
            field::inverse(x),
        ).opposite(),
        x.opposite().minus(x) != EF::zero_elem(),
{
    broadcast use algebra::group_valid;

    let two = EF::from_int(2);
    algebra::lemma_two_unit::<EF>();
    algebra::lemma_double(x);
    algebra::lemma_opposites(x, x);
    EF::law_plus(x.opposite(), x, x);
    algebra::lemma_unit_product(two, x);
    algebra::lemma_unit_opposite(two.times(x));
    algebra::lemma_unit(two.times(x).opposite());
}

/// The value of the line in terms of the sum and the difference of its two values.
pub proof fn lemma_line_at<EF: Field>(e0: EF, e1: EF, x: EF, beta: EF)
    requires
        e0.valid(),
        e1.valid(),
        x.valid(),
        beta.valid(),
        field::is_unit(x),
    ensures
        ({
            let half = field::inverse(EF::from_int(2));
            let power = field::inverse(x).times(beta.times(half));
            line_at(e0, e1, x, beta) == half.plus(power).times(e0).plus(
                half.minus(power).times(e1),
            )
        }),
{
    broadcast use algebra::group_valid;

    let two = EF::from_int(2);
    algebra::lemma_two_unit::<EF>();
    algebra::lemma_unit(two);
    algebra::lemma_unit(x);
    let h = field::inverse(two);
    let xi = field::inverse(x);
    let power = xi.times(beta.times(h));
    lemma_denominator(x);
    let d = e0.minus(e1);
    let hx = h.times(xi);
    let s = slope(e0, e1, x);
    assert(s == d.times(hx)) by {
        algebra::lemma_opposites(e0, e1);
        algebra::lemma_opposites(d, d);
        algebra::lemma_products(d.opposite(), hx, hx);
        algebra::lemma_products(d, hx, hx);
        algebra::lemma_opposites(d.times(hx), d);
    }
    assert(s.times(x) == d.times(h)) by {
        algebra::lemma_products(d, hx, x);
        algebra::lemma_products(h, xi, x);
    }
    assert(s.times(beta) == d.times(power)) by {
        algebra::lemma_products(d, hx, beta);
        algebra::lemma_products(h, xi, beta);
        algebra::lemma_products(xi, h, beta);
        algebra::lemma_products(h, beta, beta);
        algebra::lemma_products(xi, beta, h);
    }
    let a = e0.times(h);
    let b = e1.times(h);
    assert(a.plus(a) == e0) by {
        algebra::lemma_products(e0, h, h);
        algebra::lemma_double(h);
        algebra::lemma_products(e0, h, two);
    }
    assert(d.times(h) == a.minus(b)) by {
        algebra::lemma_products(h, e0, e1);
    }
    assert(e0.minus(d.times(h)) == a.plus(b)) by {
        // (a + a) - (a - b) = a + b.
        algebra::lemma_regroup(a.plus(a), a, b);
        algebra::lemma_regroup(a, a, a);
        algebra::lemma_opposites(a, a);
    }
    let u = e0.times(power);
    let v = e1.times(power);
    assert(d.times(power) == u.minus(v)) by {
        algebra::lemma_products(power, e0, e1);
    }
    assert(half_sum(h, power, e0, e1) == a.plus(u).plus(b.minus(v))) by {
        algebra::lemma_products(e0, h, power);
        algebra::lemma_products(e0, power, h);
        algebra::lemma_products(e1, h, power);
        algebra::lemma_products(e1, power, h);
    }
    // (a + b) + (u - v) = (a + u) + (b - v).
    algebra::lemma_regroup(a, b, u.minus(v));
    algebra::lemma_regroup(a, u, b.minus(v));
    algebra::lemma_regroup(b, u, v);
    algebra::lemma_regroup(u, b, v);
}

spec fn half_sum<EF: Field>(h: EF, power: EF, e0: EF, e1: EF) -> EF {
    h.plus(power).times(e0).plus(h.minus(power).times(e1))
}

/// The evaluation points are units.
pub proof fn lemma_point_unit<EF: TwoAdicField>(log_n: nat, i: nat)
    requires
        log_n <= EF::two_adicity(),
    ensures
        field::is_unit(point::<EF>(log_n, i)),
        point::<EF>(log_n, i).valid(),
        field::is_unit(EF::generator_elem(log_n)),
{
    let g = EF::generator_elem(log_n);
    algebra::lemma_generator_order::<EF>(log_n);
    algebra::lemma_unit_power(g, bits::reversed(i, (log_n - 1) as nat));
    algebra::lemma_power_valid(g, bits::reversed(i, (log_n - 1) as nat));
}

/// Folds a codeword with one challenge.
pub fn fold_codeword<EF: TwoAdicField>(codeword: &[EF], beta: EF) -> (r: Vec<EF>)
    requires
        codeword@.len() >= 2,
        bits::power_of_two(codeword@.len()),
        bits::log2(codeword@.len()) <= EF::two_adicity(),
        field::all_valid(codeword@),
        beta.valid(),
    ensures
        r@ == folded(codeword@, beta),
{
    broadcast use algebra::group_valid;

    let n: usize = codeword.len();
    let half: usize = n / 2;
    let log_n: usize = bits::log2_strict(n);
    let g = EF::two_adic_generator(log_n);
    proof {
        algebra::lemma_generator_order::<EF>(log_n as nat);
        algebra::lemma_unit(g);
        algebra::lemma_two_unit::<EF>();
        algebra::lemma_unit(EF::from_int(2));
    }
    let g_inv = field::divide(EF::one(), g);
    let two = EF::from_u64(2);
    let one_half = field::divide(EF::one(), two);
    proof {
        algebra::lemma_products(field::inverse(g), g, g);
        algebra::lemma_products(field::inverse(two), two, two);
    }
    let half_beta = beta.mul(one_half);
    let mut out: Vec<EF> = Vec::new();
    let mut i: usize = 0;
    while i < half
        invariant
            i <= half,
            half == codeword@.len() / 2,
            codeword@.len() <= usize::MAX,
            1 <= log_n < usize::BITS,
            log_n as nat == bits::log2(codeword@.len()),
            g == EF::generator_elem(log_n as nat),
            g.valid(),
            log_n <= EF::two_adicity(),
            field::is_unit(g),
            g_inv == field::inverse(g),
            g_inv.valid(),
            one_half == field::inverse(EF::from_int(2)),
            one_half.valid(),
            half_beta == beta.times(one_half),
            field::all_valid(codeword@),
            beta.valid(),
            out@ == folded(codeword@, beta).subrange(0, i as int),
        decreases half - i,
    {
        let e: usize = bits::reverse_bits_len(i, log_n - 1);
        let power = algebra::exp_u64(g_inv, e as u64).mul(half_beta);
        let r0 = codeword[2 * i];
        let r1 = codeword[2 * i + 1];
        proof {
            lemma_point_unit::<EF>(log_n as nat, i as nat);
            algebra::lemma_unit_power(g, e as nat);
            assert(r0.valid() && r1.valid());
            lemma_line_at(r0, r1, point(log_n as nat, i as nat), beta);
        }
        let v = one_half.add(power).mul(r0).add(one_half.sub(power).mul(r1));
        out.push(v);
        i = i + 1;
        assert(out@ =~= folded(codeword@, beta).subrange(0, i as int));
    }
    assert(out@ =~= folded(codeword@, beta));
    out
}

/// The value at `beta` of the line through the entries of pair `pair_index` of a codeword of
/// length `2^(log_folded_height + 1)`.
pub fn fold_pair<EF: TwoAdicField>(
    e0: EF,
    e1: EF,
    pair_index: usize,
    log_folded_height: usize,
    beta: EF,
) -> (r: EF)
    requires
        log_folded_height < EF::two_adicity(),
        log_folded_height < usize::BITS,
    ensures
        r == line_at(e0, e1, point((log_folded_height + 1) as nat, pair_index as nat), beta),
{
    broadcast use algebra::group_valid;

    let generator_base = EF::two_adic_generator(log_folded_height + 1);
    proof {
        algebra::lemma_generator_order::<EF>((log_folded_height + 1) as nat);
        bits::lemma_reversed_bound(pair_index as nat, log_folded_height as nat);
    }
    let x = algebra::exp_u64(
        generator_base,
        bits::reverse_bits_len(pair_index, log_folded_height) as u64,
    );
    proof {
        lemma_point_unit::<EF>((log_folded_height + 1) as nat, pair_index as nat);
        lemma_denominator(x);
    }
    let slope = field::divide(e1.sub(e0), x.neg().sub(x));
    let intercept = e0.sub(slope.mul(x));
    intercept.add(slope.mul(beta))
}

/// Folds one opened row of `2^k` codeword entries across `k` rounds. The row is row
/// `pair_index_group` of a codeword of length `2^log_codeword_len` cut into rows of `2^k` entries,
/// and `challenges` holds one challenge for each round.
pub fn fold_row_cross_round<EF: TwoAdicField>(
    row: &[EF],
    pair_index_group: usize,
    log_codeword_len: usize,
    challenges: &[EF],
) -> (r: EF)
    requires
        challenges@.len() <= log_codeword_len < usize::BITS,
        row@.len() == pow2(challenges@.len()),
        log_codeword_len <= EF::two_adicity(),
        pair_index_group < pow2((log_codeword_len - challenges@.len()) as nat),
    ensures
        r == row_folded_all(
            row@,
            pair_index_group as nat,
            log_codeword_len as nat,
            challenges@,
        )[0],
{
    let k: usize = challenges.len();
    let mut buf: Vec<EF> = Vec::new();
    let mut c: usize = 0;
    while c < row.len()
        invariant
            c <= row@.len(),
            buf@ == row@.subrange(0, c as int),
        decreases row@.len() - c,
    {
        buf.push(row[c]);
        c = c + 1;
        assert(buf@ =~= row@.subrange(0, c as int));
    }
    assert(buf@ =~= row@);
    let ghost target = row_folded_all(
        row@,
        pair_index_group as nat,
        log_codeword_len as nat,
        challenges@,
    );
    assert(challenges@.subrange(0, k as int) =~= challenges@);
    let mut t: usize = 0;
    while t < k
        invariant
            t <= k,
            k == challenges@.len(),
            k <= log_codeword_len < usize::BITS,
            log_codeword_len <= EF::two_adicity(),
            buf@.len() == pow2((k - t) as nat),
            pair_index_group < pow2((log_codeword_len - k) as nat),
            target == row_folded_all(
                buf@,
                pair_index_group as nat,
                (log_codeword_len - t) as nat,
                challenges@.subrange(t as int, k as int),
            ),
        decreases k - t,
    {
        let r = challenges[t];
        let log_len: usize = log_codeword_len - t;
        let half: usize = buf.len() / 2;
        proof {
            lemma_pow2_unfold((k - t) as nat);
            lemma_pow2_pos((k - t - 1) as nat);
        }
        let generator_base = EF::two_adic_generator(log_len);
        proof {
            algebra::lemma_generator_order::<EF>(log_len as nat);
        }
        let mut next: Vec<EF> = Vec::new();
        let mut p: usize = 0;
        while p < half
            invariant
                p <= half,
                half == buf@.len() / 2,
                half == pow2((k - t - 1) as nat),
                buf@.len() == 2 * half <= usize::MAX,
                t < k <= log_codeword_len < usize::BITS,
                1 <= log_len < usize::BITS,
                log_len == log_codeword_len - t,
                generator_base == EF::generator_elem(log_len as nat),
                generator_base.valid(),
                log_len <= EF::two_adicity(),
                pair_index_group < pow2((log_codeword_len - k) as nat),
                next@ == row_folded(buf@, pair_index_group as nat, log_len as nat, r).subrange(
                    0,
                    p as int,
                ),
            decreases half - p,
        {
            broadcast use algebra::group_valid;

            let e0 = buf[2 * p];
            let e1 = buf[2 * p + 1];
            proof {
                lemma_global_pair(
                    pair_index_group as nat,
                    (log_codeword_len - k) as nat,
                    (k - t - 1) as nat,
                    p as nat,
                );
                bits::lemma_pow2_bits();
                if log_len - 1 < usize::BITS {
                    lemma_pow2_strictly_increases((log_len - 1) as nat, usize::BITS as nat);
                }
            }
            let global_pair: usize = pair_index_group * half + p;
            let x = algebra::exp_u64(
                generator_base,
                bits::reverse_bits_len(global_pair, log_len - 1) as u64,
            );
            proof {
                lemma_point_unit::<EF>(log_len as nat, global_pair as nat);
                lemma_denominator(x);
            }
            let slope = field::divide(e1.sub(e0), x.neg().sub(x));
            let intercept = e0.sub(slope.mul(x));
            next.push(intercept.add(slope.mul(r)));
            p = p + 1;
            assert(next@ =~= row_folded(
                buf@,
                pair_index_group as nat,
                log_len as nat,
                r,
            ).subrange(0, p as int));
        }
        assert(next@ =~= row_folded(buf@, pair_index_group as nat, log_len as nat, r));
        assert(challenges@.subrange(t as int, k as int).drop_first() =~= challenges@.subrange(
            t + 1,
            k as int,
        ));
        buf = next;
        t = t + 1;
    }
    proof {
        lemma2_to64();
        assert(challenges@.subrange(t as int, k as int) =~= Seq::empty());
    }
    buf[0]
}

/// The index of a pair inside the whole codeword stays below the number of pairs.
proof fn lemma_global_pair(j: nat, m: nat, s: nat, p: nat)
    requires
        j < pow2(m),
        p < pow2(s),
    ensures
        j * pow2(s) + p < pow2(m + s),
{
    lemma_pow2_adds(m, s);
    assert(j * pow2(s) + p < pow2(m) * pow2(s)) by (nonlinear_arith)
        requires
            j + 1 <= pow2(m),
            p < pow2(s),
    ;
}

/// Law: folding the opened row alone gives the entry of the wholly folded codeword at the row's
/// index.
pub proof fn law_row_fold_matches_codeword_fold<EF: TwoAdicField>(
    codeword: Seq<EF>,
    log_len: nat,
    challenges: Seq<EF>,
    j: nat,
)
    requires
        codeword.len() == pow2(log_len),
        challenges.len() <= log_len,
        j < pow2((log_len - challenges.len()) as nat),
    ensures
        ({
            let width = pow2(challenges.len()) as int;
            row_folded_all(
                codeword.subrange(j * width, j * width + width),
                j,
                log_len,
                challenges,
            )[0] == folded_all(codeword, challenges)[j as int]
        }),
    decreases challenges.len(),
{
    let k = challenges.len();
    let width = pow2(k) as int;
    lemma_pow2_adds((log_len - k) as nat, k);
    lemma_pow2_pos(k);
    assert(0 <= j * width && j * width + width <= codeword.len()) by (nonlinear_arith)
        requires
            codeword.len() == pow2((log_len - k) as nat) * width,
            j + 1 <= pow2((log_len - k) as nat),
            j >= 0,
            width > 0,
    ;
    let row = codeword.subrange(j * width, j * width + width);
    if k == 0 {
        lemma2_to64();
        assert(j * width == j) by (nonlinear_arith)
            requires
                width == 1,
        ;
    } else {
        bits::lemma_log2_pow2(log_len);
        let half = pow2((k - 1) as nat) as int;
        lemma_pow2_unfold(k);
        lemma_pow2_unfold(log_len);
        let next_word = folded(codeword, challenges[0]);
        let next_row = row_folded(row, j, log_len, challenges[0]);
        let tail = challenges.drop_first();
        assert(j * width == 2 * (j * half)) by (nonlinear_arith)
            requires
                width == 2 * half,
        ;
        assert(next_row =~= next_word.subrange(j * half, j * half + half)) by {
            assert forall|p: int| 0 <= p < half implies next_row[p] == next_word[j * half + p] by {
                assert(row[2 * p] == codeword[2 * (j * half + p)]);
                assert(row[2 * p + 1] == codeword[2 * (j * half + p) + 1]);
            }
        }
        law_row_fold_matches_codeword_fold(next_word, (log_len - 1) as nat, tail, j);
    }
}

} // verus!
