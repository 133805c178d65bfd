//! Linear combinations of tables and their codewords.
use vstd::prelude::*;
use vstd::arithmetic::power2::*;
use crate::basefold::batch;
use crate::basefold::batch::EntryModel;
use crate::basefold::encode;
use crate::basefold::math;
use crate::basefold::mlpoly;
use crate::basefold::mmcs::MatrixModel;
use crate::bits;
use crate::field;
use crate::field::algebra;
use crate::field::{ExtensionField, Field, TwoAdicExtension, TwoAdicField};

verus! {

/// The table `x a + y b`.
pub open spec fn combined<F: Field>(x: F, a: Seq<F>, y: F, b: Seq<F>) -> Seq<F> {
    Seq::new(a.len(), |i: int| x.times(a[i]).plus(y.times(b[i])))
}

/// The table of one value.
pub open spec fn constant<F>(value: F, len: nat) -> Seq<F> {
    Seq::new(len, |i: int| value)
}

proof fn lemma_lerp_combined<F: Field>(x: F, a0: F, a1: F, y: F, b0: F, b1: F, r: F)
    requires
        x.valid(),
        a0.valid(),
        a1.valid(),
        y.valid(),
        b0.valid(),
        b1.valid(),
        r.valid(),
    ensures
        mlpoly::lerp(x.times(a0).plus(y.times(b0)), x.times(a1).plus(y.times(b1)), r) == x.times(
            mlpoly::lerp(a0, a1, r),
        ).plus(y.times(mlpoly::lerp(b0, b1, r))),
{
    broadcast use algebra::group_valid;

    let xa0 = x.times(a0);
    let xa1 = x.times(a1);
    let yb0 = y.times(b0);
    let yb1 = y.times(b1);
    // (xa1 + yb1) - (xa0 + yb0) == (xa1 - xa0) + (yb1 - yb0)
    algebra::lemma_plus_minus_plus(xa1, yb1, xa0, yb0);
    let da = xa1.minus(xa0);
    let db = yb1.minus(yb0);
    F::law_times(r, da, db);
    // r (x d) == x (r d)
    algebra::lemma_products(x, a1, a0);
    algebra::lemma_products(y, b1, b0);
    algebra::lemma_products(r, x, a1.minus(a0));
    algebra::lemma_products(x, r, a1.minus(a0));
    algebra::lemma_products(r, y, b1.minus(b0));
    algebra::lemma_products(y, r, b1.minus(b0));
    F::law_times(x, a0, r.times(a1.minus(a0)));
    F::law_times(y, b0, r.times(b1.minus(b0)));
    let p = r.times(da);
    let q = r.times(db);
    assert(p == x.times(r.times(a1.minus(a0)))) by {
        assert(da == x.times(a1.minus(a0)));
        assert(r.times(x.times(a1.minus(a0))) == r.times(x).times(a1.minus(a0)));
        assert(r.times(x) == x.times(r));
    }
    assert(q == y.times(r.times(b1.minus(b0)))) by {
        assert(db == y.times(b1.minus(b0)));
        assert(r.times(y.times(b1.minus(b0))) == r.times(y).times(b1.minus(b0)));
        assert(r.times(y) == y.times(r));
    }
    // (xa0 + yb0) + (p + q) == (xa0 + p) + (yb0 + q)
    F::law_plus(xa0, yb0, p.plus(q));
    F::law_plus(yb0, p, q);
    F::law_plus(p, yb0, q);
    F::law_plus(xa0, p, yb0.plus(q));
    F::law_plus(yb0.plus(p), q, q);
}

/// Binding a variable respects combinations.
pub proof fn lemma_bound_combined<F: Field>(x: F, a: Seq<F>, y: F, b: Seq<F>, r: F)
    requires
        a.len() == b.len(),
        field::all_valid(a),
        field::all_valid(b),
        x.valid(),
        y.valid(),
        r.valid(),
    ensures
        mlpoly::bound_bottom(combined(x, a, y, b), r) == combined(
            x,
            mlpoly::bound_bottom(a, r),
            y,
            mlpoly::bound_bottom(b, r),
        ),
{
    let left = mlpoly::bound_bottom(combined(x, a, y, b), r);
    let right = combined(x, mlpoly::bound_bottom(a, r), y, mlpoly::bound_bottom(b, r));
    assert forall|i: int| 0 <= i < left.len() implies left[i] == right[i] by {
        lemma_lerp_combined(x, a[2 * i], a[2 * i + 1], y, b[2 * i], b[2 * i + 1], r);
    }
    assert(left =~= right);
}

pub proof fn lemma_combined_valid<F: Field>(x: F, a: Seq<F>, y: F, b: Seq<F>)
    ensures
        field::all_valid(combined(x, a, y, b)),
{
    broadcast use algebra::group_valid;

}

/// The value of a polynomial respects combinations of tables.
proof fn lemma_mle_combined<F: Field>(x: F, a: Seq<F>, y: F, b: Seq<F>, z: F)
    requires
        a.len() == b.len() > 0,
        field::all_valid(a),
        field::all_valid(b),
        x.valid(),
        y.valid(),
        z.valid(),
    ensures
        encode::mle_at(combined(x, a, y, b), z) == x.times(encode::mle_at(a, z)).plus(
            y.times(encode::mle_at(b, z)),
        ),
    decreases a.len(),
{
    broadcast use algebra::group_valid;

    if a.len() > 1 {
        lemma_bound_combined(x, a, y, b, z);
        encode::lemma_bound_bottom_valid(a, z);
        encode::lemma_bound_bottom_valid(b, z);
        lemma_mle_combined(
            x,
            mlpoly::bound_bottom(a, z),
            y,
            mlpoly::bound_bottom(b, z),
            z.times(z),
        );
    }
}

/// The value of the polynomial that is the same everywhere.
proof fn lemma_mle_constant<F: Field>(value: F, len: nat, z: F)
    requires
        len > 0,
        value.valid(),
        z.valid(),
    ensures
        encode::mle_at(constant(value, len), z) == value,
    decreases len,
{
    broadcast use algebra::group_valid;

    if len > 1 {
        let c = constant(value, len);
        F::law_constants();
        algebra::lemma_opposites(value, value);
        F::law_plus(value, value, value);
        algebra::lemma_products(z, z, z);
        assert(mlpoly::lerp(value, value, z) == value) by {
            assert(value.minus(value) == F::zero_elem());
        }
        assert(mlpoly::bound_bottom(c, z) =~= constant(value, len / 2));
        lemma_mle_constant(value, len / 2, z.times(z));
    }
}

/// The point of an entry of a codeword is canonical.
pub proof fn lemma_code_point<F: TwoAdicField>(n: nat, j: nat)
    requires
        n <= F::two_adicity(),
    ensures
        field::power(F::generator_elem(n), j).valid(),
{
    broadcast use algebra::group_valid;

    F::law_constants();
    algebra::lemma_power_valid(F::generator_elem(n), j);
}

proof fn lemma_repeated_valid<F: Field>(a: Seq<F>, log_blowup: nat)
    requires
        a.len() > 0,
        field::all_valid(a),
    ensures
        encode::repeated(a, log_blowup).len() > 0,
        field::all_valid(encode::repeated(a, log_blowup)),
{
    let big = encode::repeated(a, log_blowup);
    lemma_pow2_pos(log_blowup);
    assert(big.len() > 0) by (nonlinear_arith)
        requires
            big.len() == a.len() * pow2(log_blowup),
            a.len() > 0,
            pow2(log_blowup) > 0,
    ;
    assert forall|i: int| 0 <= i < big.len() implies (#[trigger] big[i]).valid() by {
        vstd::arithmetic::div_mod::lemma_mod_bound(i, a.len() as int);
        assert(a[i % a.len() as int].valid());
    }
}

/// The codeword of a combination of tables is the combination of their codewords.
pub proof fn law_encoding_is_linear<F: TwoAdicField>(
    x: F,
    a: Seq<F>,
    y: F,
    b: Seq<F>,
    log_blowup: nat,
)
    requires
        a.len() == b.len() > 0,
        bits::log2(a.len()) + log_blowup <= F::two_adicity(),
        field::all_valid(a),
        field::all_valid(b),
        x.valid(),
        y.valid(),
    ensures
        encode::encoded(combined(x, a, y, b), log_blowup) == combined(
            x,
            encode::encoded(a, log_blowup),
            y,
            encode::encoded(b, log_blowup),
        ),
{
    let n = bits::log2(a.len()) + log_blowup;
    let left = encode::encoded(combined(x, a, y, b), log_blowup);
    let right = combined(
        x,
        encode::encoded(a, log_blowup),
        y,
        encode::encoded(b, log_blowup),
    );
    let ra = encode::repeated(a, log_blowup);
    let rb = encode::repeated(b, log_blowup);
    lemma_repeated_valid(a, log_blowup);
    lemma_repeated_valid(b, log_blowup);
    assert(encode::repeated(combined(x, a, y, b), log_blowup) =~= combined(x, ra, y, rb)) by {
        assert forall|i: int| 0 <= i < ra.len() implies encode::repeated(
            combined(x, a, y, b),
            log_blowup,
        )[i] == combined(x, ra, y, rb)[i] by {
            vstd::arithmetic::div_mod::lemma_mod_bound(i, a.len() as int);
        }
    }
    assert forall|j: int| 0 <= j < left.len() implies left[j] == right[j] by {
        let z = field::power(F::generator_elem(n), bits::reversed(j as nat, n));
        lemma_code_point::<F>(n, bits::reversed(j as nat, n));
        lemma_mle_combined(x, ra, y, rb, z);
    }
    assert(left =~= right);
}

/// The codeword of a table of one value holds that value everywhere.
pub proof fn law_constant_encoding<F: TwoAdicField>(value: F, len: nat, log_blowup: nat)
    requires
        len > 0,
        bits::log2(len) + log_blowup <= F::two_adicity(),
        value.valid(),
    ensures
        encode::encoded(constant(value, len), log_blowup) == constant(
            value,
            pow2(bits::log2(len) + log_blowup),
        ),
{
    let n = bits::log2(len) + log_blowup;
    let c = constant(value, len);
    let word = encode::encoded(c, log_blowup);
    lemma_repeated_valid(c, log_blowup);
    assert(encode::repeated(c, log_blowup) =~= constant(value, len * pow2(log_blowup)));
    assert forall|j: int| 0 <= j < word.len() implies word[j] == value by {
        lemma_code_point::<F>(n, bits::reversed(j as nat, n));
        lemma_mle_constant(
            value,
            len * pow2(log_blowup),
            field::power(F::generator_elem(n), bits::reversed(j as nat, n)),
        );
    }
    assert(word =~= constant(value, pow2(n)));
}

/// The images of the entries.
pub open spec fn embedded<F: Field, EF: ExtensionField<F>>(a: Seq<F>) -> Seq<EF> {
    Seq::new(a.len(), |i: int| EF::embed(a[i]))
}

proof fn lemma_lerp_embedded<F: Field, EF: ExtensionField<F>>(a: F, b: F, r: F)
    requires
        a.valid(),
        b.valid(),
        r.valid(),
    ensures
        mlpoly::lerp(EF::embed(a), EF::embed(b), EF::embed(r)) == EF::embed(mlpoly::lerp(a, b, r)),
{
    broadcast use algebra::group_valid;

    EF::law_constants();
    let one = EF::one_elem();
    let d = b.minus(a);
    EF::law_embed(one, one, a, r.times(d));
    EF::law_embed(one, one, r, d);
    EF::law_embed(one, one, a, d);
    EF::law_embed(one, one, b, a);
    EF::law_embed(one, one, d, a);
    // The image of b - a is the difference of the images: a + (b - a) == b.
    F::law_plus(b, a.opposite(), a);
    F::law_plus(a, b.minus(a), a);
    F::law_plus(a.opposite(), a, a);
    F::law_plus(a, a.opposite(), a);
    F::law_plus(b, a, a);
    F::law_constants();
    F::law_plus(b, F::zero_elem(), a);
    assert(a.plus(d) == b);
    let ea = EF::embed(a);
    let ed = EF::embed(d);
    let eb = EF::embed(b);
    assert(ea.plus(ed) == eb);
    // eb - ea == (ea + ed) - ea == ed
    EF::law_plus(eb, ea, ea);
    EF::law_plus(ea, ed, ea.opposite());
    EF::law_plus(ed, ea, ea.opposite());
    EF::law_plus(ea, ea.opposite(), ea);
    EF::law_plus(ed, EF::zero_elem(), ea);
    assert(eb.minus(ea) == ed);
}

proof fn lemma_mle_embedded<F: Field, EF: ExtensionField<F>>(a: Seq<F>, z: F)
    requires
        a.len() > 0,
        field::all_valid(a),
        z.valid(),
    ensures
        encode::mle_at(embedded::<F, EF>(a), EF::embed(z)) == EF::embed(encode::mle_at(a, z)),
    decreases a.len(),
{
    broadcast use algebra::group_valid;

    if a.len() > 1 {
        let next = mlpoly::bound_bottom(a, z);
        let left = mlpoly::bound_bottom(embedded::<F, EF>(a), EF::embed(z));
        assert forall|i: int| 0 <= i < left.len() implies left[i] == embedded::<F, EF>(next)[i] by {
            lemma_lerp_embedded::<F, EF>(a[2 * i], a[2 * i + 1], z);
        }
        assert(left =~= embedded::<F, EF>(next));
        encode::lemma_bound_bottom_valid(a, z);
        EF::law_constants();
        EF::law_embed(EF::one_elem(), EF::one_elem(), z, z);
        lemma_mle_embedded::<F, EF>(next, z.times(z));
    }
}

/// The point of an entry of a codeword over the extension is the image of that over the base.
proof fn lemma_point_embedded<F: TwoAdicField, EF: TwoAdicExtension<F>>(n: nat, j: nat)
    requires
        n <= F::two_adicity(),
    ensures
        field::power(EF::generator_elem(n), j) == EF::embed(
            field::power(F::generator_elem(n), j),
        ),
        field::power(F::generator_elem(n), j).valid(),
{
    EF::law_generators(n);
    F::law_generator(n);
    encode::lemma_power_embed::<F, EF>(F::generator_elem(n), j);
}

/// The codeword of the images is the image of the codeword.
proof fn lemma_encoded_embedded<F: TwoAdicField, EF: TwoAdicExtension<F>>(
    a: Seq<F>,
    log_blowup: nat,
    j: int,
)
    requires
        a.len() > 0,
        bits::log2(a.len()) + log_blowup <= F::two_adicity(),
        field::all_valid(a),
        0 <= j < pow2(bits::log2(a.len()) + log_blowup),
    ensures
        encode::encoded(embedded::<F, EF>(a), log_blowup)[j] == EF::embed(
            encode::encoded(a, log_blowup)[j],
        ),
{
    let n = bits::log2(a.len()) + log_blowup;
    let big = encode::repeated(a, log_blowup);
    lemma_repeated_valid(a, log_blowup);
    assert(encode::repeated(embedded::<F, EF>(a), log_blowup) =~= embedded::<F, EF>(big)) by {
        assert forall|i: int| 0 <= i < big.len() implies encode::repeated(
            embedded::<F, EF>(a),
            log_blowup,
        )[i] == embedded::<F, EF>(big)[i] by {
            vstd::arithmetic::div_mod::lemma_mod_bound(i, a.len() as int);
        }
    }
    lemma_point_embedded::<F, EF>(n, bits::reversed(j as nat, n));
    lemma_mle_embedded::<F, EF>(
        big,
        field::power(F::generator_elem(n), bits::reversed(j as nat, n)),
    );
}

/// The coordinates of the codeword are the codewords of the coordinates.
proof fn lemma_encoded_coordinates<F: TwoAdicField, EF: TwoAdicExtension<F>>(
    a: Seq<EF>,
    log_blowup: nat,
    j: int,
    c: int,
)
    requires
        a.len() > 0,
        bits::log2(a.len()) + log_blowup <= F::two_adicity(),
        field::all_valid(a),
        0 <= j < pow2(bits::log2(a.len()) + log_blowup),
        0 <= c < EF::degree(),
    ensures
        encode::encoded(a, log_blowup)[j].base_coeffs()[c] == encode::encoded(
            encode::coordinates::<F, EF>(a, c),
            log_blowup,
        )[j],
{
    let n = bits::log2(a.len()) + log_blowup;
    let big = encode::repeated(a, log_blowup);
    lemma_repeated_valid(a, log_blowup);
    let co = encode::coordinates::<F, EF>(a, c);
    assert(encode::coordinates::<F, EF>(big, c) =~= encode::repeated(co, log_blowup)) by {
        assert forall|i: int| 0 <= i < big.len() implies encode::coordinates::<F, EF>(big, c)[i]
            == encode::repeated(co, log_blowup)[i] by {
            vstd::arithmetic::div_mod::lemma_mod_bound(i, a.len() as int);
        }
    }
    lemma_point_embedded::<F, EF>(n, bits::reversed(j as nat, n));
    encode::lemma_mle_coordinates::<F, EF>(
        big,
        field::power(F::generator_elem(n), bits::reversed(j as nat, n)),
        c,
    );
}

/// The rows of the same number of all matrices.
pub open spec fn rows_at<F: Field>(matrices: Seq<Seq<MatrixModel<F>>>, i: nat) -> Seq<Seq<Seq<F>>> {
    Seq::new(
        matrices.len(),
        |b: int| Seq::new(matrices[b].len(), |m: int| matrices[b][m].row(i)),
    )
}

/// The linear combination of the columns of the matrices, row by row.
pub open spec fn group_table<F: Field, EF: ExtensionField<F>>(
    entries: Seq<EntryModel<EF>>,
    matrices: Seq<Seq<MatrixModel<F>>>,
    len: nat,
) -> Seq<EF> {
    Seq::new(len, |i: int| batch::leaf_sum(entries, rows_at(matrices, i as nat)))
}

/// One column, or set of columns that holds the coordinates of extension elements, of `n`.
pub open spec fn mixed_column<F: Field, EF: ExtensionField<F>>(
    matrix: MatrixModel<F>,
    n: nat,
    k: int,
) -> Seq<EF> {
    Seq::new(matrix.height(), |i: int| math::mixed::<F, EF>(matrix.row(i as nat), n)[k])
}

/// The matrix of the codewords of a matrix's columns.
pub open spec fn is_code_of<F: TwoAdicField>(
    code: MatrixModel<F>,
    matrix: MatrixModel<F>,
    log_blowup: nat,
) -> bool {
    &&& code.width == matrix.width
    &&& encode::encodes_columns(code.values, matrix.values, matrix.width, log_blowup)
    &&& field::all_valid(code.values)
}

/// The places of a matrix's rows.
proof fn lemma_row<F: Field>(matrix: MatrixModel<F>, i: nat, c: int)
    requires
        matrix.wf(),
        i < matrix.height(),
        0 <= c < matrix.width,
    ensures
        matrix.row(i).len() == matrix.width,
        matrix.row(i)[c] == matrix.values[i * matrix.width + c],
        0 <= i * matrix.width + c < matrix.values.len(),
        matrix.row(i)[c] == encode::column(matrix.values, matrix.width, c)[i as int],
        matrix.row(i)[c].valid(),
{
    let w = matrix.width;
    let h = matrix.height();
    assert(i * w + w <= h * w) by (nonlinear_arith)
        requires
            i < h,
            w > 0,
    ;
    assert(i * w >= 0) by (nonlinear_arith)
        requires
            w > 0,
            i >= 0,
    ;
    vstd::arithmetic::div_mod::lemma_div_multiples_vanish(h as int, w as int);
    assert(matrix.values.len() / w == h);
}

/// The rows of the matrix of codewords.
proof fn lemma_code_row<F: TwoAdicField>(
    code: MatrixModel<F>,
    matrix: MatrixModel<F>,
    log_blowup: nat,
    j: nat,
    c: int,
)
    requires
        matrix.wf(),
        is_code_of(code, matrix, log_blowup),
        j < matrix.height() * pow2(log_blowup),
        0 <= c < matrix.width,
    ensures
        code.row(j).len() == matrix.width,
        code.row(j)[c] == encode::encoded(
            encode::column(matrix.values, matrix.width, c),
            log_blowup,
        )[j as int],
{
    let w = matrix.width;
    let h = matrix.height() * pow2(log_blowup);
    assert(matrix.values.len() * pow2(log_blowup) == h * w) by (nonlinear_arith)
        requires
            matrix.values.len() == matrix.height() * w,
            h == matrix.height() * pow2(log_blowup),
    ;
    assert(j * w + w <= h * w) by (nonlinear_arith)
        requires
            j < h,
            w > 0,
    ;
    assert(j * w >= 0) by (nonlinear_arith)
        requires
            w > 0,
            j >= 0,
    ;
    assert(code.row(j)[c] == code.values[j * w + c]);
}

proof fn lemma_mixed_column_valid<F: Field, EF: ExtensionField<F>>(
    matrix: MatrixModel<F>,
    n: nat,
    k: int,
)
    requires
        matrix.wf(),
        matrix.width == n || matrix.width == n * EF::degree(),
        0 <= k < n,
    ensures
        field::all_valid(mixed_column::<F, EF>(matrix, n, k)),
{
    let col = mixed_column::<F, EF>(matrix, n, k);
    let d = EF::degree();
    EF::law_constants();
    EF::law_coeffs(EF::one_elem(), Seq::empty());
    assert forall|i: int| 0 <= i < col.len() implies (#[trigger] col[i]).valid() by {
        if matrix.width == n {
            lemma_row(matrix, i as nat, k);
            EF::law_embed(
                EF::one_elem(),
                EF::one_elem(),
                matrix.row(i as nat)[k],
                matrix.row(i as nat)[k],
            );
        } else {
            lemma_slice(k, d, n);
            lemma_row(matrix, i as nat, 0);
            let part = matrix.row(i as nat).subrange(k * d, k * d + d);
            assert(part.len() == d);
            assert forall|c: int| 0 <= c < part.len() implies (#[trigger] part[c]).valid() by {
                lemma_row(matrix, i as nat, k * d + c);
            }
            EF::law_from_coeffs_valid(part);
        }
    }
}

proof fn lemma_slice(k: int, d: nat, n: nat)
    requires
        0 <= k < n,
        d > 0,
    ensures
        0 <= k * d,
        k * d + d <= n * d,
{
    assert(k * d + d <= n * d) by (nonlinear_arith)
        requires
            k < n,
            d > 0,
    ;
    assert(0 <= k * d) by (nonlinear_arith)
        requires
            k >= 0,
            d > 0,
    ;
}

/// The codeword of a column, or of the elements that a set of columns stands for, is that column or
/// set of the matrix of codewords.
proof fn lemma_mixed_column_encodes<F: TwoAdicField, EF: TwoAdicExtension<F>>(
    code: MatrixModel<F>,
    matrix: MatrixModel<F>,
    log_blowup: nat,
    n: nat,
    k: int,
    j: nat,
)
    requires
        matrix.wf(),
        is_code_of(code, matrix, log_blowup),
        bits::log2(matrix.height()) + log_blowup <= F::two_adicity(),
        matrix.width == n || matrix.width == n * EF::degree(),
        0 <= k < n,
        j < matrix.height() * pow2(log_blowup),
    ensures
        encode::encoded(mixed_column::<F, EF>(matrix, n, k), log_blowup)[j as int] == math::mixed::<
            F,
            EF,
        >(code.row(j), n)[k],
{
    let w = matrix.width;
    let h = matrix.height();
    let d = EF::degree();
    let col = mixed_column::<F, EF>(matrix, n, k);
    lemma_pow2_adds(bits::log2(h), log_blowup);
    vstd::arithmetic::div_mod::lemma_div_multiples_vanish(h as int, w as int);
    lemma_code_row(code, matrix, log_blowup, j, 0);
    EF::law_coeffs(EF::one_elem(), Seq::empty());
    lemma_mixed_column_valid::<F, EF>(matrix, n, k);
    if w == n {
        let base = encode::column(matrix.values, w, k);
        assert forall|i: int| 0 <= i < h implies col[i] == embedded::<F, EF>(base)[i] by {
            lemma_row(matrix, i as nat, k);
        }
        assert forall|i: int| 0 <= i < base.len() implies (#[trigger] base[i]).valid() by {
            lemma_row(matrix, i as nat, k);
        }
        assert(col =~= embedded::<F, EF>(base));
        lemma_code_row(code, matrix, log_blowup, j, k);
        lemma_encoded_embedded::<F, EF>(base, log_blowup, j as int);
    } else {
        lemma_slice(k, d, n);
        let part = code.row(j).subrange(k * d, k * d + d);
        let value = encode::encoded(col, log_blowup)[j as int];
        assert forall|c: int| 0 <= c < d implies value.base_coeffs()[c] == part[c] by {
            lemma_encoded_coordinates::<F, EF>(col, log_blowup, j as int, c);
            lemma_code_row(code, matrix, log_blowup, j, k * d + c);
            let base = encode::column(matrix.values, w, k * d + c);
            assert(encode::coordinates::<F, EF>(col, c) =~= base) by {
                assert forall|i: int| 0 <= i < h implies encode::coordinates::<F, EF>(col, c)[i]
                    == base[i] by {
                    lemma_row(matrix, i as nat, k * d + c);
                    EF::law_coeffs(
                        EF::one_elem(),
                        matrix.row(i as nat).subrange(k * d, k * d + d),
                    );
                }
            }
        }
        EF::law_coeffs(value, part);
        assert(value.base_coeffs() =~= part);
    }
}

/// The combination of the first `k` columns of one matrix, row by row.
spec fn partial_table<F: Field, EF: ExtensionField<F>>(
    coeffs: Seq<EF>,
    matrix: MatrixModel<F>,
    k: nat,
) -> Seq<EF> {
    Seq::new(
        matrix.height(),
        |i: int|
            math::dot(
                coeffs.take(k as int),
                math::mixed::<F, EF>(matrix.row(i as nat), coeffs.len()).take(k as int),
            ),
    )
}

proof fn lemma_dot_take<F: Field>(a: Seq<F>, b: Seq<F>, k: nat)
    requires
        0 < k <= a.len(),
        k <= b.len(),
    ensures
        math::dot(a.take(k as int), b.take(k as int)) == math::dot(
            a.take(k - 1),
            b.take(k - 1),
        ).plus(a[k - 1].times(b[k - 1])),
{
    assert(a.take(k as int).drop_last() =~= a.take(k - 1));
    assert(b.take(k as int).drop_last() =~= b.take(k - 1));
}

pub proof fn lemma_dot_valid<F: Field>(a: Seq<F>, b: Seq<F>)
    ensures
        math::dot(a, b).valid(),
{
    broadcast use algebra::group_valid;

    F::law_constants();
}

proof fn lemma_partial_table<F: TwoAdicField, EF: TwoAdicExtension<F>>(
    coeffs: Seq<EF>,
    code: MatrixModel<F>,
    matrix: MatrixModel<F>,
    log_blowup: nat,
    j: nat,
    k: nat,
)
    requires
        matrix.wf(),
        is_code_of(code, matrix, log_blowup),
        bits::log2(matrix.height()) + log_blowup <= F::two_adicity(),
        F::two_adicity() <= EF::two_adicity(),
        matrix.width == coeffs.len() || matrix.width == coeffs.len() * EF::degree(),
        field::all_valid(coeffs),
        k <= coeffs.len(),
        j < matrix.height() * pow2(log_blowup),
    ensures
        field::all_valid(partial_table(coeffs, matrix, k)),
        encode::encoded(partial_table(coeffs, matrix, k), log_blowup)[j as int] == math::dot(
            coeffs.take(k as int),
            math::mixed::<F, EF>(code.row(j), coeffs.len()).take(k as int),
        ),
    decreases k,
{
    broadcast use algebra::group_valid;

    let n = coeffs.len();
    let h = matrix.height();
    let table = partial_table(coeffs, matrix, k);
    lemma_pow2_adds(bits::log2(h), log_blowup);
    EF::law_constants();
    assert forall|i: int| 0 <= i < table.len() implies (#[trigger] table[i]).valid() by {
        lemma_dot_valid(
            coeffs.take(k as int),
            math::mixed::<F, EF>(matrix.row(i as nat), n).take(k as int),
        );
    }
    if k == 0 {
        assert(table =~= constant(EF::zero_elem(), h));
        law_constant_encoding(EF::zero_elem(), h, log_blowup);
    } else {
        let before = partial_table(coeffs, matrix, (k - 1) as nat);
        let col = mixed_column::<F, EF>(matrix, n, k - 1);
        let one = EF::one_elem();
        lemma_partial_table(coeffs, code, matrix, log_blowup, j, (k - 1) as nat);
        lemma_mixed_column_valid::<F, EF>(matrix, n, k - 1);
        lemma_mixed_column_encodes::<F, EF>(code, matrix, log_blowup, n, k - 1, j);
        assert forall|i: int| 0 <= i < h implies table[i] == combined(
            one,
            before,
            coeffs[k - 1],
            col,
        )[i] by {
            lemma_dot_take(coeffs, math::mixed::<F, EF>(matrix.row(i as nat), n), k);
            algebra::lemma_products(before[i], one, one);
        }
        assert(table =~= combined(one, before, coeffs[k - 1], col));
        law_encoding_is_linear(one, before, coeffs[k - 1], col, log_blowup);
        lemma_dot_take(coeffs, math::mixed::<F, EF>(code.row(j), n), k);
        encode::lemma_encoded_valid(before, log_blowup, j as int);
        algebra::lemma_products(encode::encoded(before, log_blowup)[j as int], one, one);
    }
}

/// An entry names a matrix of the height, with as many columns as coefficients, or sets of columns.
pub open spec fn entry_of_height<F: Field, EF: ExtensionField<F>>(
    e: EntryModel<EF>,
    matrices: Seq<Seq<MatrixModel<F>>>,
    len: nat,
) -> bool {
    &&& e.batch < matrices.len()
    &&& e.matrix < matrices[e.batch as int].len()
    &&& ({
        let m = matrices[e.batch as int][e.matrix as int];
        &&& m.wf()
        &&& m.height() == len
        &&& m.width == e.coeffs.len() || m.width == e.coeffs.len() * EF::degree()
    })
    &&& field::all_valid(e.coeffs)
}

/// The combination of the columns respects the code: combining the rows of the matrices of
/// codewords gives the codeword of the combined columns.
pub proof fn law_combination_encodes<F: TwoAdicField, EF: TwoAdicExtension<F>>(
    entries: Seq<EntryModel<EF>>,
    matrices: Seq<Seq<MatrixModel<F>>>,
    codes: Seq<Seq<MatrixModel<F>>>,
    rows: Seq<Seq<Seq<F>>>,
    len: nat,
    log_blowup: nat,
    j: nat,
)
    requires
        len > 0,
        bits::power_of_two(len),
        bits::log2(len) + log_blowup <= F::two_adicity(),
        j < len * pow2(log_blowup),
        forall|i: int|
            0 <= i < entries.len() ==> entry_of_height(#[trigger] entries[i], matrices, len),
        forall|i: int|
            0 <= i < entries.len() ==> is_code_of(
                codes[(#[trigger] entries[i]).batch as int][entries[i].matrix as int],
                matrices[entries[i].batch as int][entries[i].matrix as int],
                log_blowup,
            ) && rows[entries[i].batch as int][entries[i].matrix as int]
                == codes[entries[i].batch as int][entries[i].matrix as int].row(j),
    ensures
        field::all_valid(group_table(entries, matrices, len)),
        encode::encoded(group_table(entries, matrices, len), log_blowup)[j as int]
            == batch::leaf_sum(entries, rows),
    decreases entries.len(),
{
    broadcast use algebra::group_valid;

    let table = group_table(entries, matrices, len);
    EF::law_generators(0);
    EF::law_constants();
    lemma_pow2_adds(bits::log2(len), log_blowup);
    assert forall|i: int| 0 <= i < table.len() implies (#[trigger] table[i]).valid() by {
        lemma_leaf_sum_valid(entries, rows_at(matrices, i as nat));
    }
    if entries.len() == 0 {
        assert(table =~= constant(EF::zero_elem(), len));
        law_constant_encoding(EF::zero_elem(), len, log_blowup);
    } else {
        let rest = entries.drop_last();
        let e = entries.last();
        assert(entry_of_height(entries[entries.len() - 1], matrices, len));
        let matrix = matrices[e.batch as int][e.matrix as int];
        let code = codes[e.batch as int][e.matrix as int];
        let n = e.coeffs.len();
        assert forall|i: int| 0 <= i < rest.len() implies entry_of_height(
            #[trigger] rest[i],
            matrices,
            len,
        ) && is_code_of(
            codes[rest[i].batch as int][rest[i].matrix as int],
            matrices[rest[i].batch as int][rest[i].matrix as int],
            log_blowup,
        ) && rows[rest[i].batch as int][rest[i].matrix as int]
            == codes[rest[i].batch as int][rest[i].matrix as int].row(j) by {
            assert(rest[i] == entries[i]);
        }
        law_combination_encodes(rest, matrices, codes, rows, len, log_blowup, j);
        let before = group_table(rest, matrices, len);
        let own = partial_table(e.coeffs, matrix, n);
        let one = EF::one_elem();
        lemma_partial_table(e.coeffs, code, matrix, log_blowup, j, n);
        assert(e.coeffs.take(n as int) =~= e.coeffs);
        assert forall|i: int| 0 <= i < len implies table[i] == combined(one, before, one, own)[i] by {
            let mixed = math::mixed::<F, EF>(matrix.row(i as nat), n);
            assert(mixed.take(n as int) =~= mixed);
            assert(rows_at(matrices, i as nat)[e.batch as int][e.matrix as int] == matrix.row(
                i as nat,
            ));
            algebra::lemma_products(before[i], one, one);
            algebra::lemma_products(own[i], one, one);
        }
        assert(table =~= combined(one, before, one, own));
        law_encoding_is_linear(one, before, one, own, log_blowup);
        encode::lemma_encoded_valid(before, log_blowup, j as int);
        encode::lemma_encoded_valid(own, log_blowup, j as int);
        algebra::lemma_products(encode::encoded(before, log_blowup)[j as int], one, one);
        algebra::lemma_products(encode::encoded(own, log_blowup)[j as int], one, one);
        let mixed = math::mixed::<F, EF>(code.row(j), n);
        assert(mixed.take(n as int) =~= mixed);
        assert(rows[e.batch as int][e.matrix as int] == code.row(j)) by {
            assert(entries[entries.len() - 1] == e);
        }
    }
}

pub proof fn lemma_leaf_sum_valid<F: Field, EF: ExtensionField<F>>(
    entries: Seq<EntryModel<EF>>,
    rows: Seq<Seq<Seq<F>>>,
)
    ensures
        batch::leaf_sum::<F, EF>(entries, rows).valid(),
{
    broadcast use algebra::group_valid;

    EF::law_constants();
}

/// The combination of two tables with a third.
pub proof fn lemma_dot_combined<F: Field>(x: F, a: Seq<F>, y: F, b: Seq<F>, c: Seq<F>)
    requires
        a.len() == b.len() == c.len(),
        field::all_valid(a),
        field::all_valid(b),
        field::all_valid(c),
        x.valid(),
        y.valid(),
    ensures
        math::dot(combined(x, a, y, b), c) == x.times(math::dot(a, c)).plus(
            y.times(math::dot(b, c)),
        ),
    decreases a.len(),
{
    broadcast use algebra::group_valid;

    F::law_constants();
    if a.len() == 0 {
        algebra::lemma_products(x, x, x);
        algebra::lemma_products(y, y, y);
        F::law_plus(F::zero_elem(), F::zero_elem(), F::zero_elem());
    } else {
        let t = combined(x, a, y, b);
        assert(t.drop_last() =~= combined(x, a.drop_last(), y, b.drop_last()));
        lemma_dot_combined(x, a.drop_last(), y, b.drop_last(), c.drop_last());
        let p = math::dot(a.drop_last(), c.drop_last());
        let q = math::dot(b.drop_last(), c.drop_last());
        lemma_dot_valid(a.drop_last(), c.drop_last());
        lemma_dot_valid(b.drop_last(), c.drop_last());
        let u = a.last();
        let v = b.last();
        let w = c.last();
        // (x u + y v) w == x (u w) + y (v w)
        algebra::lemma_products(w, x.times(u), y.times(v));
        F::law_times(x, u, w);
        F::law_times(y, v, w);
        // x (p + u w) == x p + x (u w)
        F::law_times(x, p, u.times(w));
        F::law_times(y, q, v.times(w));
        let xp = x.times(p);
        let yq = y.times(q);
        let xs = x.times(u.times(w));
        let ys = y.times(v.times(w));
        // (xp + yq) + (xs + ys) == (xp + xs) + (yq + ys)
        F::law_plus(xp, yq, xs.plus(ys));
        F::law_plus(yq, xs, ys);
        F::law_plus(xs, yq, ys);
        F::law_plus(xp, xs, yq.plus(ys));
        F::law_plus(yq.plus(xs), ys, ys);
    }
}

} // verus!
