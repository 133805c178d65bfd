//! What a row that meets the constraints of its table says, which accesses to memory it makes, and
//! where the entries of a table stand.
use vstd::prelude::*;
use crate::field::algebra;
use crate::field::Field;
use crate::recursion::builder;
use crate::recursion::builder::Interaction;
use crate::recursion::chips::alu_base;
use crate::recursion::chips::alu_base::{BaseAluAccessCols, BaseAluValueCols};
use crate::recursion::chips::alu_ext;
use crate::recursion::chips::alu_ext::{ExtAluAccessCols, ExtAluValueCols};
use crate::recursion::chips::ext_exp_reverse_bits;
use crate::recursion::chips::ext_exp_reverse_bits::{
    ExtExpReverseBitsCols, ExtExpReverseBitsPreprocessedCols,
};
use crate::recursion::chips::mem;
use crate::recursion::chips::mem::{MemoryAccessCols, MemoryPreprocessedCols};
use crate::recursion::chips::poseidon2_skinny_kb;
use crate::recursion::chips::prefix_sum_checks;
use crate::recursion::chips::prefix_sum_checks::{
    PrefixSumChecksCols, PrefixSumChecksPreprocessedCols,
};
use crate::recursion::chips::select;
use crate::recursion::chips::select::SelectPreprocessedCols;
use crate::recursion::chips::sumcheck_round;
use crate::recursion::chips::sumcheck_round::{SumcheckRoundCols, SumcheckRoundPreprocessedCols};
use crate::recursion::instruction::Instruction;
use crate::recursion::types::{
    Address, BaseAluInstr, BaseAluIo, BaseAluOpcode, Block, ExtAluInstr, ExtAluIo, ExtAluOpcode,
    MemAccessKind, MemInstr, SelectInstr, SelectIo,
};

verus! {

/// The four elements are canonical.
pub open spec fn canonical<F: Field>(b: Block<F>) -> bool {
    b.0.valid() && b.1.valid() && b.2.valid() && b.3.valid()
}

/// The sum of two blocks, element by element.
pub open spec fn plus<F: Field>(x: Block<F>, y: Block<F>) -> Block<F> {
    Block(x.0.plus(y.0), x.1.plus(y.1), x.2.plus(y.2), x.3.plus(y.3))
}

/// A value is read: it is received as often as `mult` says.
pub open spec fn reads<F: Field>(i: Interaction<F>, a: Address<F>, b: Block<F>, mult: F) -> bool {
    !i.is_send && i.addr == a.0 && i.value == b && i.mult == mult
}

/// A value is written: it is sent as often as `mult` says.
pub open spec fn writes<F: Field>(i: Interaction<F>, a: Address<F>, b: Block<F>, mult: F) -> bool {
    i.is_send && i.addr == a.0 && i.value == b && i.mult == mult
}

/// An element, and zeros behind it.
pub open spec fn felt<F: Field>(x: F) -> Block<F> {
    Block(x, F::zero_elem(), F::zero_elem(), F::zero_elem())
}

proof fn lemma_equal<F: Field>(c: F, x: F, y: F)
    requires
        c == F::one_elem(),
        x.valid(),
        y.valid(),
        c.times(x.minus(y)) == F::zero_elem(),
    ensures
        x == y,
{
    broadcast use algebra::group_valid;

    let d = x.minus(y);
    algebra::lemma_products(d, d, d);
    algebra::lemma_opposites(x, y);
    algebra::lemma_opposites(y, y);
}

proof fn lemma_equal_blocks<F: Field>(m: Seq<F>, at: int, c: F, x: Block<F>, y: Block<F>)
    requires
        c == F::one_elem(),
        canonical(x),
        canonical(y),
        0 <= at,
        at + 4 <= m.len(),
        m.subrange(at, at + 4) == builder::blocks_equal_when(c, x, y),
        forall|i: int| 0 <= i < m.len() ==> #[trigger] m[i] == F::zero_elem(),
    ensures
        x == y,
{
    let s = m.subrange(at, at + 4);
    assert(s[0] == m[at] && s[1] == m[at + 1] && s[2] == m[at + 2] && s[3] == m[at + 3]);
    lemma_equal(c, x.0, y.0);
    lemma_equal(c, x.1, y.1);
    lemma_equal(c, x.2, y.2);
    lemma_equal(c, x.3, y.3);
}

proof fn lemma_equal_blocks_both<F: Field>(m: Seq<F>, at: int, c: F, d: F, x: Block<F>, y: Block<F>)
    requires
        c == F::one_elem(),
        d == F::one_elem(),
        canonical(x),
        canonical(y),
        0 <= at,
        at + 4 <= m.len(),
        m.subrange(at, at + 4) == builder::blocks_equal_when_both(c, d, x, y),
        forall|i: int| 0 <= i < m.len() ==> #[trigger] m[i] == F::zero_elem(),
    ensures
        x == y,
{
    broadcast use algebra::group_valid;

    let s = m.subrange(at, at + 4);
    assert(s[0] == m[at] && s[1] == m[at + 1] && s[2] == m[at + 2] && s[3] == m[at + 3]);
    let (e0, e1, e2, e3) = (x.0.minus(y.0), x.1.minus(y.1), x.2.minus(y.2), x.3.minus(y.3));
    algebra::lemma_products(d.times(e0), e0, e0);
    algebra::lemma_products(d.times(e1), e1, e1);
    algebra::lemma_products(d.times(e2), e2, e2);
    algebra::lemma_products(d.times(e3), e3, e3);
    lemma_equal(d, x.0, y.0);
    lemma_equal(d, x.1, y.1);
    lemma_equal(d, x.2, y.2);
    lemma_equal(d, x.3, y.3);
}

/// The constraints and accesses of the `i`-th part of a row are among those of the row.
proof fn lemma_base_row<F: Field>(
    values: Seq<BaseAluValueCols<F>>,
    accesses: Seq<BaseAluAccessCols<F>>,
    n: nat,
    i: int,
)
    requires
        0 <= i < n,
    ensures
        ({
            let m = alu_base::row_model(values, accesses, n);
            let e = alu_base::entry_model(values[i].vals, accesses[i]);
            &&& m.constraints.len() == 5 * n
            &&& m.interactions.len() == 3 * n
            &&& m.constraints.subrange(5 * i, 5 * i + 5) == e.constraints
            &&& m.interactions.subrange(3 * i, 3 * i + 3) == e.interactions
        }),
    decreases n,
{
    let m = alu_base::row_model(values, accesses, n);
    let k = (n - 1) as nat;
    let before = alu_base::row_model(values, accesses, k);
    if k > 0 {
        lemma_base_row(values, accesses, k, if i < k {
            i
        } else {
            0
        });
    }
    let e = alu_base::entry_model(values[i].vals, accesses[i]);
    if i < k {
        assert(m.constraints.subrange(5 * i, 5 * i + 5) =~= before.constraints.subrange(
            5 * i,
            5 * i + 5,
        ));
        assert(m.interactions.subrange(3 * i, 3 * i + 3) =~= before.interactions.subrange(
            3 * i,
            3 * i + 3,
        ));
    } else {
        assert(m.constraints.subrange(5 * i, 5 * i + 5) =~= e.constraints);
        assert(m.interactions.subrange(3 * i, 3 * i + 3) =~= e.interactions);
    }
}

/// Law: in a row of base operations that meets the constraints, the flag of each operation fixes its
/// output: the sum, the difference, the product, or the quotient. Each operation reads its inputs as
/// often as its flags say and writes its output.
pub proof fn law_base_alu_row<F: Field>(
    values: Seq<BaseAluValueCols<F>>,
    accesses: Seq<BaseAluAccessCols<F>>,
    n: nat,
    i: int,
)
    requires
        0 <= i < n,
        builder::satisfied(alu_base::row_model(values, accesses, n)),
        values[i].vals.in1.valid(),
        values[i].vals.in2.valid(),
        values[i].vals.out.valid(),
    ensures
        ({
            let v = values[i].vals;
            let a = accesses[i];
            let m = alu_base::row_model(values, accesses, n);
            let active = a.is_add.plus(a.is_sub).plus(a.is_mul).plus(a.is_div);
            let one = F::one_elem();
            &&& active.times(active.minus(one)) == F::zero_elem()
            &&& a.is_add == one ==> v.out == v.in1.plus(v.in2)
            &&& a.is_sub == one ==> v.in2.plus(v.out) == v.in1
            &&& a.is_mul == one ==> v.out == v.in1.times(v.in2)
            &&& a.is_div == one ==> v.in2.times(v.out) == v.in1
            &&& reads(m.interactions[3 * i], a.addrs.in1, felt(v.in1), active)
            &&& reads(m.interactions[3 * i + 1], a.addrs.in2, felt(v.in2), active)
            &&& writes(m.interactions[3 * i + 2], a.addrs.out, felt(v.out), a.mult)
        }),
{
    broadcast use algebra::group_valid;

    lemma_base_row(values, accesses, n, i);
    let m = alu_base::row_model(values, accesses, n);
    let v = values[i].vals;
    let a = accesses[i];
    let c = m.constraints.subrange(5 * i, 5 * i + 5);
    assert(c[0] == m.constraints[5 * i]);
    assert(c[1] == m.constraints[5 * i + 1]);
    assert(c[2] == m.constraints[5 * i + 2]);
    assert(c[3] == m.constraints[5 * i + 3]);
    assert(c[4] == m.constraints[5 * i + 4]);
    if a.is_add == F::one_elem() {
        lemma_equal(a.is_add, v.in1.plus(v.in2), v.out);
    }
    if a.is_sub == F::one_elem() {
        lemma_equal(a.is_sub, v.in1, v.in2.plus(v.out));
    }
    if a.is_mul == F::one_elem() {
        lemma_equal(a.is_mul, v.out, v.in1.times(v.in2));
    }
    if a.is_div == F::one_elem() {
        lemma_equal(a.is_div, v.in2.times(v.out), v.in1);
    }
    let s = m.interactions.subrange(3 * i, 3 * i + 3);
    assert(s[0] == m.interactions[3 * i]);
    assert(s[1] == m.interactions[3 * i + 1]);
    assert(s[2] == m.interactions[3 * i + 2]);
}

proof fn lemma_ext_row<F: Field>(
    values: Seq<ExtAluValueCols<F>>,
    accesses: Seq<ExtAluAccessCols<F>>,
    w: F,
    n: nat,
    i: int,
)
    requires
        0 <= i < n,
    ensures
        ({
            let m = alu_ext::row_model(values, accesses, w, n);
            let e = alu_ext::entry_model(values[i].vals, accesses[i], w);
            &&& m.constraints.len() == 17 * n
            &&& m.interactions.len() == 3 * n
            &&& m.constraints.subrange(17 * i, 17 * i + 17) == e.constraints
            &&& m.interactions.subrange(3 * i, 3 * i + 3) == e.interactions
        }),
    decreases n,
{
    let m = alu_ext::row_model(values, accesses, w, n);
    let k = (n - 1) as nat;
    let before = alu_ext::row_model(values, accesses, w, k);
    if k > 0 {
        lemma_ext_row(values, accesses, w, k, if i < k {
            i
        } else {
            0
        });
    }
    let e = alu_ext::entry_model(values[i].vals, accesses[i], w);
    if i < k {
        assert(m.constraints.subrange(17 * i, 17 * i + 17) =~= before.constraints.subrange(
            17 * i,
            17 * i + 17,
        ));
        assert(m.interactions.subrange(3 * i, 3 * i + 3) =~= before.interactions.subrange(
            3 * i,
            3 * i + 3,
        ));
    } else {
        assert(m.constraints.subrange(17 * i, 17 * i + 17) =~= e.constraints);
        assert(m.interactions.subrange(3 * i, 3 * i + 3) =~= e.interactions);
    }
}

/// Law: in a row of extension operations that meets the constraints, the flag of each operation fixes
/// its output: the sum, the difference, the product modulo `X^4 - w`, or the quotient. Each operation
/// reads its inputs as often as its flags say and writes its output.
pub proof fn law_ext_alu_row<F: Field>(
    values: Seq<ExtAluValueCols<F>>,
    accesses: Seq<ExtAluAccessCols<F>>,
    w: F,
    n: nat,
    i: int,
)
    requires
        0 <= i < n,
        builder::satisfied(alu_ext::row_model(values, accesses, w, n)),
        canonical(values[i].vals.in1),
        canonical(values[i].vals.in2),
        canonical(values[i].vals.out),
    ensures
        ({
            let v = values[i].vals;
            let a = accesses[i];
            let m = alu_ext::row_model(values, accesses, w, n);
            let active = a.is_add.plus(a.is_sub).plus(a.is_mul).plus(a.is_div);
            let one = F::one_elem();
            &&& active.times(active.minus(one)) == F::zero_elem()
            &&& a.is_add == one ==> v.out == plus(v.in1, v.in2)
            &&& a.is_sub == one ==> plus(v.in2, v.out) == v.in1
            &&& a.is_mul == one ==> v.out == builder::block_product(v.in1, v.in2, w)
            &&& a.is_div == one ==> builder::block_product(v.in2, v.out, w) == v.in1
            &&& reads(m.interactions[3 * i], a.addrs.in1, v.in1, active)
            &&& reads(m.interactions[3 * i + 1], a.addrs.in2, v.in2, active)
            &&& writes(m.interactions[3 * i + 2], a.addrs.out, v.out, a.mult)
        }),
{
    broadcast use algebra::group_valid;

    lemma_ext_row(values, accesses, w, n, i);
    let m = alu_ext::row_model(values, accesses, w, n);
    let v = values[i].vals;
    let a = accesses[i];
    let c = m.constraints.subrange(17 * i, 17 * i + 17);
    assert forall|j: int| 0 <= j < 17 implies #[trigger] c[j] == F::zero_elem() by {
        assert(c[j] == m.constraints[17 * i + j]);
    }
    let sum = builder::block_sum(v.in1, v.in2);
    let back = builder::block_sum(v.in2, v.out);
    let product = builder::block_product(v.in1, v.in2, w);
    let quotient = builder::block_product(v.in2, v.out, w);
    assert(c.subrange(1, 5) =~= builder::blocks_equal_when(a.is_add, sum, v.out));
    assert(c.subrange(5, 9) =~= builder::blocks_equal_when(a.is_sub, v.in1, back));
    assert(c.subrange(9, 13) =~= builder::blocks_equal_when(a.is_mul, product, v.out));
    assert(c.subrange(13, 17) =~= builder::blocks_equal_when(a.is_div, v.in1, quotient));
    if a.is_add == F::one_elem() {
        lemma_equal_blocks(c, 1, a.is_add, sum, v.out);
    }
    if a.is_sub == F::one_elem() {
        lemma_equal_blocks(c, 5, a.is_sub, v.in1, back);
    }
    if a.is_mul == F::one_elem() {
        lemma_equal_blocks(c, 9, a.is_mul, product, v.out);
    }
    if a.is_div == F::one_elem() {
        lemma_equal_blocks(c, 13, a.is_div, v.in1, quotient);
    }
    assert(c[0] == m.constraints[17 * i]);
    let s = m.interactions.subrange(3 * i, 3 * i + 3);
    assert(s[0] == m.interactions[3 * i]);
    assert(s[1] == m.interactions[3 * i + 1]);
    assert(s[2] == m.interactions[3 * i + 2]);
}

/// Law: in a row that meets the constraints of the selection table, the outputs keep the sum of the
/// inputs, and are the inputs where the bit is zero and the inputs swapped where it is one. The bit
/// and the inputs are read once, and the outputs are written.
pub proof fn law_select_row<F: Field>(v: SelectIo<F>, p: SelectPreprocessedCols<F>)
    requires
        builder::satisfied(select::row_model(v, p)),
        p.is_real == F::one_elem(),
        v.bit.valid() && v.in1.valid() && v.in2.valid() && v.out1.valid() && v.out2.valid(),
    ensures
        ({
            let m = select::row_model(v, p);
            &&& v.out1.plus(v.out2) == v.in1.plus(v.in2)
            &&& v.bit == F::zero_elem() ==> v.out1 == v.in1 && v.out2 == v.in2
            &&& v.bit == F::one_elem() ==> v.out1 == v.in2 && v.out2 == v.in1
            &&& m.interactions.len() == 5
            &&& reads(m.interactions[0], p.addrs.bit, felt(v.bit), p.is_real)
            &&& reads(m.interactions[1], p.addrs.in1, felt(v.in1), p.is_real)
            &&& reads(m.interactions[2], p.addrs.in2, felt(v.in2), p.is_real)
            &&& writes(m.interactions[3], p.addrs.out1, felt(v.out1), p.mult1)
            &&& writes(m.interactions[4], p.addrs.out2, felt(v.out2), p.mult2)
        }),
{
    broadcast use algebra::group_valid;

    let m = select::row_model(v, p);
    assert(m.constraints[0] == F::zero_elem());
    assert(m.constraints[1] == F::zero_elem());
    let gap = v.in2.minus(v.in1);
    let x = v.in1.plus(v.bit.times(gap));
    let one = F::one_elem();
    F::law_constants();
    algebra::lemma_products(v.out1.minus(x), v.bit, gap);
    lemma_equal(one, v.out1, x);
    lemma_equal(p.is_real, v.out1.plus(v.out2), v.in1.plus(v.in2));
    algebra::lemma_products(gap, gap, gap);
    F::law_plus(v.in1, v.in1, v.in1);
    algebra::lemma_opposites(v.in2, v.in1);
    F::law_plus(v.in1, gap, gap);
    if v.bit == F::zero_elem() {
        algebra::lemma_plus_cancel(v.in1, v.out2, v.in2);
    }
    if v.bit == one {
        F::law_plus(v.in1, v.in2, v.in2);
        algebra::lemma_plus_cancel(v.in2, v.out2, v.in1);
    }
}

/// Law: in a row that meets the constraints of the table of products of equalities, the new
/// accumulator is the accumulator times `1 - x1 - x2 + 2 x1 x2`, and the accumulator of a row that is
/// not the first is the new one of the row before.
pub proof fn law_prefix_row<F: Field>(
    c: PrefixSumChecksCols<F>,
    p: PrefixSumChecksPreprocessedCols<F>,
    w: F,
)
    requires
        builder::satisfied(prefix_sum_checks::row_model(c, p, w)),
        p.is_real == F::one_elem(),
        canonical(c.x1) && canonical(c.x2) && canonical(c.eq_val) && canonical(c.x1_mul_x2),
        canonical(c.acc) && canonical(c.new_acc) && canonical(c.prev_new_acc),
    ensures
        ({
            let m = prefix_sum_checks::row_model(c, p, w);
            let product = builder::block_product(c.x1, c.x2, w);
            let minus = |x: Block<F>, y: Block<F>|
                Block(x.0.minus(y.0), x.1.minus(y.1), x.2.minus(y.2), x.3.minus(y.3));
            &&& c.eq_val == plus(
                minus(minus(felt(F::one_elem()), c.x1), c.x2),
                builder::block_product(felt(F::from_int(2)), product, w),
            )
            &&& c.new_acc == builder::block_product(c.acc, c.eq_val, w)
            &&& p.is_first == F::zero_elem() ==> c.acc == c.prev_new_acc
            &&& m.interactions.len() == 6
            &&& writes(m.interactions[0], p.x1_mem.addr, c.x1, p.x1_mem.mult)
            &&& writes(m.interactions[1], p.x2_mem.addr, c.x2, p.x2_mem.mult)
            &&& writes(m.interactions[2], p.acc_mem.addr, c.acc, p.acc_mem.mult)
            &&& writes(m.interactions[3], p.out_mem.addr, c.new_acc, p.out_mem.mult)
            &&& writes(m.interactions[4], p.chain_acc_out.addr, c.new_acc, p.chain_acc_out.mult)
            &&& writes(m.interactions[5], p.chain_acc_in.addr, c.prev_new_acc, p.chain_acc_in.mult)
        }),
{
    broadcast use algebra::group_valid;

    let m = prefix_sum_checks::row_model(c, p, w).constraints;
    let expected = builder::block_sum(
        builder::block_difference(
            builder::block_difference(builder::single(F::one_elem()), c.x1),
            c.x2,
        ),
        builder::block_product(builder::single(F::from_int(2)), c.x1_mul_x2, w),
    );
    let product = builder::block_product(c.x1, c.x2, w);
    let next = builder::block_product(c.acc, c.eq_val, w);
    assert(m.subrange(0, 4) =~= builder::blocks_equal_when(p.is_real, c.x1_mul_x2, product));
    assert(m.subrange(4, 8) =~= builder::blocks_equal_when(p.is_real, c.eq_val, expected));
    assert(m.subrange(8, 12) =~= builder::blocks_equal_when(p.is_real, c.new_acc, next));
    let rest = F::one_elem().minus(p.is_first);
    assert(m.subrange(12, 16) =~= builder::blocks_equal_when_both(
        p.is_real,
        rest,
        c.acc,
        c.prev_new_acc,
    ));
    lemma_equal_blocks(m, 0, p.is_real, c.x1_mul_x2, product);
    lemma_equal_blocks(m, 4, p.is_real, c.eq_val, expected);
    lemma_equal_blocks(m, 8, p.is_real, c.new_acc, next);
    if p.is_first == F::zero_elem() {
        algebra::lemma_opposites(F::one_elem(), F::one_elem());
        lemma_equal_blocks_both(m, 12, p.is_real, rest, c.acc, c.prev_new_acc);
    }
}

/// Law: in a row that meets the constraints of the table of exponentiations, the multiplier is one
/// where the bit is zero and the base where it is one; the accumulator is the multiplier in the first
/// row, and else the square of the one before times the multiplier; and its square is handed on.
pub proof fn law_exp_row<F: Field>(
    c: ExtExpReverseBitsCols<F>,
    p: ExtExpReverseBitsPreprocessedCols<F>,
    degree: nat,
    w: F,
)
    requires
        builder::satisfied(ext_exp_reverse_bits::row_model(c, p, degree, w)),
        p.is_real == F::one_elem(),
        c.current_bit.valid(),
        canonical(c.x) && canonical(c.multiplier) && canonical(c.accum),
        canonical(c.prev_accum_squared) && canonical(c.accum_squared),
        canonical(c.prev_accum_squared_times_multiplier),
    ensures
        c.current_bit == F::zero_elem() ==> c.multiplier == felt(F::one_elem()),
        c.current_bit == F::one_elem() ==> c.multiplier == c.x,
        p.is_first == F::one_elem() ==> c.accum == c.multiplier,
        p.is_first == F::zero_elem() ==> c.accum == builder::block_product(
            c.prev_accum_squared,
            c.multiplier,
            w,
        ),
        c.accum_squared == builder::block_product(c.accum, c.accum, w),
{
    broadcast use algebra::group_valid;

    let m = ext_exp_reverse_bits::row_model(c, p, degree, w).constraints;
    let h: int = if degree > 3 {
        1
    } else {
        0
    };
    let one = F::one_elem();
    let z = F::zero_elem();
    F::law_constants();
    let bit = c.current_bit;
    let times = builder::block_product(c.prev_accum_squared, c.multiplier, w);
    let square = builder::block_product(c.accum, c.accum, w);
    let rest = one.minus(p.is_first);
    assert(m.subrange(h, h + 4) =~= builder::blocks_equal_when(
        p.is_first,
        c.accum,
        c.multiplier,
    ));
    assert(m.subrange(h + 8, h + 12) =~= builder::blocks_equal_when(
        p.is_real,
        c.prev_accum_squared_times_multiplier,
        times,
    ));
    assert(m.subrange(h + 12, h + 16) =~= builder::blocks_equal_when_both(
        p.is_real,
        rest,
        c.accum,
        c.prev_accum_squared_times_multiplier,
    ));
    assert(m.subrange(h + 16, h + 20) =~= builder::blocks_equal_when(
        p.is_real,
        c.accum_squared,
        square,
    ));
    lemma_equal_blocks(m, h + 8, p.is_real, c.prev_accum_squared_times_multiplier, times);
    lemma_equal_blocks(m, h + 16, p.is_real, c.accum_squared, square);
    if p.is_first == one {
        lemma_equal_blocks(m, h, p.is_first, c.accum, c.multiplier);
    }
    if p.is_first == z {
        algebra::lemma_opposites(one, one);
        lemma_equal_blocks_both(
            m,
            h + 12,
            p.is_real,
            rest,
            c.accum,
            c.prev_accum_squared_times_multiplier,
        );
    }
    assert(m[h + 4] == z && m[h + 5] == z && m[h + 6] == z && m[h + 7] == z);
    lemma_multiplier(p.is_real, bit, c.multiplier.0, c.x.0, one);
    lemma_multiplier(p.is_real, bit, c.multiplier.1, c.x.1, z);
    lemma_multiplier(p.is_real, bit, c.multiplier.2, c.x.2, z);
    lemma_multiplier(p.is_real, bit, c.multiplier.3, c.x.3, z);
}

proof fn lemma_multiplier<F: Field>(live: F, bit: F, m: F, x: F, base: F)
    requires
        live == F::one_elem(),
        bit.valid(),
        m.valid(),
        x.valid(),
        base.valid(),
        live.times(m.minus(base).minus(bit.times(x.minus(base)))) == F::zero_elem(),
    ensures
        bit == F::zero_elem() ==> m == base,
        bit == F::one_elem() ==> m == x,
{
    broadcast use algebra::group_valid;

    let d = x.minus(base);
    lemma_equal(live, m.minus(base), bit.times(d));
    algebra::lemma_products(d, d, d);
    algebra::lemma_opposites(m, base);
    algebra::lemma_opposites(x, base);
    algebra::lemma_opposites(base, base);
}

/// Law: in a row that meets the constraints of the sumcheck table, the running sum and the Horner
/// accumulator are the coefficient in the first row, and else what the row before handed on plus the
/// coefficient; the accumulator times the challenge is handed on; and where the claim is checked, it
/// is the running sum plus the coefficient once more.
pub proof fn law_sumcheck_row<F: Field>(
    c: SumcheckRoundCols<F>,
    p: SumcheckRoundPreprocessedCols<F>,
    w: F,
)
    requires
        builder::satisfied(sumcheck_round::row_model(c, p, w)),
        p.is_real == F::one_elem(),
        canonical(c.challenge) && canonical(c.current_coeff) && canonical(c.running_sum),
        canonical(c.claim) && canonical(c.horner_accum) && canonical(c.prev_running_sum),
        canonical(c.horner_accum_mul_challenge) && canonical(c.prev_horner_mul_challenge),
    ensures
        ({
            let m = sumcheck_round::row_model(c, p, w).interactions;
            &&& p.is_first == F::one_elem() ==> c.running_sum == c.current_coeff && c.horner_accum
                == c.current_coeff
            &&& p.is_first == F::zero_elem() ==> c.running_sum == plus(
                c.prev_running_sum,
                c.current_coeff,
            ) && c.horner_accum == plus(c.prev_horner_mul_challenge, c.current_coeff)
            &&& c.horner_accum_mul_challenge == builder::block_product(
                c.horner_accum,
                c.challenge,
                w,
            )
            &&& p.is_claim_check == F::one_elem() ==> c.claim == plus(
                c.current_coeff,
                c.running_sum,
            )
            &&& m.len() == 8
            &&& writes(m[0], p.challenge_mem.addr, c.challenge, p.challenge_mem.mult)
            &&& writes(m[1], p.claim_mem.addr, c.claim, p.claim_mem.mult)
            &&& writes(m[2], p.coeff_mem.addr, c.current_coeff, p.coeff_mem.mult)
            &&& writes(m[3], p.out_mem.addr, c.horner_accum, p.out_mem.mult)
            &&& writes(m[4], p.chain_rs_out.addr, c.running_sum, p.chain_rs_out.mult)
            &&& writes(m[5], p.chain_rs_in.addr, c.prev_running_sum, p.chain_rs_in.mult)
            &&& writes(m[6], p.chain_ha_out.addr, c.horner_accum_mul_challenge, p.chain_ha_out.mult)
            &&& writes(m[7], p.chain_ha_in.addr, c.prev_horner_mul_challenge, p.chain_ha_in.mult)
        }),
{
    broadcast use algebra::group_valid;

    let m = sumcheck_round::row_model(c, p, w).constraints;
    let one = F::one_elem();
    let rest = one.minus(p.is_first);
    let sum = builder::block_sum(c.prev_running_sum, c.current_coeff);
    let acc = builder::block_sum(c.prev_horner_mul_challenge, c.current_coeff);
    let times = builder::block_product(c.horner_accum, c.challenge, w);
    let twice = builder::block_sum(c.current_coeff, c.running_sum);
    assert(m.subrange(0, 4) =~= builder::blocks_equal_when(
        p.is_first,
        c.running_sum,
        c.current_coeff,
    ));
    assert(m.subrange(4, 8) =~= builder::blocks_equal_when_both(
        p.is_real,
        rest,
        c.running_sum,
        sum,
    ));
    assert(m.subrange(8, 12) =~= builder::blocks_equal_when(
        p.is_first,
        c.horner_accum,
        c.current_coeff,
    ));
    assert(m.subrange(12, 16) =~= builder::blocks_equal_when_both(
        p.is_real,
        rest,
        c.horner_accum,
        acc,
    ));
    assert(m.subrange(16, 20) =~= builder::blocks_equal_when(
        p.is_real,
        c.horner_accum_mul_challenge,
        times,
    ));
    assert(m.subrange(20, 24) =~= builder::blocks_equal_when(p.is_claim_check, c.claim, twice));
    lemma_equal_blocks(m, 16, p.is_real, c.horner_accum_mul_challenge, times);
    if p.is_first == one {
        lemma_equal_blocks(m, 0, p.is_first, c.running_sum, c.current_coeff);
        lemma_equal_blocks(m, 8, p.is_first, c.horner_accum, c.current_coeff);
    }
    if p.is_first == F::zero_elem() {
        algebra::lemma_opposites(one, one);
        lemma_equal_blocks_both(m, 4, p.is_real, rest, c.running_sum, sum);
        lemma_equal_blocks_both(m, 12, p.is_real, rest, c.horner_accum, acc);
    }
    if p.is_claim_check == one {
        lemma_equal_blocks(m, 20, p.is_claim_check, c.claim, twice);
    }
}

/// Law: the entries of base operations stand three to an operation, the output first, then the two
/// inputs.
pub proof fn law_base_alu_entries<F>(events: Seq<BaseAluIo<F>>, n: nat, i: int)
    requires
        0 <= i < n,
    ensures
        alu_base::value_entries(events, n).len() == 3 * n,
        alu_base::value_entries(events, n)[3 * i] == events[i].out,
        alu_base::value_entries(events, n)[3 * i + 1] == events[i].in1,
        alu_base::value_entries(events, n)[3 * i + 2] == events[i].in2,
    decreases n,
{
    reveal_with_fuel(alu_base::value_entries, 2);
    let k = (n - 1) as nat;
    if k > 0 {
        law_base_alu_entries(events, k, if i < k {
            i
        } else {
            0
        });
    }
}

/// Law: the places of base operations stand eight to an instruction: the three addresses, the four
/// flags, of which that of the opcode is one and the others are zero, and the multiplicity.
pub proof fn law_base_alu_places<F: Field>(instrs: Seq<BaseAluInstr<F>>, n: nat, i: int)
    requires
        0 <= i < n,
    ensures
        ({
            let s = alu_base::access_entries(instrs, n);
            let a = instrs[i];
            let mark = |op: BaseAluOpcode|
                if a.opcode == op {
                    F::one_elem()
                } else {
                    F::zero_elem()
                };
            &&& s.len() == 8 * n
            &&& s[8 * i] == a.addrs.out.0
            &&& s[8 * i + 1] == a.addrs.in1.0
            &&& s[8 * i + 2] == a.addrs.in2.0
            &&& s[8 * i + 3] == mark(BaseAluOpcode::AddF)
            &&& s[8 * i + 4] == mark(BaseAluOpcode::SubF)
            &&& s[8 * i + 5] == mark(BaseAluOpcode::MulF)
            &&& s[8 * i + 6] == mark(BaseAluOpcode::DivF)
            &&& s[8 * i + 7] == a.mult
        }),
    decreases n,
{
    reveal_with_fuel(alu_base::access_entries, 2);
    let k = (n - 1) as nat;
    if k > 0 {
        law_base_alu_places(instrs, k, if i < k {
            i
        } else {
            0
        });
    }
}

/// Law: the entries of extension operations stand twelve to an operation, the output first, then the
/// two inputs, each by its four coordinates.
pub proof fn law_ext_alu_entries<F>(events: Seq<ExtAluIo<Block<F>>>, n: nat, i: int)
    requires
        0 <= i < n,
    ensures
        ({
            let s = alu_ext::value_entries(events, n);
            let e = events[i];
            &&& s.len() == 12 * n
            &&& s.subrange(12 * i, 12 * i + 12) == seq![
                e.out.0,
                e.out.1,
                e.out.2,
                e.out.3,
                e.in1.0,
                e.in1.1,
                e.in1.2,
                e.in1.3,
                e.in2.0,
                e.in2.1,
                e.in2.2,
                e.in2.3,
            ]
        }),
    decreases n,
{
    reveal_with_fuel(alu_ext::value_entries, 2);
    let k = (n - 1) as nat;
    let s = alu_ext::value_entries(events, n);
    if k > 0 {
        law_ext_alu_entries(events, k, if i < k {
            i
        } else {
            0
        });
    }
    let e = events[i];
    let own = seq![
        e.out.0,
        e.out.1,
        e.out.2,
        e.out.3,
        e.in1.0,
        e.in1.1,
        e.in1.2,
        e.in1.3,
        e.in2.0,
        e.in2.1,
        e.in2.2,
        e.in2.3,
    ];
    if i < k {
        assert(s.subrange(12 * i, 12 * i + 12) =~= alu_ext::value_entries(events, k).subrange(
            12 * i,
            12 * i + 12,
        ));
    } else {
        assert(s.subrange(12 * i, 12 * i + 12) =~= own);
    }
}

/// Law: the places of extension operations stand eight to an instruction, like those of base
/// operations.
pub proof fn law_ext_alu_places<F: Field>(instrs: Seq<ExtAluInstr<F>>, n: nat, i: int)
    requires
        0 <= i < n,
    ensures
        ({
            let s = alu_ext::access_entries(instrs, n);
            let a = instrs[i];
            let mark = |op: ExtAluOpcode|
                if a.opcode == op {
                    F::one_elem()
                } else {
                    F::zero_elem()
                };
            &&& s.len() == 8 * n
            &&& s[8 * i] == a.addrs.out.0
            &&& s[8 * i + 1] == a.addrs.in1.0
            &&& s[8 * i + 2] == a.addrs.in2.0
            &&& s[8 * i + 3] == mark(ExtAluOpcode::AddE)
            &&& s[8 * i + 4] == mark(ExtAluOpcode::SubE)
            &&& s[8 * i + 5] == mark(ExtAluOpcode::MulE)
            &&& s[8 * i + 6] == mark(ExtAluOpcode::DivE)
            &&& s[8 * i + 7] == a.mult
        }),
    decreases n,
{
    reveal_with_fuel(alu_ext::access_entries, 2);
    let k = (n - 1) as nat;
    if k > 0 {
        law_ext_alu_places(instrs, k, if i < k {
            i
        } else {
            0
        });
    }
}

/// Law: the entries of selections stand five to a selection: the bit, the two outputs, the two inputs;
/// and their places eight to an instruction: a one, the five addresses, the two multiplicities.
pub proof fn law_select_entries<F: Field>(
    events: Seq<SelectIo<F>>,
    instrs: Seq<SelectInstr<F>>,
    n: nat,
    i: int,
)
    requires
        0 <= i < n,
    ensures
        ({
            let s = select::value_entries(events, n);
            let p = select::access_entries(instrs, n);
            let e = events[i];
            let a = instrs[i];
            &&& s.len() == 5 * n
            &&& s[5 * i] == e.bit && s[5 * i + 1] == e.out1 && s[5 * i + 2] == e.out2
            &&& s[5 * i + 3] == e.in1 && s[5 * i + 4] == e.in2
            &&& p.len() == 8 * n
            &&& p[8 * i] == F::one_elem() && p[8 * i + 1] == a.addrs.bit.0
            &&& p[8 * i + 2] == a.addrs.out1.0 && p[8 * i + 3] == a.addrs.out2.0
            &&& p[8 * i + 4] == a.addrs.in1.0 && p[8 * i + 5] == a.addrs.in2.0
            &&& p[8 * i + 6] == a.mult1 && p[8 * i + 7] == a.mult2
        }),
    decreases n,
{
    reveal_with_fuel(select::value_entries, 2);
    reveal_with_fuel(select::access_entries, 2);
    let k = (n - 1) as nat;
    if k > 0 {
        law_select_entries(events, instrs, k, if i < k {
            i
        } else {
            0
        });
    }
}

/// Law: each table is filled from the instructions of its kind, all of them and in program order.
pub proof fn law_instructions_of_kind<F: Field>(instrs: Seq<Instruction<F>>)
    ensures
        select::selects(instrs) == instrs.filter(|x: Instruction<F>| x is Select).map_values(
            |x: Instruction<F>| x->Select_0,
        ),
        alu_base::alu_instrs(instrs) == instrs.filter(
            |x: Instruction<F>| x is BaseAlu,
        ).map_values(|x: Instruction<F>| x->BaseAlu_0),
        alu_ext::alu_instrs(instrs) == instrs.filter(
            |x: Instruction<F>| x is ExtAlu,
        ).map_values(|x: Instruction<F>| x->ExtAlu_0),
        poseidon2_skinny_kb::permutations(instrs) == instrs.filter(
            |x: Instruction<F>| x is Poseidon2Skinny,
        ).map_values(|x: Instruction<F>| *x->Poseidon2Skinny_0),
        mem::mem_accesses(instrs) == instrs.filter(|x: Instruction<F>| x is Mem).map_values(
            |x: Instruction<F>| mem::access_of(x->Mem_0),
        ),
    decreases instrs.len(),
{
    reveal(Seq::filter);
    let is_select = |x: Instruction<F>| x is Select;
    let is_ext = |x: Instruction<F>| x is ExtAlu;
    let is_mem = |x: Instruction<F>| x is Mem;
    let is_base = |x: Instruction<F>| x is BaseAlu;
    let is_permutation = |x: Instruction<F>| x is Poseidon2Skinny;
    if instrs.len() > 0 {
        law_instructions_of_kind(instrs.drop_last());
    }
    assert(select::selects(instrs) =~= instrs.filter(is_select).map_values(
        |x: Instruction<F>| x->Select_0,
    ));
    assert(alu_ext::alu_instrs(instrs) =~= instrs.filter(is_ext).map_values(
        |x: Instruction<F>| x->ExtAlu_0,
    ));
    assert(mem::mem_accesses(instrs) =~= instrs.filter(is_mem).map_values(
        |x: Instruction<F>| mem::access_of(x->Mem_0),
    ));
    assert(alu_base::alu_instrs(instrs) =~= instrs.filter(is_base).map_values(
        |x: Instruction<F>| x->BaseAlu_0,
    ));
    assert(poseidon2_skinny_kb::permutations(instrs) =~= instrs.filter(is_permutation).map_values(
        |x: Instruction<F>| *x->Poseidon2Skinny_0,
    ));
}

/// Law: what is written to the memory as a constant and what is read back as the same constant cancel:
/// the two accesses have the same value and address and opposite multiplicities.
pub proof fn law_constants_cancel<F: Field>(write: MemInstr<F>, read: MemInstr<F>)
    requires
        write.kind == MemAccessKind::Write,
        read.kind == MemAccessKind::Read,
        write.addrs == read.addrs,
        write.vals == read.vals,
        write.mult == read.mult,
        write.mult.valid(),
    ensures
        ({
            let (b, a) = mem::access_of(write);
            let (d, c) = mem::access_of(read);
            &&& b == write.vals.inner && d == b
            &&& a.addr == write.addrs.inner && c.addr == a.addr
            &&& a.mult == write.mult
            &&& a.mult.plus(c.mult) == F::zero_elem()
        }),
{
    F::law_plus(write.mult, write.mult, write.mult);
}

/// Law: the entries of constants stand six to a constant, its four coordinates, its address and its
/// multiplicity, and a row sends the two constants that it holds.
pub proof fn law_constant_entries<F: Field>(
    accesses: Seq<(Block<F>, MemoryAccessCols<F>)>,
    p: MemoryPreprocessedCols<F>,
    n: nat,
    i: int,
)
    requires
        0 <= i < n,
    ensures
        ({
            let s = mem::access_entries(accesses, n);
            let (b, a) = accesses[i];
            let m = mem::row_model(p);
            let held = p.values_and_accesses@;
            &&& s.len() == 6 * n
            &&& s[6 * i] == b.0 && s[6 * i + 1] == b.1 && s[6 * i + 2] == b.2 && s[6 * i + 3] == b.3
            &&& s[6 * i + 4] == a.addr.0 && s[6 * i + 5] == a.mult
            &&& m.constraints.len() == 0 && m.interactions.len() == 2
            &&& writes(m.interactions[0], held[0].1.addr, held[0].0, held[0].1.mult)
            &&& writes(m.interactions[1], held[1].1.addr, held[1].0, held[1].1.mult)
        }),
    decreases n,
{
    reveal_with_fuel(mem::access_entries, 2);
    let k = (n - 1) as nat;
    if k > 0 {
        law_constant_entries(
            accesses,
            p,
            k,
            if i < k {
                i
            } else {
                0
            },
        );
    }
}

} // verus!
