//! The table of permutations over KoalaBear, with five rows to a permutation.
use vstd::prelude::*;
use crate::basefold::poseidon::{RoundConstants, Rounds, WIDTH};
use crate::bits;
use crate::field;
use crate::field::algebra;
use crate::field::Field;
use crate::recursion::block;
use crate::recursion::block::RawProgram;
use crate::recursion::builder;
use crate::recursion::builder::{Interaction, RowBuilder, RowModel};
use crate::recursion::chips::mem::MemoryAccessCols;
use crate::recursion::instruction::Instruction;
use crate::recursion::types::{Address, Poseidon2SkinnyInstr};
use crate::recursion::utils;

verus! {

/// The number of external rounds.
pub const NUM_EXTERNAL_ROUNDS: usize = 8;

/// The number of internal rounds.
pub const NUM_INTERNAL_ROUNDS: usize = 20;

/// The number of rows of a permutation: two with two external rounds each, one with all internal
/// rounds, and two with two external rounds each.
pub const ROWS_PER_PERMUTE: usize = 5;

/// The row of the internal rounds.
pub const INTERNAL_ROW_IDX: usize = 2;

/// The number of intermediate values of a row.
pub const NUM_WITNESSES: usize = 19;

/// The table for constraints of the given degree.
#[derive(Clone, Copy, Debug)]
pub struct Poseidon2SkinnyKbChip<const DEGREE: usize>;

/// The values of a row: the state before and after, and the intermediate values.
#[derive(Clone, Copy, Debug)]
pub struct Poseidon2KbCols<T> {
    pub state_in: [T; WIDTH],
    pub state_out: [T; WIDTH],
    pub round_witness: [T; NUM_WITNESSES],
}

/// The places of a row, and which of the five it is.
#[derive(Clone, Copy, Debug)]
pub struct Poseidon2KbPreprocessedCols<T> {
    pub is_round: [T; ROWS_PER_PERMUTE],
    pub state_in_addrs: [Address<T>; WIDTH],
    pub state_out_mem: [MemoryAccessCols<T>; WIDTH],
}

/// What the internal rounds multiply with: the diagonal of their matrix less one, and a factor.
#[derive(Clone, Debug)]
pub struct InternalLayer<F> {
    pub diagonal: Vec<F>,
    pub factor: F,
}

/// The four outputs of the circulant matrix of `2, 3, 1, 1`.
pub open spec fn m4<F: Field>(x0: F, x1: F, x2: F, x3: F) -> Seq<F> {
    let t01 = x0.plus(x1);
    let t23 = x2.plus(x3);
    let t0123 = t01.plus(t23);
    let t01123 = t0123.plus(x1);
    let t01233 = t0123.plus(x3);
    seq![t01123.plus(t01), t01123.plus(x2.plus(x2)), t01233.plus(t23), t01233.plus(x0.plus(x0))]
}

/// The state with each group of four multiplied.
pub open spec fn groups_mixed<F: Field>(s: Seq<F>) -> Seq<F> {
    m4(s[0], s[1], s[2], s[3]) + m4(s[4], s[5], s[6], s[7]) + m4(s[8], s[9], s[10], s[11]) + m4(
        s[12],
        s[13],
        s[14],
        s[15],
    )
}

/// The sum of every fourth element.
pub open spec fn column_sum<F: Field>(m: Seq<F>, k: int) -> F {
    F::zero_elem().plus(m[k]).plus(m[k + 4]).plus(m[k + 8]).plus(m[k + 12])
}

/// The linear layer of the external rounds.
pub open spec fn external_linear<F: Field>(s: Seq<F>) -> Seq<F> {
    let m = groups_mixed(s);
    Seq::new(16, |j: int| m[j].plus(column_sum(m, j % 4)))
}

/// The sum of the first `n` elements.
pub open spec fn sum_upto<F: Field>(s: Seq<F>, n: nat) -> F
    decreases n,
{
    if n == 0 {
        F::zero_elem()
    } else {
        sum_upto(s, (n - 1) as nat).plus(s[n - 1])
    }
}

/// The linear layer of the internal rounds.
pub open spec fn internal_linear<F: Field>(s: Seq<F>, diagonal: Seq<F>, factor: F) -> Seq<F> {
    Seq::new(16, |i: int| s[i].times(diagonal[i]).plus(sum_upto(s, 16)).times(factor))
}

pub open spec fn cube<F: Field>(x: F) -> F {
    x.times(x).times(x)
}

/// An external round.
pub open spec fn external_round<F: Field>(s: Seq<F>, rc: Seq<F>) -> Seq<F> {
    external_linear(Seq::new(16, |i: int| cube(s[i].plus(rc[i]))))
}

/// The states of the internal rounds, with the given values for the first element.
pub open spec fn internal_states<F: Field>(
    s: Seq<F>,
    witness: Seq<F>,
    diagonal: Seq<F>,
    factor: F,
    n: nat,
) -> Seq<F>
    decreases n,
{
    if n == 0 {
        s
    } else {
        internal_linear(
            internal_states(s, witness, diagonal, factor, (n - 1) as nat).update(
                0,
                witness[n - 1],
            ),
            diagonal,
            factor,
        )
    }
}

/// The state after the internal rounds.
pub open spec fn internal_result<F: Field>(
    s: Seq<F>,
    witness: Seq<F>,
    rc: Seq<F>,
    diagonal: Seq<F>,
    factor: F,
) -> Seq<F> {
    let last = internal_states(s, witness, diagonal, factor, 19);
    internal_linear(last.update(0, cube(last[0].plus(rc[19]))), diagonal, factor)
}

/// Elements that must be equal where a condition does not vanish.
pub open spec fn all_equal_when<F: Field>(c: F, x: Seq<F>, y: Seq<F>) -> Seq<F> {
    Seq::new(16, |i: int| builder::equal_when(c, x[i], y[i]))
}

/// The state that a row's first round starts from.
pub open spec fn first_input<F: Field>(state_in: Seq<F>, first: bool) -> Seq<F> {
    if first {
        external_linear(state_in)
    } else {
        state_in
    }
}

/// The constraints of a row with two external rounds.
pub open spec fn external_model<F: Field>(
    c: F,
    cols: Poseidon2KbCols<F>,
    first: bool,
    rc1: Seq<F>,
    rc2: Seq<F>,
) -> RowModel<F> {
    let witness = cols.round_witness@.subrange(0, 16);
    builder::vanishing(
        all_equal_when(c, witness, external_round(first_input(cols.state_in@, first), rc1))
            + all_equal_when(c, cols.state_out@, external_round(witness, rc2)),
    )
}

/// The constraints of the row of the internal rounds.
pub open spec fn internal_model<F: Field>(
    c: F,
    cols: Poseidon2KbCols<F>,
    rc: Seq<F>,
    diagonal: Seq<F>,
    factor: F,
) -> RowModel<F> {
    let witness = cols.round_witness@;
    builder::vanishing(
        Seq::new(
            19,
            |k: int|
                builder::equal_when(
                    c,
                    witness[k],
                    cube(
                        internal_states(
                            cols.state_in@,
                            witness,
                            diagonal,
                            factor,
                            k as nat,
                        )[0].plus(rc[k]),
                    ),
                ),
        ) + all_equal_when(
            c,
            cols.state_out@,
            internal_result(cols.state_in@, witness, rc, diagonal, factor),
        ),
    )
}

/// The state before is received and the state after is sent.
pub open spec fn state_interactions<F: Field>(
    cols: Poseidon2KbCols<F>,
    p: Poseidon2KbPreprocessedCols<F>,
    n: nat,
) -> Seq<Interaction<F>>
    decreases n,
{
    if n == 0 {
        Seq::empty()
    } else {
        let i = n - 1;
        state_interactions(cols, p, (n - 1) as nat) + seq![
            builder::sent(
                p.state_in_addrs@[i],
                builder::single(cols.state_in@[i]),
                F::zero_elem().minus(sum_upto(p.is_round@, 5)),
            ),
            builder::sent(
                p.state_out_mem@[i].addr,
                builder::single(cols.state_out@[i]),
                p.state_out_mem@[i].mult,
            ),
        ]
    }
}

/// A row's constraints and accesses to memory.
pub open spec fn row_model<F: Field>(
    cols: Poseidon2KbCols<F>,
    p: Poseidon2KbPreprocessedCols<F>,
    rounds: Rounds<F>,
    diagonal: Seq<F>,
    factor: F,
) -> RowModel<F> {
    let sel = p.is_round@;
    let rc = rounds.external;
    builder::joined(
        builder::joined(
            builder::joined(
                builder::joined(
                    builder::joined(
                        builder::exchanged(state_interactions(cols, p, 16)),
                        external_model(sel[0], cols, true, rc[0], rc[1]),
                    ),
                    external_model(sel[1], cols, false, rc[2], rc[3]),
                ),
                external_model(sel[3], cols, false, rc[4], rc[5]),
            ),
            external_model(sel[4], cols, false, rc[6], rc[7]),
        ),
        internal_model(sel[2], cols, rounds.internal, diagonal, factor),
    )
}

/// The places of the row `r` of a permutation.
pub open spec fn places_of<F: Field>(
    input: Seq<Address<F>>,
    output: Seq<Address<F>>,
    mults: Seq<F>,
    scratch: Seq<Seq<Address<F>>>,
    p: Poseidon2KbPreprocessedCols<F>,
    r: int,
) -> bool {
    &&& forall|k: int|
        0 <= k < 5 ==> #[trigger] p.is_round@[k] == (if k == r {
            F::one_elem()
        } else {
            F::zero_elem()
        })
    &&& forall|i: int|
        0 <= i < 16 ==> #[trigger] p.state_in_addrs@[i] == (if r == 0 {
            input[i]
        } else {
            scratch[r - 1][i]
        })
    &&& forall|i: int|
        0 <= i < 16 ==> #[trigger] p.state_out_mem@[i] == (if r == 4 {
            MemoryAccessCols { addr: output[i], mult: mults[i] }
        } else {
            MemoryAccessCols { addr: scratch[r][i], mult: F::one_elem() }
        })
}

/// The places that link the rows of a permutation.
pub open spec fn scratch_of<F>(instr: Poseidon2SkinnyInstr<F>) -> Seq<Seq<Address<F>>> {
    Seq::new(4, |g: int| instr.scratch_addrs@[g]@)
}

/// Multiplies four elements from a place on with the circulant matrix of `2, 3, 1, 1`.
pub fn apply_m_4<F: Field>(x: &mut Vec<F>, from: usize)
    requires
        from + 4 <= old(x)@.len(),
    ensures
        final(x)@.len() == old(x)@.len(),
        forall|i: int|
            0 <= i < 4 ==> #[trigger] final(x)@[from + i] == m4(
                old(x)@[from as int],
                old(x)@[from + 1],
                old(x)@[from + 2],
                old(x)@[from + 3],
            )[i],
        forall|i: int|
            0 <= i < old(x)@.len() && !(from <= i < from + 4) ==> #[trigger] final(x)@[i] == old(
                x,
            )@[i],
{
    let len: usize = x.len();
    let x0 = x[from];
    let x1 = x[from + 1];
    let x2 = x[from + 2];
    let x3 = x[from + 3];
    let t01 = x0.add(x1);
    let t23 = x2.add(x3);
    let t0123 = t01.add(t23);
    let t01123 = t0123.add(x1);
    let t01233 = t0123.add(x3);
    x.set(from + 3, t01233.add(x0.add(x0)));
    x.set(from + 1, t01123.add(x2.add(x2)));
    x.set(from, t01123.add(t01));
    x.set(from + 2, t01233.add(t23));
    let ghost m = m4(x0, x1, x2, x3);
    assert forall|i: int| 0 <= i < 4 implies #[trigger] x@[from + i] == m[i] by {
        if i == 0 {
        } else if i == 1 {
        } else if i == 2 {
        } else {
        }
    }
}

/// The linear layer of the external rounds.
pub fn external_linear_layer<F: Field>(state: &Vec<F>) -> (r: Vec<F>)
    requires
        state@.len() == WIDTH,
    ensures
        r@ == external_linear(state@),
{
    let mut m: Vec<F> = Vec::new();
    let mut i: usize = 0;
    while i < WIDTH
        invariant
            i <= WIDTH,
            state@.len() == WIDTH,
            m@ == state@.subrange(0, i as int),
        decreases WIDTH - i,
    {
        m.push(state[i]);
        i += 1;
        assert(m@ =~= state@.subrange(0, i as int));
    }
    assert(m@ =~= state@);
    apply_m_4(&mut m, 0);
    apply_m_4(&mut m, 4);
    apply_m_4(&mut m, 8);
    apply_m_4(&mut m, 12);
    proof {
        let s = state@;
        let g = groups_mixed(s);
        assert forall|j: int| 0 <= j < 16 implies #[trigger] m@[j] == g[j] by {
            let q = j / 4;
            assert(m@[q * 4 + (j - q * 4)] == m@[j]);
            if j < 4 {
                assert(m@[0 + j] == m4(s[0], s[1], s[2], s[3])[j]);
            } else if j < 8 {
                assert(m@[4 + (j - 4)] == m4(s[4], s[5], s[6], s[7])[j - 4]);
            } else if j < 12 {
                assert(m@[8 + (j - 8)] == m4(s[8], s[9], s[10], s[11])[j - 8]);
            } else {
                assert(m@[12 + (j - 12)] == m4(s[12], s[13], s[14], s[15])[j - 12]);
            }
        }
        assert(m@ =~= g);
    }
    let z = F::zero();
    let s0 = z.add(m[0]).add(m[4]).add(m[8]).add(m[12]);
    let s1 = z.add(m[1]).add(m[5]).add(m[9]).add(m[13]);
    let s2 = z.add(m[2]).add(m[6]).add(m[10]).add(m[14]);
    let s3 = z.add(m[3]).add(m[7]).add(m[11]).add(m[15]);
    let mut r: Vec<F> = Vec::new();
    let mut j: usize = 0;
    while j < WIDTH
        invariant
            j <= WIDTH,
            m@ == groups_mixed(state@),
            m@.len() == WIDTH,
            s0 == column_sum(m@, 0),
            s1 == column_sum(m@, 1),
            s2 == column_sum(m@, 2),
            s3 == column_sum(m@, 3),
            r@.len() == j,
            forall|k: int| 0 <= k < j ==> #[trigger] r@[k] == external_linear(state@)[k],
        decreases WIDTH - j,
    {
        let k: usize = j % 4;
        let sum = if k == 0 {
            s0
        } else if k == 1 {
            s1
        } else if k == 2 {
            s2
        } else {
            s3
        };
        r.push(m[j].add(sum));
        j += 1;
    }
    assert(r@ =~= external_linear(state@));
    r
}

/// The linear layer of the internal rounds.
pub fn internal_linear_layer<F: Field>(state: &Vec<F>, layer: &InternalLayer<F>) -> (r: Vec<F>)
    requires
        state@.len() == WIDTH,
        layer.diagonal@.len() == WIDTH,
    ensures
        r@ == internal_linear(state@, layer.diagonal@, layer.factor),
{
    let mut sum = F::zero();
    let mut i: usize = 0;
    while i < WIDTH
        invariant
            i <= WIDTH,
            state@.len() == WIDTH,
            sum == sum_upto(state@, i as nat),
        decreases WIDTH - i,
    {
        sum = sum.add(state[i]);
        i += 1;
    }
    let mut r: Vec<F> = Vec::new();
    let mut j: usize = 0;
    while j < WIDTH
        invariant
            j <= WIDTH,
            state@.len() == WIDTH,
            layer.diagonal@.len() == WIDTH,
            sum == sum_upto(state@, 16),
            r@.len() == j,
            forall|k: int|
                0 <= k < j ==> #[trigger] r@[k] == internal_linear(
                    state@,
                    layer.diagonal@,
                    layer.factor,
                )[k],
        decreases WIDTH - j,
    {
        r.push(state[j].mul(layer.diagonal[j]).add(sum).mul(layer.factor));
        j += 1;
    }
    assert(r@ =~= internal_linear(state@, layer.diagonal@, layer.factor));
    r
}

/// An external round.
fn run_external_round<F: Field>(s: &Vec<F>, rc: &Vec<F>) -> (r: Vec<F>)
    requires
        s@.len() == WIDTH,
        rc@.len() == WIDTH,
    ensures
        r@ == external_round(s@, rc@),
{
    let mut boxed: Vec<F> = Vec::new();
    let mut i: usize = 0;
    while i < WIDTH
        invariant
            i <= WIDTH,
            s@.len() == WIDTH,
            rc@.len() == WIDTH,
            boxed@.len() == i,
            forall|k: int| 0 <= k < i ==> #[trigger] boxed@[k] == cube(s@[k].plus(rc@[k])),
        decreases WIDTH - i,
    {
        let x = s[i].add(rc[i]);
        boxed.push(x.mul(x).mul(x));
        i += 1;
    }
    assert(boxed@ =~= Seq::new(16, |i: int| cube(s@[i].plus(rc@[i]))));
    external_linear_layer(&boxed)
}

/// Elements that must be equal where a condition does not vanish.
pub fn assert_all_eq_when<F: Field>(builder: &mut RowBuilder<F>, c: F, x: &Vec<F>, y: &Vec<F>)
    requires
        x@.len() == WIDTH,
        y@.len() == WIDTH,
    ensures
        final(builder)@ == builder::joined(
            old(builder)@,
            builder::vanishing(all_equal_when(c, x@, y@)),
        ),
        final(builder).w == old(builder).w,
{
    let ghost all = all_equal_when(c, x@, y@);
    let mut i: usize = 0;
    assert(builder@ =~= builder::joined(
        old(builder)@,
        builder::vanishing(all.subrange(0, 0)),
    ));
    while i < WIDTH
        invariant
            i <= WIDTH,
            x@.len() == WIDTH,
            y@.len() == WIDTH,
            all == all_equal_when(c, x@, y@),
            builder@ == builder::joined(
                old(builder)@,
                builder::vanishing(all.subrange(0, i as int)),
            ),
            builder.w == old(builder).w,
        decreases WIDTH - i,
    {
        builder.assert_eq_when(c, x[i], y[i]);
        i += 1;
        assert(builder@ =~= builder::joined(
            old(builder)@,
            builder::vanishing(all.subrange(0, i as int)),
        ));
    }
    assert(all.subrange(0, 16) =~= all);
}

/// The first sixteen elements of an array.
pub fn first_sixteen<F: Field, const N: usize>(x: &[F; N]) -> (r: Vec<F>)
    requires
        N >= 16,
    ensures
        r@ == x@.subrange(0, 16),
{
    let mut r: Vec<F> = Vec::new();
    let mut i: usize = 0;
    while i < 16
        invariant
            i <= 16,
            N >= 16,
            r@ == x@.subrange(0, i as int),
        decreases 16 - i,
    {
        r.push(x[i]);
        i += 1;
        assert(r@ =~= x@.subrange(0, i as int));
    }
    r
}

/// The constraints of a row with two external rounds.
fn eval_external<F: Field>(
    builder: &mut RowBuilder<F>,
    c: F,
    cols: &Poseidon2KbCols<F>,
    first: bool,
    rc1: &Vec<F>,
    rc2: &Vec<F>,
)
    requires
        rc1@.len() == WIDTH,
        rc2@.len() == WIDTH,
    ensures
        final(builder)@ == builder::joined(
            old(builder)@,
            external_model(c, *cols, first, rc1@, rc2@),
        ),
        final(builder).w == old(builder).w,
{
    let state_in = first_sixteen(&cols.state_in);
    let state_out = first_sixteen(&cols.state_out);
    let witness = first_sixteen(&cols.round_witness);
    assert(state_in@ =~= cols.state_in@);
    assert(state_out@ =~= cols.state_out@);
    let input = if first {
        external_linear_layer(&state_in)
    } else {
        state_in
    };
    let first_out = run_external_round(&input, rc1);
    assert_all_eq_when(builder, c, &witness, &first_out);
    let second_out = run_external_round(&witness, rc2);
    assert_all_eq_when(builder, c, &state_out, &second_out);
    assert(builder@ =~= builder::joined(
        old(builder)@,
        external_model(c, *cols, first, rc1@, rc2@),
    ));
}

/// The constraints of the row of the internal rounds.
fn eval_internal<F: Field>(
    builder: &mut RowBuilder<F>,
    c: F,
    cols: &Poseidon2KbCols<F>,
    rc: &Vec<F>,
    layer: &InternalLayer<F>,
)
    requires
        rc@.len() == NUM_INTERNAL_ROUNDS,
        layer.diagonal@.len() == WIDTH,
    ensures
        final(builder)@ == builder::joined(
            old(builder)@,
            internal_model(c, *cols, rc@, layer.diagonal@, layer.factor),
        ),
        final(builder).w == old(builder).w,
{
    let state_out = first_sixteen(&cols.state_out);
    assert(state_out@ =~= cols.state_out@);
    let mut state = first_sixteen(&cols.state_in);
    assert(state@ =~= cols.state_in@);
    let ghost witness = cols.round_witness@;
    let ghost diagonal = layer.diagonal@;
    let ghost factor = layer.factor;
    let ghost head = Seq::new(
        19,
        |k: int|
            builder::equal_when(
                c,
                witness[k],
                cube(
                    internal_states(cols.state_in@, witness, diagonal, factor, k as nat)[0].plus(
                        rc@[k],
                    ),
                ),
            ),
    );
    assert(builder@ =~= builder::joined(
        old(builder)@,
        builder::vanishing(head.subrange(0, 0)),
    ));
    let mut k: usize = 0;
    while k < NUM_WITNESSES
        invariant
            k <= NUM_WITNESSES,
            rc@.len() == NUM_INTERNAL_ROUNDS,
            layer.diagonal@.len() == WIDTH,
            witness == cols.round_witness@,
            diagonal == layer.diagonal@,
            factor == layer.factor,
            head.len() == 19,
            forall|j: int|
                0 <= j < 19 ==> #[trigger] head[j] == builder::equal_when(
                    c,
                    witness[j],
                    cube(
                        internal_states(
                            cols.state_in@,
                            witness,
                            diagonal,
                            factor,
                            j as nat,
                        )[0].plus(rc@[j]),
                    ),
                ),
            state@.len() == WIDTH,
            state@ == internal_states(cols.state_in@, witness, diagonal, factor, k as nat),
            builder@ == builder::joined(
                old(builder)@,
                builder::vanishing(head.subrange(0, k as int)),
            ),
            builder.w == old(builder).w,
        decreases NUM_WITNESSES - k,
    {
        let x = state[0].add(rc[k]);
        builder.assert_eq_when(c, cols.round_witness[k], x.mul(x).mul(x));
        assert(builder@ =~= builder::joined(
            old(builder)@,
            builder::vanishing(head.subrange(0, k as int + 1)),
        ));
        state.set(0, cols.round_witness[k]);
        state = internal_linear_layer(&state, layer);
        k += 1;
    }
    let x = state[0].add(rc[NUM_WITNESSES]);
    state.set(0, x.mul(x).mul(x));
    state = internal_linear_layer(&state, layer);
    assert_all_eq_when(builder, c, &state_out, &state);
    assert(head.subrange(0, 19) =~= head);
    assert(builder@ =~= builder::joined(
        old(builder)@,
        internal_model(c, *cols, rc@, diagonal, factor),
    ));
}

/// The permutations of a program.
pub open spec fn permutations<F>(instrs: Seq<Instruction<F>>) -> Seq<Poseidon2SkinnyInstr<F>>
    decreases instrs.len(),
{
    if instrs.len() == 0 {
        Seq::empty()
    } else {
        let before = permutations(instrs.drop_last());
        match instrs.last() {
            Instruction::Poseidon2Skinny(instr) => before.push(*instr),
            _ => before,
        }
    }
}

/// Row `k` of permutation `j` holds the permutation's places.
pub open spec fn placed_at<F: Field>(
    instrs: Seq<Poseidon2SkinnyInstr<F>>,
    rows: Seq<Poseidon2KbPreprocessedCols<F>>,
    j: int,
    k: int,
) -> bool {
    places_of(
        instrs[j].addrs.input@,
        instrs[j].addrs.output@,
        instrs[j].mults@,
        scratch_of(instrs[j]),
        rows[j * 5 + k],
        k,
    )
}

/// The rows hold the places of the permutations, one permutation after the other.
pub open spec fn places_all<F: Field>(
    instrs: Seq<Poseidon2SkinnyInstr<F>>,
    rows: Seq<Poseidon2KbPreprocessedCols<F>>,
) -> bool {
    forall|j: int, k: int|
        0 <= j < instrs.len() && 0 <= k < 5 ==> #[trigger] placed_at(instrs, rows, j, k)
}

impl<const DEGREE: usize> Poseidon2SkinnyKbChip<DEGREE> {
    /// The constraints and the accesses to memory of a row.
    pub fn eval<F: Field>(
        builder: &mut RowBuilder<F>,
        local_row: &Poseidon2KbCols<F>,
        prep_local: &Poseidon2KbPreprocessedCols<F>,
        constants: &RoundConstants<F>,
        layer: &InternalLayer<F>,
    )
        requires
            DEGREE >= 3,
            constants.external@.len() == NUM_EXTERNAL_ROUNDS,
            constants@.wf(),
            constants.internal@.len() == NUM_INTERNAL_ROUNDS,
            layer.diagonal@.len() == WIDTH,
        ensures
            final(builder)@ == builder::joined(
                old(builder)@,
                row_model(
                    *local_row,
                    *prep_local,
                    constants@,
                    layer.diagonal@,
                    layer.factor,
                ),
            ),
            final(builder).w == old(builder).w,
    {
        let p = prep_local;
        let cols = local_row;
        let is_real = F::zero().add(p.is_round[0]).add(p.is_round[1]).add(p.is_round[2]).add(
            p.is_round[3],
        ).add(p.is_round[4]);
        proof {
            reveal_with_fuel(sum_upto, 6);
        }
        let neg_is_real = F::zero().sub(is_real);
        let mut i: usize = 0;
        assert(builder@ =~= builder::joined(
            old(builder)@,
            builder::exchanged(state_interactions(*cols, *p, 0)),
        ));
        while i < WIDTH
            invariant
                i <= WIDTH,
                neg_is_real == F::zero_elem().minus(sum_upto(p.is_round@, 5)),
                builder@ == builder::joined(
                    old(builder)@,
                    builder::exchanged(state_interactions(*cols, *p, i as nat)),
                ),
                builder.w == old(builder).w,
            decreases WIDTH - i,
        {
            builder.send_single(p.state_in_addrs[i], cols.state_in[i], neg_is_real);
            builder.send_single(
                p.state_out_mem[i].addr,
                cols.state_out[i],
                p.state_out_mem[i].mult,
            );
            i += 1;
            assert(builder@ =~= builder::joined(
                old(builder)@,
                builder::exchanged(state_interactions(*cols, *p, i as nat)),
            ));
        }
        proof {
            let e = constants@.external;
            assert(e[0].len() == WIDTH && e[1].len() == WIDTH && e[2].len() == WIDTH && e[3].len()
                == WIDTH);
            assert(e[4].len() == WIDTH && e[5].len() == WIDTH && e[6].len() == WIDTH && e[7].len()
                == WIDTH);
        }
        let rc = &constants.external;
        eval_external(builder, p.is_round[0], cols, true, &rc[0], &rc[1]);
        eval_external(builder, p.is_round[1], cols, false, &rc[2], &rc[3]);
        eval_external(builder, p.is_round[3], cols, false, &rc[4], &rc[5]);
        eval_external(builder, p.is_round[4], cols, false, &rc[6], &rc[7]);
        eval_internal(builder, p.is_round[2], cols, &constants.internal, layer);
        assert(builder@ =~= builder::joined(
            old(builder)@,
            row_model(*cols, *p, constants@, layer.diagonal@, layer.factor),
        ));
    }

    /// The places of the rows of a permutation.
    pub fn prep_rows<F: Field>(instr: &Poseidon2SkinnyInstr<F>) -> (r: Vec<
        Poseidon2KbPreprocessedCols<F>,
    >)
        ensures
            r@.len() == ROWS_PER_PERMUTE,
            forall|k: int|
                0 <= k < ROWS_PER_PERMUTE ==> #[trigger] places_of(
                    instr.addrs.input@,
                    instr.addrs.output@,
                    instr.mults@,
                    scratch_of(*instr),
                    r@[k],
                    k,
                ),
    {
        let ghost scratch = scratch_of(*instr);
        let mut rows: Vec<Poseidon2KbPreprocessedCols<F>> = Vec::new();
        let mut k: usize = 0;
        while k < ROWS_PER_PERMUTE
            invariant
                k <= ROWS_PER_PERMUTE,
                rows@.len() == k,
                scratch == scratch_of(*instr),
                forall|j: int|
                    0 <= j < k ==> #[trigger] places_of(
                        instr.addrs.input@,
                        instr.addrs.output@,
                        instr.mults@,
                        scratch,
                        rows@[j],
                        j,
                    ),
            decreases ROWS_PER_PERMUTE - k,
        {
            let mut is_round: [F; ROWS_PER_PERMUTE] = [F::zero(); ROWS_PER_PERMUTE];
            is_round[k] = F::one();
            let state_in_addrs: [Address<F>; WIDTH] = if k == 0 {
                instr.addrs.input
            } else {
                instr.scratch_addrs[k - 1]
            };
            let blank = MemoryAccessCols { addr: Address(F::zero()), mult: F::zero() };
            let mut state_out_mem: [MemoryAccessCols<F>; WIDTH] = [blank; WIDTH];
            let mut i: usize = 0;
            while i < WIDTH
                invariant
                    i <= WIDTH,
                    k < ROWS_PER_PERMUTE,
                    scratch == scratch_of(*instr),
                    forall|j: int|
                        0 <= j < i ==> #[trigger] state_out_mem@[j] == (if k == 4 {
                            MemoryAccessCols {
                                addr: instr.addrs.output@[j],
                                mult: instr.mults@[j],
                            }
                        } else {
                            MemoryAccessCols { addr: scratch[k as int][j], mult: F::one_elem() }
                        }),
                decreases WIDTH - i,
            {
                let access = if k == ROWS_PER_PERMUTE - 1 {
                    MemoryAccessCols { addr: instr.addrs.output[i], mult: instr.mults[i] }
                } else {
                    MemoryAccessCols { addr: instr.scratch_addrs[k][i], mult: F::one() }
                };
                state_out_mem[i] = access;
                i += 1;
            }
            let row = Poseidon2KbPreprocessedCols { is_round, state_in_addrs, state_out_mem };
            assert(places_of(
                instr.addrs.input@,
                instr.addrs.output@,
                instr.mults@,
                scratch,
                row,
                k as int,
            ));
            rows.push(row);
            k += 1;
        }
        rows
    }

    /// The height of the table of values.
    pub fn num_rows(num_events: usize, fixed_log2_rows: Option<usize>) -> (r: usize)
        requires
            num_events * ROWS_PER_PERMUTE <= usize::MAX,
            bits::pow2_above((num_events * ROWS_PER_PERMUTE) as nat) <= usize::MAX,
            fixed_log2_rows matches Some(log2_rows) ==> log2_rows < usize::BITS,
        ensures
            r as nat == utils::threshold_height(
                utils::padded_height((num_events * ROWS_PER_PERMUTE) as nat, fixed_log2_rows),
            ),
    {
        Self::preprocessed_num_rows(num_events * ROWS_PER_PERMUTE, fixed_log2_rows)
    }

    /// The height of the table of places.
    pub fn preprocessed_num_rows(num_rows: usize, fixed_log2_rows: Option<usize>) -> (r: usize)
        requires
            bits::pow2_above(num_rows as nat) <= usize::MAX,
            fixed_log2_rows matches Some(log2_rows) ==> log2_rows < usize::BITS,
        ensures
            r as nat == utils::threshold_height(
                utils::padded_height(num_rows as nat, fixed_log2_rows),
            ),
    {
        utils::padded_rows_threshold(utils::next_power_of_two(num_rows, fixed_log2_rows))
    }

    /// The rows of places of a program's permutations, one permutation after the other, and the
    /// height that zeros pad the table to.
    pub fn generate_preprocessed_trace<F: Field>(
        program: &RawProgram<Instruction<F>>,
        fixed_log2_rows: Option<usize>,
    ) -> (r: (Vec<Poseidon2KbPreprocessedCols<F>>, usize))
        requires
            permutations(program.items()).len() * ROWS_PER_PERMUTE <= usize::MAX,
            bits::pow2_above(permutations(program.items()).len() * ROWS_PER_PERMUTE as nat)
                <= usize::MAX,
            fixed_log2_rows matches Some(log2_rows) ==> log2_rows < usize::BITS,
        ensures
            r.0@.len() == permutations(program.items()).len() * ROWS_PER_PERMUTE,
            places_all(permutations(program.items()), r.0@),
            r.1 as nat == utils::threshold_height(
                utils::padded_height(
                    permutations(program.items()).len() * ROWS_PER_PERMUTE as nat,
                    fixed_log2_rows,
                ),
            ),
    {
        let items = program.list();
        let ghost all = program.items();
        let n: usize = items.len();
        let mut rows: Vec<Poseidon2KbPreprocessedCols<F>> = Vec::new();
        let mut i: usize = 0;
        assert(all.take(0) =~= Seq::empty());
        while i < n
            invariant
                i <= n,
                n == items@.len(),
                block::refers(items@, all),
                rows@.len() == permutations(all.take(i as int)).len() * ROWS_PER_PERMUTE,
                places_all(permutations(all.take(i as int)), rows@),
            decreases n - i,
        {
            let ghost before = permutations(all.take(i as int));
            let ghost head = rows@;
            proof {
                assert(all.take(i as int + 1).drop_last() =~= all.take(i as int));
                assert(*items@[i as int] == all[i as int]);
            }
            match items[i] {
                Instruction::Poseidon2Skinny(instr) => {
                    let mut more = Self::prep_rows(&**instr);
                    let ghost tail = more@;
                    rows.append(&mut more);
                    proof {
                        let after = before.push(**instr);
                        assert(permutations(all.take(i as int + 1)) == after);
                        assert forall|j: int, k: int|
                            0 <= j < after.len() && 0 <= k < 5 implies #[trigger] placed_at(
                            after,
                            rows@,
                            j,
                            k,
                        ) by {
                            if j < before.len() {
                                assert(placed_at(before, head, j, k));
                                assert(rows@[j * 5 + k] == head[j * 5 + k]);
                            } else {
                                assert(rows@[j * 5 + k] == tail[k]);
                                assert(places_of(
                                    instr.addrs.input@,
                                    instr.addrs.output@,
                                    instr.mults@,
                                    scratch_of(**instr),
                                    tail[k],
                                    k,
                                ));
                            }
                        }
                    }
                },
                _ => {},
            }
            i += 1;
        }
        assert(all.take(n as int) =~= all);
        let total_height: usize = Self::preprocessed_num_rows(rows.len(), fixed_log2_rows);
        (rows, total_height)
    }
}

/// What a row hands on is at the place where the next row takes it up.
pub proof fn law_rows_linked<F: Field>(
    input: Seq<Address<F>>,
    output: Seq<Address<F>>,
    mults: Seq<F>,
    scratch: Seq<Seq<Address<F>>>,
    p: Poseidon2KbPreprocessedCols<F>,
    q: Poseidon2KbPreprocessedCols<F>,
    r: int,
    i: int,
)
    requires
        0 <= r < 4,
        0 <= i < 16,
        places_of(input, output, mults, scratch, p, r),
        places_of(input, output, mults, scratch, q, r + 1),
    ensures
        p.state_out_mem@[i].addr == q.state_in_addrs@[i],
        p.state_out_mem@[i].mult == F::one_elem(),
{
    assert(p.state_out_mem@[i].addr == scratch[r][i]);
    assert(q.state_in_addrs@[i] == scratch[r][i]);
}

/// A difference whose condition vanishes, or of two equal elements, vanishes.
pub proof fn lemma_vanishes<F: Field>(c: F, x: F, y: F)
    requires
        c.valid(),
        x.valid(),
        y.valid(),
        c == F::zero_elem() || x == y,
    ensures
        builder::equal_when(c, x, y) == F::zero_elem(),
{
    broadcast use algebra::group_valid;

    let z = F::zero_elem();
    F::law_constants();
    algebra::lemma_opposites(x, z);
    algebra::lemma_products(c, z, z);
    algebra::lemma_products(x.minus(y), z, z);
}

/// Linear layers and rounds give canonical elements.
proof fn lemma_rounds_valid<F: Field>(s: Seq<F>, rc: Seq<F>, diagonal: Seq<F>, factor: F)
    ensures
        field::all_valid(external_linear(s)),
        field::all_valid(external_round(s, rc)),
        field::all_valid(internal_linear(s, diagonal, factor)),
{
    broadcast use algebra::group_valid;

}

/// A row with two external rounds satisfies its constraints where the condition vanishes, or where
/// the intermediate values and the state after are those of the rounds.
pub proof fn law_external_satisfied<F: Field>(
    c: F,
    cols: Poseidon2KbCols<F>,
    first: bool,
    rc1: Seq<F>,
    rc2: Seq<F>,
)
    requires
        c.valid(),
        field::all_valid(cols.round_witness@),
        field::all_valid(cols.state_out@),
        c == F::zero_elem() || {
            let witness = cols.round_witness@.subrange(0, 16);
            &&& witness == external_round(first_input(cols.state_in@, first), rc1)
            &&& cols.state_out@ == external_round(witness, rc2)
        },
    ensures
        builder::satisfied(external_model(c, cols, first, rc1, rc2)),
{
    let z = F::zero_elem();
    let witness = cols.round_witness@.subrange(0, 16);
    let one = external_round(first_input(cols.state_in@, first), rc1);
    let two = external_round(witness, rc2);
    lemma_rounds_valid(first_input(cols.state_in@, first), rc1, rc1, z);
    lemma_rounds_valid(witness, rc2, rc2, z);
    let s = external_model(c, cols, first, rc1, rc2).constraints;
    assert forall|k: int| 0 <= k < s.len() implies #[trigger] s[k] == z by {
        if k < 16 {
            assert(witness[k] == cols.round_witness@[k]);
            assert(cols.round_witness@[k].valid() && one[k].valid());
            lemma_vanishes(c, witness[k], one[k]);
        } else {
            assert(cols.state_out@[k - 16].valid() && two[k - 16].valid());
            lemma_vanishes(c, cols.state_out@[k - 16], two[k - 16]);
        }
    }
}

/// The row of the internal rounds satisfies its constraints where the condition vanishes, or where
/// the intermediate values and the state after are those of the rounds.
pub proof fn law_internal_satisfied<F: Field>(
    c: F,
    cols: Poseidon2KbCols<F>,
    rc: Seq<F>,
    diagonal: Seq<F>,
    factor: F,
)
    requires
        c.valid(),
        field::all_valid(cols.round_witness@),
        field::all_valid(cols.state_out@),
        c == F::zero_elem() || {
            let witness = cols.round_witness@;
            &&& forall|k: int|
                0 <= k < 19 ==> #[trigger] witness[k] == cube(
                    internal_states(cols.state_in@, witness, diagonal, factor, k as nat)[0].plus(
                        rc[k],
                    ),
                )
            &&& cols.state_out@ == internal_result(cols.state_in@, witness, rc, diagonal, factor)
        },
    ensures
        builder::satisfied(internal_model(c, cols, rc, diagonal, factor)),
{
    broadcast use algebra::group_valid;

    let z = F::zero_elem();
    let witness = cols.round_witness@;
    let last = internal_states(cols.state_in@, witness, diagonal, factor, 19);
    let end = internal_result(cols.state_in@, witness, rc, diagonal, factor);
    lemma_rounds_valid(last.update(0, cube(last[0].plus(rc[19]))), rc, diagonal, factor);
    let s = internal_model(c, cols, rc, diagonal, factor).constraints;
    assert forall|k: int| 0 <= k < s.len() implies #[trigger] s[k] == z by {
        if k < 19 {
            assert(witness[k].valid());
            lemma_vanishes(
                c,
                witness[k],
                cube(
                    internal_states(cols.state_in@, witness, diagonal, factor, k as nat)[0].plus(
                        rc[k],
                    ),
                ),
            );
        } else {
            assert(cols.state_out@[k - 19].valid() && end[k - 19].valid());
            lemma_vanishes(c, cols.state_out@[k - 19], end[k - 19]);
        }
    }
}

} // verus!
