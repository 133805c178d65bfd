//! The table of permutations over BabyBear, with one round in a row.
use vstd::prelude::*;
use crate::basefold::poseidon::WIDTH;
use crate::bits;
use crate::field;
use crate::field::algebra;
use crate::field::Field;
use crate::recursion::builder;
use crate::recursion::builder::{Interaction, RowBuilder, RowModel};
use crate::recursion::chips::mem::MemoryAccessCols;
use crate::recursion::chips::poseidon2_skinny_kb;
use crate::recursion::chips::poseidon2_skinny_kb::{
    assert_all_eq_when, external_linear_layer, first_sixteen, internal_linear_layer, InternalLayer,
};
use crate::recursion::types::Address;
use crate::recursion::utils;

verus! {

/// The number of external rounds.
pub const NUM_EXTERNAL_ROUNDS: usize = 8;

/// The number of internal rounds.
pub const NUM_INTERNAL_ROUNDS: usize = 13;

/// The number of rounds, and of rows of a permutation.
pub const NUM_ROUNDS: usize = 21;

pub const ROWS_PER_PERMUTE: usize = 21;

/// The number of entries of a row.
pub const NUM_POSEIDON2_COLS: usize = 32;

/// The table for constraints of the given degree.
#[derive(Clone, Copy, Debug)]
pub struct Poseidon2SkinnyChip<const DEGREE: usize>;

/// The values of a row: the state before and after a round.
#[derive(Clone, Copy, Debug)]
pub struct Poseidon2<T> {
    pub state_in: [T; WIDTH],
    pub state_out: [T; WIDTH],
}

/// The places of a row, and which round it is.
#[derive(Clone, Copy, Debug)]
pub struct Poseidon2PreprocessedCols<T> {
    pub is_real: T,
    /// One in an internal round, zero in an external one.
    pub round_kind: T,
    pub is_first_round: T,
    pub round_constants: [T; WIDTH],
    pub state_in_addrs: [Address<T>; WIDTH],
    pub state_in_neg_mult: T,
    pub state_out_mem: [MemoryAccessCols<T>; WIDTH],
}

/// The operands of a permutation: its places, those that link its rows, and the round constants.
#[derive(Clone, Debug)]
pub struct SkinnyOperands<F> {
    pub input: [Address<F>; WIDTH],
    pub output: [Address<F>; WIDTH],
    pub mults: [F; WIDTH],
    pub scratch_addrs: Vec<[Address<F>; WIDTH]>,
    pub round_constants: Vec<[F; WIDTH]>,
}

/// The seventh power.
pub open spec fn seventh<F: Field>(x: F) -> F {
    let c = poseidon2_skinny_kb::cube(x);
    c.times(c).times(x)
}

/// An external round.
pub open spec fn external_round<F: Field>(s: Seq<F>, rc: Seq<F>) -> Seq<F> {
    poseidon2_skinny_kb::external_linear(Seq::new(16, |i: int| seventh(s[i].plus(rc[i]))))
}

/// An internal round.
pub open spec fn internal_round<F: Field>(
    s: Seq<F>,
    rc: F,
    diagonal: Seq<F>,
    factor: F,
) -> Seq<F> {
    poseidon2_skinny_kb::internal_linear(
        s.update(0, seventh(s[0].plus(rc))),
        diagonal,
        factor,
    )
}

/// The state before is received and the state after is sent.
pub open spec fn state_interactions<F: Field>(
    cols: Poseidon2<F>,
    p: Poseidon2PreprocessedCols<F>,
    n: nat,
) -> Seq<Interaction<F>>
    decreases n,
{
    if n == 0 {
        Seq::empty()
    } else {
        let i = n - 1;
        state_interactions(cols, p, (n - 1) as nat) + seq![
            builder::sent(
                p.state_in_addrs@[i],
                builder::single(cols.state_in@[i]),
                p.state_in_neg_mult,
            ),
            builder::sent(
                p.state_out_mem@[i].addr,
                builder::single(cols.state_out@[i]),
                p.state_out_mem@[i].mult,
            ),
        ]
    }
}

/// A row's constraints and accesses to memory: the state after is that of the round, which in the
/// first round takes the linear layer before it.
pub open spec fn row_model<F: Field>(
    cols: Poseidon2<F>,
    p: Poseidon2PreprocessedCols<F>,
    diagonal: Seq<F>,
    factor: F,
) -> RowModel<F> {
    let one = F::one_elem();
    let external = p.is_real.times(one.minus(p.round_kind));
    let first = external.times(p.is_first_round);
    let later = external.times(one.minus(p.is_first_round));
    let rc = p.round_constants@;
    RowModel {
        constraints: poseidon2_skinny_kb::all_equal_when(
            first,
            cols.state_out@,
            external_round(poseidon2_skinny_kb::external_linear(cols.state_in@), rc),
        ) + poseidon2_skinny_kb::all_equal_when(
            later,
            cols.state_out@,
            external_round(cols.state_in@, rc),
        ) + poseidon2_skinny_kb::all_equal_when(
            p.is_real.times(p.round_kind),
            cols.state_out@,
            internal_round(cols.state_in@, rc[0], diagonal, factor),
        ),
        interactions: state_interactions(cols, p, 16),
    }
}

/// The round is an external one.
pub open spec fn is_external(r: int) -> bool {
    r < 4 || r >= 17
}

/// The places of the row `r` of a permutation.
pub open spec fn places_of<F: Field>(
    op: SkinnyOperands<F>,
    p: Poseidon2PreprocessedCols<F>,
    r: int,
) -> bool {
    &&& p.is_real == F::one_elem()
    &&& p.round_kind == (if is_external(r) {
        F::zero_elem()
    } else {
        F::one_elem()
    })
    &&& p.is_first_round == (if r == 0 {
        F::one_elem()
    } else {
        F::zero_elem()
    })
    &&& p.state_in_neg_mult == F::one_elem().opposite()
    &&& forall|i: int|
        0 <= i < 16 ==> #[trigger] p.round_constants@[i] == (if is_external(r) || i == 0 {
            op.round_constants@[r]@[i]
        } else {
            F::zero_elem()
        })
    &&& forall|i: int|
        0 <= i < 16 ==> #[trigger] p.state_in_addrs@[i] == (if r == 0 {
            op.input@[i]
        } else {
            op.scratch_addrs@[r - 1]@[i]
        })
    &&& forall|i: int|
        0 <= i < 16 ==> #[trigger] p.state_out_mem@[i] == (if r == 20 {
            MemoryAccessCols { addr: op.output@[i], mult: op.mults@[i] }
        } else {
            MemoryAccessCols { addr: op.scratch_addrs@[r]@[i], mult: F::one_elem() }
        })
}

fn seventh_power<F: Field>(x: F) -> (r: F)
    ensures
        r == seventh(x),
{
    let deg3 = x.mul(x).mul(x);
    deg3.mul(deg3).mul(x)
}

/// An external round.
fn run_external_round<F: Field>(s: &Vec<F>, rc: &[F; WIDTH]) -> (r: Vec<F>)
    requires
        s@.len() == WIDTH,
    ensures
        r@ == external_round(s@, rc@),
{
    let mut boxed: Vec<F> = Vec::new();
    let mut i: usize = 0;
    while i < WIDTH
        invariant
            i <= WIDTH,
            s@.len() == WIDTH,
            boxed@.len() == i,
            forall|k: int| 0 <= k < i ==> #[trigger] boxed@[k] == seventh(s@[k].plus(rc@[k])),
        decreases WIDTH - i,
    {
        boxed.push(seventh_power(s[i].add(rc[i])));
        i += 1;
    }
    assert(boxed@ =~= Seq::new(16, |i: int| seventh(s@[i].plus(rc@[i]))));
    external_linear_layer(&boxed)
}

impl<const DEGREE: usize> Poseidon2SkinnyChip<DEGREE> {
    /// The constraints and the accesses to memory of a row.
    pub fn eval<F: Field>(
        builder: &mut RowBuilder<F>,
        local_row: &Poseidon2<F>,
        prep_local: &Poseidon2PreprocessedCols<F>,
        layer: &InternalLayer<F>,
    )
        requires
            DEGREE >= 9,
            layer.diagonal@.len() == WIDTH,
        ensures
            final(builder)@ == builder::joined(
                old(builder)@,
                row_model(*local_row, *prep_local, layer.diagonal@, layer.factor),
            ),
            final(builder).w == old(builder).w,
    {
        let p = prep_local;
        let cols = local_row;
        let mut i: usize = 0;
        assert(builder@ =~= builder::joined(
            old(builder)@,
            builder::exchanged(state_interactions(*cols, *p, 0)),
        ));
        while i < WIDTH
            invariant
                i <= WIDTH,
                builder@ == builder::joined(
                    old(builder)@,
                    builder::exchanged(state_interactions(*cols, *p, i as nat)),
                ),
                builder.w == old(builder).w,
            decreases WIDTH - i,
        {
            builder.send_single(p.state_in_addrs[i], cols.state_in[i], p.state_in_neg_mult);
            builder.send_single(
                p.state_out_mem[i].addr,
                cols.state_out[i],
                p.state_out_mem[i].mult,
            );
            i += 1;
            assert(builder@ =~= builder::joined(
                old(builder)@,
                builder::exchanged(state_interactions(*cols, *p, i as nat)),
            ));
        }
        let state_in = first_sixteen(&cols.state_in);
        let state_out = first_sixteen(&cols.state_out);
        assert(state_in@ =~= cols.state_in@);
        assert(state_out@ =~= cols.state_out@);
        let one = F::one();
        let external = p.is_real.mul(one.sub(p.round_kind));
        let pre = external_linear_layer(&state_in);
        let first_out = run_external_round(&pre, &p.round_constants);
        assert_all_eq_when(builder, external.mul(p.is_first_round), &state_out, &first_out);
        let later_out = run_external_round(&state_in, &p.round_constants);
        assert_all_eq_when(
            builder,
            external.mul(one.sub(p.is_first_round)),
            &state_out,
            &later_out,
        );
        let mut state = first_sixteen(&cols.state_in);
        state.set(0, seventh_power(state_in[0].add(p.round_constants[0])));
        assert(state@ =~= cols.state_in@.update(
            0,
            seventh(cols.state_in@[0].plus(p.round_constants@[0])),
        ));
        let internal_out = internal_linear_layer(&state, layer);
        assert_all_eq_when(builder, p.is_real.mul(p.round_kind), &state_out, &internal_out);
        assert(builder@ =~= builder::joined(
            old(builder)@,
            row_model(*cols, *p, layer.diagonal@, layer.factor),
        ));
    }

    /// The places of the rows of a permutation.
    pub fn prep_rows<F: Field>(op: &SkinnyOperands<F>) -> (r: Vec<Poseidon2PreprocessedCols<F>>)
        requires
            op.scratch_addrs@.len() == NUM_ROUNDS - 1,
            op.round_constants@.len() == NUM_ROUNDS,
        ensures
            r@.len() == ROWS_PER_PERMUTE,
            forall|k: int| 0 <= k < ROWS_PER_PERMUTE ==> #[trigger] places_of(*op, r@[k], k),
    {
        let one = F::one();
        let half_ext: usize = NUM_EXTERNAL_ROUNDS / 2;
        let mut rows: Vec<Poseidon2PreprocessedCols<F>> = Vec::new();
        let mut r: usize = 0;
        while r < ROWS_PER_PERMUTE
            invariant
                r <= ROWS_PER_PERMUTE,
                half_ext == 4,
                one == F::one_elem(),
                op.scratch_addrs@.len() == NUM_ROUNDS - 1,
                op.round_constants@.len() == NUM_ROUNDS,
                rows@.len() == r,
                forall|k: int| 0 <= k < r ==> #[trigger] places_of(*op, rows@[k], k),
            decreases ROWS_PER_PERMUTE - r,
        {
            let external: bool = r < half_ext || r >= half_ext + NUM_INTERNAL_ROUNDS;
            let state_in_addrs: [Address<F>; WIDTH] = if r == 0 {
                op.input
            } else {
                op.scratch_addrs[r - 1]
            };
            let blank = MemoryAccessCols { addr: Address(F::zero()), mult: F::zero() };
            let mut state_out_mem: [MemoryAccessCols<F>; WIDTH] = [blank; WIDTH];
            let mut round_constants: [F; WIDTH] = [F::zero(); WIDTH];
            let mut i: usize = 0;
            while i < WIDTH
                invariant
                    i <= WIDTH,
                    r < ROWS_PER_PERMUTE,
                    external == is_external(r as int),
                    one == F::one_elem(),
                    op.scratch_addrs@.len() == NUM_ROUNDS - 1,
                    op.round_constants@.len() == NUM_ROUNDS,
                    forall|j: int|
                        0 <= j < i ==> #[trigger] state_out_mem@[j] == (if r == 20 {
                            MemoryAccessCols { addr: op.output@[j], mult: op.mults@[j] }
                        } else {
                            MemoryAccessCols {
                                addr: op.scratch_addrs@[r as int]@[j],
                                mult: F::one_elem(),
                            }
                        }),
                    forall|j: int|
                        0 <= j < i ==> #[trigger] round_constants@[j] == (if external || j == 0 {
                            op.round_constants@[r as int]@[j]
                        } else {
                            F::zero_elem()
                        }),
                decreases WIDTH - i,
            {
                let access = if r == ROWS_PER_PERMUTE - 1 {
                    MemoryAccessCols { addr: op.output[i], mult: op.mults[i] }
                } else {
                    MemoryAccessCols { addr: op.scratch_addrs[r][i], mult: one }
                };
                state_out_mem[i] = access;
                let rc = if external || i == 0 {
                    op.round_constants[r][i]
                } else {
                    F::zero()
                };
                round_constants[i] = rc;
                i += 1;
            }
            let row = Poseidon2PreprocessedCols {
                is_real: one,
                round_kind: if external {
                    F::zero()
                } else {
                    F::one()
                },
                is_first_round: if r == 0 {
                    one
                } else {
                    F::zero()
                },
                round_constants,
                state_in_addrs,
                state_in_neg_mult: one.neg(),
                state_out_mem,
            };
            assert(places_of(*op, row, r as int));
            rows.push(row);
            r += 1;
        }
        rows
    }

    /// The height of the table of values.
    pub fn num_rows(num_events: usize, fixed_log2_rows: Option<usize>) -> (r: usize)
        requires
            num_events * ROWS_PER_PERMUTE <= usize::MAX,
            bits::pow2_above((num_events * ROWS_PER_PERMUTE) as nat) <= usize::MAX,
            fixed_log2_rows matches Some(log2_rows) ==> log2_rows < usize::BITS,
        ensures
            r as nat == utils::threshold_height(
                utils::padded_height((num_events * ROWS_PER_PERMUTE) as nat, fixed_log2_rows),
            ),
    {
        Self::preprocessed_num_rows(num_events * ROWS_PER_PERMUTE, fixed_log2_rows)
    }

    /// The height of the table of places.
    pub fn preprocessed_num_rows(num_rows: usize, fixed_log2_rows: Option<usize>) -> (r: usize)
        requires
            bits::pow2_above(num_rows as nat) <= usize::MAX,
            fixed_log2_rows matches Some(log2_rows) ==> log2_rows < usize::BITS,
        ensures
            r as nat == utils::threshold_height(
                utils::padded_height(num_rows as nat, fixed_log2_rows),
            ),
    {
        utils::padded_rows_threshold(utils::next_power_of_two(num_rows, fixed_log2_rows))
    }
}

/// What a row hands on is at the place where the next row takes it up.
pub proof fn law_rows_linked<F: Field>(
    op: SkinnyOperands<F>,
    p: Poseidon2PreprocessedCols<F>,
    q: Poseidon2PreprocessedCols<F>,
    r: int,
    i: int,
)
    requires
        0 <= r < 20,
        0 <= i < 16,
        places_of(op, p, r),
        places_of(op, q, r + 1),
    ensures
        p.state_out_mem@[i].addr == q.state_in_addrs@[i],
        p.state_out_mem@[i].mult == F::one_elem(),
{
    assert(p.state_out_mem@[i].addr == op.scratch_addrs@[r]@[i]);
    assert(q.state_in_addrs@[i] == op.scratch_addrs@[r]@[i]);
}

/// The state after the round of a row.
pub open spec fn round_result<F: Field>(
    cols: Poseidon2<F>,
    p: Poseidon2PreprocessedCols<F>,
    diagonal: Seq<F>,
    factor: F,
    r: int,
) -> Seq<F> {
    if r == 0 {
        external_round(
            poseidon2_skinny_kb::external_linear(cols.state_in@),
            p.round_constants@,
        )
    } else if is_external(r) {
        external_round(cols.state_in@, p.round_constants@)
    } else {
        internal_round(cols.state_in@, p.round_constants@[0], diagonal, factor)
    }
}

/// A row whose state after is that of its round satisfies its constraints.
pub proof fn law_row_satisfied<F: Field>(
    op: SkinnyOperands<F>,
    cols: Poseidon2<F>,
    p: Poseidon2PreprocessedCols<F>,
    diagonal: Seq<F>,
    factor: F,
    r: int,
)
    requires
        0 <= r < 21,
        places_of(op, p, r),
        field::all_valid(cols.state_out@),
        cols.state_out@ == round_result(cols, p, diagonal, factor, r),
    ensures
        builder::satisfied(row_model(cols, p, diagonal, factor)),
{
    broadcast use algebra::group_valid;

    let one = F::one_elem();
    let z = F::zero_elem();
    F::law_constants();
    let external = p.is_real.times(one.minus(p.round_kind));
    let first = external.times(p.is_first_round);
    let later = external.times(one.minus(p.is_first_round));
    let internal = p.is_real.times(p.round_kind);
    algebra::lemma_opposites(one, one);
    algebra::lemma_products(one, z, z);
    algebra::lemma_products(external, one, z);
    algebra::lemma_products(one.minus(p.is_first_round), z, z);
    let rc = p.round_constants@;
    let a = external_round(poseidon2_skinny_kb::external_linear(cols.state_in@), rc);
    let b = external_round(cols.state_in@, rc);
    let c = internal_round(cols.state_in@, rc[0], diagonal, factor);
    let s = row_model(cols, p, diagonal, factor).constraints;
    assert forall|k: int| 0 <= k < s.len() implies #[trigger] s[k] == z by {
        if k < 16 {
            assert(cols.state_out@[k].valid());
            poseidon2_skinny_kb::lemma_vanishes(first, cols.state_out@[k], a[k]);
        } else if k < 32 {
            assert(cols.state_out@[k - 16].valid());
            poseidon2_skinny_kb::lemma_vanishes(later, cols.state_out@[k - 16], b[k - 16]);
        } else {
            assert(cols.state_out@[k - 32].valid());
            poseidon2_skinny_kb::lemma_vanishes(internal, cols.state_out@[k - 32], c[k - 32]);
        }
    }
}

} // verus!
