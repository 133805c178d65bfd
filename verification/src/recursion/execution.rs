//! Running a recursion program.
use std::collections::VecDeque;
use vstd::prelude::*;
use crate::basefold::poseidon::{PermutationField, Rounds};
use crate::field;
use crate::field::algebra;
use crate::field::{ExtensionField, PrimeField32};
use crate::recursion::block;
use crate::recursion::block::{Placed, RawProgram, SeqBlock};
use crate::recursion::event_count;
use crate::recursion::event_count::Counts;
use crate::recursion::instruction;
use crate::recursion::instruction::{
    HintAddCurveInstr, HintBitsInstr, HintExt2FeltsInstr, HintInstr, Instruction,
};
use crate::recursion::program;
use crate::recursion::program::RootProgram;
use crate::recursion::record;
use crate::recursion::record::{ExecutionRecord, UnsafeRecord, VecEventCollector};
use crate::recursion::runtime;
use crate::recursion::runtime::{
    base_blocks, bases, bit_blocks, evaluate, execute_base_alu, execute_ext_alu, execute_mem,
    execute_select, execute_vars, permute_cells, run_chain, ExecState, MemVec,
};
use crate::recursion::semantics;
use crate::recursion::semantics::{RuntimeError, State};
use crate::recursion::types::{
    Block, CommitPublicValuesEvent, CommitPublicValuesInstr, ExtExpReverseBitsEvent,
    ExtExpReverseBitsInstr, PolyEvalInstr, PolyEvalIo, PrefixSumChecksInstr, PrefixSumChecksIo,
    RecursionPublicValues,
};
use crate::stark::septic_curve::{SepticCurve, SepticExtension};

verus! {

fn execute_hint_bits<F: PermutationField, EF: ExtensionField<F>>(
    st: &mut ExecState<F>,
    h: &HintBitsInstr<F>,
    offset: usize,
    resolved: &Vec<u32>,
    rounds: Ghost<Rounds<F>>,
    Ghost(s): Ghost<State<F>>,
    Ghost(c): Ghost<Counts>,
    Ghost(total): Ghost<Counts>,
) -> (r: Result<(), RuntimeError<F, EF>>)
    requires
        old(st).holds(s, total),
        runtime::ready(s, Instruction::HintBits(*h), offset, resolved@, c, total),
    ensures
        runtime::done(
            *final(st),
            r,
            s,
            false,
            semantics::step::<F, EF>(rounds@, s, Instruction::HintBits(*h), false),
            total,
        ),
{
    let b = match st.memory.mr_at::<EF>(resolved[0]) {
        Ok(b) => b,
        Err(e) => {
            return Err(e);
        },
    };
    let num: u32 = b.0.as_canonical_u32();
    let n: usize = h.output_addrs_mults.len();
    let vals = bit_blocks::<F>(num, n);
    assert(resolved@.subrange(1, 1 + n) =~= program::out_places(h.output_addrs_mults@));
    execute_vars::<F, EF>(
        st,
        &vals,
        offset,
        resolved,
        1,
        Ghost(s),
        Ghost(h.output_addrs_mults@),
        Ghost(total),
    )
}

fn execute_ext2felts<F: PermutationField, EF: ExtensionField<F>>(
    st: &mut ExecState<F>,
    h: &HintExt2FeltsInstr<F>,
    offset: usize,
    resolved: &Vec<u32>,
    rounds: Ghost<Rounds<F>>,
    Ghost(s): Ghost<State<F>>,
    Ghost(c): Ghost<Counts>,
    Ghost(total): Ghost<Counts>,
) -> (r: Result<(), RuntimeError<F, EF>>)
    requires
        old(st).holds(s, total),
        runtime::ready(s, Instruction::HintExt2Felts(*h), offset, resolved@, c, total),
    ensures
        runtime::done(
            *final(st),
            r,
            s,
            false,
            semantics::step::<F, EF>(rounds@, s, Instruction::HintExt2Felts(*h), false),
            total,
        ),
{
    let b = match st.memory.mr_at::<EF>(resolved[0]) {
        Ok(b) => b,
        Err(e) => {
            return Err(e);
        },
    };
    let n: usize = h.output_addrs_mults.len();
    let mut felts: Vec<F> = vec![b.0, b.1, b.2, b.3];
    assert(felts@ =~= seq![b.0, b.1, b.2, b.3]);
    felts.truncate(n);
    let vals = base_blocks(&felts);
    assert(resolved@.subrange(1, 1 + n) =~= program::out_places(h.output_addrs_mults@));
    execute_vars::<F, EF>(
        st,
        &vals,
        offset,
        resolved,
        1,
        Ghost(s),
        Ghost(h.output_addrs_mults@),
        Ghost(total),
    )
}

fn execute_hint<F: PermutationField, EF: ExtensionField<F>>(
    st: &mut ExecState<F>,
    h: &HintInstr<F>,
    offset: usize,
    resolved: &Vec<u32>,
    rounds: Ghost<Rounds<F>>,
    Ghost(s): Ghost<State<F>>,
    Ghost(c): Ghost<Counts>,
    Ghost(total): Ghost<Counts>,
) -> (r: Result<(), RuntimeError<F, EF>>)
    requires
        old(st).holds(s, total),
        runtime::ready(s, Instruction::Hint(*h), offset, resolved@, c, total),
    ensures
        runtime::done(
            *final(st),
            r,
            s,
            false,
            semantics::step::<F, EF>(rounds@, s, Instruction::Hint(*h), false),
            total,
        ),
{
    let n: usize = h.output_addrs_mults.len();
    if st.witness_stream.len() < n {
        return Err(RuntimeError::EmptyWitnessStream);
    }
    assert(resolved@.subrange(0, 0 + n) =~= program::out_places(h.output_addrs_mults@));
    match st.memory.check_range::<EF>(
        resolved,
        0,
        n,
        Ghost(s.witness.subrange(0, n as int)),
    ) {
        Ok(_) => {},
        Err(e) => {
            return Err(e);
        },
    }
    let mut vals: Vec<Block<F>> = Vec::new();
    let mut i: usize = 0;
    while i < n
        invariant
            i <= n,
            n <= s.witness.len(),
            semantics::blocks_valid(s.witness),
            vals@ == s.witness.subrange(0, i as int),
            st.witness_stream@ == s.witness.subrange(i as int, s.witness.len() as int),
            st.memory == old(st).memory,
            st.record == old(st).record,
            st.vec_events == old(st).vec_events,
        decreases n - i,
    {
        match st.witness_stream.pop_front() {
            Some(b) => {
                vals.push(b);
            },
            None => {},
        }
        i += 1;
        assert(vals@ =~= s.witness.subrange(0, i as int));
        assert(st.witness_stream@ =~= s.witness.subrange(i as int, s.witness.len() as int));
    }
    let ghost rest = State {
        witness: s.witness.subrange(n as int, s.witness.len() as int),
        ..s
    };
    assert(resolved@.subrange(0, n as int) =~= program::out_places(h.output_addrs_mults@));
    assert(semantics::blocks_valid(vals@));
    assert(semantics::blocks_valid(rest.witness));
    execute_vars::<F, EF>(
        st,
        &vals,
        offset,
        resolved,
        0,
        Ghost(rest),
        Ghost(h.output_addrs_mults@),
        Ghost(total),
    )
}

/// The first seven elements from a place on.
fn septic_at<F: PrimeField32>(v: &Vec<F>, from: usize) -> (r: SepticExtension<F>)
    requires
        from + 7 <= v@.len(),
    ensures
        r@ == v@.subrange(from as int, from + 7),
{
    let n: usize = v.len();
    let r = SepticExtension(
        [
            v[from],
            v[from + 1],
            v[from + 2],
            v[from + 3],
            v[from + 4],
            v[from + 5],
            v[from + 6],
        ],
    );
    assert(r@ =~= v@.subrange(from as int, from + 7));
    r
}

/// Appends the first `n` coefficients.
fn push_coeffs<F: PrimeField32>(x: &SepticExtension<F>, n: usize, out: &mut Vec<F>)
    requires
        n <= 7,
        field::all_valid(x@),
        field::all_valid(old(out)@),
    ensures
        final(out)@ == old(out)@ + x@.subrange(0, n as int),
        field::all_valid(final(out)@),
{
    let mut i: usize = 0;
    while i < n
        invariant
            i <= n,
            n <= 7,
            field::all_valid(x@),
            field::all_valid(out@),
            out@ == old(out)@ + x@.subrange(0, i as int),
        decreases n - i,
    {
        assert(x@[i as int].valid());
        out.push(x.0[i]);
        i += 1;
        assert(out@ =~= old(out)@ + x@.subrange(0, i as int));
    }
}

/// Differences are canonical.
proof fn lemma_sum_valid<F: PrimeField32>(v: Seq<F>)
    requires
        semantics::points_sum(v) is Some,
    ensures
        field::all_valid(semantics::points_sum(v)->0.x),
        field::all_valid(semantics::points_sum(v)->0.y),
        semantics::points_sum(v)->0.x.len() == 7,
        semantics::points_sum(v)->0.y.len() == 7,
{
    broadcast use algebra::group_valid;

}

fn execute_add_curve<F: PermutationField, EF: ExtensionField<F>>(
    st: &mut ExecState<F>,
    h: &HintAddCurveInstr<F>,
    offset: usize,
    resolved: &Vec<u32>,
    rounds: Ghost<Rounds<F>>,
    Ghost(instr): Ghost<Instruction<F>>,
    Ghost(s): Ghost<State<F>>,
    Ghost(c): Ghost<Counts>,
    Ghost(total): Ghost<Counts>,
) -> (r: Result<(), RuntimeError<F, EF>>)
    requires
        instr == Instruction::HintAddCurve(Box::new(*h)),
        old(st).holds(s, total),
        runtime::ready(s, instr, offset, resolved@, c, total),
    ensures
        runtime::done(
            *final(st),
            r,
            s,
            false,
            semantics::step::<F, EF>(rounds@, s, instr, false),
            total,
        ),
{
    let ghost inputs = program::places(h.input1_x_addrs@) + program::places(h.input1_y_addrs@)
        + program::places(h.input2_x_addrs@) + program::places(h.input2_y_addrs@);
    let ghost outs = h.output_x_addrs_mults@ + h.output_y_addrs_mults@;
    let nx: usize = h.output_x_addrs_mults.len();
    let ny: usize = h.output_y_addrs_mults.len();
    assert(resolved@.subrange(0, 28) =~= inputs);
    assert(resolved@.subrange(28, 28 + nx + ny) =~= program::out_places(outs));
    let v = match st.memory.read_range::<EF>(resolved, 0, 28) {
        Ok(v) => v,
        Err(e) => {
            return Err(e);
        },
    };
    let coords = bases(&v, 0);
    assert(v@.subrange(0, v@.len() as int) =~= v@);
    let point1 = SepticCurve { x: septic_at(&coords, 0), y: septic_at(&coords, 7) };
    let point2 = SepticCurve { x: septic_at(&coords, 14), y: septic_at(&coords, 21) };
    match point1.add_incomplete(&point2) {
        Some(sum) => {
            proof {
                lemma_sum_valid(coords@);
            }
            let mut felts: Vec<F> = Vec::new();
            push_coeffs(&sum.x, nx, &mut felts);
            push_coeffs(&sum.y, ny, &mut felts);
            assert(felts@ =~= sum.x@.subrange(0, nx as int) + sum.y@.subrange(0, ny as int));
            let vals = base_blocks(&felts);
            execute_vars::<F, EF>(
                st,
                &vals,
                offset,
                resolved,
                28,
                Ghost(s),
                Ghost(outs),
                Ghost(total),
            )
        },
        None => Err(RuntimeError::NoCurveSum),
    }
}

fn copy_elements<F: PrimeField32>(v: &Vec<F>) -> (r: Vec<F>)
    ensures
        r@ == v@,
{
    let n: usize = v.len();
    let mut r: Vec<F> = Vec::new();
    let mut i: usize = 0;
    while i < n
        invariant
            i <= n,
            n == v@.len(),
            r@ == v@.subrange(0, i as int),
        decreases n - i,
    {
        r.push(v[i]);
        i += 1;
        assert(r@ =~= v@.subrange(0, i as int));
    }
    assert(r@ =~= v@);
    r
}

fn execute_commit<F: PermutationField, EF: ExtensionField<F>>(
    st: &mut ExecState<F>,
    commit: &CommitPublicValuesInstr<F>,
    isolated: bool,
    offset: usize,
    resolved: &Vec<u32>,
    rounds: Ghost<Rounds<F>>,
    Ghost(instr): Ghost<Instruction<F>>,
    Ghost(s): Ghost<State<F>>,
    Ghost(c): Ghost<Counts>,
    Ghost(total): Ghost<Counts>,
) -> (r: Result<(), RuntimeError<F, EF>>)
    requires
        instr == Instruction::CommitPublicValues(Box::new(*commit)),
        old(st).holds(s, total),
        runtime::ready(s, instr, offset, resolved@, c, total),
    ensures
        runtime::done(
            *final(st),
            r,
            s,
            false,
            semantics::step::<F, EF>(rounds@, s, instr, isolated),
            total,
        ),
{
    let n: usize = resolved.len();
    assert(resolved@.subrange(0, n as int) =~= program::places(commit.pv_addrs.elements@));
    let v = match st.memory.read_range::<EF>(resolved, 0, n) {
        Ok(v) => v,
        Err(e) => {
            return Err(e);
        },
    };
    let values = bases(&v, 0);
    assert(v@.subrange(0, v@.len() as int) =~= v@);
    if !isolated {
        st.vec_events.public_values = Some(RecursionPublicValues { elements: copy_elements(&values) });
    }
    st.record.commit_pv_hash_events.set(
        offset,
        Some(CommitPublicValuesEvent { public_values: RecursionPublicValues { elements: values } }),
    );
    Ok(())
}

fn execute_poly_eval<F: PermutationField, EF: ExtensionField<F>>(
    st: &mut ExecState<F>,
    p: &PolyEvalInstr<F>,
    offset: usize,
    resolved: &Vec<u32>,
    rounds: Ghost<Rounds<F>>,
    Ghost(s): Ghost<State<F>>,
    Ghost(c): Ghost<Counts>,
    Ghost(total): Ghost<Counts>,
) -> (r: Result<(), RuntimeError<F, EF>>)
    requires
        old(st).holds(s, total),
        runtime::ready(s, Instruction::PolyEval(*p), offset, resolved@, c, total),
    ensures
        runtime::done(
            *final(st),
            r,
            s,
            false,
            semantics::step::<F, EF>(rounds@, s, Instruction::PolyEval(*p), false),
            total,
        ),
{
    proof {
        F::law_constants();
    }
    let n: usize = resolved.len() - 1;
    assert(resolved@.subrange(0, n as int) =~= seq![program::at(p.addrs.point)] + program::places(
        p.addrs.coeff@,
    ));
    let v = match st.memory.read_range::<EF>(resolved, 0, n) {
        Ok(v) => v,
        Err(e) => {
            return Err(e);
        },
    };
    let point = v[0].0;
    let coeff = bases(&v, 1);
    let out = evaluate(&coeff, point);
    match st.memory.mw_at::<EF>(resolved[n], instruction::block_of_base(out)) {
        Ok(_) => {},
        Err(e) => {
            return Err(e);
        },
    }
    let ghost events = st.vec_events.poly_eval_events@;
    st.vec_events.poly_eval_events.push(PolyEvalIo { point, coeff, out });
    proof {
        let new = st.vec_events.poly_eval_events@;
        assert(Seq::new(new.len(), |i: int| new[i]@) =~= Seq::new(
            events.len(),
            |i: int| events[i]@,
        ).push(new[new.len() - 1]@));
    }
    Ok(())
}

fn execute_exp<F: PermutationField, EF: ExtensionField<F>>(
    st: &mut ExecState<F>,
    x: &ExtExpReverseBitsInstr<F>,
    offset: usize,
    resolved: &Vec<u32>,
    rounds: Ghost<Rounds<F>>,
    Ghost(s): Ghost<State<F>>,
    Ghost(c): Ghost<Counts>,
    Ghost(total): Ghost<Counts>,
) -> (r: Result<(), RuntimeError<F, EF>>)
    requires
        EF::degree() == 4,
        old(st).holds(s, total),
        runtime::ready(s, Instruction::ExtExpReverseBits(*x), offset, resolved@, c, total),
    ensures
        runtime::done(
            *final(st),
            r,
            s,
            true,
            semantics::step::<F, EF>(rounds@, s, Instruction::ExtExpReverseBits(*x), false),
            total,
        ),
{
    let len: usize = resolved.len();
    let n: usize = x.addrs.exp.len();
    assert(len == 1 + n + n + n);
    assert(resolved@.subrange(0, 1 + n) =~= seq![program::at(x.addrs.base)] + program::places(
        x.addrs.exp@,
    ));
    assert(resolved@.subrange(1 + n, 1 + n + n) =~= program::places(x.addrs.prev_acc_vec@));
    assert(resolved@.subrange(1 + n + n, 1 + n + n + n) =~= program::places(x.addrs.acc_vec@));
    let v = match st.memory.read_range::<EF>(resolved, 0, 1 + n) {
        Ok(v) => v,
        Err(e) => {
            return Err(e);
        },
    };
    let base = v[0];
    let exp = bases(&v, 1);
    let base_ef: EF = instruction::ext_of_block::<F, EF>(&base);
    let mut factors: Vec<EF> = Vec::new();
    let mut i: usize = 0;
    while i < n
        invariant
            i <= n,
            n == exp@.len(),
            base_ef == instruction::block_ext::<F, EF>(base),
            factors@.len() == i,
            forall|j: int|
                0 <= j < i ==> #[trigger] factors@[j] == semantics::exp_factors::<F, EF>(
                    base,
                    exp@,
                )[j],
        decreases n - i,
    {
        if exp[i].as_canonical_u32() == 1 {
            factors.push(base_ef);
        } else {
            factors.push(EF::one());
        }
        i += 1;
    }
    assert(factors@ =~= semantics::exp_factors::<F, EF>(base, exp@));
    let (prev_acc_vec, acc_vec) = match run_chain::<F, EF>(
        &mut st.memory,
        resolved,
        1 + n,
        1 + n + n,
        &factors,
        true,
    ) {
        Ok(p) => p,
        Err(e) => {
            return Err(e);
        },
    };
    let ghost events = st.vec_events.ext_exp_reverse_bits_events@;
    st.vec_events.ext_exp_reverse_bits_events.push(
        ExtExpReverseBitsEvent { base, exp, prev_acc_vec, acc_vec },
    );
    proof {
        let new = st.vec_events.ext_exp_reverse_bits_events@;
        assert(Seq::new(new.len(), |i: int| new[i]@) =~= Seq::new(
            events.len(),
            |i: int| events[i]@,
        ).push(new[new.len() - 1]@));
    }
    Ok(())
}

/// The blocks from one place to another.
fn blocks_between<F: PrimeField32>(v: &Vec<Block<F>>, from: usize, to: usize) -> (r: Vec<Block<F>>)
    requires
        from <= to <= v@.len(),
    ensures
        r@ == v@.subrange(from as int, to as int),
{
    let mut r: Vec<Block<F>> = Vec::new();
    let mut i: usize = from;
    while i < to
        invariant
            from <= i <= to <= v@.len(),
            r@ == v@.subrange(from as int, i as int),
        decreases to - i,
    {
        r.push(v[i]);
        i += 1;
        assert(r@ =~= v@.subrange(from as int, i as int));
    }
    r
}

fn execute_prefix<F: PermutationField, EF: ExtensionField<F>>(
    st: &mut ExecState<F>,
    p: &PrefixSumChecksInstr<F>,
    offset: usize,
    resolved: &Vec<u32>,
    rounds: Ghost<Rounds<F>>,
    Ghost(instr): Ghost<Instruction<F>>,
    Ghost(s): Ghost<State<F>>,
    Ghost(c): Ghost<Counts>,
    Ghost(total): Ghost<Counts>,
) -> (r: Result<(), RuntimeError<F, EF>>)
    requires
        EF::degree() == 4,
        instr == Instruction::PrefixSumChecks(Box::new(*p)),
        old(st).holds(s, total),
        runtime::ready(s, instr, offset, resolved@, c, total),
    ensures
        runtime::done(
            *final(st),
            r,
            s,
            true,
            semantics::step::<F, EF>(rounds@, s, instr, false),
            total,
        ),
{
    let len: usize = resolved.len();
    let n: usize = p.addrs.x1_vec.len();
    assert(len == n + n + n + n);
    assert(resolved@.subrange(0, 0 + (n + n)) =~= program::places(p.addrs.x1_vec@)
        + program::places(p.addrs.x2_vec@));
    assert(resolved@.subrange(n + n, n + n + n) =~= program::places(p.addrs.prev_acc_vec@));
    assert(resolved@.subrange(n + n + n, n + n + n + n) =~= program::places(p.addrs.acc_vec@));
    let v = match st.memory.read_range::<EF>(resolved, 0, n + n) {
        Ok(v) => v,
        Err(e) => {
            return Err(e);
        },
    };
    let x1_vec = blocks_between(&v, 0, n);
    let x2_vec = blocks_between(&v, n, n + n);
    let mut factors: Vec<EF> = Vec::new();
    let mut i: usize = 0;
    while i < n
        invariant
            EF::degree() == 4,
            i <= n,
            n == x1_vec@.len(),
            n == x2_vec@.len(),
            factors@.len() == i,
            forall|j: int|
                0 <= j < i ==> #[trigger] factors@[j] == semantics::equality_factors::<F, EF>(
                    x1_vec@,
                    x2_vec@,
                )[j],
        decreases n - i,
    {
        let x1: EF = instruction::ext_of_block::<F, EF>(&x1_vec[i]);
        let x2: EF = instruction::ext_of_block::<F, EF>(&x2_vec[i]);
        factors.push(x1.mul(x2).add(EF::one().sub(x1).mul(EF::one().sub(x2))));
        i += 1;
    }
    assert(factors@ =~= semantics::equality_factors::<F, EF>(x1_vec@, x2_vec@));
    let (prev_acc_vec, acc_vec) = match run_chain::<F, EF>(
        &mut st.memory,
        resolved,
        n + n,
        n + n + n,
        &factors,
        false,
    ) {
        Ok(q) => q,
        Err(e) => {
            return Err(e);
        },
    };
    let ghost events = st.vec_events.prefix_sum_checks_events@;
    st.vec_events.prefix_sum_checks_events.push(
        PrefixSumChecksIo { x1_vec, x2_vec, prev_acc_vec, acc_vec },
    );
    proof {
        let new = st.vec_events.prefix_sum_checks_events@;
        assert(Seq::new(new.len(), |i: int| new[i]@) =~= Seq::new(
            events.len(),
            |i: int| events[i]@,
        ).push(new[new.len() - 1]@));
    }
    Ok(())
}

/// Executes one instruction.
fn execute_one<F: PermutationField, EF: ExtensionField<F>>(
    st: &mut ExecState<F>,
    perm: &F::Permutation,
    instr: &Instruction<F>,
    isolated: bool,
    offset: usize,
    resolved: &Vec<u32>,
    Ghost(s): Ghost<State<F>>,
    Ghost(c): Ghost<Counts>,
    Ghost(total): Ghost<Counts>,
) -> (r: Result<(), RuntimeError<F, EF>>)
    requires
        EF::degree() == 4,
        old(st).holds(s, total),
        runtime::ready(s, *instr, offset, resolved@, c, total),
    ensures
        runtime::done(
            *final(st),
            r,
            s,
            runtime::chains(*instr),
            semantics::step::<F, EF>(F::rounds_of(*perm), s, *instr, isolated),
            total,
        ),
{
    let ghost rounds = F::rounds_of(*perm);
    match instr {
        Instruction::BaseAlu(alu) => execute_base_alu::<F, EF>(
            st,
            alu,
            offset,
            resolved,
            Ghost(s),
            Ghost(c),
            Ghost(total),
        ),
        Instruction::ExtAlu(alu) => execute_ext_alu::<F, EF>(
            st,
            alu,
            offset,
            resolved,
            Ghost(s),
            Ghost(c),
            Ghost(total),
        ),
        Instruction::Mem(mem) => execute_mem::<F, EF>(
            st,
            mem,
            offset,
            resolved,
            Ghost(s),
            Ghost(c),
            Ghost(total),
        ),
        Instruction::Poseidon2(p) => match permute_cells::<F, EF>(
            &mut st.memory,
            perm,
            resolved,
            Ghost(p.addrs.input@),
            Ghost(p.addrs.output@),
        ) {
            Ok(event) => {
                st.record.poseidon2_events.set(offset, Some(event));
                Ok(())
            },
            Err(e) => Err(e),
        },
        Instruction::Poseidon2Skinny(p) => match permute_cells::<F, EF>(
            &mut st.memory,
            perm,
            resolved,
            Ghost(p.addrs.input@),
            Ghost(p.addrs.output@),
        ) {
            Ok(event) => {
                st.record.poseidon2_skinny_events.set(offset, Some(event));
                Ok(())
            },
            Err(e) => Err(e),
        },
        Instruction::Select(select) => execute_select::<F, EF>(
            st,
            select,
            offset,
            resolved,
            Ghost(s),
            Ghost(c),
            Ghost(total),
        ),
        Instruction::HintBits(h) => execute_hint_bits::<F, EF>(
            st,
            h,
            offset,
            resolved,
            Ghost(rounds),
            Ghost(s),
            Ghost(c),
            Ghost(total),
        ),
        Instruction::HintAddCurve(h) => execute_add_curve::<F, EF>(
            st,
            h,
            offset,
            resolved,
            Ghost(rounds),
            Ghost(*instr),
            Ghost(s),
            Ghost(c),
            Ghost(total),
        ),
        Instruction::CommitPublicValues(commit) => execute_commit::<F, EF>(
            st,
            commit,
            isolated,
            offset,
            resolved,
            Ghost(rounds),
            Ghost(*instr),
            Ghost(s),
            Ghost(c),
            Ghost(total),
        ),
        Instruction::Print(_) => match st.memory.mr_at::<EF>(resolved[0]) {
            Ok(_) => Ok(()),
            Err(e) => Err(e),
        },
        Instruction::HintExt2Felts(h) => execute_ext2felts::<F, EF>(
            st,
            h,
            offset,
            resolved,
            Ghost(rounds),
            Ghost(s),
            Ghost(c),
            Ghost(total),
        ),
        Instruction::Hint(h) => execute_hint::<F, EF>(
            st,
            h,
            offset,
            resolved,
            Ghost(rounds),
            Ghost(s),
            Ghost(c),
            Ghost(total),
        ),
        Instruction::PolyEval(p) => execute_poly_eval::<F, EF>(
            st,
            p,
            offset,
            resolved,
            Ghost(rounds),
            Ghost(s),
            Ghost(c),
            Ghost(total),
        ),
        Instruction::ExtExpReverseBits(x) => execute_exp::<F, EF>(
            st,
            x,
            offset,
            resolved,
            Ghost(rounds),
            Ghost(s),
            Ghost(c),
            Ghost(total),
        ),
        Instruction::PrefixSumChecks(p) => execute_prefix::<F, EF>(
            st,
            p,
            offset,
            resolved,
            Ghost(rounds),
            Ghost(*instr),
            Ghost(s),
            Ghost(c),
            Ghost(total),
        ),
    }
}

/// The machine stands before the instruction at the cursor.
spec fn stands<F: PermutationField, EF: ExtensionField<F>>(
    st: ExecState<F>,
    root: RootProgram<F>,
    rounds: Rounds<F>,
    start: State<F>,
    cursor: nat,
) -> bool {
    let all = root.inner.placed(false, false);
    let now = semantics::executed::<F, EF>(rounds, start, all, cursor);
    &&& cursor <= all.len()
    &&& now is Ok
    &&& st.holds(now->Ok_0, root.event_counts@)
    &&& semantics::tallied(
        now->Ok_0,
        event_count::counts_from(Counts::none(), root.inner.items(), cursor),
    )
}

/// The machine stopped at the instruction at the cursor: it is as it was before the instruction, but
/// for the cells where the instruction is a chain.
spec fn stopped_at<F: PermutationField, EF: ExtensionField<F>>(
    st: ExecState<F>,
    root: RootProgram<F>,
    rounds: Rounds<F>,
    start: State<F>,
    e: RuntimeError<F, EF>,
    cursor: nat,
) -> bool {
    let all = root.inner.placed(false, false);
    let before = semantics::executed::<F, EF>(rounds, start, all, cursor);
    &&& cursor < all.len()
    &&& before is Ok
    &&& semantics::executed::<F, EF>(rounds, start, all, cursor + 1) == Err::<
        State<F>,
        RuntimeError<F, EF>,
    >(e)
    &&& runtime::unchanged(
        st,
        before->Ok_0,
        runtime::chains(all[cursor as int].item),
        root.event_counts@,
    )
}

/// The machine stopped at an instruction of the program.
spec fn stopped<F: PermutationField, EF: ExtensionField<F>>(
    st: ExecState<F>,
    root: RootProgram<F>,
    rounds: Rounds<F>,
    start: State<F>,
    e: RuntimeError<F, EF>,
) -> bool {
    exists|cursor: nat| stopped_at(st, root, rounds, start, e, cursor)
}

/// The instructions from the cursor on are those of a part of the program.
spec fn covers<F: PermutationField>(
    root: RootProgram<F>,
    cursor: nat,
    part: Seq<Placed<Instruction<F>>>,
) -> bool {
    let all = root.inner.placed(false, false);
    &&& cursor + part.len() <= all.len()
    &&& all.subrange(cursor as int, (cursor + part.len()) as int) == part
}

/// The instructions of a program can be executed: their operands have the sizes that they work on,
/// and the witness is only read outside parallel blocks.
pub open spec fn executable<F: PrimeField32>(placed: Seq<Placed<Instruction<F>>>) -> bool {
    &&& forall|k: int| 0 <= k < placed.len() ==> semantics::instr_wf((#[trigger] placed[k]).item)
    &&& forall|k: int|
        0 <= k < placed.len() && (#[trigger] placed[k]).item is Hint ==> !placed[k].parallel
}

proof fn lemma_covers_split<F: PermutationField>(
    root: RootProgram<F>,
    cursor: nat,
    a: Seq<Placed<Instruction<F>>>,
    b: Seq<Placed<Instruction<F>>>,
    part: Seq<Placed<Instruction<F>>>,
)
    requires
        covers(root, cursor, part),
        a + b == part,
    ensures
        covers(root, cursor, a),
        covers(root, cursor + a.len(), b),
{
    let all = root.inner.placed(false, false);
    assert(all.subrange(cursor as int, (cursor + a.len()) as int) =~= a) by {
        assert forall|i: int| 0 <= i < a.len() implies all[cursor + i] == a[i] by {
            assert(all.subrange(cursor as int, (cursor + part.len()) as int)[i] == part[i]);
        }
    }
    assert(all.subrange((cursor + a.len()) as int, (cursor + a.len() + b.len()) as int) =~= b) by {
        assert forall|i: int| 0 <= i < b.len() implies all[cursor + a.len() + i] == b[i] by {
            assert(all.subrange(cursor as int, (cursor + part.len()) as int)[a.len() + i]
                == part[a.len() + i]);
        }
    }
}

/// The entries of a table from one place to another.
fn table_range(table: &Vec<u32>, from: usize, to: usize) -> (r: Vec<u32>)
    requires
        from <= to <= table@.len(),
    ensures
        r@ == table@.subrange(from as int, to as int),
{
    let mut r: Vec<u32> = Vec::new();
    let mut i: usize = from;
    while i < to
        invariant
            from <= i <= to <= table@.len(),
            r@ == table@.subrange(from as int, i as int),
        decreases to - i,
    {
        r.push(table[i]);
        i += 1;
        assert(r@ =~= table@.subrange(from as int, i as int));
    }
    r
}

/// Executes the instruction at the cursor.
fn execute_at<F: PermutationField, EF: ExtensionField<F>>(
    st: &mut ExecState<F>,
    perm: &F::Permutation,
    root: &RootProgram<F>,
    instr: &Instruction<F>,
    isolated: bool,
    cursor: usize,
    Ghost(start): Ghost<State<F>>,
) -> (r: Result<(), RuntimeError<F, EF>>)
    requires
        EF::degree() == 4,
        root.wf(),
        executable(root.inner.placed(false, false)),
        cursor < root.inner.placed(false, false).len(),
        root.inner.placed(false, false)[cursor as int].item == *instr,
        root.inner.placed(false, false)[cursor as int].isolated == isolated,
        stands::<F, EF>(*old(st), *root, F::rounds_of(*perm), start, cursor as nat),
    ensures
        r is Ok ==> stands::<F, EF>(
            *final(st),
            *root,
            F::rounds_of(*perm),
            start,
            cursor as nat + 1,
        ),
        r matches Err(e) ==> semantics::executed::<F, EF>(
            F::rounds_of(*perm),
            start,
            root.inner.placed(false, false),
            root.inner.placed(false, false).len(),
        ) == Err::<State<F>, RuntimeError<F, EF>>(e),
        r matches Err(e) ==> stopped::<F, EF>(*final(st), *root, F::rounds_of(*perm), start, e),
{
    let ghost rounds = F::rounds_of(*perm);
    let ghost all = root.inner.placed(false, false);
    let ghost instrs = root.inner.items();
    let ghost s = semantics::executed::<F, EF>(rounds, start, all, cursor as nat)->Ok_0;
    let ghost c = event_count::counts_from(Counts::none(), instrs, cursor as nat);
    let ghost total = root.event_counts@;
    proof {
        program::law_tables(instrs, cursor as int);
        event_count::lemma_counts_grow(
            Counts::none(),
            instrs,
            cursor as nat + 1,
            instrs.len(),
        );
        assert(instrs[cursor as int] == *instr);
        assert(semantics::instr_wf(all[cursor as int].item));
    }
    let offset: usize = root.offsets[cursor];
    let addr_start: usize = root.addr_starts[cursor] as usize;
    let num_starts: usize = root.addr_starts.len();
    let addr_end: usize = if cursor + 1 < num_starts {
        root.addr_starts[cursor + 1] as usize
    } else {
        root.resolved_addrs.len()
    };
    let resolved = table_range(&root.resolved_addrs, addr_start, addr_end);
    let r = execute_one::<F, EF>(
        st,
        perm,
        instr,
        isolated,
        offset,
        &resolved,
        Ghost(s),
        Ghost(c),
        Ghost(total),
    );
    proof {
        if r is Ok {
            semantics::law_step_tallied::<F, EF>(rounds, s, *instr, isolated, c);
        } else {
            semantics::lemma_executed_err::<F, EF>(
                rounds,
                start,
                all,
                cursor as nat + 1,
                all.len(),
            );
            assert(stopped_at::<F, EF>(*st, *root, rounds, start, r->Err_0, cursor as nat));
        }
    }
    r
}

/// Executes a part of a program from the cursor on, and returns the cursor behind it. The parts of
/// a parallel block are executed one after the other.
fn execute_raw_inner<F: PermutationField, EF: ExtensionField<F>>(
    st: &mut ExecState<F>,
    perm: &F::Permutation,
    root: &RootProgram<F>,
    part: &RawProgram<Instruction<F>>,
    parallel: bool,
    isolated: bool,
    offset_cursor: usize,
    Ghost(start): Ghost<State<F>>,
) -> (r: Result<usize, RuntimeError<F, EF>>)
    requires
        EF::degree() == 4,
        root.wf(),
        executable(root.inner.placed(false, false)),
        covers(*root, offset_cursor as nat, part.placed(parallel, isolated)),
        stands::<F, EF>(*old(st), *root, F::rounds_of(*perm), start, offset_cursor as nat),
    ensures
        r matches Ok(cursor) ==> cursor == offset_cursor + part.placed(parallel, isolated).len()
            && stands::<F, EF>(*final(st), *root, F::rounds_of(*perm), start, cursor as nat),
        r matches Err(e) ==> semantics::executed::<F, EF>(
            F::rounds_of(*perm),
            start,
            root.inner.placed(false, false),
            root.inner.placed(false, false).len(),
        ) == Err::<State<F>, RuntimeError<F, EF>>(e),
        r matches Err(e) ==> stopped::<F, EF>(*final(st), *root, F::rounds_of(*perm), start, e),
    decreases part, 0nat,
{
    let ghost rounds = F::rounds_of(*perm);
    let ghost blocks = part.seq_blocks@;
    let n: usize = part.seq_blocks.len();
    let mut cursor: usize = offset_cursor;
    let mut b: usize = 0;
    while b < n
        invariant
            EF::degree() == 4,
            root.wf(),
            executable(root.inner.placed(false, false)),
            b <= n,
            n == part.seq_blocks@.len(),
            blocks == part.seq_blocks@,
            rounds == F::rounds_of(*perm),
            covers(
                *root,
                offset_cursor as nat,
                block::placed_blocks(blocks, n as nat, parallel, isolated),
            ),
            cursor == offset_cursor + block::placed_blocks(
                blocks,
                b as nat,
                parallel,
                isolated,
            ).len(),
            stands::<F, EF>(*st, *root, rounds, start, cursor as nat),
        decreases n - b,
    {
        let ghost first = block::placed_blocks(blocks, b as nat, parallel, isolated);
        let ghost here = block::placed_block(blocks[b as int], parallel, isolated);
        proof {
            lemma_blocks_rest(blocks, b as nat + 1, n as nat, parallel, isolated);
            let both = block::placed_blocks(blocks, b as nat + 1, parallel, isolated);
            let rest = choose|rest: Seq<Placed<Instruction<F>>>|
                block::placed_blocks(blocks, n as nat, parallel, isolated) == both + rest;
            lemma_covers_split(
                *root,
                offset_cursor as nat,
                both,
                rest,
                block::placed_blocks(blocks, n as nat, parallel, isolated),
            );
            lemma_covers_split(*root, offset_cursor as nat, first, here, both);
            assert(decreases_to!(part => part.seq_blocks));
            assert(decreases_to!(part.seq_blocks => part.seq_blocks@));
            assert(decreases_to!(part.seq_blocks@ => part.seq_blocks@[b as int]));
        }
        match execute_block::<F, EF>(
            st,
            perm,
            root,
            &part.seq_blocks[b],
            parallel,
            isolated,
            cursor,
            Ghost(start),
        ) {
            Ok(next) => {
                cursor = next;
            },
            Err(e) => {
                return Err(e);
            },
        }
        b += 1;
    }
    Ok(cursor)
}

/// Executes a block from the cursor on, and returns the cursor behind it.
fn execute_block<F: PermutationField, EF: ExtensionField<F>>(
    st: &mut ExecState<F>,
    perm: &F::Permutation,
    root: &RootProgram<F>,
    seq_block: &SeqBlock<Instruction<F>>,
    parallel: bool,
    isolated: bool,
    offset_cursor: usize,
    Ghost(start): Ghost<State<F>>,
) -> (r: Result<usize, RuntimeError<F, EF>>)
    requires
        EF::degree() == 4,
        root.wf(),
        executable(root.inner.placed(false, false)),
        covers(*root, offset_cursor as nat, block::placed_block(*seq_block, parallel, isolated)),
        stands::<F, EF>(*old(st), *root, F::rounds_of(*perm), start, offset_cursor as nat),
    ensures
        r matches Ok(cursor) ==> cursor == offset_cursor + block::placed_block(
            *seq_block,
            parallel,
            isolated,
        ).len() && stands::<F, EF>(*final(st), *root, F::rounds_of(*perm), start, cursor as nat),
        r matches Err(e) ==> semantics::executed::<F, EF>(
            F::rounds_of(*perm),
            start,
            root.inner.placed(false, false),
            root.inner.placed(false, false).len(),
        ) == Err::<State<F>, RuntimeError<F, EF>>(e),
        r matches Err(e) ==> stopped::<F, EF>(*final(st), *root, F::rounds_of(*perm), start, e),
    decreases seq_block, 1nat,
{
    let ghost rounds = F::rounds_of(*perm);
    let ghost all = root.inner.placed(false, false);
    let mut cursor: usize = offset_cursor;
    match seq_block {
        SeqBlock::Basic(basic) => {
            let ghost here = block::placed_items(basic.instrs@, parallel, isolated);
            let n: usize = basic.instrs.len();
            let len: usize = root.offsets.len();
            let mut i: usize = 0;
            proof {
                program::lemma_analyzed_grow(
                    program::no_tables(),
                    root.inner.items(),
                    0,
                    root.inner.items().len(),
                );
            }
            while i < n
                invariant
                    EF::degree() == 4,
                    root.wf(),
                    executable(all),
                    all == root.inner.placed(false, false),
                    i <= n,
                    n == basic.instrs@.len(),
                    len == all.len(),
                    here == block::placed_items(basic.instrs@, parallel, isolated),
                    rounds == F::rounds_of(*perm),
                    covers(*root, offset_cursor as nat, here),
                    cursor == offset_cursor + i,
                    stands::<F, EF>(*st, *root, rounds, start, cursor as nat),
                decreases n - i,
            {
                assert(all.subrange(
                    offset_cursor as int,
                    (offset_cursor + here.len()) as int,
                )[i as int] == here[i as int]);
                match execute_at::<F, EF>(
                    st,
                    perm,
                    root,
                    &basic.instrs[i],
                    isolated,
                    cursor,
                    Ghost(start),
                ) {
                    Ok(_) => {},
                    Err(e) => {
                        return Err(e);
                    },
                }
                cursor = cursor + 1;
                i += 1;
            }
        },
        SeqBlock::Parallel(programs) => {
            let n: usize = programs.len();
            let apart: bool = isolated || n > 1;
            let mut k: usize = 0;
            while k < n
                invariant
                    EF::degree() == 4,
                    root.wf(),
                    executable(root.inner.placed(false, false)),
                    k <= n,
                    n == programs@.len(),
                    *seq_block == SeqBlock::Parallel(*programs),
                    apart == (isolated || programs@.len() > 1),
                    rounds == F::rounds_of(*perm),
                    covers(
                        *root,
                        offset_cursor as nat,
                        block::placed_programs(programs@, n as nat, apart),
                    ),
                    cursor == offset_cursor + block::placed_programs(
                        programs@,
                        k as nat,
                        apart,
                    ).len(),
                    stands::<F, EF>(*st, *root, rounds, start, cursor as nat),
                decreases n - k,
            {
                let sub = &programs[k];
                proof {
                    let whole = block::placed_programs(programs@, n as nat, apart);
                    let first = block::placed_programs(programs@, k as nat, apart);
                    let both = block::placed_programs(programs@, k as nat + 1, apart);
                    lemma_programs_rest(programs@, k as nat + 1, n as nat, apart);
                    let rest = choose|rest: Seq<Placed<Instruction<F>>>| whole == both + rest;
                    lemma_covers_split(*root, offset_cursor as nat, both, rest, whole);
                    lemma_covers_split(
                        *root,
                        offset_cursor as nat,
                        first,
                        sub.placed(true, apart),
                        both,
                    );
                    assert(decreases_to!(seq_block => seq_block->Parallel_0));
                    assert(decreases_to!(programs => programs@));
                    assert(decreases_to!(programs@ => programs@[k as int]));
                }
                match execute_raw_inner::<F, EF>(
                    st,
                    perm,
                    root,
                    sub,
                    true,
                    apart,
                    cursor,
                    Ghost(start),
                ) {
                    Ok(next) => {
                        cursor = next;
                    },
                    Err(e) => {
                        return Err(e);
                    },
                }
                k += 1;
            }
        },
    }
    Ok(cursor)
}

proof fn lemma_blocks_rest<T>(
    blocks: Seq<SeqBlock<T>>,
    m: nat,
    n: nat,
    parallel: bool,
    isolated: bool,
)
    requires
        m <= n <= blocks.len(),
    ensures
        exists|rest: Seq<Placed<T>>|
            block::placed_blocks(blocks, n, parallel, isolated) == block::placed_blocks(
                blocks,
                m,
                parallel,
                isolated,
            ) + rest,
    decreases n,
{
    let first = block::placed_blocks(blocks, m, parallel, isolated);
    if m == n {
        assert(first =~= first + Seq::<Placed<T>>::empty());
    } else {
        lemma_blocks_rest(blocks, m, (n - 1) as nat, parallel, isolated);
        let before = block::placed_blocks(blocks, (n - 1) as nat, parallel, isolated);
        let rest = choose|rest: Seq<Placed<T>>| before == first + rest;
        let last = block::placed_block(blocks[n - 1], parallel, isolated);
        assert(before + last =~= first + (rest + last));
    }
}

proof fn lemma_programs_rest<T>(programs: Seq<RawProgram<T>>, m: nat, n: nat, isolated: bool)
    requires
        m <= n <= programs.len(),
    ensures
        exists|rest: Seq<Placed<T>>|
            block::placed_programs(programs, n, isolated) == block::placed_programs(
                programs,
                m,
                isolated,
            ) + rest,
    decreases n,
{
    let first = block::placed_programs(programs, m, isolated);
    if m == n {
        assert(first =~= first + Seq::<Placed<T>>::empty());
    } else {
        lemma_programs_rest(programs, m, (n - 1) as nat, isolated);
        let before = block::placed_programs(programs, (n - 1) as nat, isolated);
        let rest = choose|rest: Seq<Placed<T>>| before == first + rest;
        let last = programs[n - 1].placed(true, isolated);
        assert(before + last =~= first + (rest + last));
    }
}

/// The machine with its program.
pub struct Runtime<F: PermutationField> {
    /// The program.
    pub program: RootProgram<F>,
    /// The memory.
    pub memory: MemVec<F>,
    /// The record of the last run that succeeded.
    pub record: ExecutionRecord<F>,
    /// The values that hints still read.
    pub witness_stream: VecDeque<Block<F>>,
    pub perm: F::Permutation,
}

/// A machine that has not run yet.
pub open spec fn first_state<F>(
    memory: Seq<Option<Block<F>>>,
    witness: Seq<Block<F>>,
) -> State<F> {
    State {
        memory,
        witness,
        base_alu: Seq::empty(),
        ext_alu: Seq::empty(),
        mem_var: Seq::empty(),
        poseidon2: Seq::empty(),
        poseidon2_skinny: Seq::empty(),
        select: Seq::empty(),
        commits: Seq::empty(),
        poly_evals: Seq::empty(),
        exps: Seq::empty(),
        prefixes: Seq::empty(),
        public_values: None,
    }
}

impl<F: PermutationField> Runtime<F> {
    /// The round constants of the permutation.
    pub open spec fn rounds(self) -> Rounds<F> {
        F::rounds_of(self.perm)
    }

    /// The program can be executed, and what the machine holds is canonical.
    pub open spec fn wf(self) -> bool {
        &&& self.program.wf()
        &&& executable(self.program.inner.placed(false, false))
        &&& self.memory.wf()
        &&& semantics::blocks_valid(self.witness_stream@)
    }

    /// What the program does from the machine's memory and witness.
    pub open spec fn outcome<EF: ExtensionField<F>>(self) -> Result<State<F>, RuntimeError<F, EF>> {
        let placed = self.program.inner.placed(false, false);
        semantics::executed::<F, EF>(
            self.rounds(),
            first_state(self.memory.cells@, self.witness_stream@),
            placed,
            placed.len(),
        )
    }

    /// A machine for the program, with its memory empty.
    pub fn new(program: RootProgram<F>, perm: F::Permutation) -> (r: Self)
        requires
            program.wf(),
            executable(program.inner.placed(false, false)),
        ensures
            r.wf(),
            r.program == program,
            r.rounds() == F::rounds_of(perm),
            r.memory.cells@.len() == program.total_memory,
            forall|i: int| 0 <= i < program.total_memory ==> (#[trigger] r.memory.cells@[i]) is None,
            r.witness_stream@.len() == 0,
            r.record.index == 0,
            r.record.mem_const_count == 0,
            r.record.base_alu_events@.len() == 0,
            r.record.ext_alu_events@.len() == 0,
            r.record.mem_var_events@.len() == 0,
            r.record.public_values.elements@.len() == 0,
            r.record.poseidon2_events@.len() == 0,
            r.record.poseidon2_skinny_events@.len() == 0,
            r.record.select_events@.len() == 0,
            r.record.commit_pv_hash_events@.len() == 0,
            r.record.poly_eval_events@.len() == 0,
            r.record.ext_exp_reverse_bits_events@.len() == 0,
            r.record.prefix_sum_checks_events@.len() == 0,
    {
        let memory = MemVec::with_capacity(program.total_memory);
        Runtime {
            program,
            memory,
            record: ExecutionRecord::empty(),
            witness_stream: VecDeque::new(),
            perm,
        }
    }

    /// What the program does up to an instruction.
    pub open spec fn outcome_at<EF: ExtensionField<F>>(self, cursor: nat) -> Result<
        State<F>,
        RuntimeError<F, EF>,
    > {
        semantics::executed::<F, EF>(
            self.rounds(),
            first_state(self.memory.cells@, self.witness_stream@),
            self.program.inner.placed(false, false),
            cursor,
        )
    }

    /// The program stopped at the instruction at the cursor, and left the machine as it was before
    /// the instruction, but for the cells where the instruction is a chain.
    pub open spec fn stopped_at<EF: ExtensionField<F>>(
        self,
        after: Self,
        e: RuntimeError<F, EF>,
        cursor: nat,
    ) -> bool {
        let all = self.program.inner.placed(false, false);
        &&& cursor < all.len()
        &&& self.outcome_at::<EF>(cursor + 1) == Err::<State<F>, RuntimeError<F, EF>>(e)
        &&& self.outcome_at::<EF>(cursor) matches Ok(s) && {
            &&& after.witness_stream@ == s.witness
            &&& runtime::chains(all[cursor as int].item) || after.memory.cells@ == s.memory
        }
    }

    /// Runs the program. The record is that of the run, and stays as it is where the program stops.
    pub fn run<EF: ExtensionField<F>>(&mut self) -> (r: Result<(), RuntimeError<F, EF>>)
        requires
            EF::degree() == 4,
            old(self).wf(),
        ensures
            final(self).program == old(self).program,
            final(self).rounds() == old(self).rounds(),
            match old(self).outcome::<EF>() {
                Ok(t) => {
                    &&& r is Ok
                    &&& final(self).wf()
                    &&& final(self).memory.cells@ == t.memory
                    &&& final(self).witness_stream@ == t.witness
                    &&& record::holds_events(final(self).record, t)
                    &&& final(self).record.mem_const_count == event_count::program_counts(
                        old(self).program.inner.items(),
                    ).mem_const_events
                },
                Err(e) => {
                    &&& r == Err::<(), RuntimeError<F, EF>>(e)
                    &&& final(self).wf()
                    &&& final(self).record == old(self).record
                    &&& exists|cursor: nat| #[trigger]
                        old(self).stopped_at(*final(self), e, cursor)
                },
            },
    {
        let ghost rounds = F::rounds_of(self.perm);
        let ghost start = first_state(self.memory.cells@, self.witness_stream@);
        let ghost all = self.program.inner.placed(false, false);
        let ghost instrs = self.program.inner.items();
        let mut memory: MemVec<F> = MemVec { cells: Vec::new() };
        let mut witness_stream: VecDeque<Block<F>> = VecDeque::new();
        std::mem::swap(&mut memory, &mut self.memory);
        std::mem::swap(&mut witness_stream, &mut self.witness_stream);
        let mut st = ExecState {
            memory,
            record: UnsafeRecord::new(&self.program.event_counts),
            vec_events: VecEventCollector::new(),
            witness_stream,
        };
        proof {
            program::lemma_analyzed_grow(program::no_tables(), instrs, 0, instrs.len());
            let c = st.vec_events;
            assert(Seq::new(c.poly_eval_events@.len(), |i: int| c.poly_eval_events@[i]@)
                =~= start.poly_evals);
            assert(Seq::new(
                c.ext_exp_reverse_bits_events@.len(),
                |i: int| c.ext_exp_reverse_bits_events@[i]@,
            ) =~= start.exps);
            assert(Seq::new(
                c.prefix_sum_checks_events@.len(),
                |i: int| c.prefix_sum_checks_events@[i]@,
            ) =~= start.prefixes);
            assert(st.holds(start, self.program.event_counts@));
            assert(stands::<F, EF>(st, self.program, rounds, start, 0));
            assert(all.subrange(0, (0 + all.len()) as int) =~= all);
        }
        let r = execute_raw_inner::<F, EF>(
            &mut st,
            &self.perm,
            &self.program,
            &self.program.inner,
            false,
            false,
            0,
            Ghost(start),
        );
        self.memory = st.memory;
        self.witness_stream = st.witness_stream;
        match r {
            Ok(_) => {
                let ghost t = semantics::executed::<F, EF>(rounds, start, all, all.len())->Ok_0;
                proof {
                    assert(instrs.len() == all.len());
                    assert(st.record.sized_by(t));
                    st.record.lemma_complete(t);
                }
                let ghost slots = st.record;
                let ghost collected = st.vec_events;
                self.record = st.record.into_record(st.vec_events);
                assert(slots.records(t) && slots.sized_by(t) && collected.collects(t));
                Ok(())
            },
            Err(e) => {
                proof {
                    let cursor = choose|cursor: nat|
                        stopped_at::<F, EF>(st, self.program, rounds, start, e, cursor);
                    assert(stopped_at::<F, EF>(st, self.program, rounds, start, e, cursor));
                    assert(old(self).stopped_at::<EF>(*self, e, cursor));
                }
                Err(e)
            },
        }
    }
}

} // verus!
