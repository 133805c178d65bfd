//! In which order the instructions of a program stand, and where a run stops.
use vstd::prelude::*;
use crate::basefold::poseidon::{PermutationField, Rounds};
use crate::field::ExtensionField;
use crate::recursion::block;
use crate::recursion::block::{Placed, RawProgram, SeqBlock};
use crate::recursion::effects;
use crate::recursion::instruction::Instruction;
use crate::recursion::semantics;
use crate::recursion::semantics::{RuntimeError, State};

verus! {

proof fn lemma_blocks_prefix<T>(a: Seq<SeqBlock<T>>, x: SeqBlock<T>, n: nat, p: bool, i: bool)
    requires
        n <= a.len(),
    ensures
        block::placed_blocks(a.push(x), n, p, i) == block::placed_blocks(a, n, p, i),
    decreases n,
{
    if n > 0 {
        lemma_blocks_prefix(a, x, (n - 1) as nat, p, i);
        assert(a.push(x)[n - 1] == a[n - 1]);
    }
}

proof fn lemma_programs_prefix<T>(a: Seq<RawProgram<T>>, x: RawProgram<T>, n: nat, i: bool)
    requires
        n <= a.len(),
    ensures
        block::placed_programs(a.push(x), n, i) == block::placed_programs(a, n, i),
    decreases n,
{
    if n > 0 {
        lemma_programs_prefix(a, x, (n - 1) as nat, i);
        assert(a.push(x)[n - 1] == a[n - 1]);
    }
}

/// Law: a block behind a program adds its instructions behind those of the program, a basic block those
/// that it lists; and an empty program has none.
pub proof fn law_blocks_in_order<T>(a: RawProgram<T>, b: RawProgram<T>, x: SeqBlock<T>)
    requires
        b.seq_blocks@ == a.seq_blocks@.push(x),
    ensures
        b.items() == a.items() + x.items(),
        x is Basic ==> x.items() == x->Basic_0.instrs@,
        a.seq_blocks@.len() == 0 ==> a.items().len() == 0,
{
    let s = a.seq_blocks@;
    lemma_blocks_prefix(s, x, s.len(), false, false);
    block::lemma_items_append(
        block::placed_blocks(s, s.len(), false, false),
        block::placed_block(x, false, false),
    );
    if x is Basic {
        assert(x.items() =~= x->Basic_0.instrs@);
    }
}

/// Law: a program behind those of a parallel block adds its instructions behind theirs.
pub proof fn law_programs_in_order<T>(a: SeqBlock<T>, b: SeqBlock<T>, x: RawProgram<T>)
    requires
        a is Parallel,
        b is Parallel,
        b->Parallel_0@ == a->Parallel_0@.push(x),
    ensures
        b.items() == a.items() + x.items(),
        a->Parallel_0@.len() == 0 ==> a.items().len() == 0,
{
    let s = a->Parallel_0@;
    let t = b->Parallel_0@;
    let i = s.len() > 1;
    let j = t.len() > 1;
    lemma_programs_prefix(s, x, s.len(), j);
    block::lemma_items_append(
        block::placed_programs(s, s.len(), j),
        block::placed_blocks(x.seq_blocks@, x.seq_blocks@.len(), true, j),
    );
    block::lemma_items_programs(s, s.len(), i, j);
    block::lemma_items_blocks(x.seq_blocks@, x.seq_blocks@.len(), true, j, false, false);
}

/// All the instructions are kept apart from the record of the run.
pub open spec fn all_isolated<T>(s: Seq<Placed<T>>) -> bool {
    forall|k: int| 0 <= k < s.len() ==> (#[trigger] s[k]).isolated
}

proof fn lemma_isolated_blocks<T>(blocks: Seq<SeqBlock<T>>, n: nat, p: bool)
    ensures
        all_isolated(block::placed_blocks(blocks, n, p, true)),
    decreases blocks, n,
{
    if n > 0 && n <= blocks.len() {
        lemma_isolated_blocks(blocks, (n - 1) as nat, p);
        lemma_isolated_block(blocks[n - 1], p);
    }
}

proof fn lemma_isolated_block<T>(x: SeqBlock<T>, p: bool)
    ensures
        all_isolated(block::placed_block(x, p, true)),
    decreases x, 0nat,
{
    match x {
        SeqBlock::Basic(_) => {},
        SeqBlock::Parallel(programs) => {
            lemma_isolated_programs(programs@, programs@.len());
        },
    }
}

proof fn lemma_isolated_programs<T>(programs: Seq<RawProgram<T>>, n: nat)
    ensures
        all_isolated(block::placed_programs(programs, n, true)),
    decreases programs, n,
{
    if n > 0 && n <= programs.len() {
        lemma_isolated_programs(programs, (n - 1) as nat);
        let blocks = programs[n - 1].seq_blocks@;
        lemma_isolated_blocks(blocks, blocks.len(), true);
    }
}

/// Law: the instructions of a parallel block of more than one program are isolated, and so are all
/// instructions inside of isolated ones; those that a program lists outside of parallel blocks are not.
pub proof fn law_isolated<T>(x: SeqBlock<T>, p: bool, k: int)
    ensures
        all_isolated(block::placed_block(x, p, true)),
        x is Parallel && x->Parallel_0@.len() > 1 ==> all_isolated(
            block::placed_block(x, p, false),
        ),
        x is Basic && 0 <= k < x->Basic_0.instrs@.len() ==> !block::placed_block(
            x,
            p,
            false,
        )[k].isolated,
{
    lemma_isolated_block(x, p);
    if x is Parallel {
        let programs = x->Parallel_0@;
        lemma_isolated_programs(programs, programs.len());
    }
}

/// Law: a run fails exactly where the instructions up to one of them take the state along and that one
/// fails, with its error.
pub proof fn law_run_stops<F: PermutationField, EF: ExtensionField<F>>(
    rounds: Rounds<F>,
    s: State<F>,
    placed: Seq<Placed<Instruction<F>>>,
    e: RuntimeError<F, EF>,
)
    ensures
        semantics::executed::<F, EF>(rounds, s, placed, placed.len()) == Err::<
            State<F>,
            RuntimeError<F, EF>,
        >(e) <==> exists|k: int, t: State<F>|
            0 <= k < placed.len() && #[trigger] reaches::<F, EF>(rounds, s, placed, k, t)
                && semantics::step::<F, EF>(rounds, t, placed[k].item, placed[k].isolated) == Err::<
                State<F>,
                RuntimeError<F, EF>,
            >(e),
{
    let n = placed.len();
    if semantics::executed::<F, EF>(rounds, s, placed, n) == Err::<State<F>, RuntimeError<F, EF>>(e)
    {
        lemma_first_failure::<F, EF>(rounds, s, placed, n, e);
    }
    if exists|k: int, t: State<F>|
        0 <= k < placed.len() && #[trigger] reaches::<F, EF>(rounds, s, placed, k, t)
            && semantics::step::<F, EF>(rounds, t, placed[k].item, placed[k].isolated) == Err::<
            State<F>,
            RuntimeError<F, EF>,
        >(e) {
        let (k, t) = choose|k: int, t: State<F>|
            0 <= k < placed.len() && #[trigger] reaches::<F, EF>(rounds, s, placed, k, t)
                && semantics::step::<F, EF>(rounds, t, placed[k].item, placed[k].isolated) == Err::<
                State<F>,
                RuntimeError<F, EF>,
            >(e);
        let less = placed.take(k);
        effects::law_run_in_order::<F, EF>(rounds, s, less, t);
        lemma_executed_prefix::<F, EF>(rounds, s, placed, k as nat, k as nat);
        semantics::lemma_executed_err::<F, EF>(rounds, s, placed, (k + 1) as nat, n);
    }
}

/// The first `k` instructions take the one state to the other.
pub open spec fn reaches<F: PermutationField, EF: ExtensionField<F>>(
    rounds: Rounds<F>,
    s: State<F>,
    placed: Seq<Placed<Instruction<F>>>,
    k: int,
    t: State<F>,
) -> bool {
    exists|states: Seq<State<F>>| #[trigger]
        effects::runs_through::<F, EF>(rounds, states, placed.take(k)) && states[0] == s
            && states.last() == t
}

proof fn lemma_executed_prefix<F: PermutationField, EF: ExtensionField<F>>(
    rounds: Rounds<F>,
    s: State<F>,
    placed: Seq<Placed<Instruction<F>>>,
    k: nat,
    n: nat,
)
    requires
        n <= k <= placed.len(),
    ensures
        semantics::executed::<F, EF>(rounds, s, placed.take(k as int), n) == semantics::executed::<
            F,
            EF,
        >(rounds, s, placed, n),
    decreases n,
{
    if n > 0 {
        lemma_executed_prefix::<F, EF>(rounds, s, placed, k, (n - 1) as nat);
        assert(placed.take(k as int)[n - 1] == placed[n - 1]);
    }
}

proof fn lemma_first_failure<F: PermutationField, EF: ExtensionField<F>>(
    rounds: Rounds<F>,
    s: State<F>,
    placed: Seq<Placed<Instruction<F>>>,
    n: nat,
    e: RuntimeError<F, EF>,
)
    requires
        n <= placed.len(),
        semantics::executed::<F, EF>(rounds, s, placed, n) == Err::<
            State<F>,
            RuntimeError<F, EF>,
        >(e),
    ensures
        exists|k: int, t: State<F>|
            0 <= k < placed.len() && #[trigger] reaches::<F, EF>(rounds, s, placed, k, t)
                && semantics::step::<F, EF>(rounds, t, placed[k].item, placed[k].isolated) == Err::<
                State<F>,
                RuntimeError<F, EF>,
            >(e),
    decreases n,
{
    let m = (n - 1) as nat;
    let before = semantics::executed::<F, EF>(rounds, s, placed, m);
    if before is Ok {
        let t = before->Ok_0;
        lemma_executed_prefix::<F, EF>(rounds, s, placed, m, m);
        effects::law_run_in_order::<F, EF>(rounds, s, placed.take(m as int), t);
        assert(reaches::<F, EF>(rounds, s, placed, m as int, t));
    } else {
        lemma_first_failure::<F, EF>(rounds, s, placed, m, e);
    }
}

} // verus!
