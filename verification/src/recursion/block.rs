//! Programs as blocks that run one after the other or side by side.
use vstd::prelude::*;

verus! {

/// Instructions that run in order.
#[derive(Clone, Debug)]
pub struct BasicBlock<T> {
    pub instrs: Vec<T>,
}

/// Segments that may be sequentially composed.
#[derive(Debug)]
pub enum SeqBlock<T> {
    /// One basic block.
    Basic(BasicBlock<T>),
    /// Many programs to be run in parallel.
    Parallel(Vec<RawProgram<T>>),
}

/// Blocks that run one after the other.
#[derive(Debug)]
pub struct RawProgram<T> {
    pub seq_blocks: Vec<SeqBlock<T>>,
}

/// An item of a program and where it stands.
pub struct Placed<T> {
    pub item: T,
    /// The item stands inside some parallel block.
    pub parallel: bool,
    /// The item stands inside a parallel block of two programs or more.
    pub isolated: bool,
}

/// The items of a block that runs in order.
pub open spec fn placed_items<T>(items: Seq<T>, parallel: bool, isolated: bool) -> Seq<Placed<T>> {
    Seq::new(items.len(), |i: int| Placed { item: items[i], parallel, isolated })
}

/// The items of the first `upto` blocks, in program order.
pub open spec fn placed_blocks<T>(
    blocks: Seq<SeqBlock<T>>,
    upto: nat,
    parallel: bool,
    isolated: bool,
) -> Seq<Placed<T>>
    decreases blocks, upto,
{
    if upto == 0 || upto > blocks.len() {
        Seq::empty()
    } else {
        placed_blocks(blocks, (upto - 1) as nat, parallel, isolated) + placed_block(
            blocks[upto - 1],
            parallel,
            isolated,
        )
    }
}

/// The items of a block, in program order.
pub open spec fn placed_block<T>(block: SeqBlock<T>, parallel: bool, isolated: bool) -> Seq<
    Placed<T>,
>
    decreases block, 0nat,
{
    match block {
        SeqBlock::Basic(basic) => placed_items(basic.instrs@, parallel, isolated),
        SeqBlock::Parallel(programs) => placed_programs(
            programs@,
            programs@.len(),
            isolated || programs@.len() > 1,
        ),
    }
}

/// The items of the first `upto` programs of a parallel block, in program order.
pub open spec fn placed_programs<T>(
    programs: Seq<RawProgram<T>>,
    upto: nat,
    isolated: bool,
) -> Seq<Placed<T>>
    decreases programs, upto,
{
    if upto == 0 || upto > programs.len() {
        Seq::empty()
    } else {
        placed_programs(programs, (upto - 1) as nat, isolated) + placed_blocks(
            programs[upto - 1].seq_blocks@,
            programs[upto - 1].seq_blocks@.len(),
            true,
            isolated,
        )
    }
}

impl<T> RawProgram<T> {
    /// The items in program order, with where they stand.
    pub open spec fn placed(self, parallel: bool, isolated: bool) -> Seq<Placed<T>> {
        placed_blocks(self.seq_blocks@, self.seq_blocks@.len(), parallel, isolated)
    }

    /// The items in program order.
    pub open spec fn items(self) -> Seq<T> {
        items_of(self.placed(false, false))
    }
}

impl<T> SeqBlock<T> {
    /// The items in program order.
    pub open spec fn items(self) -> Seq<T> {
        items_of(placed_block(self, false, false))
    }
}

pub open spec fn items_of<T>(placed: Seq<Placed<T>>) -> Seq<T> {
    Seq::new(placed.len(), |i: int| placed[i].item)
}

/// The references are those to the items.
pub open spec fn refers<T>(refs: Seq<&T>, items: Seq<T>) -> bool {
    &&& refs.len() == items.len()
    &&& forall|i: int| 0 <= i < refs.len() ==> *(#[trigger] refs[i]) == items[i]
}

/// Where the items stand does not change what they are.
pub proof fn lemma_items_blocks<T>(
    blocks: Seq<SeqBlock<T>>,
    upto: nat,
    p: bool,
    i: bool,
    q: bool,
    j: bool,
)
    ensures
        items_of(placed_blocks(blocks, upto, p, i)) == items_of(placed_blocks(blocks, upto, q, j)),
    decreases blocks, upto,
{
    if upto == 0 || upto > blocks.len() {
    } else {
        lemma_items_blocks(blocks, (upto - 1) as nat, p, i, q, j);
        lemma_items_block(blocks[upto - 1], p, i, q, j);
        lemma_items_append(
            placed_blocks(blocks, (upto - 1) as nat, p, i),
            placed_block(blocks[upto - 1], p, i),
        );
        lemma_items_append(
            placed_blocks(blocks, (upto - 1) as nat, q, j),
            placed_block(blocks[upto - 1], q, j),
        );
    }
}

pub proof fn lemma_items_block<T>(block: SeqBlock<T>, p: bool, i: bool, q: bool, j: bool)
    ensures
        items_of(placed_block(block, p, i)) == items_of(placed_block(block, q, j)),
    decreases block, 0nat,
{
    match block {
        SeqBlock::Basic(basic) => {
            assert(items_of(placed_block(block, p, i)) =~= items_of(placed_block(block, q, j)));
        },
        SeqBlock::Parallel(programs) => {
            lemma_items_programs(
                programs@,
                programs@.len(),
                i || programs@.len() > 1,
                j || programs@.len() > 1,
            );
        },
    }
}

pub proof fn lemma_items_programs<T>(programs: Seq<RawProgram<T>>, upto: nat, i: bool, j: bool)
    ensures
        items_of(placed_programs(programs, upto, i)) == items_of(
            placed_programs(programs, upto, j),
        ),
    decreases programs, upto,
{
    if upto == 0 || upto > programs.len() {
    } else {
        let last = programs[upto - 1];
        lemma_items_programs(programs, (upto - 1) as nat, i, j);
        lemma_items_blocks(last.seq_blocks@, last.seq_blocks@.len(), true, i, true, j);
        lemma_items_append(
            placed_programs(programs, (upto - 1) as nat, i),
            last.placed(true, i),
        );
        lemma_items_append(
            placed_programs(programs, (upto - 1) as nat, j),
            last.placed(true, j),
        );
    }
}

pub proof fn lemma_items_append<T>(a: Seq<Placed<T>>, b: Seq<Placed<T>>)
    ensures
        items_of(a + b) == items_of(a) + items_of(b),
{
    assert(items_of(a + b) =~= items_of(a) + items_of(b));
}

/// Appends the items of a program.
fn collect_program<'a, T>(program: &'a RawProgram<T>, out: &mut Vec<&'a T>)
    ensures
        final(out)@.len() == old(out)@.len() + program.items().len(),
        forall|i: int|
            0 <= i < old(out)@.len() ==> #[trigger] final(out)@[i] == old(out)@[i],
        forall|i: int|
            old(out)@.len() <= i < final(out)@.len() ==> *(#[trigger] final(out)@[i])
                == program.items()[i - old(out)@.len()],
    decreases program, 0nat,
{
    let n: usize = program.seq_blocks.len();
    let mut b: usize = 0;
    let ghost start = out@.len();
    let ghost blocks = program.seq_blocks@;
    while b < n
        invariant
            b <= n,
            n == program.seq_blocks@.len(),
            blocks == program.seq_blocks@,
            start == old(out)@.len(),
            out@.len() == start + items_of(placed_blocks(blocks, b as nat, false, false)).len(),
            forall|i: int| 0 <= i < start ==> #[trigger] out@[i] == old(out)@[i],
            forall|i: int|
                start <= i < out@.len() ==> *(#[trigger] out@[i]) == items_of(
                    placed_blocks(blocks, b as nat, false, false),
                )[i - start],
        decreases n - b,
    {
        proof {
            lemma_items_append(
                placed_blocks(blocks, b as nat, false, false),
                placed_block(blocks[b as int], false, false),
            );
            assert(decreases_to!(program => program.seq_blocks));
            assert(decreases_to!(program.seq_blocks => program.seq_blocks@));
            assert(decreases_to!(program.seq_blocks@ => program.seq_blocks@[b as int]));
        }
        collect_block(&program.seq_blocks[b], out);
        b += 1;
    }
}

/// Appends the items of a block.
fn collect_block<'a, T>(block: &'a SeqBlock<T>, out: &mut Vec<&'a T>)
    ensures
        final(out)@.len() == old(out)@.len() + block.items().len(),
        forall|i: int|
            0 <= i < old(out)@.len() ==> #[trigger] final(out)@[i] == old(out)@[i],
        forall|i: int|
            old(out)@.len() <= i < final(out)@.len() ==> *(#[trigger] final(out)@[i])
                == block.items()[i - old(out)@.len()],
    decreases block, 1nat,
{
    let ghost start = out@.len();
    match block {
        SeqBlock::Basic(basic) => {
            let n: usize = basic.instrs.len();
            let mut k: usize = 0;
            while k < n
                invariant
                    k <= n,
                    n == basic.instrs@.len(),
                    start == old(out)@.len(),
                    out@.len() == start + k,
                    forall|i: int| 0 <= i < start ==> #[trigger] out@[i] == old(out)@[i],
                    forall|i: int|
                        start <= i < out@.len() ==> *(#[trigger] out@[i]) == basic.instrs@[i
                            - start],
                decreases n - k,
            {
                out.push(&basic.instrs[k]);
                k += 1;
            }
        },
        SeqBlock::Parallel(programs) => {
            let n: usize = programs.len();
            let mut k: usize = 0;
            let ghost isolated = programs@.len() > 1;
            while k < n
                invariant
                    k <= n,
                    n == programs@.len(),
                    *block == SeqBlock::Parallel(*programs),
                    start == old(out)@.len(),
                    out@.len() == start + items_of(
                        placed_programs(programs@, k as nat, isolated),
                    ).len(),
                    forall|i: int| 0 <= i < start ==> #[trigger] out@[i] == old(out)@[i],
                    forall|i: int|
                        start <= i < out@.len() ==> *(#[trigger] out@[i]) == items_of(
                            placed_programs(programs@, k as nat, isolated),
                        )[i - start],
                decreases n - k,
            {
                let program = &programs[k];
                proof {
                    lemma_items_append(
                        placed_programs(programs@, k as nat, isolated),
                        program.placed(true, isolated),
                    );
                    lemma_items_blocks(
                        program.seq_blocks@,
                        program.seq_blocks@.len(),
                        true,
                        isolated,
                        false,
                        false,
                    );
                    assert(decreases_to!(block => block->Parallel_0));
                    assert(decreases_to!(programs => programs@));
                    assert(decreases_to!(programs@ => programs@[k as int]));
                }
                collect_program(program, out);
                k += 1;
            }
        },
    }
}

/// Each item of `b` is what `f` makes of the item of `a` in the same place.
pub open spec fn items_map<T, G: Fn(&T) -> T>(f: G, a: Seq<T>, b: Seq<T>) -> bool {
    &&& a.len() == b.len()
    &&& forall|i: int| 0 <= i < a.len() ==> call_ensures(f, (&#[trigger] a[i],), b[i])
}

/// The first `upto` blocks of `b` are those of `a` with each item replaced.
pub open spec fn blocks_map<T, G: Fn(&T) -> T>(
    f: G,
    a: Seq<SeqBlock<T>>,
    b: Seq<SeqBlock<T>>,
    upto: nat,
) -> bool
    decreases a, upto,
{
    if upto == 0 || upto > a.len() {
        true
    } else {
        blocks_map(f, a, b, (upto - 1) as nat) && block_maps(f, a[upto - 1], b[upto - 1])
    }
}

/// The block `b` is `a` with each item replaced.
pub open spec fn block_maps<T, G: Fn(&T) -> T>(f: G, a: SeqBlock<T>, b: SeqBlock<T>) -> bool
    decreases a, 0nat,
{
    match (a, b) {
        (SeqBlock::Basic(x), SeqBlock::Basic(y)) => items_map(f, x.instrs@, y.instrs@),
        (SeqBlock::Parallel(x), SeqBlock::Parallel(y)) => x@.len() == y@.len()
            && programs_map(f, x@, y@, x@.len()),
        _ => false,
    }
}

/// The first `upto` programs of `b` are those of `a` with each item replaced.
pub open spec fn programs_map<T, G: Fn(&T) -> T>(
    f: G,
    a: Seq<RawProgram<T>>,
    b: Seq<RawProgram<T>>,
    upto: nat,
) -> bool
    decreases a, upto,
{
    if upto == 0 || upto > a.len() {
        true
    } else {
        let x = a[upto - 1].seq_blocks@;
        let y = b[upto - 1].seq_blocks@;
        &&& programs_map(f, a, b, (upto - 1) as nat)
        &&& x.len() == y.len()
        &&& blocks_map(f, x, y, x.len())
    }
}

proof fn lemma_items_map_append<T, G: Fn(&T) -> T>(
    f: G,
    a: Seq<T>,
    b: Seq<T>,
    x: Seq<T>,
    y: Seq<T>,
)
    requires
        items_map(f, a, b),
        items_map(f, x, y),
    ensures
        items_map(f, a + x, b + y),
{
    assert forall|i: int| 0 <= i < (a + x).len() implies call_ensures(
        f,
        (&#[trigger] (a + x)[i],),
        (b + y)[i],
    ) by {
        if i < a.len() {
            assert(call_ensures(f, (&a[i],), b[i]));
        } else {
            assert(call_ensures(f, (&x[i - a.len()],), y[i - a.len()]));
        }
    }
}

/// The items of mapped blocks are those of the blocks, mapped.
proof fn lemma_blocks_map<T, G: Fn(&T) -> T>(
    f: G,
    a: Seq<SeqBlock<T>>,
    b: Seq<SeqBlock<T>>,
    upto: nat,
    p: bool,
    i: bool,
)
    requires
        a.len() == b.len(),
        blocks_map(f, a, b, upto),
    ensures
        items_map(f, items_of(placed_blocks(a, upto, p, i)), items_of(placed_blocks(b, upto, p, i))),
    decreases a, upto,
{
    if upto == 0 || upto > a.len() {
    } else {
        lemma_blocks_map(f, a, b, (upto - 1) as nat, p, i);
        lemma_block_maps(f, a[upto - 1], b[upto - 1], p, i);
        let x = placed_blocks(a, (upto - 1) as nat, p, i);
        let y = placed_blocks(b, (upto - 1) as nat, p, i);
        lemma_items_append(x, placed_block(a[upto - 1], p, i));
        lemma_items_append(y, placed_block(b[upto - 1], p, i));
        lemma_items_map_append(
            f,
            items_of(x),
            items_of(y),
            items_of(placed_block(a[upto - 1], p, i)),
            items_of(placed_block(b[upto - 1], p, i)),
        );
    }
}

proof fn lemma_block_maps<T, G: Fn(&T) -> T>(f: G, a: SeqBlock<T>, b: SeqBlock<T>, p: bool, i: bool)
    requires
        block_maps(f, a, b),
    ensures
        items_map(f, items_of(placed_block(a, p, i)), items_of(placed_block(b, p, i))),
    decreases a, 0nat,
{
    match (a, b) {
        (SeqBlock::Basic(x), SeqBlock::Basic(y)) => {
            assert(items_of(placed_block(a, p, i)) =~= x.instrs@);
            assert(items_of(placed_block(b, p, i)) =~= y.instrs@);
        },
        (SeqBlock::Parallel(x), SeqBlock::Parallel(y)) => {
            lemma_programs_map(f, x@, y@, x@.len(), i || x@.len() > 1);
        },
        _ => {},
    }
}

proof fn lemma_programs_map<T, G: Fn(&T) -> T>(
    f: G,
    a: Seq<RawProgram<T>>,
    b: Seq<RawProgram<T>>,
    upto: nat,
    i: bool,
)
    requires
        a.len() == b.len(),
        programs_map(f, a, b, upto),
    ensures
        items_map(f, items_of(placed_programs(a, upto, i)), items_of(placed_programs(b, upto, i))),
    decreases a, upto,
{
    if upto == 0 || upto > a.len() {
    } else {
        let s = a[upto - 1];
        let t = b[upto - 1];
        lemma_programs_map(f, a, b, (upto - 1) as nat, i);
        lemma_blocks_map(f, s.seq_blocks@, t.seq_blocks@, s.seq_blocks@.len(), true, i);
        let x = placed_programs(a, (upto - 1) as nat, i);
        let y = placed_programs(b, (upto - 1) as nat, i);
        lemma_items_append(x, s.placed(true, i));
        lemma_items_append(y, t.placed(true, i));
        lemma_items_map_append(
            f,
            items_of(x),
            items_of(y),
            items_of(s.placed(true, i)),
            items_of(t.placed(true, i)),
        );
    }
}

/// The blocks of `b` depend on `upto` of them alone.
proof fn lemma_blocks_map_push<T, G: Fn(&T) -> T>(
    f: G,
    a: Seq<SeqBlock<T>>,
    b: Seq<SeqBlock<T>>,
    last: SeqBlock<T>,
    upto: nat,
)
    requires
        upto <= b.len(),
        blocks_map(f, a, b, upto),
    ensures
        blocks_map(f, a, b.push(last), upto),
    decreases a, upto,
{
    if upto == 0 || upto > a.len() {
    } else {
        lemma_blocks_map_push(f, a, b, last, (upto - 1) as nat);
        assert(b.push(last)[upto - 1] == b[upto - 1]);
    }
}

proof fn lemma_programs_map_push<T, G: Fn(&T) -> T>(
    f: G,
    a: Seq<RawProgram<T>>,
    b: Seq<RawProgram<T>>,
    last: RawProgram<T>,
    upto: nat,
)
    requires
        upto <= b.len(),
        programs_map(f, a, b, upto),
    ensures
        programs_map(f, a, b.push(last), upto),
    decreases a, upto,
{
    if upto == 0 || upto > a.len() {
    } else {
        lemma_programs_map_push(f, a, b, last, (upto - 1) as nat);
        assert(b.push(last)[upto - 1] == b[upto - 1]);
    }
}

/// The program with each item replaced.
fn map_program<T, G: Fn(&T) -> T>(program: &RawProgram<T>, f: &G) -> (r: RawProgram<T>)
    requires
        forall|x: &T| call_requires(*f, (x,)),
    ensures
        r.seq_blocks@.len() == program.seq_blocks@.len(),
        blocks_map(*f, program.seq_blocks@, r.seq_blocks@, program.seq_blocks@.len()),
    decreases program, 0nat,
{
    let n: usize = program.seq_blocks.len();
    let mut blocks: Vec<SeqBlock<T>> = Vec::new();
    let mut b: usize = 0;
    while b < n
        invariant
            b <= n,
            n == program.seq_blocks@.len(),
            blocks@.len() == b,
            forall|x: &T| call_requires(*f, (x,)),
            blocks_map(*f, program.seq_blocks@, blocks@, b as nat),
        decreases n - b,
    {
        proof {
            assert(decreases_to!(program => program.seq_blocks));
            assert(decreases_to!(program.seq_blocks => program.seq_blocks@));
            assert(decreases_to!(program.seq_blocks@ => program.seq_blocks@[b as int]));
        }
        let next = map_block(&program.seq_blocks[b], f);
        proof {
            lemma_blocks_map_push(*f, program.seq_blocks@, blocks@, next, b as nat);
        }
        blocks.push(next);
        b += 1;
    }
    RawProgram { seq_blocks: blocks }
}

/// The block with each item replaced.
fn map_block<T, G: Fn(&T) -> T>(block: &SeqBlock<T>, f: &G) -> (r: SeqBlock<T>)
    requires
        forall|x: &T| call_requires(*f, (x,)),
    ensures
        block_maps(*f, *block, r),
    decreases block, 1nat,
{
    match block {
        SeqBlock::Basic(basic) => {
            let n: usize = basic.instrs.len();
            let mut instrs: Vec<T> = Vec::new();
            let mut k: usize = 0;
            while k < n
                invariant
                    k <= n,
                    n == basic.instrs@.len(),
                    instrs@.len() == k,
                    forall|x: &T| call_requires(*f, (x,)),
                    forall|i: int|
                        0 <= i < k ==> call_ensures(
                            *f,
                            (&#[trigger] basic.instrs@[i],),
                            instrs@[i],
                        ),
                decreases n - k,
            {
                instrs.push(f(&basic.instrs[k]));
                k += 1;
            }
            SeqBlock::Basic(BasicBlock { instrs })
        },
        SeqBlock::Parallel(programs) => {
            let n: usize = programs.len();
            let mut all: Vec<RawProgram<T>> = Vec::new();
            let mut k: usize = 0;
            while k < n
                invariant
                    k <= n,
                    n == programs@.len(),
                    *block == SeqBlock::Parallel(*programs),
                    all@.len() == k,
                    forall|x: &T| call_requires(*f, (x,)),
                    programs_map(*f, programs@, all@, k as nat),
                decreases n - k,
            {
                let program = &programs[k];
                proof {
                    assert(decreases_to!(block => block->Parallel_0));
                    assert(decreases_to!(programs => programs@));
                    assert(decreases_to!(programs@ => programs@[k as int]));
                }
                let next = map_program(program, f);
                proof {
                    lemma_programs_map_push(*f, programs@, all@, next, k as nat);
                }
                all.push(next);
                k += 1;
            }
            SeqBlock::Parallel(all)
        },
    }
}

/// The items of a block that are still to come, by reference.
pub struct Iter<'a, T> {
    items: Vec<&'a T>,
    position: usize,
}

impl<'a, T> Iter<'a, T> {
    /// The items that are still to come.
    pub closed spec fn remaining(self) -> Seq<&'a T> {
        self.items@.subrange(self.position as int, self.items@.len() as int)
    }

    pub closed spec fn wf(self) -> bool {
        self.position <= self.items@.len()
    }

    /// The next item; `None` at the end.
    pub fn next(&mut self) -> (r: Option<&'a T>)
        requires
            old(self).wf(),
        ensures
            final(self).wf(),
            old(self).remaining().len() == 0 ==> r is None && final(self).remaining()
                == old(self).remaining(),
            old(self).remaining().len() > 0 ==> r == Some(old(self).remaining()[0])
                && final(self).remaining() == old(self).remaining().subrange(
                1,
                old(self).remaining().len() as int,
            ),
    {
        if self.position < self.items.len() {
            let item = self.items[self.position];
            self.position = self.position + 1;
            assert(self.remaining() =~= old(self).remaining().subrange(
                1,
                old(self).remaining().len() as int,
            ));
            Some(item)
        } else {
            None
        }
    }

    /// The number of items that are still to come.
    pub fn count(&self) -> (r: usize)
        requires
            self.wf(),
        ensures
            r == self.remaining().len(),
    {
        self.items.len() - self.position
    }
}

impl<T> SeqBlock<T> {
    /// The items in program order.
    pub fn iter(&self) -> (r: Iter<'_, T>)
        ensures
            r.wf(),
            refers(r.remaining(), self.items()),
    {
        let mut items: Vec<&T> = Vec::new();
        collect_block(self, &mut items);
        let r = Iter { items, position: 0 };
        assert(r.remaining() =~= items@);
        r
    }
}

impl<T> RawProgram<T> {
    /// The items in program order.
    pub fn iter(&self) -> (r: Iter<'_, T>)
        ensures
            r.wf(),
            refers(r.remaining(), self.items()),
    {
        let mut items: Vec<&T> = Vec::new();
        collect_program(self, &mut items);
        let r = Iter { items, position: 0 };
        assert(r.remaining() =~= items@);
        r
    }
}

impl<T> SeqBlock<T> {
    /// Passes over the items in program order and replaces each by what `f` makes of it.
    pub fn iter_mut<G: Fn(&T) -> T>(&mut self, f: G)
        requires
            forall|x: &T| call_requires(f, (x,)),
        ensures
            block_maps(f, *old(self), *final(self)),
            items_map(f, old(self).items(), final(self).items()),
    {
        let next = map_block(self, &f);
        proof {
            lemma_block_maps(f, *self, next, false, false);
        }
        *self = next;
    }
}

impl<T> RawProgram<T> {
    /// Passes over the items in program order and replaces each by what `f` makes of it.
    pub fn iter_mut<G: Fn(&T) -> T>(&mut self, f: G)
        requires
            forall|x: &T| call_requires(f, (x,)),
        ensures
            final(self).seq_blocks@.len() == old(self).seq_blocks@.len(),
            blocks_map(
                f,
                old(self).seq_blocks@,
                final(self).seq_blocks@,
                old(self).seq_blocks@.len(),
            ),
            items_map(f, old(self).items(), final(self).items()),
    {
        let next = map_program(self, &f);
        proof {
            lemma_blocks_map(
                f,
                self.seq_blocks@,
                next.seq_blocks@,
                self.seq_blocks@.len(),
                false,
                false,
            );
        }
        *self = next;
    }
}

impl<T> RawProgram<T> {
    /// The items in program order, as a list.
    pub fn list(&self) -> (r: Vec<&T>)
        ensures
            refers(r@, self.items()),
    {
        let mut items: Vec<&T> = Vec::new();
        collect_program(self, &mut items);
        items
    }
}

impl<T> Default for RawProgram<T> {
    fn default() -> (r: Self)
        ensures
            r.items().len() == 0,
            r.seq_blocks@.len() == 0,
    {
        RawProgram { seq_blocks: Vec::new() }
    }
}

impl<T> Default for BasicBlock<T> {
    fn default() -> (r: Self)
        ensures
            r.instrs@.len() == 0,
    {
        BasicBlock { instrs: Vec::new() }
    }
}

} // verus!
