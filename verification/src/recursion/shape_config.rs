//! The shapes that programs may take.
use vstd::prelude::*;
use vstd::arithmetic::power2::*;
use crate::bits;
use crate::field::PrimeField32;
use crate::recursion::event_count;
use crate::recursion::machine;
use crate::recursion::machine::{RecursionAir, TableSizes};
use crate::recursion::program::RootProgram;
use crate::recursion::shape::{HeightMap, RecursionShape};

verus! {

/// The shapes that programs may take, for tables with constraints of the given degree.
#[derive(Debug)]
pub struct RecursionShapeConfig {
    pub allowed_shapes: Vec<HeightMap>,
    pub degree: usize,
    pub sizes: TableSizes,
}

/// A table of the given height fits the shape: it is no higher than the shape says, or empty where
/// the shape has no such table.
pub open spec fn table_fits(shape: Map<Seq<char>, usize>, name: Seq<char>, height: nat) -> bool {
    if shape.dom().contains(name) {
        height <= pow2(shape[name] as nat)
    } else {
        height == 0
    }
}

/// All tables fit the shape.
pub open spec fn shape_fits(
    shape: Map<Seq<char>, usize>,
    heights: Seq<(RecursionAir, nat)>,
    degree: nat,
) -> bool {
    forall|i: int|
        0 <= i < heights.len() ==> table_fits(
            shape,
            (#[trigger] heights[i]).0.name_of(degree),
            heights[i].1,
        )
}

/// Every height of the shape has a power of two.
pub open spec fn shape_wf(shape: Map<Seq<char>, usize>) -> bool {
    forall|name: Seq<char>|
        #[trigger] shape.dom().contains(name) ==> shape[name] < usize::BITS
}

/// The larger height of each table.
pub open spec fn merged(a: Map<Seq<char>, usize>, b: Map<Seq<char>, usize>) -> Map<
    Seq<char>,
    usize,
> {
    Map::new(
        |name: Seq<char>| a.dom().contains(name) || b.dom().contains(name),
        |name: Seq<char>|
            if !a.dom().contains(name) || b.dom().contains(name) && b[name] > a[name] {
                b[name]
            } else {
                a[name]
            },
    )
}

/// The larger height of each table of the first `n` shapes.
pub open spec fn merged_all(shapes: Seq<HeightMap>, n: nat) -> Map<Seq<char>, usize>
    decreases n,
{
    if n == 0 {
        Map::empty()
    } else {
        merged(merged_all(shapes, (n - 1) as nat), shapes[n - 1]@)
    }
}

/// Each height with room for four times as many rows.
pub open spec fn with_room(m: Map<Seq<char>, usize>) -> Map<Seq<char>, usize> {
    Map::new(|name: Seq<char>| m.dom().contains(name), |name: Seq<char>| (m[name] + 2) as usize)
}

/// The names of the first `n` keys.
spec fn among(keys: Seq<String>, n: int, name: Seq<char>) -> bool {
    exists|i: int| 0 <= i < n && (#[trigger] keys[i])@ == name
}

/// All lists of `k` numbers below `n`, in lexicographic order.
pub open spec fn combinations(n: nat, k: nat) -> Seq<Seq<usize>>
    decreases k,
{
    if k == 0 {
        seq![Seq::empty()]
    } else {
        extended(combinations(n, (k - 1) as nat), n, combinations(n, (k - 1) as nat).len())
    }
}

/// The first `m` lists, each with every number below `n` appended.
pub open spec fn extended(lists: Seq<Seq<usize>>, n: nat, m: nat) -> Seq<Seq<usize>>
    decreases m,
{
    if m == 0 {
        Seq::empty()
    } else {
        extended(lists, n, (m - 1) as nat) + Seq::new(
            n,
            |j: int| lists[m - 1].push(j as usize),
        )
    }
}

/// The lists as sequences.
pub open spec fn lists_of(v: Seq<Vec<usize>>) -> Seq<Seq<usize>> {
    Seq::new(v.len(), |i: int| v[i]@)
}

impl RecursionShapeConfig {
    pub open spec fn wf(self) -> bool {
        &&& self.sizes.wf()
        &&& forall|i: int|
            0 <= i < self.allowed_shapes@.len() ==> shape_wf((#[trigger] self.allowed_shapes@[i])@)
    }

    /// The first shape that all tables fit.
    pub open spec fn first_fit(self, heights: Seq<(RecursionAir, nat)>, i: int) -> bool {
        &&& 0 <= i < self.allowed_shapes@.len()
        &&& shape_fits(self.allowed_shapes@[i]@, heights, self.degree as nat)
        &&& forall|j: int|
            0 <= j < i ==> !shape_fits(
                (#[trigger] self.allowed_shapes@[j])@,
                heights,
                self.degree as nat,
            )
    }

    /// Whether all tables fit the shape.
    fn fits(
        &self,
        shape: &HeightMap,
        heights: &Vec<(String, usize)>,
        Ghost(tables): Ghost<Seq<(RecursionAir, nat)>>,
    ) -> (r: bool)
        requires
            shape_wf(shape@),
            machine::named(heights@, tables, self.degree as nat),
        ensures
            r == shape_fits(shape@, tables, self.degree as nat),
    {
        let n: usize = heights.len();
        let mut i: usize = 0;
        while i < n
            invariant
                i <= n,
                n == heights@.len(),
                shape_wf(shape@),
                machine::named(heights@, tables, self.degree as nat),
                forall|j: int|
                    0 <= j < i ==> table_fits(
                        shape@,
                        (#[trigger] tables[j]).0.name_of(self.degree as nat),
                        tables[j].1,
                    ),
            decreases n - i,
        {
            let height: usize = heights[i].1;
            assert(heights@[i as int].0@ == tables[i as int].0.name_of(self.degree as nat));
            let ok: bool = match shape.get(&heights[i].0) {
                Some(log_height) => height <= bits::two_to_the(log_height),
                None => height == 0,
            };
            if !ok {
                assert(!table_fits(
                    shape@,
                    tables[i as int].0.name_of(self.degree as nat),
                    tables[i as int].1,
                ));
                return false;
            }
            i += 1;
        }
        true
    }

    /// The first shape that all tables of a program fit; `None` where there is none.
    pub fn closest_shape<F: PrimeField32>(&self, program: &RootProgram<F>) -> (r: Option<usize>)
        requires
            self.wf(),
            event_count::program_counts(program.inner.items()).fits(),
        ensures
            ({
                let tables = machine::table_heights(
                    event_count::program_counts(program.inner.items()),
                    self.sizes,
                );
                match r {
                    Some(i) => self.first_fit(tables, i as int),
                    None => forall|i: int|
                        0 <= i < self.allowed_shapes@.len() ==> !shape_fits(
                            (#[trigger] self.allowed_shapes@[i])@,
                            tables,
                            self.degree as nat,
                        ),
                }
            }),
    {
        let heights = machine::heights(&program.inner, &self.sizes, self.degree);
        let ghost tables = machine::table_heights(
            event_count::program_counts(program.inner.items()),
            self.sizes,
        );
        let n: usize = self.allowed_shapes.len();
        let mut i: usize = 0;
        while i < n
            invariant
                i <= n,
                n == self.allowed_shapes@.len(),
                self.wf(),
                tables == machine::table_heights(
                    event_count::program_counts(program.inner.items()),
                    self.sizes,
                ),
                machine::named(heights@, tables, self.degree as nat),
                forall|j: int|
                    0 <= j < i ==> !shape_fits(
                        (#[trigger] self.allowed_shapes@[j])@,
                        tables,
                        self.degree as nat,
                    ),
            decreases n - i,
        {
            if self.fits(&self.allowed_shapes[i], &heights, Ghost(tables)) {
                return Some(i);
            }
            i += 1;
        }
        None
    }

    /// Gives a program the first shape that all its tables fit.
    pub fn fix_shape<F: PrimeField32>(&self, program: &mut RootProgram<F>)
        requires
            self.wf(),
            event_count::program_counts(old(program).inner.items()).fits(),
            exists|i: int|
                0 <= i < self.allowed_shapes@.len() && shape_fits(
                    (#[trigger] self.allowed_shapes@[i])@,
                    machine::table_heights(
                        event_count::program_counts(old(program).inner.items()),
                        self.sizes,
                    ),
                    self.degree as nat,
                ),
        ensures
            final(program).shape is Some,
            exists|i: int|
                {
                    &&& #[trigger] self.first_fit(
                        machine::table_heights(
                            event_count::program_counts(old(program).inner.items()),
                            self.sizes,
                        ),
                        i,
                    )
                    &&& final(program).shape->0@ == self.allowed_shapes@[i]@
                },
            final(program).inner == old(program).inner,
            final(program).total_memory == old(program).total_memory,
            final(program).tables() == old(program).tables(),
    {
        match self.closest_shape(program) {
            Some(i) => {
                program.shape = Some(RecursionShape::from_map(self.allowed_shapes[i].duplicate()));
                assert(self.first_fit(
                    machine::table_heights(
                        event_count::program_counts(old(program).inner.items()),
                        self.sizes,
                    ),
                    i as int,
                ));
            },
            None => {},
        }
    }

    /// All choices of a shape for each program of a batch, by index; none for an empty batch.
    pub fn get_all_shape_combinations(&self, batch_size: usize) -> (r: Vec<Vec<usize>>)
        ensures
            batch_size == 0 ==> r@.len() == 0,
            batch_size > 0 ==> lists_of(r@) == combinations(
                self.allowed_shapes@.len(),
                batch_size as nat,
            ),
    {
        let n: usize = self.allowed_shapes.len();
        let mut lists: Vec<Vec<usize>> = Vec::new();
        if batch_size == 0 {
            return lists;
        }
        lists.push(Vec::new());
        assert(lists_of(lists@) =~= combinations(n as nat, 0));
        let mut k: usize = 0;
        while k < batch_size
            invariant
                k <= batch_size,
                lists_of(lists@) == combinations(n as nat, k as nat),
            decreases batch_size - k,
        {
            let mut longer: Vec<Vec<usize>> = Vec::new();
            let len: usize = lists.len();
            let ghost before = lists_of(lists@);
            let mut m: usize = 0;
            assert(lists_of(longer@) =~= extended(before, n as nat, 0));
            while m < len
                invariant
                    m <= len,
                    len == lists@.len(),
                    before == lists_of(lists@),
                    lists_of(longer@) == extended(before, n as nat, m as nat),
                decreases len - m,
            {
                let ghost start = lists_of(longer@);
                let ghost tail = Seq::new(n as nat, |j: int| before[m as int].push(j as usize));
                let mut j: usize = 0;
                assert(lists_of(longer@) =~= start + tail.subrange(0, 0));
                while j < n
                    invariant
                        j <= n,
                        m < len,
                        len == lists@.len(),
                        before == lists_of(lists@),
                        tail == Seq::new(n as nat, |j: int| before[m as int].push(j as usize)),
                        lists_of(longer@) == start + tail.subrange(0, j as int),
                    decreases n - j,
                {
                    let ghost done = longer@;
                    let mut next = copy_indices(&lists[m]);
                    next.push(j);
                    longer.push(next);
                    j += 1;
                    assert(lists_of(longer@) =~= lists_of(done).push(next@));
                    assert(tail.subrange(0, j as int) =~= tail.subrange(0, j - 1).push(
                        tail[j - 1],
                    ));
                    assert(lists_of(longer@) =~= start + tail.subrange(0, j as int));
                }
                assert(tail.subrange(0, n as int) =~= tail);
                m += 1;
            }
            lists = longer;
            k += 1;
        }
        lists
    }

    /// The configuration with a single shape, which has room for all of the allowed ones.
    pub fn union_config_with_extra_room(&self) -> (r: Self)
        requires
            forall|name: Seq<char>|
                #[trigger] merged_all(self.allowed_shapes@, self.allowed_shapes@.len()).dom()
                    .contains(name) ==> merged_all(
                    self.allowed_shapes@,
                    self.allowed_shapes@.len(),
                )[name] + 2 <= usize::MAX,
        ensures
            r.degree == self.degree,
            r.sizes == self.sizes,
            r.allowed_shapes@.len() == 1,
            r.allowed_shapes@[0]@ == with_room(
                merged_all(self.allowed_shapes@, self.allowed_shapes@.len()),
            ).insert("PublicValues"@, self.sizes.pub_values_log_height),
    {
        let n: usize = self.allowed_shapes.len();
        let mut map = HeightMap::new();
        assert(map@ =~= merged_all(self.allowed_shapes@, 0));
        let mut i: usize = 0;
        while i < n
            invariant
                i <= n,
                n == self.allowed_shapes@.len(),
                map@ == merged_all(self.allowed_shapes@, i as nat),
            decreases n - i,
        {
            merge_into(&mut map, &self.allowed_shapes[i]);
            i += 1;
        }
        let mut roomy = widened(&map);
        roomy.insert("PublicValues".to_string(), self.sizes.pub_values_log_height);
        let mut allowed_shapes: Vec<HeightMap> = Vec::new();
        allowed_shapes.push(roomy);
        RecursionShapeConfig { allowed_shapes, degree: self.degree, sizes: self.sizes }
    }

    /// The configuration with a single shape.
    pub fn from_hash_map(hash_map: &HeightMap, degree: usize, sizes: TableSizes) -> (r: Self)
        ensures
            r.allowed_shapes@.len() == 1,
            r.allowed_shapes@[0]@ == hash_map@,
            r.degree == degree,
            r.sizes == sizes,
    {
        let mut allowed_shapes: Vec<HeightMap> = Vec::new();
        allowed_shapes.push(hash_map.duplicate());
        RecursionShapeConfig { allowed_shapes, degree, sizes }
    }

    /// The first allowed shape.
    pub fn first(&self) -> (r: Option<&HeightMap>)
        ensures
            r is Some <==> self.allowed_shapes@.len() > 0,
            r matches Some(m) ==> *m == self.allowed_shapes@[0],
    {
        if self.allowed_shapes.len() > 0 {
            Some(&self.allowed_shapes[0])
        } else {
            None
        }
    }

    /// The three shapes that programs are compressed with: small, large, and a catch-all.
    pub fn standard(degree: usize, sizes: TableSizes) -> (r: Self)
        requires
            sizes.wf(),
        ensures
            r.wf(),
            r.degree == degree,
            r.sizes == sizes,
            r.allowed_shapes@.len() == 3,
            r.allowed_shapes@[0]@ == tier(12usize, 19usize, 16usize, 18usize, 17usize, 19usize, 10usize, 16usize, sizes.pub_values_log_height, degree as nat),
            r.allowed_shapes@[1]@ == tier(12usize, 20usize, 17usize, 19usize, 18usize, 20usize, 10usize, 17usize, sizes.pub_values_log_height, degree as nat),
            r.allowed_shapes@[2]@ == tier(12usize, 21usize, 18usize, 21usize, 19usize, 21usize, 11usize, 18usize, sizes.pub_values_log_height, degree as nat),
    {
        let mut allowed_shapes: Vec<HeightMap> = Vec::new();
        allowed_shapes.push(tier_map(12, 19, 16, 18, 17, 19, 10, 16, sizes.pub_values_log_height, degree));
        allowed_shapes.push(tier_map(12, 20, 17, 19, 18, 20, 10, 17, sizes.pub_values_log_height, degree));
        allowed_shapes.push(tier_map(12, 21, 18, 21, 19, 21, 11, 18, sizes.pub_values_log_height, degree));
        RecursionShapeConfig { allowed_shapes, degree, sizes }
    }
}

/// A shape by the logarithms of its heights.
pub open spec fn tier(
    mem_const: usize,
    mem_var: usize,
    base_alu: usize,
    ext_alu: usize,
    poseidon2_wide: usize,
    select: usize,
    prefix_sum_checks: usize,
    ext_exp_reverse_bits: usize,
    public_values: usize,
    degree: nat,
) -> Map<Seq<char>, usize> {
    Map::empty().insert(
        RecursionAir::MemoryConst.name_of(degree),
        mem_const,
    ).insert(
        RecursionAir::MemoryVar.name_of(degree),
        mem_var,
    ).insert(
        RecursionAir::BaseAlu.name_of(degree),
        base_alu,
    ).insert(
        RecursionAir::ExtAlu.name_of(degree),
        ext_alu,
    ).insert(
        RecursionAir::Poseidon2WideKb.name_of(degree),
        poseidon2_wide,
    ).insert(
        RecursionAir::Select.name_of(degree),
        select,
    ).insert(
        RecursionAir::PublicValues.name_of(degree),
        public_values,
    ).insert(
        RecursionAir::PrefixSumChecks.name_of(degree),
        prefix_sum_checks,
    ).insert(
        RecursionAir::ExtExpReverseBits.name_of(degree),
        ext_exp_reverse_bits,
    )
}

fn tier_map(
    mem_const: usize,
    mem_var: usize,
    base_alu: usize,
    ext_alu: usize,
    poseidon2_wide: usize,
    select: usize,
    prefix_sum_checks: usize,
    ext_exp_reverse_bits: usize,
    public_values: usize,
    degree: usize,
) -> (r: HeightMap)
    ensures
        r@ == tier(
            mem_const,
            mem_var,
            base_alu,
            ext_alu,
            poseidon2_wide,
            select,
            prefix_sum_checks,
            ext_exp_reverse_bits,
            public_values,
            degree as nat,
        ),
{
    let mut m = HeightMap::new();
    m.insert(RecursionAir::MemoryConst.name(degree), mem_const);
    m.insert(RecursionAir::MemoryVar.name(degree), mem_var);
    m.insert(RecursionAir::BaseAlu.name(degree), base_alu);
    m.insert(RecursionAir::ExtAlu.name(degree), ext_alu);
    m.insert(RecursionAir::Poseidon2WideKb.name(degree), poseidon2_wide);
    m.insert(RecursionAir::Select.name(degree), select);
    m.insert(RecursionAir::PublicValues.name(degree), public_values);
    m.insert(RecursionAir::PrefixSumChecks.name(degree), prefix_sum_checks);
    m.insert(RecursionAir::ExtExpReverseBits.name(degree), ext_exp_reverse_bits);
    m
}

fn copy_indices(v: &Vec<usize>) -> (r: Vec<usize>)
    ensures
        r@ == v@,
{
    let n: usize = v.len();
    let mut r: Vec<usize> = Vec::new();
    let mut i: usize = 0;
    while i < n
        invariant
            i <= n,
            n == v@.len(),
            r@ == v@.subrange(0, i as int),
        decreases n - i,
    {
        r.push(v[i]);
        i += 1;
        assert(r@ =~= v@.subrange(0, i as int));
    }
    assert(r@ =~= v@);
    r
}

/// Raises the heights of a map to those of another.
fn merge_into(map: &mut HeightMap, other: &HeightMap)
    ensures
        final(map)@ == merged(old(map)@, other@),
{
    let keys = other.keys();
    let n: usize = keys.len();
    let ghost goal = merged(map@, other@);
    let ghost start = map@;
    let mut i: usize = 0;
    while i < n
        invariant
            i <= n,
            n == keys@.len(),
            start == old(map)@,
            goal == merged(start, other@),
            forall|name: Seq<char>| #[trigger]
                other@.dom().contains(name) <==> exists|i: int|
                    0 <= i < keys@.len() && (#[trigger] keys@[i])@ == name,
            forall|i: int, j: int|
                0 <= i < j < keys@.len() ==> (#[trigger] keys@[i])@ != (#[trigger] keys@[j])@,
            forall|name: Seq<char>| #[trigger]
                map@.dom().contains(name) <==> start.dom().contains(name) || among(
                    keys@,
                    i as int,
                    name,
                ),
            forall|name: Seq<char>| #[trigger]
                map@.dom().contains(name) ==> map@[name] == (if among(keys@, i as int, name) {
                    goal[name]
                } else {
                    start[name]
                }),
        decreases n - i,
    {
        let key = &keys[i];
        let ghost k = key@;
        let ghost before = map@;
        assert(other@.dom().contains(k));
        assert(!among(keys@, i as int, k));
        let current: usize = match map.get(key) {
            Some(h) => h,
            None => 0,
        };
        let theirs: usize = match other.get(key) {
            Some(h) => h,
            None => 0,
        };
        let height: usize = if theirs > current {
            theirs
        } else {
            current
        };
        map.insert(key.clone(), height);
        i += 1;
        proof {
            assert(map@[k] == goal[k]);
            assert forall|name: Seq<char>| among(keys@, i as int, name) <==> (name == k || among(
                keys@,
                i - 1,
                name,
            )) by {
                if among(keys@, i as int, name) {
                    let w = choose|w: int| 0 <= w < i && (#[trigger] keys@[w])@ == name;
                    if w < i - 1 {
                        assert(among(keys@, i - 1, name));
                    }
                } else {
                    if name == k {
                        assert(keys@[i - 1]@ == name);
                    }
                    if among(keys@, i - 1, name) {
                        let w = choose|w: int| 0 <= w < i - 1 && (#[trigger] keys@[w])@ == name;
                        assert(0 <= w < i && keys@[w]@ == name);
                    }
                }
            }
        }
    }
    proof {
        assert forall|name: Seq<char>| #[trigger] map@.dom().contains(name) <==> goal.dom().contains(
            name,
        ) by {
            if other@.dom().contains(name) {
                let w = choose|w: int| 0 <= w < keys@.len() && (#[trigger] keys@[w])@ == name;
                assert(among(keys@, n as int, name));
            }
            if among(keys@, n as int, name) {
                let w = choose|w: int| 0 <= w < n && (#[trigger] keys@[w])@ == name;
                assert(other@.dom().contains(name));
            }
        }
        assert forall|name: Seq<char>| goal.dom().contains(name) implies #[trigger] map@[name]
            == goal[name] by {
            assert(map@.dom().contains(name));
            if !among(keys@, n as int, name) {
                if other@.dom().contains(name) {
                    let w = choose|w: int| 0 <= w < keys@.len() && (#[trigger] keys@[w])@ == name;
                    assert(among(keys@, n as int, name));
                }
                assert(!other@.dom().contains(name));
            }
        }
        assert(map@ =~= goal);
    }
}

/// A map with room for four times as many rows.
fn widened(map: &HeightMap) -> (r: HeightMap)
    requires
        forall|name: Seq<char>| #[trigger]
            map@.dom().contains(name) ==> map@[name] + 2 <= usize::MAX,
    ensures
        r@ == with_room(map@),
{
    let keys = map.keys();
    let n: usize = keys.len();
    let mut r = HeightMap::new();
    let ghost goal = with_room(map@);
    let mut i: usize = 0;
    while i < n
        invariant
            i <= n,
            n == keys@.len(),
            goal == with_room(map@),
            forall|name: Seq<char>| #[trigger]
                map@.dom().contains(name) ==> map@[name] + 2 <= usize::MAX,
            forall|name: Seq<char>| #[trigger]
                map@.dom().contains(name) <==> exists|i: int|
                    0 <= i < keys@.len() && (#[trigger] keys@[i])@ == name,
            forall|name: Seq<char>| #[trigger]
                r@.dom().contains(name) <==> among(keys@, i as int, name),
            forall|name: Seq<char>| #[trigger]
                r@.dom().contains(name) ==> r@[name] == goal[name],
        decreases n - i,
    {
        let key = &keys[i];
        let ghost k = key@;
        assert(map@.dom().contains(k));
        let height: usize = match map.get(key) {
            Some(h) => h,
            None => 0,
        };
        r.insert(key.clone(), height + 2);
        i += 1;
        proof {
            assert forall|name: Seq<char>| among(keys@, i as int, name) <==> (name == k || among(
                keys@,
                i - 1,
                name,
            )) by {
                if among(keys@, i as int, name) {
                    let w = choose|w: int| 0 <= w < i && (#[trigger] keys@[w])@ == name;
                    if w < i - 1 {
                        assert(among(keys@, i - 1, name));
                    }
                } else {
                    if name == k {
                        assert(keys@[i - 1]@ == name);
                    }
                    if among(keys@, i - 1, name) {
                        let w = choose|w: int| 0 <= w < i - 1 && (#[trigger] keys@[w])@ == name;
                        assert(0 <= w < i && keys@[w]@ == name);
                    }
                }
            }
        }
    }
    proof {
        assert forall|name: Seq<char>| #[trigger] r@.dom().contains(name) <==> goal.dom().contains(
            name,
        ) by {
            if map@.dom().contains(name) {
                let w = choose|w: int| 0 <= w < keys@.len() && (#[trigger] keys@[w])@ == name;
                assert(among(keys@, n as int, name));
            }
            if among(keys@, n as int, name) {
                let w = choose|w: int| 0 <= w < n && (#[trigger] keys@[w])@ == name;
                assert(map@.dom().contains(name));
            }
        }
        assert(r@ =~= goal);
    }
    r
}

/// Every table of an allowed shape fits the union, where its name is not that of the public values.
pub proof fn law_union_has_room(shapes: Seq<HeightMap>, n: nat, i: int, name: Seq<char>)
    requires
        0 <= i < n <= shapes.len(),
        shapes[i]@.dom().contains(name),
    ensures
        merged_all(shapes, n).dom().contains(name),
        shapes[i]@[name] <= merged_all(shapes, n)[name],
    decreases n,
{
    if i < n - 1 {
        law_union_has_room(shapes, (n - 1) as nat, i, name);
    }
}

} // verus!
