//! What the numbers of rows, the shapes and the lists of combinations have to satisfy.
use vstd::prelude::*;
use vstd::arithmetic::div_mod::*;
use vstd::arithmetic::mul::*;
use vstd::arithmetic::power::*;
use vstd::arithmetic::power2::*;
use crate::basefold::polynomials;
use crate::bits;
use crate::recursion::chips::alu_base;
use crate::recursion::event_count;
use crate::recursion::event_count::{Counts, EventKind};
use crate::recursion::instruction::Instruction;
use crate::recursion::machine;
use crate::recursion::machine::{RecursionAir, TableSizes};
use crate::recursion::shape::HeightMap;
use crate::recursion::shape_config;
use crate::recursion::utils;

verus! {

/// The height is the least one at which rows of `per` entries hold `n` of them.
pub open spec fn just_holds(height: nat, per: nat, n: nat) -> bool {
    &&& n <= height * per
    &&& height > 0 ==> (height - 1) * per < n
}

proof fn lemma_rows(n: nat, per: nat)
    requires
        per > 0,
    ensures
        just_holds(alu_base::rows_for(n, per), per, n),
{
    if n > 0 {
        let p = per as int;
        let q = (n - 1) / p;
        lemma_fundamental_div_mod(n - 1, p);
        lemma_mul_is_commutative(p, q);
        lemma_mul_is_distributive_add_other_way(p, q, 1);
        assert(alu_base::rows_for(n, per) == q + 1) by {
            lemma_div_pos_is_pos(n - 1, p);
        }
        assert(alu_base::rows_for(n, per) - 1 == q);
    }
}

/// Law: the tables of a program just hold its events, a row of each table as many as the machine says:
/// two constants, four operations, one permutation, selection, product step or exponent bit.
pub proof fn law_heights(c: Counts, sizes: TableSizes)
    requires
        sizes.wf(),
    ensures
        ({
            let h = machine::table_heights(c, sizes);
            let of = |i: int, air: RecursionAir, per: nat, n: nat|
                h[i].0 == air && just_holds(h[i].1, per, n);
            &&& h.len() == 9
            &&& of(0, RecursionAir::MemoryConst, 2, c.mem_const_events)
            &&& of(1, RecursionAir::MemoryVar, sizes.var_mem_entries as nat, c.mem_var_events)
            &&& of(2, RecursionAir::BaseAlu, 4, c.base_alu_events)
            &&& of(3, RecursionAir::ExtAlu, 4, c.ext_alu_events)
            &&& of(4, RecursionAir::Poseidon2WideKb, 1, c.poseidon2_wide_events)
            &&& of(5, RecursionAir::Select, 1, c.select_events)
            &&& h[6].0 == RecursionAir::PublicValues && h[6].1 == sizes.pub_values_log_height
            &&& of(7, RecursionAir::PrefixSumChecks, 1, c.prefix_sum_checks_events)
            &&& of(8, RecursionAir::ExtExpReverseBits, 1, c.ext_exp_reverse_bits_events)
        }),
{
    lemma_rows(c.mem_const_events, 2);
    lemma_rows(c.mem_var_events, sizes.var_mem_entries as nat);
    lemma_rows(c.base_alu_events, 4);
    lemma_rows(c.ext_alu_events, 4);
}

/// Law: the same of the machine that shrinks, whose rows hold two base operations and a fifth of a
/// permutation.
pub proof fn law_shrink_heights(c: Counts, sizes: TableSizes)
    requires
        sizes.wf(),
    ensures
        ({
            let h = machine::shrink_table_heights(c, sizes);
            let of = |i: int, air: RecursionAir, per: nat, n: nat|
                h[i].0 == air && just_holds(h[i].1, per, n);
            let entries = sizes.ext_alu_shrink_entries as nat;
            &&& h.len() == 7
            &&& of(0, RecursionAir::MemoryConst, 2, c.mem_const_events)
            &&& of(1, RecursionAir::MemoryVar, sizes.var_mem_entries as nat, c.mem_var_events)
            &&& of(2, RecursionAir::BaseAluShrink, 2, c.base_alu_events)
            &&& of(3, RecursionAir::ExtAluShrink, entries, c.ext_alu_events)
            &&& h[4].0 == RecursionAir::Poseidon2SkinnyKb && h[4].1 == 5
                * c.poseidon2_skinny_events
            &&& of(5, RecursionAir::Select, 1, c.select_events)
            &&& h[6].0 == RecursionAir::PublicValues && bits::log2(h[6].1)
                == sizes.pub_values_log_height
        }),
{
    lemma_rows(c.mem_const_events, 2);
    lemma_rows(c.mem_var_events, sizes.var_mem_entries as nat);
    lemma_rows(c.base_alu_events, 2);
    lemma_rows(c.ext_alu_events, sizes.ext_alu_shrink_entries as nat);
    bits::lemma_log2_pow2(sizes.pub_values_log_height as nat);
}

/// The number of instructions of a kind.
pub open spec fn number_of_kind<F>(instrs: Seq<Instruction<F>>, kind: EventKind) -> nat {
    instrs.filter(|x: Instruction<F>| event_count::kind_of(x) == Some(kind)).len()
}

/// Law: a program has as many operations, constants, permutations, selections and commitments as it has
/// instructions of that kind.
pub proof fn law_single_events<F>(instrs: Seq<Instruction<F>>, kind: EventKind)
    requires
        kind != EventKind::MemVar,
        kind != EventKind::ExtExpReverseBits,
        kind != EventKind::PrefixSumChecks,
    ensures
        event_count::count_of(event_count::program_counts(instrs), kind) == number_of_kind(
            instrs,
            kind,
        ),
    decreases instrs.len(),
{
    reveal(Seq::filter);
    if instrs.len() > 0 {
        let before = instrs.drop_last();
        law_single_events(before, kind);
        assert(instrs =~= before + seq![instrs.last()]);
        event_count::lemma_counts_prefix(
            Counts::none(),
            before,
            seq![instrs.last()],
            before.len(),
        );
    }
}

/// Law: the padded height is a power of two that holds the rows; where a height is fixed and holds
/// them, it is that one, and else it is the least power of two from sixteen on.
pub proof fn law_padded_height(n: nat, fixed: Option<usize>, k: nat)
    ensures
        ({
            let h = utils::padded_height(n, fixed);
            &&& n <= h
            &&& exists|j: nat| h == #[trigger] pow2(j)
            &&& fixed is None ==> (h <= pow2(k) <==> n <= pow2(k) && 16 <= pow2(k))
            &&& fixed matches Some(power) ==> {
                &&& n <= pow2(power as nat) ==> h == pow2(power as nat)
                &&& n > pow2(power as nat) ==> h == utils::padded_height(n, None)
            }
        }),
{
    polynomials::law_powers_around(n, k);
    bits::lemma_pow2_above(n);
    lemma2_to64();
    let free = bits::pow2_above(n);
    let j = choose|j: nat| free == #[trigger] pow2(j);
    assert(16 == pow2(4));
}

/// Law: the chunks of a list, one after the other, are the list; every chunk but the last has the full
/// size and the last is not empty.
pub proof fn law_chunks<T>(s: Seq<T>, size: nat, i: int)
    requires
        size > 0,
        0 <= i < utils::chunks(s, size).len(),
    ensures
        ({
            let c = utils::chunks(s, size);
            &&& i < c.len() - 1 ==> c[i].len() == size
            &&& i == c.len() - 1 ==> 0 < c[i].len() <= size && i * size + c[i].len() == s.len()
            &&& forall|j: int|
                0 <= j < c[i].len() ==> 0 <= i * size + j < s.len() && #[trigger] c[i][j] == s[i
                    * size + j]
        }),
    decreases s.len(),
{
    let c = utils::chunks(s, size);
    if s.len() > size {
        let rest = s.subrange(size as int, s.len() as int);
        if i > 0 {
            law_chunks(rest, size, i - 1);
            lemma_mul_is_distributive_sub_other_way(size as int, i, 1);
            lemma_mul_nonnegative(i - 1, size as int);
            assert(c[i] == utils::chunks(rest, size)[i - 1]);
            assert(i * size == (i - 1) * size + size);
            assert forall|j: int| 0 <= j < c[i].len() implies 0 <= i * size + j < s.len()
                && #[trigger] c[i][j] == s[i * size + j] by {
                let d = utils::chunks(rest, size);
                assert(d[i - 1][j] == rest[(i - 1) * size + j]);
            }
        } else {
            assert(c[0] == s.subrange(0, size as int));
            assert(utils::chunks(rest, size).len() > 0);
            assert(0 * size == 0);
        }
    } else {
        assert(0 * size == 0);
    }
}

/// Law: the combinations of `k` out of `n` shapes are all lists of `k` numbers below `n`, in the order
/// of the numbers that they write to the base `n`.
pub proof fn law_combinations(n: nat, k: nat, i: int, j: int)
    requires
        0 < n <= usize::MAX,
        0 <= i < shape_config::combinations(n, k).len(),
        0 <= j < k,
    ensures
        shape_config::combinations(n, k).len() == pow(n as int, k),
        shape_config::combinations(n, k)[i].len() == k,
        shape_config::combinations(n, k)[i][j] == (i / pow(n as int, (k - 1 - j) as nat)) % n as int,
    decreases k,
{
    let m = (k - 1) as nat;
    let before = shape_config::combinations(n, m);
    lemma_combinations_len(n, k);
    lemma_combinations_len(n, m);
    lemma_extended(before, n, before.len(), i);
    lemma_fundamental_div_mod(i, n as int);
    let q = i / n as int;
    assert(shape_config::combinations(n, k)[i] == before[q].push((i % n as int) as usize));
    lemma_combination_len(n, m, q);
    if j == m {
        reveal(pow);
        assert(pow(n as int, 0) == 1);
        assert(i / 1 == i);
    } else {
        law_combinations(n, m, q, j);
        let e = (m - 1 - j) as nat;
        lemma_pow_positive(n as int, e);
        lemma_div_denominator(i, n as int, pow(n as int, e));
        reveal(pow);
        assert(pow(n as int, (k - 1 - j) as nat) == n * pow(n as int, e));
    }
}

proof fn lemma_extended(lists: Seq<Seq<usize>>, n: nat, m: nat, i: int)
    requires
        n > 0,
        m <= lists.len(),
    ensures
        shape_config::extended(lists, n, m).len() == m * n,
        0 <= i < m * n ==> 0 <= i / n as int && i / (n as int) < m && shape_config::extended(
            lists,
            n,
            m,
        )[i] == lists[i / n as int].push((i % n as int) as usize),
    decreases m,
{
    let p = n as int;
    if m == 0 {
        assert(0 * n == 0);
    } else {
        let k = (m - 1) as nat;
        lemma_extended(lists, n, k, i);
        lemma_mul_is_distributive_sub_other_way(p, m as int, 1);
        if k * n <= i < m * n {
            let r = i - k * n;
            lemma_fundamental_div_mod_converse(i, p, k as int, r);
            assert(shape_config::extended(lists, n, m)[i] == lists[k as int].push(r as usize));
        }
    }
}

proof fn lemma_combinations_len(n: nat, k: nat)
    requires
        n > 0,
    ensures
        shape_config::combinations(n, k).len() == pow(n as int, k),
    decreases k,
{
    reveal(pow);
    if k > 0 {
        let m = (k - 1) as nat;
        lemma_combinations_len(n, m);
        let before = shape_config::combinations(n, m);
        lemma_extended(before, n, before.len(), 0);
        lemma_mul_is_commutative(n as int, pow(n as int, m));
    }
}

proof fn lemma_combination_len(n: nat, k: nat, i: int)
    requires
        n > 0,
        0 <= i < shape_config::combinations(n, k).len(),
    ensures
        shape_config::combinations(n, k)[i].len() == k,
    decreases k,
{
    if k > 0 {
        let m = (k - 1) as nat;
        let before = shape_config::combinations(n, m);
        lemma_extended(before, n, before.len(), i);
        lemma_combination_len(n, m, i / n as int);
    }
}

/// Law: the union of shapes has for a name the height that one of the shapes has for it, the largest.
pub proof fn law_union(shapes: Seq<HeightMap>, n: nat, name: Seq<char>)
    requires
        n <= shapes.len(),
    ensures
        ({
            let u = shape_config::merged_all(shapes, n);
            &&& u.dom().contains(name) <==> exists|i: int|
                0 <= i < n && (#[trigger] shapes[i])@.dom().contains(name)
            &&& u.dom().contains(name) ==> exists|i: int|
                0 <= i < n && (#[trigger] shapes[i])@.dom().contains(name) && shapes[i]@[name]
                    == u[name]
            &&& forall|i: int|
                0 <= i < n && (#[trigger] shapes[i])@.dom().contains(name) ==> shapes[i]@[name]
                    <= u[name]
        }),
    decreases n,
{
    if n > 0 {
        let m = (n - 1) as nat;
        law_union(shapes, m, name);
        let before = shape_config::merged_all(shapes, m);
        let u = shape_config::merged_all(shapes, n);
        let last = shapes[n - 1]@;
        if before.dom().contains(name) && !(last.dom().contains(name) && last[name] > before[name]) {
            let i = choose|i: int|
                0 <= i < m && (#[trigger] shapes[i])@.dom().contains(name) && shapes[i]@[name]
                    == before[name];
            assert(shapes[i]@[name] == u[name]);
        } else if last.dom().contains(name) {
            assert(shapes[n - 1]@[name] == u[name]);
        }
        if exists|i: int| 0 <= i < n && (#[trigger] shapes[i])@.dom().contains(name) {
            let i = choose|i: int| 0 <= i < n && (#[trigger] shapes[i])@.dom().contains(name);
            if i < m {
                assert(before.dom().contains(name));
            }
        }
    }
}

/// The number that a text of digits writes.
pub open spec fn written(s: Seq<char>) -> int
    decreases s.len(),
{
    if s.len() == 0 {
        0
    } else {
        10 * written(s.drop_last()) + (s.last() as int - '0' as int)
    }
}

/// Law: the text of a number writes that number, by digits and without a leading zero.
pub proof fn law_decimal(n: nat)
    ensures
        written(machine::decimal(n)) == n,
        machine::decimal(n).len() > 0,
        forall|i: int|
            0 <= i < machine::decimal(n).len() ==> '0' <= #[trigger] machine::decimal(n)[i] <= '9',
        n > 0 ==> machine::decimal(n)[0] != '0',
    decreases n,
{
    reveal_strlit("0");
    reveal_strlit("1");
    reveal_strlit("2");
    reveal_strlit("3");
    reveal_strlit("4");
    reveal_strlit("5");
    reveal_strlit("6");
    reveal_strlit("7");
    reveal_strlit("8");
    reveal_strlit("9");
    reveal_with_fuel(written, 2);
    let s = machine::decimal(n);
    if n >= 10 {
        law_decimal(n / 10);
        assert(s.drop_last() =~= machine::decimal(n / 10));
    } else {
        assert(s.drop_last().len() == 0);
    }
}

/// Law: a shape that fits some heights fits lower ones too, and a shape of the same tables that is no
/// lower fits what it fits; a table that the shape lacks must be empty.
pub proof fn law_shape_fits(
    small: Map<Seq<char>, usize>,
    large: Map<Seq<char>, usize>,
    low: Seq<(RecursionAir, nat)>,
    high: Seq<(RecursionAir, nat)>,
    degree: nat,
    i: int,
)
    requires
        shape_config::shape_fits(small, high, degree),
        low.len() == high.len(),
        forall|k: int|
            0 <= k < low.len() ==> (#[trigger] low[k]).0 == high[k].0 && low[k].1 <= high[k].1,
        forall|name: Seq<char>|
            #[trigger] small.dom().contains(name) ==> large.dom().contains(name) && small[name]
                <= large[name],
        forall|name: Seq<char>| #[trigger] large.dom().contains(name) ==> small.dom().contains(name),
        0 <= i < high.len(),
    ensures
        shape_config::shape_fits(large, low, degree),
        small.dom().contains(high[i].0.name_of(degree)) ==> high[i].1 <= pow2(
            small[high[i].0.name_of(degree)] as nat,
        ),
        !small.dom().contains(high[i].0.name_of(degree)) ==> high[i].1 == 0,
{
    assert forall|k: int| 0 <= k < low.len() implies shape_config::table_fits(
        large,
        (#[trigger] low[k]).0.name_of(degree),
        low[k].1,
    ) by {
        let name = high[k].0.name_of(degree);
        assert(shape_config::table_fits(small, name, high[k].1));
        if small.dom().contains(name) && small[name] < large[name] {
            lemma_pow2_strictly_increases(small[name] as nat, large[name] as nat);
        }
    }
    assert(shape_config::table_fits(small, high[i].0.name_of(degree), high[i].1));
}

} // verus!
