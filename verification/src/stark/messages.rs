//! What the random combinations of messages and the sums of their fractions come to.
use vstd::prelude::*;
use crate::field;
use crate::field::algebra;
use crate::field::{ExtensionField, Field};
use crate::recursion::chips::alu_base;
use crate::stark::folder::SumcheckVerifierConstraintFolder;
use crate::stark::lookup;
use crate::stark::lookup::{Interaction, InteractionScope, PairCol, VirtualPairCol};
use crate::stark::permutation;
use crate::stark::permutation::Term;

verus! {

/// The sum of the elements of a sequence.
pub open spec fn sum_of<EF: Field>(s: Seq<EF>) -> EF
    decreases s.len(),
{
    if s.len() == 0 {
        EF::zero_elem()
    } else {
        sum_of(s.drop_last()).plus(s.last())
    }
}

/// The first challenge, plus the number of the kind, plus the values times the powers of the second
/// challenge from the first power on.
pub open spec fn encoding<EF: Field>(alpha: EF, beta: EF, kind: int, values: Seq<EF>) -> EF {
    alpha.plus(EF::from_int(kind)).plus(
        sum_of(
            Seq::new(values.len(), |i: int| field::power(beta, (i + 1) as nat).times(values[i])),
        ),
    )
}

pub proof fn lemma_sum_valid<EF: Field>(s: Seq<EF>)
    ensures
        sum_of(s).valid(),
{
    broadcast use algebra::group_valid;

    EF::law_constants();
}

pub proof fn lemma_sum_push<EF: Field>(s: Seq<EF>, x: EF)
    ensures
        sum_of(s.push(x)) == sum_of(s).plus(x),
{
    assert(s.push(x).drop_last() =~= s);
}

pub proof fn lemma_sum_append<EF: Field>(a: Seq<EF>, b: Seq<EF>)
    requires
        field::all_valid(b),
    ensures
        sum_of(a + b) == sum_of(a).plus(sum_of(b)),
    decreases b.len(),
{
    broadcast use algebra::group_valid;

    lemma_sum_valid(a);
    if b.len() == 0 {
        assert(a + b =~= a);
        EF::law_plus(sum_of(a), sum_of(a), sum_of(a));
    } else {
        let c = b.drop_last();
        lemma_sum_append(a, c);
        assert((a + b).drop_last() =~= a + c);
        lemma_sum_valid(c);
        assert(b[b.len() - 1].valid());
        EF::law_plus(sum_of(a), sum_of(c), b.last());
    }
}

proof fn lemma_fingerprint<EF: Field>(alpha: EF, beta: EF, kind: int, values: Seq<EF>, n: nat)
    requires
        alpha.valid(),
        n <= values.len(),
    ensures
        permutation::fingerprint(alpha, beta, kind, values, n) == alpha.plus(
            EF::from_int(kind),
        ).plus(
            sum_of(
                Seq::new(n, |i: int| field::power(beta, (i + 1) as nat).times(values[i])),
            ),
        ),
    decreases n,
{
    broadcast use algebra::group_valid;

    EF::law_constants();
    EF::law_from_int(kind, 0);
    let base = alpha.plus(EF::from_int(kind));
    let all = Seq::new(n, |i: int| field::power(beta, (i + 1) as nat).times(values[i]));
    if n == 0 {
        let k = EF::from_int(kind);
        algebra::lemma_products(k, k, k);
        EF::law_plus(base, base, base);
    } else {
        let k = (n - 1) as nat;
        let before = Seq::new(k, |i: int| field::power(beta, (i + 1) as nat).times(values[i]));
        lemma_fingerprint(alpha, beta, kind, values, k);
        assert(all.drop_last() =~= before);
        lemma_sum_valid(before);
        EF::law_plus(base, sum_of(before), all.last());
    }
}

/// Law: the random combination of a message is the first challenge, plus the number of its kind, plus
/// its values times the powers of the second challenge from the first power on.
pub proof fn law_fingerprint<EF: Field>(alpha: EF, beta: EF, kind: int, values: Seq<EF>)
    requires
        alpha.valid(),
    ensures
        permutation::fingerprint(alpha, beta, kind, values, values.len()) == encoding(
            alpha,
            beta,
            kind,
            values,
        ),
{
    lemma_fingerprint(alpha, beta, kind, values, values.len());
}

/// Law: the random combinations of equal values of two kinds differ by the difference of the kinds.
pub proof fn law_kinds_apart<EF: Field>(alpha: EF, beta: EF, k1: int, k2: int, values: Seq<EF>)
    requires
        alpha.valid(),
    ensures
        permutation::fingerprint(alpha, beta, k1, values, values.len()).minus(
            permutation::fingerprint(alpha, beta, k2, values, values.len()),
        ) == EF::from_int(k1 - k2),
{
    broadcast use algebra::group_valid;

    law_fingerprint(alpha, beta, k1, values);
    law_fingerprint(alpha, beta, k2, values);
    EF::law_from_int(k1, 0);
    EF::law_from_int(k2, 0);
    EF::law_from_int(k1 - k2, k2);
    let s = sum_of(
        Seq::new(values.len(), |i: int| field::power(beta, (i + 1) as nat).times(values[i])),
    );
    lemma_sum_valid(s_terms(beta, values));
    assert(s_terms(beta, values) =~= Seq::new(
        values.len(),
        |i: int| field::power(beta, (i + 1) as nat).times(values[i]),
    ));
    let a = EF::from_int(k1);
    let b = EF::from_int(k2);
    // ((alpha + a) + s) - ((alpha + b) + s) = a - b.
    EF::law_plus(alpha.plus(a), s, s);
    EF::law_plus(alpha.plus(b), s, s);
    algebra::lemma_regroup(s, alpha.plus(a), alpha.plus(b));
    algebra::lemma_regroup(alpha, a, b);
    algebra::lemma_opposites(EF::from_int(k1 - k2), b);
}

spec fn s_terms<EF: Field>(beta: EF, values: Seq<EF>) -> Seq<EF> {
    Seq::new(values.len(), |i: int| field::power(beta, (i + 1) as nat).times(values[i]))
}

proof fn lemma_sum_update<EF: Field>(s: Seq<EF>, i: int, d: EF)
    requires
        field::all_valid(s),
        d.valid(),
        0 <= i < s.len(),
    ensures
        sum_of(s.update(i, s[i].plus(d))) == sum_of(s).plus(d),
    decreases s.len(),
{
    broadcast use algebra::group_valid;

    let l = s.len() - 1;
    let t = s.update(i, s[i].plus(d));
    assert(s[l].valid() && s[i].valid());
    lemma_sum_valid(s.drop_last());
    let before = sum_of(s.drop_last());
    if i == l {
        assert(t.drop_last() =~= s.drop_last());
        EF::law_plus(before, s[l], d);
    } else {
        lemma_sum_update(s.drop_last(), i, d);
        assert(t.drop_last() =~= s.drop_last().update(i, s[i].plus(d)));
        algebra::lemma_regroup(before, d, s[l]);
    }
}

/// Law: every value of a message counts, with a power of the second challenge of its own: where the
/// `i`-th value grows by `d`, the random combination grows by `d` times the power `i + 1`.
pub proof fn law_values_count<EF: Field>(
    alpha: EF,
    beta: EF,
    kind: int,
    values: Seq<EF>,
    i: int,
    d: EF,
)
    requires
        alpha.valid(),
        beta.valid(),
        field::all_valid(values),
        d.valid(),
        0 <= i < values.len(),
    ensures
        permutation::fingerprint(
            alpha,
            beta,
            kind,
            values.update(i, values[i].plus(d)),
            values.len(),
        ) == permutation::fingerprint(alpha, beta, kind, values, values.len()).plus(
            field::power(beta, (i + 1) as nat).times(d),
        ),
{
    broadcast use algebra::group_valid;

    let other = values.update(i, values[i].plus(d));
    law_fingerprint(alpha, beta, kind, values);
    law_fingerprint(alpha, beta, kind, other);
    EF::law_from_int(kind, 0);
    let p = field::power(beta, (i + 1) as nat);
    algebra::lemma_power_valid(beta, (i + 1) as nat);
    assert(values[i].valid());
    algebra::lemma_products(p, values[i], d);
    let a = s_terms(beta, values);
    let b = s_terms(beta, other);
    assert(b =~= a.update(i, a[i].plus(p.times(d))));
    lemma_sum_update(a, i, p.times(d));
    lemma_sum_valid(a);
    EF::law_plus(alpha.plus(EF::from_int(kind)), sum_of(a), p.times(d));
    assert(a =~= Seq::new(
        values.len(),
        |i: int| field::power(beta, (i + 1) as nat).times(values[i]),
    ));
    assert(b =~= Seq::new(
        other.len(),
        |i: int| field::power(beta, (i + 1) as nat).times(other[i]),
    ));
}

/// The entry of a row that a column stands for.
pub open spec fn entry_of<F>(c: PairCol, prep: Seq<F>, main: Seq<F>) -> F {
    match c {
        PairCol::Main(j) => main[j as int],
        PairCol::Preprocessed(j) => prep[j as int],
    }
}

/// Law: an affine function of a row is its constant plus its weights times the entries of its columns.
pub proof fn law_affine_value<F: Field>(v: VirtualPairCol<F>, prep: Seq<F>, main: Seq<F>)
    requires
        v.constant.valid(),
    ensures
        lookup::value(v, prep, main) == v.constant.plus(
            sum_of(
                Seq::new(
                    v.column_weights@.len(),
                    |i: int|
                        entry_of(v.column_weights@[i].0, prep, main).times(
                            v.column_weights@[i].1,
                        ),
                ),
            ),
        ),
{
    lemma_affine(v, prep, main, v.column_weights@.len());
}

proof fn lemma_affine<F: Field>(v: VirtualPairCol<F>, prep: Seq<F>, main: Seq<F>, n: nat)
    requires
        v.constant.valid(),
        n <= v.column_weights@.len(),
    ensures
        lookup::applied(v, prep, main, n) == v.constant.plus(
            sum_of(
                Seq::new(
                    n,
                    |i: int|
                        entry_of(v.column_weights@[i].0, prep, main).times(
                            v.column_weights@[i].1,
                        ),
                ),
            ),
        ),
    decreases n,
{
    broadcast use algebra::group_valid;

    let all = Seq::new(
        n,
        |i: int| entry_of(v.column_weights@[i].0, prep, main).times(v.column_weights@[i].1),
    );
    F::law_plus(v.constant, v.constant, v.constant);
    if n > 0 {
        let k = (n - 1) as nat;
        lemma_affine(v, prep, main, k);
        let before = Seq::new(
            k,
            |i: int| entry_of(v.column_weights@[i].0, prep, main).times(v.column_weights@[i].1),
        );
        assert(all.drop_last() =~= before);
        lemma_sum_valid(before);
        F::law_plus(v.constant, sum_of(before), all.last());
    }
}

/// Law: the messages of a table that stay within the shard are the local ones sent, then the local
/// ones received, in the table's order and with their directions.
pub proof fn law_local_messages<F>(sends: Seq<Interaction<F>>, receives: Seq<Interaction<F>>)
    ensures
        permutation::local_directed(sends, receives) == sends.filter(
            |m: Interaction<F>| m.scope == InteractionScope::Local,
        ).map_values(|m: Interaction<F>| (m, true)) + receives.filter(
            |m: Interaction<F>| m.scope == InteractionScope::Local,
        ).map_values(|m: Interaction<F>| (m, false)),
{
    let local = |m: Interaction<F>| m.scope == InteractionScope::Local;
    lemma_in_scope(sends, sends.len());
    lemma_in_scope(receives, receives.len());
    assert(sends.take(sends.len() as int) =~= sends);
    assert(receives.take(receives.len() as int) =~= receives);
    assert(permutation::local_directed(sends, receives) =~= sends.filter(local).map_values(
        |m: Interaction<F>| (m, true),
    ) + receives.filter(local).map_values(|m: Interaction<F>| (m, false)));
}

proof fn lemma_in_scope<F>(s: Seq<Interaction<F>>, n: nat)
    requires
        n <= s.len(),
    ensures
        permutation::in_scope(s, InteractionScope::Local, n) == s.take(n as int).filter(
            |m: Interaction<F>| m.scope == InteractionScope::Local,
        ),
    decreases n,
{
    let local = |m: Interaction<F>| m.scope == InteractionScope::Local;
    reveal(Seq::filter);
    if n > 0 {
        lemma_in_scope(s, (n - 1) as nat);
        assert(s.take(n as int).drop_last() =~= s.take(n - 1));
        assert(s.take(n as int).last() == s[n - 1]);
    } else {
        assert(s.take(0).filter(local) =~= Seq::empty());
    }
}

/// The fraction that a message adds on a row: its multiplicity, the opposite of it where it is
/// received, over its random combination.
pub open spec fn fraction<F: Field, EF: ExtensionField<F>>(
    m: (Interaction<F>, bool),
    prep: Seq<F>,
    main: Seq<F>,
    alpha: EF,
    beta: EF,
) -> EF {
    let count = EF::embed(lookup::value(m.0.multiplicity, prep, main));
    field::quotient(
        if m.1 {
            count
        } else {
            count.opposite()
        },
        encoding(
            alpha,
            beta,
            m.0.argument_index as int,
            Seq::new(
                m.0.values@.len(),
                |i: int| EF::embed(lookup::value(m.0.values@[i], prep, main)),
            ),
        ),
    )
}

proof fn lemma_embed_opposite<F: Field, EF: ExtensionField<F>>(x: F)
    requires
        x.valid(),
    ensures
        EF::embed(x.opposite()) == EF::embed(x).opposite(),
        EF::embed(x).valid(),
{
    broadcast use algebra::group_valid;

    EF::law_constants();
    let one = EF::one_elem();
    EF::law_embed(one, one, x, x.opposite());
    EF::law_embed(one, one, x.opposite(), x);
    F::law_plus(x, x, x);
    algebra::lemma_opposite_unique(EF::embed(x), EF::embed(x.opposite()));
}

proof fn lemma_affine_valid<F: Field>(v: VirtualPairCol<F>, prep: Seq<F>, main: Seq<F>, n: nat)
    requires
        v.constant.valid(),
    ensures
        lookup::applied(v, prep, main, n).valid(),
{
    broadcast use algebra::group_valid;

}

/// Law: a message's term on a row is its fraction.
pub proof fn law_term_is_fraction<F: Field, EF: ExtensionField<F>>(
    m: (Interaction<F>, bool),
    prep: Seq<F>,
    main: Seq<F>,
    alpha: EF,
    beta: EF,
)
    requires
        alpha.valid(),
        m.0.multiplicity.constant.valid(),
    ensures
        ({
            let t = permutation::term::<F, EF>(m, prep, main, alpha, beta);
            field::quotient(t.mult, t.rlc) == fraction(m, prep, main, alpha, beta)
        }),
{
    let x = lookup::value(m.0.multiplicity, prep, main);
    lemma_affine_valid(m.0.multiplicity, prep, main, m.0.multiplicity.column_weights@.len());
    lemma_embed_opposite::<F, EF>(x);
    let values = permutation::message::<F, EF>(m.0, prep, main);
    law_fingerprint(alpha, beta, m.0.argument_index as int, values);
    assert(values =~= Seq::new(
        m.0.values@.len(),
        |i: int| EF::embed(lookup::value(m.0.values@[i], prep, main)),
    ));
}

/// The sum of the first `n` quotients, as a sum of a sequence.
proof fn lemma_quotients<EF: Field>(t: Seq<Term<EF>>, n: nat)
    requires
        n <= t.len(),
    ensures
        permutation::quotients(t, n) == sum_of(
            Seq::new(n, |i: int| field::quotient(t[i].mult, t[i].rlc)),
        ),
        permutation::quotients(t, n).valid(),
    decreases n,
{
    broadcast use algebra::group_valid;

    EF::law_constants();
    let all = Seq::new(n, |i: int| field::quotient(t[i].mult, t[i].rlc));
    if n > 0 {
        let k = (n - 1) as nat;
        lemma_quotients(t, k);
        assert(all.drop_last() =~= Seq::new(k, |i: int| field::quotient(t[i].mult, t[i].rlc)));
    }
}

proof fn lemma_quotients_joined<EF: Field>(t: Seq<Term<EF>>, from: nat, m: nat)
    requires
        from + m <= t.len(),
    ensures
        permutation::quotients(t, from + m) == permutation::quotients(t, from).plus(
            permutation::quotients(t.subrange(from as int, (from + m) as int), m),
        ),
        permutation::quotients(t, from).valid(),
    decreases m,
{
    broadcast use algebra::group_valid;

    EF::law_constants();
    let sub = t.subrange(from as int, (from + m) as int);
    lemma_quotients(t, from);
    lemma_quotients(sub, m);
    let before = permutation::quotients(t, from);
    if m == 0 {
        EF::law_plus(before, before, before);
    } else {
        let k = (m - 1) as nat;
        lemma_quotients_joined(t, from, k);
        let less = t.subrange(from as int, (from + k) as int);
        lemma_same_quotients(less, sub, k);
        lemma_quotients(sub, k);
        EF::law_plus(
            before,
            permutation::quotients(sub, k),
            field::quotient(sub[m - 1].mult, sub[m - 1].rlc),
        );
        assert(sub[m - 1] == t[from + m - 1]);
    }
}

proof fn lemma_same_quotients<EF: Field>(a: Seq<Term<EF>>, b: Seq<Term<EF>>, n: nat)
    requires
        n <= a.len(),
        n <= b.len(),
        forall|i: int| 0 <= i < n ==> a[i] == b[i],
    ensures
        permutation::quotients(a, n) == permutation::quotients(b, n),
    decreases n,
{
    if n > 0 {
        lemma_same_quotients(a, b, (n - 1) as nat);
    }
}

/// The entries of the first `k` batches add up to the quotients of the terms in them.
proof fn lemma_batches<EF: Field>(t: Seq<Term<EF>>, batch: nat, k: nat)
    requires
        batch > 0,
        k <= alu_base::rows_for(t.len(), batch),
    ensures
        ({
            let end = if k * batch <= t.len() {
                k * batch
            } else {
                t.len()
            };
            sum_of(permutation::row_entries(t, batch).take(k as int)) == permutation::quotients(
                t,
                end,
            )
        }),
    decreases k,
{
    let entries = permutation::row_entries(t, batch);
    if k == 0 {
        assert(entries.take(0).len() == 0);
        assert(0 * batch == 0);
    } else {
        let j = (k - 1) as nat;
        lemma_batches(t, batch, j);
        assert(entries.take(k as int).drop_last() =~= entries.take(j as int));
        let n = t.len() as int;
        let start = j * batch;
        assert(start == (k - 1) * batch && k * batch == start + batch) by (nonlinear_arith)
            requires
                start == j * batch,
                j == k - 1,
        ;
        vstd::arithmetic::div_mod::lemma_fundamental_div_mod(n - 1, batch as int);
        let q = (n - 1) / (batch as int);
        assert(j <= q);
        assert(j * batch <= q * batch) by (nonlinear_arith)
            requires
                j <= q,
                batch > 0,
        ;
        assert(batch as int * q == q * batch) by (nonlinear_arith);
        vstd::arithmetic::div_mod::lemma_mod_bound(n - 1, batch as int);
        assert(start < n);
        let end = permutation::batch_end(j as int, batch, t.len());
        assert((j + 1) * batch == k * batch);
        let b = permutation::batch_of(t, j as int, batch);
        assert(b == t.subrange(start as int, end));
        lemma_quotients_joined(t, start as nat, (end - start) as nat);
        assert(entries[j as int] == permutation::quotients(b, b.len()));
    }
}

/// The entries of a row add up to the quotients of its terms.
proof fn lemma_row_total<EF: Field>(t: Seq<Term<EF>>, batch: nat)
    requires
        batch > 0,
    ensures
        sum_of(permutation::row_entries(t, batch)) == permutation::quotients(t, t.len()),
        field::all_valid(permutation::row_entries(t, batch)),
{
    let rows = alu_base::rows_for(t.len(), batch);
    lemma_batches(t, batch, rows);
    let entries = permutation::row_entries(t, batch);
    assert(entries.take(rows as int) =~= entries);
    if t.len() > 0 {
        let n = t.len() as int;
        let q = (n - 1) / (batch as int);
        vstd::arithmetic::div_mod::lemma_fundamental_div_mod(n - 1, batch as int);
        vstd::arithmetic::div_mod::lemma_mod_bound(n - 1, batch as int);
        vstd::arithmetic::div_mod::lemma_div_pos_is_pos(n - 1, batch as int);
        assert(rows * batch == batch * q + batch) by (nonlinear_arith)
            requires
                rows == q + 1,
        ;
    }
    assert forall|i: int| 0 <= i < entries.len() implies (#[trigger] entries[i]).valid() by {
        let b = permutation::batch_of(t, i, batch);
        broadcast use algebra::group_valid;

        EF::law_constants();
    }
}

proof fn lemma_total_is_sum<EF: Field>(s: Seq<EF>, n: nat)
    requires
        n <= s.len(),
    ensures
        permutation::total(s, n) == sum_of(s.take(n as int)),
    decreases n,
{
    if n > 0 {
        lemma_total_is_sum(s, (n - 1) as nat);
        assert(s.take(n as int).drop_last() =~= s.take(n - 1));
    }
}

/// The fractions of all messages on a row.
pub open spec fn row_fractions<F: Field, EF: ExtensionField<F>>(
    s: Seq<(Interaction<F>, bool)>,
    prep: Seq<F>,
    main: Seq<F>,
    alpha: EF,
    beta: EF,
) -> Seq<EF> {
    Seq::new(s.len(), |i: int| fraction::<F, EF>(s[i], prep, main, alpha, beta))
}

proof fn lemma_row_fractions<F: Field, EF: ExtensionField<F>>(
    s: Seq<(Interaction<F>, bool)>,
    prep: Seq<F>,
    main: Seq<F>,
    alpha: EF,
    beta: EF,
)
    requires
        alpha.valid(),
        forall|i: int| 0 <= i < s.len() ==> (#[trigger] s[i]).0.multiplicity.constant.valid(),
    ensures
        permutation::quotients(permutation::terms::<F, EF>(s, prep, main, alpha, beta), s.len())
            == sum_of(row_fractions::<F, EF>(s, prep, main, alpha, beta)),
{
    let t = permutation::terms::<F, EF>(s, prep, main, alpha, beta);
    lemma_quotients(t, s.len());
    let all = Seq::new(s.len(), |i: int| field::quotient(t[i].mult, t[i].rlc));
    assert forall|i: int| 0 <= i < s.len() implies all[i] == row_fractions::<F, EF>(
        s,
        prep,
        main,
        alpha,
        beta,
    )[i] by {
        assert(s[i].0.multiplicity.constant.valid());
        law_term_is_fraction::<F, EF>(s[i], prep, main, alpha, beta);
    }
    assert(all =~= row_fractions::<F, EF>(s, prep, main, alpha, beta));
}

/// Law: the entries of a permutation trace add up to the fractions of all messages on all rows,
/// whatever the size of the batches.
pub proof fn law_trace_total<F: Field, EF: ExtensionField<F>>(
    s: Seq<(Interaction<F>, bool)>,
    prep: Seq<Seq<F>>,
    main: Seq<Seq<F>>,
    alpha: EF,
    beta: EF,
    batch: nat,
    n: nat,
)
    requires
        batch > 0,
        alpha.valid(),
        forall|i: int| 0 <= i < s.len() ==> (#[trigger] s[i]).0.multiplicity.constant.valid(),
    ensures
        ({
            let entries = permutation::trace_entries::<F, EF>(
                s,
                prep,
                main,
                alpha,
                beta,
                batch,
                n,
            );
            permutation::total(entries, entries.len()) == sum_of(
                Seq::new(
                    n,
                    |r: int| sum_of(row_fractions::<F, EF>(s, prep[r], main[r], alpha, beta)),
                ),
            )
        }),
{
    let entries = permutation::trace_entries::<F, EF>(s, prep, main, alpha, beta, batch, n);
    lemma_total_is_sum(entries, entries.len());
    assert(entries.take(entries.len() as int) =~= entries);
    lemma_trace_sum::<F, EF>(s, prep, main, alpha, beta, batch, n);
}

proof fn lemma_trace_sum<F: Field, EF: ExtensionField<F>>(
    s: Seq<(Interaction<F>, bool)>,
    prep: Seq<Seq<F>>,
    main: Seq<Seq<F>>,
    alpha: EF,
    beta: EF,
    batch: nat,
    n: nat,
)
    requires
        batch > 0,
        alpha.valid(),
        forall|i: int| 0 <= i < s.len() ==> (#[trigger] s[i]).0.multiplicity.constant.valid(),
    ensures
        sum_of(permutation::trace_entries::<F, EF>(s, prep, main, alpha, beta, batch, n))
            == sum_of(
            Seq::new(
                n,
                |r: int| sum_of(row_fractions::<F, EF>(s, prep[r], main[r], alpha, beta)),
            ),
        ),
    decreases n,
{
    let all = Seq::new(
        n,
        |r: int| sum_of(row_fractions::<F, EF>(s, prep[r], main[r], alpha, beta)),
    );
    if n > 0 {
        let k = (n - 1) as nat;
        lemma_trace_sum::<F, EF>(s, prep, main, alpha, beta, batch, k);
        let t = permutation::terms::<F, EF>(s, prep[n - 1], main[n - 1], alpha, beta);
        lemma_row_total(t, batch);
        lemma_row_fractions::<F, EF>(s, prep[n - 1], main[n - 1], alpha, beta);
        lemma_sum_append(
            permutation::trace_entries::<F, EF>(s, prep, main, alpha, beta, batch, k),
            permutation::row_entries(t, batch),
        );
        assert(all.drop_last() =~= Seq::new(
            k,
            |r: int| sum_of(row_fractions::<F, EF>(s, prep[r], main[r], alpha, beta)),
        ));
    }
}

/// Law: where the same message is sent and received, the sum of a row's fractions is what it is
/// without the two.
pub proof fn law_matching_messages_cancel<F: Field, EF: ExtensionField<F>>(
    s: Seq<(Interaction<F>, bool)>,
    m: Interaction<F>,
    prep: Seq<F>,
    main: Seq<F>,
    alpha: EF,
    beta: EF,
)
    requires
        alpha.valid(),
        m.multiplicity.constant.valid(),
        field::is_unit(permutation::term::<F, EF>((m, true), prep, main, alpha, beta).rlc),
        forall|i: int| 0 <= i < s.len() ==> (#[trigger] s[i]).0.multiplicity.constant.valid(),
    ensures
        ({
            let both = s.push((m, true)).push((m, false));
            permutation::quotients(
                permutation::terms::<F, EF>(both, prep, main, alpha, beta),
                both.len(),
            ) == permutation::quotients(
                permutation::terms::<F, EF>(s, prep, main, alpha, beta),
                s.len(),
            )
        }),
{
    broadcast use algebra::group_valid;

    let both = s.push((m, true)).push((m, false));
    assert forall|i: int| 0 <= i < both.len() implies (
    #[trigger] both[i]).0.multiplicity.constant.valid() by {
        if i < s.len() {
            assert(both[i] == s[i]);
        }
    }
    lemma_row_fractions::<F, EF>(both, prep, main, alpha, beta);
    lemma_row_fractions::<F, EF>(s, prep, main, alpha, beta);
    let f = row_fractions::<F, EF>(s, prep, main, alpha, beta);
    let x = fraction::<F, EF>((m, true), prep, main, alpha, beta);
    let y = fraction::<F, EF>((m, false), prep, main, alpha, beta);
    assert(row_fractions::<F, EF>(both, prep, main, alpha, beta) =~= f.push(x).push(y));
    lemma_sum_push(f, x);
    lemma_sum_push(f.push(x), y);
    lemma_affine_valid(m.multiplicity, prep, main, m.multiplicity.column_weights@.len());
    let c = EF::embed(lookup::value(m.multiplicity, prep, main));
    lemma_embed_opposite::<F, EF>(lookup::value(m.multiplicity, prep, main));
    let values = Seq::new(
        m.values@.len(),
        |i: int| EF::embed(lookup::value(m.values@[i], prep, main)),
    );
    let code = encoding(alpha, beta, m.argument_index as int, values);
    assert(permutation::message::<F, EF>(m, prep, main) =~= values);
    law_fingerprint(alpha, beta, m.argument_index as int, values);
    lemma_sum_valid(s_terms(beta, values));
    let e = field::inverse(code);
    algebra::lemma_unit(code);
    // f + c e + (-c) e = f.
    lemma_sum_valid(f);
    lemma_opposite_product(c, e);
    EF::law_plus(sum_of(f), x, y);
    EF::law_plus(x, x, x);
    EF::law_plus(sum_of(f), x, x);
}

proof fn lemma_opposite_product<EF: Field>(c: EF, e: EF)
    requires
        c.valid(),
        e.valid(),
    ensures
        c.times(e).plus(c.opposite().times(e)) == EF::zero_elem(),
{
    broadcast use algebra::group_valid;

    algebra::lemma_products(c, e, e);
    algebra::lemma_products(e, c, c.opposite());
    EF::law_plus(c, c, c);
    algebra::lemma_products(e, e, e);
}

/// Law: an affine function of a row of extension elements is the image of its constant plus the
/// entries of its columns times the images of its weights.
pub proof fn law_affine_value_ext<F: Field, EF: ExtensionField<F>>(
    v: VirtualPairCol<F>,
    prep: Seq<EF>,
    main: Seq<EF>,
)
    requires
        v.constant.valid(),
    ensures
        lookup::value_ext::<F, EF>(v, prep, main) == EF::embed(v.constant).plus(
            sum_of(
                Seq::new(
                    v.column_weights@.len(),
                    |i: int|
                        entry_of(v.column_weights@[i].0, prep, main).times(
                            EF::embed(v.column_weights@[i].1),
                        ),
                ),
            ),
        ),
        lookup::value_ext::<F, EF>(v, prep, main).valid(),
{
    lemma_affine_ext::<F, EF>(v, prep, main, v.column_weights@.len());
}

proof fn lemma_affine_ext<F: Field, EF: ExtensionField<F>>(
    v: VirtualPairCol<F>,
    prep: Seq<EF>,
    main: Seq<EF>,
    n: nat,
)
    requires
        v.constant.valid(),
        n <= v.column_weights@.len(),
    ensures
        lookup::applied_ext::<F, EF>(v, prep, main, n) == EF::embed(v.constant).plus(
            sum_of(
                Seq::new(
                    n,
                    |i: int|
                        entry_of(v.column_weights@[i].0, prep, main).times(
                            EF::embed(v.column_weights@[i].1),
                        ),
                ),
            ),
        ),
        lookup::applied_ext::<F, EF>(v, prep, main, n).valid(),
    decreases n,
{
    broadcast use algebra::group_valid;

    lemma_embed_opposite::<F, EF>(v.constant);
    let c = EF::embed(v.constant);
    let all = Seq::new(
        n,
        |i: int|
            entry_of(v.column_weights@[i].0, prep, main).times(EF::embed(v.column_weights@[i].1)),
    );
    EF::law_plus(c, c, c);
    if n > 0 {
        let k = (n - 1) as nat;
        lemma_affine_ext::<F, EF>(v, prep, main, k);
        let before = Seq::new(
            k,
            |i: int|
                entry_of(v.column_weights@[i].0, prep, main).times(
                    EF::embed(v.column_weights@[i].1),
                ),
        );
        assert(all.drop_last() =~= before);
        lemma_sum_valid(before);
        EF::law_plus(c, sum_of(before), all.last());
    }
}

/// The fraction that a message adds on a row of extension elements.
pub open spec fn fraction_ext<F: Field, EF: ExtensionField<F>>(
    m: (Interaction<F>, bool),
    prep: Seq<EF>,
    main: Seq<EF>,
    alpha: EF,
    beta: EF,
) -> EF {
    let count = lookup::value_ext::<F, EF>(m.0.multiplicity, prep, main);
    field::quotient(
        if m.1 {
            count
        } else {
            count.opposite()
        },
        encoding(
            alpha,
            beta,
            m.0.argument_index as int,
            Seq::new(
                m.0.values@.len(),
                |i: int| lookup::value_ext::<F, EF>(m.0.values@[i], prep, main),
            ),
        ),
    )
}

proof fn lemma_term_ext<F: Field, EF: ExtensionField<F>>(
    m: (Interaction<F>, bool),
    prep: Seq<EF>,
    main: Seq<EF>,
    alpha: EF,
    beta: EF,
)
    requires
        alpha.valid(),
        m.0.multiplicity.constant.valid(),
    ensures
        ({
            let t = permutation::term_ext::<F, EF>(m, prep, main, alpha, beta);
            &&& t.mult.valid()
            &&& t.rlc.valid()
            &&& field::quotient(t.mult, t.rlc) == fraction_ext::<F, EF>(
                m,
                prep,
                main,
                alpha,
                beta,
            )
        }),
{
    broadcast use algebra::group_valid;

    let c = lookup::value_ext::<F, EF>(m.0.multiplicity, prep, main);
    law_affine_value_ext::<F, EF>(m.0.multiplicity, prep, main);
    EF::law_constants();
    F::law_constants();
    let one = EF::one_elem();
    EF::law_embed(one, one, F::one_elem(), F::one_elem());
    lemma_embed_opposite::<F, EF>(F::one_elem());
    algebra::lemma_products(c, one, one);
    let values = permutation::message_ext::<F, EF>(m.0, prep, main);
    law_fingerprint(alpha, beta, m.0.argument_index as int, values);
    lemma_sum_valid(s_terms(beta, values));
    assert(values =~= Seq::new(
        m.0.values@.len(),
        |i: int| lookup::value_ext::<F, EF>(m.0.values@[i], prep, main),
    ));
    // c (-1) = -c.
    algebra::lemma_products(one, c, c);
    algebra::lemma_products(one.opposite(), c, c);
}

/// Law: where no random combination vanishes, the constraint of a batch of a row's messages holds
/// exactly where the permutation entry is the sum of the fractions of the batch.
pub proof fn law_constraints_pin_entries<F: Field, EF: ExtensionField<F>>(
    sends: Seq<Interaction<F>>,
    receives: Seq<Interaction<F>>,
    batch: nat,
    scope: InteractionScope,
    row: SumcheckVerifierConstraintFolder<F, EF>,
    k: nat,
    count: nat,
)
    requires
        batch > 0,
        row.perm_challenges@[0].valid(),
        field::all_valid(row.permutation@),
        ({
            let s = permutation::local_directed(sends, receives);
            &&& k * batch + count <= s.len()
            &&& 0 < count <= batch
            &&& count < batch ==> k * batch + count == s.len()
            &&& k < row.permutation@.len()
            &&& forall|i: int|
                0 <= i < s.len() ==> (#[trigger] s[i]).0.multiplicity.constant.valid()
            &&& forall|i: int|
                0 <= i < s.len() ==> field::is_unit(
                    permutation::term_ext::<F, EF>(
                        #[trigger] s[i],
                        row.preprocessed@,
                        row.main@,
                        row.perm_challenges@[0],
                        row.perm_challenges@[1],
                    ).rlc,
                )
        }),
    ensures
        k < permutation::permutation_constraints::<F, EF>(
            sends,
            receives,
            batch,
            scope,
            row,
        ).len(),
        permutation::permutation_constraints::<F, EF>(sends, receives, batch, scope, row)[k as int]
            == EF::zero_elem() <==> row.permutation@[k as int] == sum_of(
            Seq::new(
                count,
                |i: int|
                    fraction_ext::<F, EF>(
                        permutation::local_directed(sends, receives)[k * batch + i],
                        row.preprocessed@,
                        row.main@,
                        row.perm_challenges@[0],
                        row.perm_challenges@[1],
                    ),
            ),
        ),
{
    let s = permutation::local_directed(sends, receives);
    let alpha = row.perm_challenges@[0];
    let beta = row.perm_challenges@[1];
    let t = permutation::terms_ext::<F, EF>(s, row.preprocessed@, row.main@, alpha, beta);
    let n = s.len() as int;
    let start = k * batch;
    let b = permutation::batch_of(t, k as int, batch);
    assert((k + 1) * batch == start + batch) by (nonlinear_arith)
        requires
            start == k * batch,
    ;
    assert(b == t.subrange(start as int, (start + count) as int));
    assert(k < alu_base::rows_for(s.len(), batch)) by {
        vstd::arithmetic::div_mod::lemma_div_is_ordered(start as int, n - 1, batch as int);
        vstd::arithmetic::div_mod::lemma_div_multiples_vanish(k as int, batch as int);
        vstd::arithmetic::mul::lemma_mul_is_commutative(k as int, batch as int);
    }
    assert forall|i: int| 0 <= i < b.len() implies (#[trigger] b[i]).mult.valid()
        && b[i].rlc.valid() && field::is_unit(b[i].rlc) by {
        assert(b[i] == t[start + i]);
        assert(s[start + i].0.multiplicity.constant.valid());
        lemma_term_ext::<F, EF>(s[start + i], row.preprocessed@, row.main@, alpha, beta);
    }
    assert(row.permutation@[k as int].valid());
    permutation::law_batch_constraint(b, row.permutation@[k as int]);
    lemma_quotients(b, b.len());
    let x = Seq::new(b.len(), |i: int| field::quotient(b[i].mult, b[i].rlc));
    let y = Seq::new(
        count,
        |i: int|
            fraction_ext::<F, EF>(s[start + i], row.preprocessed@, row.main@, alpha, beta),
    );
    assert forall|i: int| 0 <= i < count implies x[i] == y[i] by {
        assert(b[i] == t[start + i]);
        assert(s[start + i].0.multiplicity.constant.valid());
        lemma_term_ext::<F, EF>(s[start + i], row.preprocessed@, row.main@, alpha, beta);
    }
    assert(x =~= y);
}

/// Law: on the last row, and there alone, the last fourteen columns of a table with global messages
/// are held to the coordinates of the global sum: first the seven of `x`, then the seven of `y`.
pub proof fn law_global_columns<F: Field, EF: ExtensionField<F>>(
    sends: Seq<Interaction<F>>,
    receives: Seq<Interaction<F>>,
    batch: nat,
    row: SumcheckVerifierConstraintFolder<F, EF>,
)
    requires
        row.main@.len() >= 14,
        field::all_valid(row.main@),
        row.is_last_row.valid(),
        field::all_valid(row.global_cumulative_sum@.x),
        field::all_valid(row.global_cumulative_sum@.y),
        row.global_cumulative_sum@.x.len() == 7,
        row.global_cumulative_sum@.y.len() == 7,
    ensures
        ({
            let all = permutation::permutation_constraints::<F, EF>(
                sends,
                receives,
                batch,
                InteractionScope::Global,
                row,
            );
            let n = all.len() - 14;
            let held = forall|i: int| n <= i < n + 14 ==> #[trigger] all[i] == EF::zero_elem();
            let columns = row.main@.subrange(
                row.main@.len() - 14,
                row.main@.len() as int,
            );
            let point = row.global_cumulative_sum@;
            &&& n >= 0
            &&& row.is_last_row == EF::zero_elem() ==> held
            &&& field::is_unit(row.is_last_row) ==> (held <==> columns
                == lookup::embedded_row::<F, EF>(point.x + point.y))
        }),
{
    broadcast use algebra::group_valid;

    let all = permutation::permutation_constraints::<F, EF>(
        sends,
        receives,
        batch,
        InteractionScope::Global,
        row,
    );
    let n = all.len() - 14;
    let main = row.main@;
    let m = main.len() as int;
    let point = row.global_cumulative_sum@;
    let image = lookup::embedded_row::<F, EF>(point.x + point.y);
    let columns = main.subrange(m - 14, m);
    let z = row.is_last_row;
    assert forall|j: int| 0 <= j < 14 implies #[trigger] image[j].valid() && columns[j].valid()
        by {
        let c = (point.x + point.y)[j];
        if j < 7 {
            assert(c == point.x[j] && point.x[j].valid());
        } else {
            assert(c == point.y[j - 7] && point.y[j - 7].valid());
        }
        lemma_embed_opposite::<F, EF>(c);
        assert(main[m - 14 + j].valid());
    }
    assert forall|i: int| 0 <= i < 14 implies #[trigger] all[n + i] == z.times(
        columns[place(i)].minus(image[place(i)]),
    ) by {}
    if z == EF::zero_elem() {
        assert forall|i: int| n <= i < n + 14 implies #[trigger] all[i] == EF::zero_elem() by {
            let d = columns[place(i - n)].minus(image[place(i - n)]);
            assert(all[n + (i - n)] == z.times(d));
            algebra::lemma_products(d, d, d);
        }
    }
    if field::is_unit(z) {
        algebra::lemma_unit(z);
        let y = field::inverse(z);
        if forall|i: int| n <= i < n + 14 ==> #[trigger] all[i] == EF::zero_elem() {
            assert forall|j: int| 0 <= j < 14 implies columns[j] == image[j] by {
                let i = if j < 7 {
                    2 * j
                } else {
                    2 * (j - 7) + 1
                };
                assert(place(i) == j);
                assert(image[j].valid() && columns[j].valid());
                let d = columns[j].minus(image[j]);
                assert(all[n + i] == z.times(d));
                algebra::lemma_products(y, z, d);
                algebra::lemma_products(y, y, y);
                algebra::lemma_products(d, d, d);
                assert(d == EF::zero_elem());
                algebra::lemma_opposites(columns[j], image[j]);
                algebra::lemma_opposites(image[j], image[j]);
            }
            assert(columns =~= image);
        }
        if columns == image {
            assert forall|i: int| n <= i < n + 14 implies #[trigger] all[i] == EF::zero_elem() by {
                let j = place(i - n);
                assert(image[j].valid());
                assert(all[n + (i - n)] == z.times(columns[j].minus(image[j])));
                algebra::lemma_opposites(image[j], image[j]);
                algebra::lemma_products(z, z, z);
            }
        }
    }
}

/// The column that the `i`-th constraint on the global sum is about.
spec fn place(i: int) -> int {
    if i % 2 == 0 {
        i / 2
    } else {
        7 + i / 2
    }
}

} // verus!
