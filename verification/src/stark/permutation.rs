//! The permutation argument: a row's messages as a sum of quotients, a multiplicity over a random
//! combination of the message.
use vstd::prelude::*;
use crate::basefold::mmcs::Matrix;
use crate::field;
use crate::field::algebra;
use crate::field::{ExtensionField, Field};
use crate::recursion::chips::alu_base;
use crate::stark::folder;
use crate::stark::folder::SumcheckVerifierConstraintFolder;
use crate::stark::lookup;
use crate::stark::lookup::{Interaction, InteractionScope};
use crate::stark::trace;
use crate::stark::trace::{CompressedMatrix, PaddingRow};

verus! {

/// The messages of a table by their scope, each in the table's order.
#[derive(Clone, Debug)]
pub struct ScopedInteractions<'a, F> {
    pub global: Vec<&'a Interaction<F>>,
    pub local: Vec<&'a Interaction<F>>,
}

/// A message's multiplicity, positive where it is sent, and its random combination.
#[derive(Clone, Copy, Debug)]
pub struct Term<EF> {
    pub mult: EF,
    pub rlc: EF,
}

/// What the references of a list refer to.
pub open spec fn contents<F>(s: Seq<&Interaction<F>>) -> Seq<Interaction<F>> {
    Seq::new(s.len(), |i: int| *s[i])
}

/// Those of the first `n` messages that have the scope.
pub open spec fn in_scope<F>(s: Seq<Interaction<F>>, scope: InteractionScope, n: nat) -> Seq<
    Interaction<F>,
>
    decreases n,
{
    if n == 0 {
        Seq::empty()
    } else {
        let before = in_scope(s, scope, (n - 1) as nat);
        if s[n - 1].scope == scope {
            before.push(s[n - 1])
        } else {
            before
        }
    }
}

/// The messages that stay within the shard.
pub open spec fn local_of<F>(s: Seq<Interaction<F>>) -> Seq<Interaction<F>> {
    in_scope(s, InteractionScope::Local, s.len())
}

/// The messages sent, then those received, each with its direction.
pub open spec fn directed<F>(sends: Seq<Interaction<F>>, receives: Seq<Interaction<F>>) -> Seq<
    (Interaction<F>, bool),
> {
    Seq::new(
        sends.len() + receives.len(),
        |i: int|
            if i < sends.len() {
                (sends[i], true)
            } else {
                (receives[i - sends.len()], false)
            },
    )
}

/// The local messages of a table, each with its direction.
pub open spec fn local_directed<F>(
    sends: Seq<Interaction<F>>,
    receives: Seq<Interaction<F>>,
) -> Seq<(Interaction<F>, bool)> {
    directed(local_of(sends), local_of(receives))
}

/// The challenge, the kind's number and the first `n` values with the powers of the second
/// challenge.
pub open spec fn fingerprint<EF: Field>(
    alpha: EF,
    beta: EF,
    index: int,
    values: Seq<EF>,
    n: nat,
) -> EF
    decreases n,
{
    if n == 0 {
        alpha.plus(field::power(beta, 0).times(EF::from_int(index)))
    } else {
        fingerprint(alpha, beta, index, values, (n - 1) as nat).plus(
            field::power(beta, n).times(values[n - 1]),
        )
    }
}

/// The values of a message on a row.
pub open spec fn message<F: Field, EF: ExtensionField<F>>(
    m: Interaction<F>,
    prep: Seq<F>,
    main: Seq<F>,
) -> Seq<EF> {
    Seq::new(m.values@.len(), |i: int| EF::embed(lookup::value(m.values@[i], prep, main)))
}

/// The values of a message on a row of extension elements.
pub open spec fn message_ext<F: Field, EF: ExtensionField<F>>(
    m: Interaction<F>,
    prep: Seq<EF>,
    main: Seq<EF>,
) -> Seq<EF> {
    Seq::new(m.values@.len(), |i: int| lookup::value_ext::<F, EF>(m.values@[i], prep, main))
}

/// A message's term on a row.
pub open spec fn term<F: Field, EF: ExtensionField<F>>(
    m: (Interaction<F>, bool),
    prep: Seq<F>,
    main: Seq<F>,
    alpha: EF,
    beta: EF,
) -> Term<EF> {
    let mult = lookup::value(m.0.multiplicity, prep, main);
    Term {
        mult: EF::embed(if m.1 { mult } else { mult.opposite() }),
        rlc: fingerprint(
            alpha,
            beta,
            m.0.argument_index as int,
            message::<F, EF>(m.0, prep, main),
            m.0.values@.len(),
        ),
    }
}

/// One or its opposite.
pub open spec fn send_factor<F: Field>(is_send: bool) -> F {
    if is_send {
        F::one_elem()
    } else {
        F::one_elem().opposite()
    }
}

/// A message's term on a row of extension elements.
pub open spec fn term_ext<F: Field, EF: ExtensionField<F>>(
    m: (Interaction<F>, bool),
    prep: Seq<EF>,
    main: Seq<EF>,
    alpha: EF,
    beta: EF,
) -> Term<EF> {
    Term {
        mult: lookup::value_ext::<F, EF>(m.0.multiplicity, prep, main).times(
            EF::embed(send_factor::<F>(m.1)),
        ),
        rlc: fingerprint(
            alpha,
            beta,
            m.0.argument_index as int,
            message_ext::<F, EF>(m.0, prep, main),
            m.0.values@.len(),
        ),
    }
}

/// The terms of the messages on a row.
pub open spec fn terms<F: Field, EF: ExtensionField<F>>(
    s: Seq<(Interaction<F>, bool)>,
    prep: Seq<F>,
    main: Seq<F>,
    alpha: EF,
    beta: EF,
) -> Seq<Term<EF>> {
    Seq::new(s.len(), |i: int| term(s[i], prep, main, alpha, beta))
}

/// The terms of the messages on a row of extension elements.
pub open spec fn terms_ext<F: Field, EF: ExtensionField<F>>(
    s: Seq<(Interaction<F>, bool)>,
    prep: Seq<EF>,
    main: Seq<EF>,
    alpha: EF,
    beta: EF,
) -> Seq<Term<EF>> {
    Seq::new(s.len(), |i: int| term_ext(s[i], prep, main, alpha, beta))
}

/// No random combination vanishes.
pub open spec fn all_nonzero<EF: Field>(t: Seq<Term<EF>>) -> bool {
    forall|i: int| 0 <= i < t.len() ==> (#[trigger] t[i]).rlc != EF::zero_elem()
}

/// Every random combination has an inverse.
pub open spec fn all_units<EF: Field>(t: Seq<Term<EF>>) -> bool {
    forall|i: int| 0 <= i < t.len() ==> field::is_unit((#[trigger] t[i]).rlc)
}

/// The sum of the first `n` quotients.
pub open spec fn quotients<EF: Field>(t: Seq<Term<EF>>, n: nat) -> EF
    decreases n,
{
    if n == 0 {
        EF::zero_elem()
    } else {
        quotients(t, (n - 1) as nat).plus(field::quotient(t[n - 1].mult, t[n - 1].rlc))
    }
}

/// The end of the `k`-th batch.
pub open spec fn batch_end(k: int, batch: nat, len: nat) -> int {
    if (k + 1) * batch <= len {
        (k + 1) * batch
    } else {
        len as int
    }
}

/// The `k`-th batch of terms.
pub open spec fn batch_of<T>(t: Seq<T>, k: int, batch: nat) -> Seq<T> {
    t.subrange(k * batch, batch_end(k, batch, t.len()))
}

/// The entries of a row: the sum of the quotients of each batch.
pub open spec fn row_entries<EF: Field>(t: Seq<Term<EF>>, batch: nat) -> Seq<EF> {
    Seq::new(
        alu_base::rows_for(t.len(), batch),
        |k: int| quotients(batch_of(t, k, batch), batch_of(t, k, batch).len()),
    )
}

/// The product of the first `n` random combinations.
pub open spec fn product<EF: Field>(t: Seq<Term<EF>>, n: nat) -> EF
    decreases n,
{
    if n == 0 {
        EF::one_elem()
    } else {
        product(t, (n - 1) as nat).times(t[n - 1].rlc)
    }
}

/// The product of the first `n` random combinations but the `i`-th.
pub open spec fn all_but<EF: Field>(t: Seq<Term<EF>>, i: int, n: nat) -> EF
    decreases n,
{
    if n == 0 {
        EF::one_elem()
    } else if i == n - 1 {
        all_but(t, i, (n - 1) as nat)
    } else {
        all_but(t, i, (n - 1) as nat).times(t[n - 1].rlc)
    }
}

/// The first `k` multiplicities, each times the random combinations of the others.
pub open spec fn numerator<EF: Field>(t: Seq<Term<EF>>, k: nat) -> EF
    decreases k,
{
    if k == 0 {
        EF::zero_elem()
    } else {
        numerator(t, (k - 1) as nat).plus(t[k - 1].mult.times(all_but(t, k - 1, t.len())))
    }
}

/// The entry times the product of the random combinations, less the numerator.
pub open spec fn batch_constraint<EF: Field>(t: Seq<Term<EF>>, entry: EF) -> EF {
    product(t, t.len()).times(entry).minus(numerator(t, t.len()))
}

/// The constraints of a row's batches.
pub open spec fn batch_constraints<EF: Field>(
    t: Seq<Term<EF>>,
    perm: Seq<EF>,
    batch: nat,
) -> Seq<EF> {
    Seq::new(
        alu_base::rows_for(t.len(), batch),
        |k: int| batch_constraint(batch_of(t, k, batch), perm[k]),
    )
}

/// In the last row, the last fourteen columns are the coordinates of the global sum.
pub open spec fn global_constraints<F: Field, EF: ExtensionField<F>>(
    main: Seq<EF>,
    is_last_row: EF,
    x: Seq<F>,
    y: Seq<F>,
) -> Seq<EF> {
    Seq::new(
        14,
        |i: int|
            if i % 2 == 0 {
                is_last_row.times(main[main.len() - 14 + i / 2].minus(EF::embed(x[i / 2])))
            } else {
                is_last_row.times(main[main.len() - 7 + i / 2].minus(EF::embed(y[i / 2])))
            },
    )
}

/// The permutation constraints of a row.
pub open spec fn permutation_constraints<F: Field, EF: ExtensionField<F>>(
    sends: Seq<Interaction<F>>,
    receives: Seq<Interaction<F>>,
    batch: nat,
    scope: InteractionScope,
    row: SumcheckVerifierConstraintFolder<F, EF>,
) -> Seq<EF> {
    let t = terms_ext::<F, EF>(
        local_directed(sends, receives),
        row.preprocessed@,
        row.main@,
        row.perm_challenges@[0],
        row.perm_challenges@[1],
    );
    let local = batch_constraints(t, row.permutation@, batch);
    if scope == InteractionScope::Global {
        local + global_constraints::<F, EF>(
            row.main@,
            row.is_last_row,
            row.global_cumulative_sum@.x,
            row.global_cumulative_sum@.y,
        )
    } else {
        local
    }
}

/// The rows of a table.
pub open spec fn rows_of<F>(values: Seq<F>, width: nat) -> Seq<Seq<F>> {
    Seq::new(
        if width == 0 {
            0
        } else {
            values.len() / width
        },
        |r: int| values.subrange(r * width, (r + 1) * width),
    )
}

/// The rows of a table, or as many rows without entries.
pub open spec fn optional_rows<F>(rows: Option<Seq<Seq<F>>>, height: nat) -> Seq<Seq<F>> {
    match rows {
        Some(rows) => rows,
        None => Seq::new(height, |r: int| Seq::empty()),
    }
}

/// No random combination vanishes on the first `n` rows.
pub open spec fn rows_nonzero<F: Field, EF: ExtensionField<F>>(
    s: Seq<(Interaction<F>, bool)>,
    prep: Seq<Seq<F>>,
    main: Seq<Seq<F>>,
    alpha: EF,
    beta: EF,
    n: nat,
) -> bool {
    forall|r: int|
        0 <= r < n ==> all_nonzero(#[trigger] terms::<F, EF>(s, prep[r], main[r], alpha, beta))
}

/// The entries of the first `n` rows, one row after the other.
pub open spec fn trace_entries<F: Field, EF: ExtensionField<F>>(
    s: Seq<(Interaction<F>, bool)>,
    prep: Seq<Seq<F>>,
    main: Seq<Seq<F>>,
    alpha: EF,
    beta: EF,
    batch: nat,
    n: nat,
) -> Seq<EF>
    decreases n,
{
    if n == 0 {
        Seq::empty()
    } else {
        trace_entries(s, prep, main, alpha, beta, batch, (n - 1) as nat) + row_entries(
            terms::<F, EF>(s, prep[n - 1], main[n - 1], alpha, beta),
            batch,
        )
    }
}

/// The sum of the first `n` elements.
pub open spec fn total<EF: Field>(values: Seq<EF>, n: nat) -> EF
    decreases n,
{
    if n == 0 {
        EF::zero_elem()
    } else {
        total(values, (n - 1) as nat).plus(values[n - 1])
    }
}

/// Every message has its columns on every row.
pub open spec fn all_fit<F>(s: Seq<(Interaction<F>, bool)>, prep: nat, main: nat) -> bool {
    forall|i: int| 0 <= i < s.len() ==> lookup::fits((#[trigger] s[i]).0, prep, main)
}

/// Every message of a table has its columns on a row.
pub open spec fn table_fits<F>(s: Seq<Interaction<F>>, prep: nat, main: nat) -> bool {
    forall|i: int| 0 <= i < s.len() ==> lookup::fits(#[trigger] s[i], prep, main)
}

proof fn lemma_in_scope_fits<F>(
    s: Seq<Interaction<F>>,
    scope: InteractionScope,
    n: nat,
    prep: nat,
    main: nat,
)
    requires
        n <= s.len(),
        table_fits(s, prep, main),
    ensures
        in_scope(s, scope, n).len() <= n,
        forall|i: int|
            0 <= i < in_scope(s, scope, n).len() ==> lookup::fits(
                #[trigger] in_scope(s, scope, n)[i],
                prep,
                main,
            ),
    decreases n,
{
    if n > 0 {
        lemma_in_scope_fits(s, scope, (n - 1) as nat, prep, main);
        assert(lookup::fits(s[n - 1], prep, main));
    }
}

proof fn lemma_local_fits<F>(
    sends: Seq<Interaction<F>>,
    receives: Seq<Interaction<F>>,
    prep: nat,
    main: nat,
)
    requires
        table_fits(sends, prep, main),
        table_fits(receives, prep, main),
    ensures
        all_fit(local_directed(sends, receives), prep, main),
{
    lemma_in_scope_fits(sends, InteractionScope::Local, sends.len(), prep, main);
    lemma_in_scope_fits(receives, InteractionScope::Local, receives.len(), prep, main);
    let s = local_of(sends);
    assert forall|i: int|
        0 <= i < local_directed(sends, receives).len() implies lookup::fits(
        (#[trigger] local_directed(sends, receives)[i]).0,
        prep,
        main,
    ) by {
        if i < s.len() {
            assert(lookup::fits(s[i], prep, main));
        } else {
            assert(lookup::fits(local_of(receives)[i - s.len()], prep, main));
        }
    }
}

/// What the references of a list of directed messages refer to.
pub open spec fn pairs<F>(s: Seq<(&Interaction<F>, bool)>) -> Seq<(Interaction<F>, bool)> {
    Seq::new(s.len(), |i: int| (*s[i].0, s[i].1))
}

/// The width of the permutation trace, in extension elements.
pub fn local_permutation_trace_width(nb_interactions: usize, batch_size: usize) -> (r: usize)
    requires
        nb_interactions > 0 ==> batch_size > 0,
    ensures
        r as nat == alu_base::rows_for(nb_interactions as nat, batch_size as nat),
        r <= nb_interactions,
        nb_interactions > 0 ==> (r - 1) * batch_size < nb_interactions <= r * batch_size,
{
    if nb_interactions == 0 {
        return 0;
    }
    alu_base::div_ceil(nb_interactions, batch_size)
}

fn scoped<'a, F>(s: &'a Vec<Interaction<F>>) -> (r: ScopedInteractions<'a, F>)
    ensures
        contents(r.global@) == in_scope(s@, InteractionScope::Global, s@.len()),
        contents(r.local@) == local_of(s@),
        r.local@.len() <= s@.len(),
{
    let n: usize = s.len();
    let mut global: Vec<&'a Interaction<F>> = Vec::new();
    let mut local: Vec<&'a Interaction<F>> = Vec::new();
    let mut i: usize = 0;
    while i < n
        invariant
            i <= n,
            n == s@.len(),
            contents(global@) == in_scope(s@, InteractionScope::Global, i as nat),
            contents(local@) == in_scope(s@, InteractionScope::Local, i as nat),
            local@.len() <= i,
        decreases n - i,
    {
        match s[i].scope {
            InteractionScope::Global => {
                global.push(&s[i]);
            },
            InteractionScope::Local => {
                local.push(&s[i]);
            },
        }
        i += 1;
        assert(contents(global@) =~= in_scope(s@, InteractionScope::Global, i as nat));
        assert(contents(local@) =~= in_scope(s@, InteractionScope::Local, i as nat));
    }
    ScopedInteractions { global, local }
}

/// The messages sent and received, by scope.
pub fn scoped_interactions<'a, F>(
    sends: &'a Vec<Interaction<F>>,
    receives: &'a Vec<Interaction<F>>,
) -> (r: (ScopedInteractions<'a, F>, ScopedInteractions<'a, F>))
    ensures
        contents(r.0.global@) == in_scope(sends@, InteractionScope::Global, sends@.len()),
        contents(r.0.local@) == local_of(sends@),
        contents(r.1.global@) == in_scope(receives@, InteractionScope::Global, receives@.len()),
        contents(r.1.local@) == local_of(receives@),
        r.0.local@.len() <= sends@.len(),
        r.1.local@.len() <= receives@.len(),
{
    (scoped(sends), scoped(receives))
}

fn directed_list<'a, F>(sends: &Vec<&'a Interaction<F>>, receives: &Vec<&'a Interaction<F>>) -> (r:
    Vec<(&'a Interaction<F>, bool)>)
    requires
        sends@.len() + receives@.len() <= usize::MAX,
    ensures
        pairs(r@) == directed(contents(sends@), contents(receives@)),
{
    let n: usize = sends.len();
    let m: usize = receives.len();
    let mut r: Vec<(&'a Interaction<F>, bool)> = Vec::new();
    let ghost all = directed(contents(sends@), contents(receives@));
    let mut i: usize = 0;
    while i < n
        invariant
            i <= n,
            n == sends@.len(),
            all == directed(contents(sends@), contents(receives@)),
            pairs(r@) == all.subrange(0, i as int),
        decreases n - i,
    {
        let ghost before = r@;
        r.push((sends[i], true));
        i += 1;
        assert forall|k: int| 0 <= k < before.len() implies #[trigger] pairs(r@)[k] == pairs(
            before,
        )[k] by {
            assert(r@[k] == before[k]);
        }
        assert(pairs(before).len() == before.len());
        assert(pairs(r@) =~= all.subrange(0, i as int));
    }
    let mut j: usize = 0;
    while j < m
        invariant
            j <= m,
            n == sends@.len(),
            m == receives@.len(),
            all == directed(contents(sends@), contents(receives@)),
            pairs(r@) == all.subrange(0, n + j),
        decreases m - j,
    {
        let ghost before = r@;
        r.push((receives[j], false));
        j += 1;
        assert forall|k: int| 0 <= k < before.len() implies #[trigger] pairs(r@)[k] == pairs(
            before,
        )[k] by {
            assert(r@[k] == before[k]);
        }
        assert(pairs(before).len() == before.len());
        assert(pairs(r@) =~= all.subrange(0, n + j));
    }
    assert(pairs(r@) =~= all);
    r
}

fn local_list<'a, F>(sends: &'a Vec<Interaction<F>>, receives: &'a Vec<Interaction<F>>) -> (r: Vec<
    (&'a Interaction<F>, bool),
>)
    requires
        sends@.len() + receives@.len() <= usize::MAX,
    ensures
        pairs(r@) == local_directed(sends@, receives@),
        r@.len() <= sends@.len() + receives@.len(),
{
    let (s, t) = scoped_interactions(sends, receives);
    let r = directed_list(&s.local, &t.local);
    assert(pairs(r@).len() == r@.len());
    r
}

/// The random combination of a message with the given values.
pub fn random_combination<F: Field, EF: ExtensionField<F>>(
    alpha: EF,
    beta: EF,
    index: usize,
    values: &Vec<EF>,
) -> (r: EF)
    ensures
        r == fingerprint(alpha, beta, index as int, values@, values@.len()),
        r.valid(),
{
    broadcast use algebra::group_valid;

    let n: usize = values.len();
    let mut power = EF::one();
    let mut r = alpha.add(power.mul(EF::from_u64(index as u64)));
    let mut i: usize = 0;
    while i < n
        invariant
            i <= n,
            n == values@.len(),
            power == field::power(beta, i as nat),
            r == fingerprint(alpha, beta, index as int, values@, i as nat),
            r.valid(),
        decreases n - i,
    {
        broadcast use algebra::group_valid;

        power = power.mul(beta);
        assert(power == field::power(beta, (i + 1) as nat));
        r = r.add(power.mul(values[i]));
        i += 1;
    }
    r
}

fn apply_all<F: Field, EF: ExtensionField<F>>(
    m: &Interaction<F>,
    preprocessed: &Vec<F>,
    main: &Vec<F>,
) -> (r: Vec<EF>)
    requires
        lookup::fits(*m, preprocessed@.len(), main@.len()),
    ensures
        r@ == message::<F, EF>(*m, preprocessed@, main@),
{
    let n: usize = m.values.len();
    let mut r: Vec<EF> = Vec::new();
    let mut i: usize = 0;
    while i < n
        invariant
            i <= n,
            n == m.values@.len(),
            lookup::fits(*m, preprocessed@.len(), main@.len()),
            r@ == message::<F, EF>(*m, preprocessed@, main@).subrange(0, i as int),
        decreases n - i,
    {
        assert(lookup::affine_fits(m.values@[i as int], preprocessed@.len(), main@.len()));
        r.push(EF::from_base(m.values[i].apply(preprocessed, main)));
        i += 1;
        assert(r@ =~= message::<F, EF>(*m, preprocessed@, main@).subrange(0, i as int));
    }
    assert(r@ =~= message::<F, EF>(*m, preprocessed@, main@));
    r
}

fn apply_all_ext<F: Field, EF: ExtensionField<F>>(
    m: &Interaction<F>,
    preprocessed: &Vec<EF>,
    main: &Vec<EF>,
) -> (r: Vec<EF>)
    requires
        lookup::fits(*m, preprocessed@.len(), main@.len()),
    ensures
        r@ == message_ext::<F, EF>(*m, preprocessed@, main@),
{
    let n: usize = m.values.len();
    let mut r: Vec<EF> = Vec::new();
    let mut i: usize = 0;
    while i < n
        invariant
            i <= n,
            n == m.values@.len(),
            lookup::fits(*m, preprocessed@.len(), main@.len()),
            r@ == message_ext::<F, EF>(*m, preprocessed@, main@).subrange(0, i as int),
        decreases n - i,
    {
        assert(lookup::affine_fits(m.values@[i as int], preprocessed@.len(), main@.len()));
        r.push(m.values[i].apply_ext(preprocessed, main));
        i += 1;
        assert(r@ =~= message_ext::<F, EF>(*m, preprocessed@, main@).subrange(0, i as int));
    }
    assert(r@ =~= message_ext::<F, EF>(*m, preprocessed@, main@));
    r
}

/// Every random combination is canonical.
pub open spec fn rlcs_valid<EF: Field>(t: Seq<Term<EF>>) -> bool {
    forall|i: int| 0 <= i < t.len() ==> (#[trigger] t[i]).rlc.valid()
}

fn row_terms<F: Field, EF: ExtensionField<F>>(
    s: &Vec<(&Interaction<F>, bool)>,
    preprocessed: &Vec<F>,
    main: &Vec<F>,
    alpha: EF,
    beta: EF,
) -> (r: Vec<Term<EF>>)
    requires
        all_fit(pairs(s@), preprocessed@.len(), main@.len()),
    ensures
        r@ == terms::<F, EF>(pairs(s@), preprocessed@, main@, alpha, beta),
        rlcs_valid(r@),
{
    let n: usize = s.len();
    let mut r: Vec<Term<EF>> = Vec::new();
    let ghost all = terms::<F, EF>(pairs(s@), preprocessed@, main@, alpha, beta);
    let mut i: usize = 0;
    while i < n
        invariant
            i <= n,
            n == s@.len(),
            all_fit(pairs(s@), preprocessed@.len(), main@.len()),
            all == terms::<F, EF>(pairs(s@), preprocessed@, main@, alpha, beta),
            r@ == all.subrange(0, i as int),
            rlcs_valid(r@),
        decreases n - i,
    {
        let (m, is_send) = s[i];
        assert(lookup::fits(pairs(s@)[i as int].0, preprocessed@.len(), main@.len()));
        let values = apply_all::<F, EF>(m, preprocessed, main);
        let rlc = random_combination::<F, EF>(alpha, beta, m.argument_index, &values);
        let mult = m.multiplicity.apply(preprocessed, main);
        let mult = if is_send {
            mult
        } else {
            mult.neg()
        };
        r.push(Term { mult: EF::from_base(mult), rlc });
        i += 1;
        assert(r@ =~= all.subrange(0, i as int));
    }
    assert(r@ =~= all);
    r
}

fn row_terms_ext<F: Field, EF: ExtensionField<F>>(
    s: &Vec<(&Interaction<F>, bool)>,
    preprocessed: &Vec<EF>,
    main: &Vec<EF>,
    alpha: EF,
    beta: EF,
) -> (r: Vec<Term<EF>>)
    requires
        all_fit(pairs(s@), preprocessed@.len(), main@.len()),
    ensures
        r@ == terms_ext::<F, EF>(pairs(s@), preprocessed@, main@, alpha, beta),
{
    let n: usize = s.len();
    let mut r: Vec<Term<EF>> = Vec::new();
    let ghost all = terms_ext::<F, EF>(pairs(s@), preprocessed@, main@, alpha, beta);
    let mut i: usize = 0;
    while i < n
        invariant
            i <= n,
            n == s@.len(),
            all_fit(pairs(s@), preprocessed@.len(), main@.len()),
            all == terms_ext::<F, EF>(pairs(s@), preprocessed@, main@, alpha, beta),
            r@ == all.subrange(0, i as int),
        decreases n - i,
    {
        let (m, is_send) = s[i];
        assert(lookup::fits(pairs(s@)[i as int].0, preprocessed@.len(), main@.len()));
        let values = apply_all_ext::<F, EF>(m, preprocessed, main);
        let rlc = random_combination::<F, EF>(alpha, beta, m.argument_index, &values);
        let factor = if is_send {
            F::one()
        } else {
            F::one().neg()
        };
        let mult = m.multiplicity.apply_ext(preprocessed, main).mul(EF::from_base(factor));
        r.push(Term { mult, rlc });
        i += 1;
        assert(r@ =~= all.subrange(0, i as int));
    }
    assert(r@ =~= all);
    r
}

fn any_zero<EF: Field>(t: &Vec<Term<EF>>) -> (r: bool)
    ensures
        r == !all_nonzero(t@),
{
    let n: usize = t.len();
    let zero = EF::zero();
    let mut i: usize = 0;
    while i < n
        invariant
            i <= n,
            n == t@.len(),
            zero == EF::zero_elem(),
            forall|j: int| 0 <= j < i ==> (#[trigger] t@[j]).rlc != EF::zero_elem(),
        decreases n - i,
    {
        if t[i].rlc.is_equal(&zero) {
            assert(t@[i as int].rlc == EF::zero_elem());
            return true;
        }
        i += 1;
    }
    false
}

/// Those of the first `n` random combinations that are there have an inverse.
spec fn units_to<EF: Field>(t: Seq<Term<EF>>, n: int) -> bool {
    forall|i: int| 0 <= i < n && i < t.len() ==> field::is_unit((#[trigger] t[i]).rlc)
}

/// The places of the `k`-th batch.
proof fn lemma_batch(k: int, batch: nat, len: nat)
    requires
        batch > 0,
        0 <= k < alu_base::rows_for(len, batch),
    ensures
        0 <= k * batch < len,
        k * batch < batch_end(k, batch, len) <= len,
        batch_end(k, batch, len) - k * batch <= batch,
{
    let q = (len - 1) / batch as int;
    vstd::arithmetic::div_mod::lemma_fundamental_div_mod(len - 1, batch as int);
    assert(k * batch <= batch * q) by (nonlinear_arith)
        requires
            0 <= k <= q,
            batch > 0,
    ;
    assert((k + 1) * batch == k * batch + batch) by (nonlinear_arith);
    assert(0 <= k * batch) by (nonlinear_arith)
        requires
            0 <= k,
            batch > 0,
    ;
}

fn batch_bounds(k: usize, batch: usize, len: usize) -> (r: (usize, usize))
    requires
        batch > 0,
        k < alu_base::rows_for(len as nat, batch as nat),
    ensures
        r.0 == k * batch,
        r.1 == batch_end(k as int, batch as nat, len as nat),
        r.0 < r.1 <= len,
{
    proof {
        lemma_batch(k as int, batch as nat, len as nat);
        assert((k + 1) * batch == k * batch + batch) by (nonlinear_arith);
    }
    let start: usize = k * batch;
    if batch <= len - start {
        (start, start + batch)
    } else {
        (start, len)
    }
}

/// Fills a row of the permutation trace: the sum of the quotients of each batch of messages. `None`
/// where a random combination vanishes.
pub fn populate_local_permutation_row<F: Field, EF: ExtensionField<F>>(
    s: &Vec<(&Interaction<F>, bool)>,
    preprocessed: &Vec<F>,
    main: &Vec<F>,
    alpha: EF,
    beta: EF,
    batch_size: usize,
) -> (r: Option<Vec<EF>>)
    requires
        s@.len() > 0 ==> batch_size > 0,
        all_fit(pairs(s@), preprocessed@.len(), main@.len()),
    ensures
        r is Some <==> all_nonzero(
            terms::<F, EF>(pairs(s@), preprocessed@, main@, alpha, beta),
        ),
        r matches Some(row) ==> row@ == row_entries(
            terms::<F, EF>(pairs(s@), preprocessed@, main@, alpha, beta),
            batch_size as nat,
        ) && all_units(terms::<F, EF>(pairs(s@), preprocessed@, main@, alpha, beta)),
{
    let t = row_terms::<F, EF>(s, preprocessed, main, alpha, beta);
    assert(t@.len() == s@.len());
    if any_zero(&t) {
        return None;
    }
    let len: usize = t.len();
    let width: usize = local_permutation_trace_width(len, batch_size);
    let mut row: Vec<EF> = Vec::new();
    let mut k: usize = 0;
    while k < width
        invariant
            k <= width,
            width as nat == alu_base::rows_for(len as nat, batch_size as nat),
            len == t@.len(),
            len > 0 ==> batch_size > 0,
            all_nonzero(t@),
            rlcs_valid(t@),
            row@ == row_entries(t@, batch_size as nat).subrange(0, k as int),
            len > 0 ==> (width - 1) * batch_size < len <= width * batch_size,
            units_to(t@, k * batch_size),
        decreases width - k,
    {
        let (start, end) = batch_bounds(k, batch_size, len);
        let ghost batch = batch_of(t@, k as int, batch_size as nat);
        let mut sum = EF::zero();
        let mut i: usize = start;
        while i < end
            invariant
                start <= i <= end <= len,
                len == t@.len(),
                all_nonzero(t@),
                rlcs_valid(t@),
                batch == t@.subrange(start as int, end as int),
                sum == quotients(batch, (i - start) as nat),
                units_to(t@, i as int),
            decreases end - i,
        {
            let term = t[i];
            assert(batch[i - start] == t@[i as int]);
            assert(t@[i as int].rlc.valid());
            sum = sum.add(field::divide(term.mult, term.rlc));
            i += 1;
        }
        row.push(sum);
        k += 1;
        assert(row@ =~= row_entries(t@, batch_size as nat).subrange(0, k as int));
        proof {
            if end < len {
                assert(end == k * batch_size);
            } else {
                assert(units_to(t@, len as int));
            }
        }
    }
    assert(row@ =~= row_entries(t@, batch_size as nat));
    proof {
        assert forall|i: int| 0 <= i < t@.len() implies field::is_unit((#[trigger] t@[i]).rlc) by {
            assert(units_to(t@, width * batch_size));
        }
    }
    Some(row)
}

/// The rows of a list of lists.
pub open spec fn views<F>(rows: Seq<Vec<F>>) -> Seq<Seq<F>> {
    Seq::new(rows.len(), |r: int| rows[r]@)
}

fn split_rows<F: Field>(values: &Vec<F>, width: usize) -> (r: Vec<Vec<F>>)
    ensures
        views(r@) == rows_of(values@, width as nat),
        forall|i: int| 0 <= i < r@.len() ==> (#[trigger] r@[i])@.len() == width,
{
    let mut r: Vec<Vec<F>> = Vec::new();
    if width == 0 {
        assert(views(r@) =~= rows_of(values@, width as nat));
        return r;
    }
    let len: usize = values.len();
    let height: usize = len / width;
    let mut i: usize = 0;
    while i < height
        invariant
            i <= height,
            len == values@.len(),
            width > 0,
            height == len / width,
            views(r@) == rows_of(values@, width as nat).subrange(0, i as int),
            forall|j: int| 0 <= j < r@.len() ==> (#[trigger] r@[j])@.len() == width,
        decreases height - i,
    {
        proof {
            vstd::arithmetic::div_mod::lemma_fundamental_div_mod(len as int, width as int);
            assert((i + 1) * width <= width * height) by (nonlinear_arith)
                requires
                    i + 1 <= height,
                    width > 0,
            ;
            assert((i + 1) * width == i * width + width) by (nonlinear_arith);
            assert(0 <= i * width) by (nonlinear_arith)
                requires
                    i >= 0,
                    width > 0,
            ;
        }
        let start: usize = i * width;
        let mut row: Vec<F> = Vec::new();
        let mut j: usize = 0;
        while j < width
            invariant
                j <= width,
                start + width <= values@.len(),
                values@.len() <= usize::MAX,
                row@ == values@.subrange(start as int, start + j),
            decreases width - j,
        {
            row.push(values[start + j]);
            j += 1;
            assert(row@ =~= values@.subrange(start as int, start + j));
        }
        let ghost before = r@;
        r.push(row);
        i += 1;
        proof {
            assert(views(before).len() == before.len());
            assert forall|k: int| 0 <= k < before.len() implies #[trigger] views(r@)[k] == views(
                before,
            )[k] by {
                assert(r@[k] == before[k]);
            }
            assert(views(r@) =~= rows_of(values@, width as nat).subrange(0, i as int));
        }
    }
    assert(views(r@) =~= rows_of(values@, width as nat));
    r
}

fn empty_rows<F: Field>(height: usize) -> (r: Vec<Vec<F>>)
    ensures
        views(r@) == optional_rows::<F>(None, height as nat),
        forall|i: int| 0 <= i < r@.len() ==> (#[trigger] r@[i])@.len() == 0,
{
    let mut r: Vec<Vec<F>> = Vec::new();
    let mut i: usize = 0;
    while i < height
        invariant
            i <= height,
            r@.len() == i,
            forall|j: int| 0 <= j < r@.len() ==> (#[trigger] r@[j])@ == Seq::<F>::empty(),
        decreases height - i,
    {
        r.push(Vec::new());
        i += 1;
    }
    assert(views(r@) =~= optional_rows::<F>(None, height as nat));
    r
}

/// Where there is no message, there is no entry.
proof fn lemma_no_entries<F: Field, EF: ExtensionField<F>>(
    s: Seq<(Interaction<F>, bool)>,
    prep: Seq<Seq<F>>,
    main: Seq<Seq<F>>,
    alpha: EF,
    beta: EF,
    batch: nat,
    n: nat,
)
    requires
        s.len() == 0,
    ensures
        trace_entries(s, prep, main, alpha, beta, batch, n) == Seq::<EF>::empty(),
        rows_nonzero::<F, EF>(s, prep, main, alpha, beta, n),
    decreases n,
{
    if n > 0 {
        lemma_no_entries(s, prep, main, alpha, beta, batch, (n - 1) as nat);
        let e = row_entries(terms::<F, EF>(s, prep[n - 1], main[n - 1], alpha, beta), batch);
        assert(e.len() == 0);
        assert(trace_entries(s, prep, main, alpha, beta, batch, n) =~= Seq::<EF>::empty());
    }
}

fn add_up<EF: Field>(values: &Vec<EF>) -> (r: EF)
    ensures
        r == total(values@, values@.len()),
{
    let n: usize = values.len();
    let mut r = EF::zero();
    let mut i: usize = 0;
    while i < n
        invariant
            i <= n,
            n == values@.len(),
            r == total(values@, i as nat),
        decreases n - i,
    {
        r = r.add(values[i]);
        i += 1;
    }
    r
}

fn fill_rows<F: Field, EF: ExtensionField<F>>(
    s: &Vec<(&Interaction<F>, bool)>,
    preprocessed: &Vec<Vec<F>>,
    main: &Vec<Vec<F>>,
    alpha: EF,
    beta: EF,
    batch_size: usize,
) -> (r: Option<Vec<EF>>)
    requires
        batch_size > 0,
        preprocessed@.len() == main@.len(),
        forall|i: int|
            0 <= i < main@.len() ==> all_fit(
                pairs(s@),
                (#[trigger] preprocessed@[i])@.len(),
                main@[i]@.len(),
            ),
    ensures
        r is Some <==> rows_nonzero::<F, EF>(
            pairs(s@),
            views(preprocessed@),
            views(main@),
            alpha,
            beta,
            main@.len(),
        ),
        r matches Some(v) ==> v@ == trace_entries::<F, EF>(
            pairs(s@),
            views(preprocessed@),
            views(main@),
            alpha,
            beta,
            batch_size as nat,
            main@.len(),
        ),
{
    let n: usize = main.len();
    let mut r: Vec<EF> = Vec::new();
    let ghost prep = views(preprocessed@);
    let ghost rows = views(main@);
    let mut i: usize = 0;
    while i < n
        invariant
            i <= n,
            n == main@.len(),
            batch_size > 0,
            preprocessed@.len() == main@.len(),
            prep == views(preprocessed@),
            rows == views(main@),
            forall|i: int|
                0 <= i < main@.len() ==> all_fit(
                    pairs(s@),
                    (#[trigger] preprocessed@[i])@.len(),
                    main@[i]@.len(),
                ),
            rows_nonzero::<F, EF>(pairs(s@), prep, rows, alpha, beta, i as nat),
            r@ == trace_entries::<F, EF>(
                pairs(s@),
                prep,
                rows,
                alpha,
                beta,
                batch_size as nat,
                i as nat,
            ),
        decreases n - i,
    {
        assert(prep[i as int] == preprocessed@[i as int]@);
        assert(rows[i as int] == main@[i as int]@);
        match populate_local_permutation_row::<F, EF>(
            s,
            &preprocessed[i],
            &main[i],
            alpha,
            beta,
            batch_size,
        ) {
            None => {
                assert(!all_nonzero(
                    terms::<F, EF>(pairs(s@), prep[i as int], rows[i as int], alpha, beta),
                ));
                return None;
            },
            Some(mut row) => {
                r.append(&mut row);
            },
        }
        i += 1;
    }
    Some(r)
}

/// The permutation trace of a table and the sum of its entries. `None` where a random combination
/// vanishes.
pub fn generate_permutation_trace<F: Field, EF: ExtensionField<F>>(
    sends: &Vec<Interaction<F>>,
    receives: &Vec<Interaction<F>>,
    preprocessed: Option<&Matrix<F>>,
    main: &Matrix<F>,
    random_elements: &Vec<EF>,
    batch_size: usize,
) -> (r: Option<(Matrix<EF>, EF)>)
    requires
        sends@.len() + receives@.len() <= usize::MAX,
        random_elements@.len() >= 2,
        local_directed(sends@, receives@).len() > 0 ==> batch_size > 0,
        table_fits(sends@, table_width(preprocessed), main.width as nat),
        table_fits(receives@, table_width(preprocessed), main.width as nat),
        local_directed(sends@, receives@).len() > 0 ==> table_rows(
            preprocessed,
            table_height(*main),
        ).len() == table_height(*main),
    ensures
        r is Some <==> rows_nonzero::<F, EF>(
            local_directed(sends@, receives@),
            table_rows(preprocessed, table_height(*main)),
            rows_of(main.values@, main.width as nat),
            random_elements@[0],
            random_elements@[1],
            table_height(*main),
        ),
        r matches Some((m, sum)) ==> m.values@ == trace_entries::<F, EF>(
            local_directed(sends@, receives@),
            table_rows(preprocessed, table_height(*main)),
            rows_of(main.values@, main.width as nat),
            random_elements@[0],
            random_elements@[1],
            batch_size as nat,
            table_height(*main),
        ) && m.width as nat == alu_base::rows_for(
            local_directed(sends@, receives@).len(),
            batch_size as nat,
        ) && sum == total(m.values@, m.values@.len()),
{
    let s = local_list(sends, receives);
    let alpha = random_elements[0];
    let beta = random_elements[1];
    let ghost prep = table_rows(preprocessed, table_height(*main));
    let ghost rows = rows_of(main.values@, main.width as nat);
    assert(pairs(s@).len() == s@.len());
    if s.len() == 0 {
        proof {
            lemma_no_entries(
                pairs(s@),
                prep,
                rows,
                alpha,
                beta,
                batch_size as nat,
                table_height(*main),
            );
        }
        let empty: Vec<EF> = Vec::new();
        return Some((Matrix { values: empty, width: 0 }, EF::zero()));
    }
    let width: usize = local_permutation_trace_width(s.len(), batch_size);
    let main_rows = split_rows(&main.values, main.width);
    assert(views(main_rows@).len() == main_rows@.len());
    let prep_rows = match preprocessed {
        Some(p) => split_rows(&p.values, p.width),
        None => empty_rows(main_rows.len()),
    };
    proof {
        assert(views(prep_rows@).len() == prep_rows@.len());
        lemma_local_fits(sends@, receives@, table_width(preprocessed), main.width as nat);
        assert forall|i: int| 0 <= i < main_rows@.len() implies all_fit(
            pairs(s@),
            (#[trigger] prep_rows@[i])@.len(),
            main_rows@[i]@.len(),
        ) by {
            assert(main_rows@[i]@.len() == main.width);
        }
    }
    match fill_rows::<F, EF>(&s, &prep_rows, &main_rows, alpha, beta, batch_size) {
        None => None,
        Some(values) => {
            let sum = add_up(&values);
            Some((Matrix { values, width }, sum))
        },
    }
}

/// The number of entries of a row of a table that need not be there.
pub open spec fn table_width<F>(m: Option<&Matrix<F>>) -> nat {
    match m {
        Some(m) => m.width as nat,
        None => 0,
    }
}

/// The number of rows of a table.
pub open spec fn table_height<F>(m: Matrix<F>) -> nat {
    rows_of(m.values@, m.width as nat).len()
}

/// The rows of a table that need not be there.
pub open spec fn table_rows<F>(m: Option<&Matrix<F>>, height: nat) -> Seq<Seq<F>> {
    match m {
        Some(m) => rows_of(m.values@, m.width as nat),
        None => optional_rows(None, height),
    }
}

/// The number of entries of a row of a padded table that need not be there.
pub open spec fn padded_width<F>(m: Option<&CompressedMatrix<F>>) -> nat {
    match m {
        Some(m) => m.width as nat,
        None => 0,
    }
}

/// The stored rows of a padded table.
pub open spec fn stored_rows<F>(m: CompressedMatrix<F>) -> Seq<Seq<F>> {
    rows_of(m.main@, m.width as nat)
}

/// The stored rows of a padded table that need not be there.
pub open spec fn optional_stored_rows<F>(m: Option<&CompressedMatrix<F>>, height: nat) -> Seq<
    Seq<F>,
> {
    match m {
        Some(m) => stored_rows(*m),
        None => optional_rows(None, height),
    }
}

/// The row that a table is padded with, if it is there.
pub open spec fn padding_of<F: Field>(m: CompressedMatrix<F>) -> Option<Seq<F>> {
    trace::padding_entries(m.padding_row, m.width as nat)
}

/// The row that a table that need not be there is padded with.
pub open spec fn optional_padding_of<F: Field>(m: Option<&CompressedMatrix<F>>) -> Option<Seq<F>> {
    match m {
        Some(m) => padding_of(*m),
        None => Some(Seq::empty()),
    }
}

/// A table is padded, with a row of its width.
pub open spec fn has_padding<F: Field>(m: Option<&CompressedMatrix<F>>) -> bool {
    optional_padding_of(m) is Some && optional_padding_of(m)->0.len() == padded_width(m)
}

/// The number of rows that a table is padded with.
pub open spec fn padding_count<F>(m: CompressedMatrix<F>) -> int {
    m.total_height - stored_rows(m).len()
}

/// The two tables have as many rows, and where they are padded, a row to pad with.
pub open spec fn padded_alike<F: Field>(
    preprocessed: Option<&CompressedMatrix<F>>,
    main: CompressedMatrix<F>,
) -> bool {
    &&& optional_stored_rows(preprocessed, stored_rows(main).len()).len() == stored_rows(main).len()
    &&& padding_count(main) > 0 ==> has_padding(preprocessed) && has_padding(Some(&main))
}

/// The terms of the row that the permutation trace is padded with.
pub open spec fn padding_terms<F: Field, EF: ExtensionField<F>>(
    s: Seq<(Interaction<F>, bool)>,
    preprocessed: Option<&CompressedMatrix<F>>,
    main: CompressedMatrix<F>,
    alpha: EF,
    beta: EF,
) -> Seq<Term<EF>> {
    terms::<F, EF>(s, optional_padding_of(preprocessed)->0, padding_of(main)->0, alpha, beta)
}

/// The permutation trace of a padded table: its stored entries, the row that it is padded with, and
/// the sum of all its entries.
#[verifier::ext_equal]
pub struct PaddedTrace<EF> {
    pub entries: Seq<EF>,
    pub padding: Option<Seq<EF>>,
    pub sum: EF,
}

/// The permutation trace of a padded table; `None` where a random combination vanishes.
pub open spec fn padded_trace<F: Field, EF: ExtensionField<F>>(
    s: Seq<(Interaction<F>, bool)>,
    preprocessed: Option<&CompressedMatrix<F>>,
    main: CompressedMatrix<F>,
    alpha: EF,
    beta: EF,
    batch: nat,
) -> Option<PaddedTrace<EF>> {
    let rows = stored_rows(main);
    let prep = optional_stored_rows(preprocessed, rows.len());
    let entries = trace_entries::<F, EF>(s, prep, rows, alpha, beta, batch, rows.len());
    let below = padding_terms::<F, EF>(s, preprocessed, main, alpha, beta);
    let padded = s.len() > 0 && padding_count(main) > 0;
    let padding = row_entries(below, batch);
    if !rows_nonzero::<F, EF>(s, prep, rows, alpha, beta, rows.len()) || padded && !all_nonzero(
        below,
    ) {
        None
    } else if padded {
        Some(
            PaddedTrace {
                entries,
                padding: Some(padding),
                sum: total(entries, entries.len()).plus(
                    total(padding, padding.len()).times(EF::from_int(padding_count(main))),
                ),
            },
        )
    } else {
        Some(PaddedTrace { entries, padding: None, sum: total(entries, entries.len()) })
    }
}

/// The row that a table is padded with, in the permutation trace of the table.
pub open spec fn padding_row_is<EF>(row: PaddingRow<EF>, padding: Option<Seq<EF>>) -> bool {
    match padding {
        Some(p) => row matches PaddingRow::General(v) && v@ == p,
        None => row is Absent,
    }
}

/// The permutation trace of a padded table, padded itself, and the sum of all its entries. `None`
/// where a random combination vanishes.
pub fn generate_compressed_permutation_trace<F: Field, EF: ExtensionField<F>>(
    sends: &Vec<Interaction<F>>,
    receives: &Vec<Interaction<F>>,
    preprocessed: Option<&CompressedMatrix<F>>,
    main: &CompressedMatrix<F>,
    random_elements: &Vec<EF>,
    batch_size: usize,
) -> (r: Option<(CompressedMatrix<EF>, EF)>)
    requires
        sends@.len() + receives@.len() <= usize::MAX,
        random_elements@.len() >= 2,
        padding_count(*main) >= 0,
        table_fits(sends@, padded_width(preprocessed), main.width as nat),
        table_fits(receives@, padded_width(preprocessed), main.width as nat),
        local_directed(sends@, receives@).len() > 0 ==> batch_size > 0 && padded_alike(
            preprocessed,
            *main,
        ),
        local_directed(sends@, receives@).len() > 0 && preprocessed is Some
            ==> preprocessed->0.total_height == main.total_height,
    ensures
        r is Some <==> padded_trace::<F, EF>(
            local_directed(sends@, receives@),
            preprocessed,
            *main,
            random_elements@[0],
            random_elements@[1],
            batch_size as nat,
        ) is Some,
        r matches Some((m, sum)) ==> {
            let expected = padded_trace::<F, EF>(
                local_directed(sends@, receives@),
                preprocessed,
                *main,
                random_elements@[0],
                random_elements@[1],
                batch_size as nat,
            )->0;
            let width = alu_base::rows_for(
                local_directed(sends@, receives@).len(),
                batch_size as nat,
            );
            &&& m.main@ == expected.entries
            &&& m.width as nat == width
            &&& padding_row_is(m.padding_row, expected.padding)
            &&& m.total_height == (if width == 0 {
                0
            } else {
                main.total_height
            })
            &&& sum == expected.sum
        },
{
    let s = local_list(sends, receives);
    let alpha = random_elements[0];
    let beta = random_elements[1];
    let ghost rows = stored_rows(*main);
    let ghost prep = optional_stored_rows(preprocessed, rows.len());
    assert(pairs(s@).len() == s@.len());
    if s.len() == 0 {
        proof {
            lemma_no_entries(pairs(s@), prep, rows, alpha, beta, batch_size as nat, rows.len());
        }
        let empty: Vec<EF> = Vec::new();
        return Some(
            (
                CompressedMatrix {
                    main: empty,
                    width: 0,
                    padding_row: PaddingRow::Absent,
                    total_height: 0,
                },
                EF::zero(),
            ),
        );
    }
    let width: usize = local_permutation_trace_width(s.len(), batch_size);
    let main_rows = split_rows(&main.main, main.width);
    assert(views(main_rows@).len() == main_rows@.len());
    let prep_rows = match preprocessed {
        Some(p) => split_rows(&p.main, p.width),
        None => empty_rows(main_rows.len()),
    };
    let count: usize = main.total_height - main_rows.len();
    proof {
        assert(views(prep_rows@).len() == prep_rows@.len());
        lemma_local_fits(sends@, receives@, padded_width(preprocessed), main.width as nat);
        assert forall|i: int| 0 <= i < main_rows@.len() implies all_fit(
            pairs(s@),
            (#[trigger] prep_rows@[i])@.len(),
            main_rows@[i]@.len(),
        ) by {
            assert(main_rows@[i]@.len() == main.width);
        }
    }
    let values = match fill_rows::<F, EF>(&s, &prep_rows, &main_rows, alpha, beta, batch_size) {
        None => {
            return None;
        },
        Some(values) => values,
    };
    let stored = add_up(&values);
    if count == 0 {
        return Some(
            (
                CompressedMatrix {
                    main: values,
                    width,
                    padding_row: PaddingRow::Absent,
                    total_height: main.total_height,
                },
                stored,
            ),
        );
    }
    let prep_padding: Vec<F> = match preprocessed {
        Some(p) => match p.padding_row.entries(p.width) {
            Some(row) => row,
            None => Vec::new(),
        },
        None => Vec::new(),
    };
    let main_padding: Vec<F> = match main.padding_row.entries(main.width) {
        Some(row) => row,
        None => Vec::new(),
    };
    assert(prep_padding@ =~= optional_padding_of(preprocessed)->0);
    assert(has_padding(Some(main)));
    assert(main_padding@ == padding_of(*main)->0);
    match populate_local_permutation_row::<F, EF>(
        &s,
        &prep_padding,
        &main_padding,
        alpha,
        beta,
        batch_size,
    ) {
        None => None,
        Some(row) => {
            let below = add_up(&row);
            let sum = stored.add(below.mul(EF::from_u64(count as u64)));
            Some(
                (
                    CompressedMatrix {
                        main: values,
                        width,
                        padding_row: PaddingRow::General(row),
                        total_height: main.total_height,
                    },
                    sum,
                ),
            )
        },
    }
}

fn batch_product<EF: Field>(t: &Vec<Term<EF>>, start: usize, end: usize) -> (r: EF)
    requires
        start <= end <= t@.len(),
    ensures
        r == product(t@.subrange(start as int, end as int), (end - start) as nat),
{
    let ghost batch = t@.subrange(start as int, end as int);
    let mut r = EF::one();
    let mut i: usize = start;
    while i < end
        invariant
            start <= i <= end <= t@.len(),
            batch == t@.subrange(start as int, end as int),
            r == product(batch, (i - start) as nat),
        decreases end - i,
    {
        assert(batch[i - start] == t@[i as int]);
        r = r.mul(t[i].rlc);
        i += 1;
    }
    r
}

fn others_product<EF: Field>(t: &Vec<Term<EF>>, start: usize, end: usize, current: usize) -> (r: EF)
    requires
        start <= current < end <= t@.len(),
    ensures
        r == all_but(
            t@.subrange(start as int, end as int),
            current - start,
            (end - start) as nat,
        ),
{
    let ghost batch = t@.subrange(start as int, end as int);
    let mut r = EF::one();
    let mut i: usize = start;
    while i < end
        invariant
            start <= i <= end <= t@.len(),
            batch == t@.subrange(start as int, end as int),
            r == all_but(batch, current - start, (i - start) as nat),
        decreases end - i,
    {
        assert(batch[i - start] == t@[i as int]);
        if i != current {
            r = r.mul(t[i].rlc);
        }
        i += 1;
    }
    r
}

fn batch_numerator<EF: Field>(t: &Vec<Term<EF>>, start: usize, end: usize) -> (r: EF)
    requires
        start <= end <= t@.len(),
    ensures
        r == numerator(t@.subrange(start as int, end as int), (end - start) as nat),
{
    let ghost batch = t@.subrange(start as int, end as int);
    let mut r = EF::zero();
    let mut i: usize = start;
    while i < end
        invariant
            start <= i <= end <= t@.len(),
            batch == t@.subrange(start as int, end as int),
            r == numerator(batch, (i - start) as nat),
        decreases end - i,
    {
        assert(batch[i - start] == t@[i as int]);
        r = r.add(t[i].mult.mul(others_product(t, start, end, i)));
        i += 1;
    }
    r
}

/// Asserts the permutation constraints of a row: each entry times the product of the batch's random
/// combinations is the sum of the multiplicities, each times the other random combinations; and in
/// the global scope, the last row ends with the global sum.
pub fn eval_permutation_constraints<F: Field, EF: ExtensionField<F>>(
    sends: &Vec<Interaction<F>>,
    receives: &Vec<Interaction<F>>,
    batch_size: usize,
    commit_scope: InteractionScope,
    builder: &mut SumcheckVerifierConstraintFolder<F, EF>,
)
    requires
        sends@.len() + receives@.len() <= usize::MAX,
        local_directed(sends@, receives@).len() > 0 ==> batch_size > 0,
        old(builder).perm_challenges@.len() >= 2,
        table_fits(sends@, old(builder).preprocessed@.len(), old(builder).main@.len()),
        table_fits(receives@, old(builder).preprocessed@.len(), old(builder).main@.len()),
        old(builder).permutation@.len() == alu_base::rows_for(
            local_directed(sends@, receives@).len(),
            batch_size as nat,
        ),
        commit_scope == InteractionScope::Global ==> old(builder).main@.len() >= 14,
        old(builder).constraint_count + old(builder).permutation@.len() + 14 <= usize::MAX,
    ensures
        final(builder).asserted(
            *old(builder),
            permutation_constraints::<F, EF>(
                sends@,
                receives@,
                batch_size as nat,
                commit_scope,
                *old(builder),
            ),
        ),
{
    let s = local_list(sends, receives);
    let ghost start = *builder;
    proof {
        lemma_local_fits(sends@, receives@, builder.preprocessed@.len(), builder.main@.len());
        assert(pairs(s@).len() == s@.len());
    }
    let t = row_terms_ext::<F, EF>(
        &s,
        &builder.preprocessed,
        &builder.main,
        builder.perm_challenges[0],
        builder.perm_challenges[1],
    );
    let len: usize = t.len();
    let width: usize = local_permutation_trace_width(len, batch_size);
    let ghost local = batch_constraints(t@, start.permutation@, batch_size as nat);
    let mut k: usize = 0;
    assert(builder.asserted(start, local.subrange(0, 0)));
    while k < width
        invariant
            k <= width,
            len == t@.len(),
            len > 0 ==> batch_size > 0,
            width as nat == alu_base::rows_for(len as nat, batch_size as nat),
            start.permutation@.len() == width,
            local == batch_constraints(t@, start.permutation@, batch_size as nat),
            start.constraint_count + width + 14 <= usize::MAX,
            builder.asserted(start, local.subrange(0, k as int)),
        decreases width - k,
    {
        let (from, to) = batch_bounds(k, batch_size, len);
        let product = batch_product(&t, from, to);
        let numerator = batch_numerator(&t, from, to);
        let entry = builder.permutation[k];
        let ghost before = *builder;
        builder.assert_eq(product.mul(entry), numerator);
        proof {
            let a = local.subrange(0, k as int);
            let b = seq![local[k as int]];
            assert(b[0] == batch_constraint(
                batch_of(t@, k as int, batch_size as nat),
                start.permutation@[k as int],
            ));
            folder::law_folded_on(start.accumulator, start.alpha, a, b, 1);
            assert(a + b =~= local.subrange(0, k + 1));
        }
        k += 1;
    }
    assert(local.subrange(0, width as int) =~= local);
    match commit_scope {
        InteractionScope::Local => {},
        InteractionScope::Global => {
            assert_global_sum(builder);
            proof {
                let g = global_constraints::<F, EF>(
                    start.main@,
                    start.is_last_row,
                    start.global_cumulative_sum@.x,
                    start.global_cumulative_sum@.y,
                );
                folder::law_folded_on(start.accumulator, start.alpha, local, g, 14);
            }
        },
    }
}

fn assert_global_sum<F: Field, EF: ExtensionField<F>>(
    builder: &mut SumcheckVerifierConstraintFolder<F, EF>,
)
    requires
        old(builder).main@.len() >= 14,
        old(builder).constraint_count + 14 <= usize::MAX,
    ensures
        final(builder).asserted(
            *old(builder),
            global_constraints::<F, EF>(
                old(builder).main@,
                old(builder).is_last_row,
                old(builder).global_cumulative_sum@.x,
                old(builder).global_cumulative_sum@.y,
            ),
        ),
{
    let ghost start = *builder;
    let ghost all = global_constraints::<F, EF>(
        start.main@,
        start.is_last_row,
        start.global_cumulative_sum@.x,
        start.global_cumulative_sum@.y,
    );
    let n: usize = builder.main.len();
    let mut i: usize = 0;
    assert(builder.asserted(start, all.subrange(0, 0)));
    while i < 7
        invariant
            i <= 7,
            n == start.main@.len(),
            n >= 14,
            start.constraint_count + 14 <= usize::MAX,
            all == global_constraints::<F, EF>(
                start.main@,
                start.is_last_row,
                start.global_cumulative_sum@.x,
                start.global_cumulative_sum@.y,
            ),
            builder.asserted(start, all.subrange(0, 2 * i)),
        decreases 7 - i,
    {
        let last = builder.is_last_row;
        let x = EF::from_base(builder.global_cumulative_sum.0.x.0[i]);
        let y = EF::from_base(builder.global_cumulative_sum.0.y.0[i]);
        let left = builder.main[n - 14 + i];
        let right = builder.main[n - 7 + i];
        builder.assert_eq_when(last, left, x);
        proof {
            let a = all.subrange(0, 2 * i);
            let b = seq![all[2 * i]];
            assert(b[0] == last.times(left.minus(x)));
            folder::law_folded_on(start.accumulator, start.alpha, a, b, 1);
            assert(a + b =~= all.subrange(0, 2 * i + 1));
        }
        builder.assert_eq_when(last, right, y);
        proof {
            let a = all.subrange(0, 2 * i + 1);
            let b = seq![all[2 * i + 1]];
            assert(b[0] == last.times(right.minus(y)));
            folder::law_folded_on(start.accumulator, start.alpha, a, b, 1);
            assert(a + b =~= all.subrange(0, 2 * i + 2));
        }
        i += 1;
    }
    assert(all.subrange(0, 14) =~= all);
}

/// The number of permutation constraints of a table: one for each batch of local messages and one
/// for their sum, and fourteen in the global scope.
pub open spec fn constraint_number(local: nat, batch: nat, scope: InteractionScope) -> nat {
    (if local > 0 {
        alu_base::rows_for(local, batch) + 1
    } else {
        0
    }) + (if scope == InteractionScope::Global {
        14nat
    } else {
        0
    })
}

/// The number of permutation constraints of a table.
pub fn count_permutation_constraints<F>(
    sends: &Vec<Interaction<F>>,
    receives: &Vec<Interaction<F>>,
    batch_size: usize,
    commit_scope: InteractionScope,
) -> (r: usize)
    requires
        sends@.len() + receives@.len() + 15 <= usize::MAX,
        local_directed(sends@, receives@).len() > 0 ==> batch_size > 0,
    ensures
        r as nat == constraint_number(
            local_directed(sends@, receives@).len(),
            batch_size as nat,
            commit_scope,
        ),
{
    let s = local_list(sends, receives);
    assert(pairs(s@).len() == s@.len());
    let mut count: usize = 0;
    let n: usize = s.len();
    if n > 0 {
        count = local_permutation_trace_width(n, batch_size) + 1;
    }
    match commit_scope {
        InteractionScope::Local => count,
        InteractionScope::Global => count + 14,
    }
}

/// The multiplicities and the random combinations are canonical.
pub open spec fn terms_valid<EF: Field>(t: Seq<Term<EF>>) -> bool {
    forall|i: int|
        0 <= i < t.len() ==> (#[trigger] t[i]).mult.valid() && t[i].rlc.valid()
}

proof fn lemma_products_valid<EF: Field>(t: Seq<Term<EF>>, i: int, n: nat)
    ensures
        product(t, n).valid(),
        all_but(t, i, n).valid(),
        quotients(t, n).valid(),
        numerator(t, n).valid(),
    decreases n,
{
    broadcast use algebra::group_valid;

    EF::law_constants();
    if n > 0 {
        lemma_products_valid(t, i, (n - 1) as nat);
    }
}

/// On a prefix of the terms.
proof fn lemma_prefix<EF: Field>(t: Seq<Term<EF>>, u: Seq<Term<EF>>, i: int, n: nat)
    requires
        n <= t.len(),
        n <= u.len(),
        forall|j: int| 0 <= j < n ==> t[j] == u[j],
    ensures
        product(t, n) == product(u, n),
        all_but(t, i, n) == all_but(u, i, n),
        quotients(t, n) == quotients(u, n),
    decreases n,
{
    if n > 0 {
        lemma_prefix(t, u, i, (n - 1) as nat);
    }
}

/// Leaving out a term that is not there leaves out nothing.
proof fn lemma_all_but_none<EF: Field>(t: Seq<Term<EF>>, i: int, n: nat)
    requires
        i >= n,
    ensures
        all_but(t, i, n) == product(t, n),
    decreases n,
{
    if n > 0 {
        lemma_all_but_none(t, i, (n - 1) as nat);
    }
}

/// One term more multiplies the numerator with the term's random combination.
proof fn lemma_numerator_more<EF: Field>(t: Seq<Term<EF>>, k: nat)
    requires
        t.len() > 0,
        k < t.len(),
        terms_valid(t),
    ensures
        numerator(t, k) == numerator(t.drop_last(), k).times(t.last().rlc),
    decreases k,
{
    broadcast use algebra::group_valid;

    let u = t.drop_last();
    let r = t.last().rlc;
    EF::law_constants();
    assert(t[t.len() - 1].rlc.valid());
    algebra::lemma_products(r, r, r);
    if k > 0 {
        lemma_numerator_more(t, (k - 1) as nat);
        let n = (t.len() - 1) as nat;
        lemma_prefix(t, u, k - 1, n);
        lemma_products_valid(u, k - 1, n);
        lemma_products_valid(u, k - 1, (k - 1) as nat);
        let m = t[k - 1].mult;
        assert(m.valid());
        let others = all_but(u, k - 1, n);
        // m * (others * r) == (m * others) * r
        EF::law_times(m, others, r);
        algebra::lemma_products(r, numerator(u, (k - 1) as nat), m.times(others));
        assert(u[k - 1] == t[k - 1]);
    }
}

/// The product of the random combinations times the sum of the quotients is the numerator.
proof fn lemma_cleared<EF: Field>(t: Seq<Term<EF>>)
    requires
        terms_valid(t),
        all_units(t),
    ensures
        product(t, t.len()).times(quotients(t, t.len())) == numerator(t, t.len()),
    decreases t.len(),
{
    broadcast use algebra::group_valid;

    EF::law_constants();
    if t.len() == 0 {
        algebra::lemma_products(EF::one_elem(), EF::one_elem(), EF::one_elem());
    } else {
        let u = t.drop_last();
        let n = u.len();
        let m = t.last().mult;
        let r = t.last().rlc;
        assert(t[t.len() - 1].rlc.valid() && t[t.len() - 1].mult.valid());
        assert(field::is_unit(t[t.len() - 1].rlc));
        assert(terms_valid(u)) by {
            assert forall|i: int| 0 <= i < u.len() implies (#[trigger] u[i]).mult.valid()
                && u[i].rlc.valid() by {
                assert(u[i] == t[i]);
            }
        }
        assert(all_units(u)) by {
            assert forall|i: int| 0 <= i < u.len() implies field::is_unit((#[trigger] u[i]).rlc) by {
                assert(u[i] == t[i]);
            }
        }
        lemma_cleared(u);
        lemma_prefix(t, u, n as int, n);
        lemma_all_but_none(t, n as int, n);
        lemma_numerator_more(t, n);
        lemma_products_valid(u, 0, n);
        algebra::lemma_unit(r);
        let p = product(u, n);
        let q = quotients(u, n);
        let y = field::inverse(r);
        let my = m.times(y);
        // (p r)(q + m y) == (p r) q + (p r)(m y)
        EF::law_times(p.times(r), q, my);
        // (p r) q == (p q) r
        algebra::lemma_products(p, r, q);
        // (p r)(m y) == p (r (m y)) == p m == m p
        EF::law_times(p, r, my);
        algebra::lemma_products(m, y, r);
        algebra::lemma_products(r, my, my);
        EF::law_times(m, r, y);
        algebra::lemma_products(m, r, y);
        assert(r.times(my) == m) by {
            // r (m y) == (m y) r == (m r) y == m (r y) == m
            assert(r.times(my) == my.times(r));
            assert(my.times(r) == m.times(r).times(y));
            assert(m.times(r).times(y) == m.times(r.times(y)));
        }
        algebra::lemma_products(p, m, m);
    }
}

/// An entry meets its constraint exactly where it is the sum of the quotients of its batch.
pub proof fn law_batch_constraint<EF: Field>(t: Seq<Term<EF>>, entry: EF)
    requires
        terms_valid(t),
        all_units(t),
        entry.valid(),
    ensures
        batch_constraint(t, entry) == EF::zero_elem() <==> entry == quotients(t, t.len()),
{
    broadcast use algebra::group_valid;

    lemma_cleared(t);
    lemma_products_valid(t, 0, t.len());
    lemma_product_unit(t, t.len());
    let p = product(t, t.len());
    let q = quotients(t, t.len());
    algebra::lemma_opposites(p.times(entry), numerator(t, t.len()));
    algebra::lemma_opposites(p.times(q), p.times(q));
    algebra::lemma_unit(p);
    let y = field::inverse(p);
    // y (p e) == e
    EF::law_times(y, p, entry);
    EF::law_times(y, p, q);
    algebra::lemma_products(entry, entry, entry);
    algebra::lemma_products(q, q, q);
    if batch_constraint(t, entry) == EF::zero_elem() {
        lemma_equal_where_difference_vanishes(p.times(entry), numerator(t, t.len()));
        assert(y.times(p.times(entry)) == y.times(p.times(q)));
    } else if entry == q {
        EF::law_plus(numerator(t, t.len()), numerator(t, t.len()), EF::zero_elem());
    }
}

proof fn lemma_equal_where_difference_vanishes<EF: Field>(a: EF, b: EF)
    requires
        a.valid(),
        b.valid(),
        a.minus(b) == EF::zero_elem(),
    ensures
        a == b,
{
    broadcast use algebra::group_valid;

    EF::law_constants();
    EF::law_plus(a, b, b);
    EF::law_plus(b, b.opposite(), a);
    EF::law_plus(a, b.opposite(), b);
    EF::law_plus(b.opposite(), b, b);
    EF::law_plus(EF::zero_elem(), b, b);
    EF::law_plus(b, EF::zero_elem(), b);
}

proof fn lemma_product_unit<EF: Field>(t: Seq<Term<EF>>, n: nat)
    requires
        n <= t.len(),
        terms_valid(t),
        all_units(t),
    ensures
        field::is_unit(product(t, n)),
    decreases n,
{
    broadcast use algebra::group_valid;

    EF::law_constants();
    if n == 0 {
        algebra::lemma_products(EF::one_elem(), EF::one_elem(), EF::one_elem());
        assert(field::is_inverse(EF::one_elem(), EF::one_elem()));
    } else {
        lemma_product_unit(t, (n - 1) as nat);
        lemma_products_valid(t, 0, (n - 1) as nat);
        assert(t[n - 1].rlc.valid());
        algebra::lemma_unit_product(product(t, (n - 1) as nat), t[n - 1].rlc);
    }
}

proof fn lemma_fingerprint_valid<EF: Field>(
    alpha: EF,
    beta: EF,
    index: int,
    values: Seq<EF>,
    n: nat,
)
    ensures
        fingerprint(alpha, beta, index, values, n).valid(),
{
    broadcast use algebra::group_valid;

}

proof fn lemma_term_embeds<F: Field, EF: ExtensionField<F>>(
    m: (Interaction<F>, bool),
    prep: Seq<F>,
    main: Seq<F>,
    alpha: EF,
    beta: EF,
)
    requires
        lookup::fits(m.0, prep.len(), main.len()),
        lookup::interaction_valid(m.0),
        field::all_valid(prep),
        field::all_valid(main),
    ensures
        term_ext::<F, EF>(
            m,
            lookup::embedded_row(prep),
            lookup::embedded_row(main),
            alpha,
            beta,
        ) == term::<F, EF>(m, prep, main, alpha, beta),
        term::<F, EF>(m, prep, main, alpha, beta).mult.valid(),
        term::<F, EF>(m, prep, main, alpha, beta).rlc.valid(),
{
    broadcast use algebra::group_valid;

    EF::law_constants();
    F::law_constants();
    lookup::law_value_embeds::<F, EF>(m.0.multiplicity, prep, main);
    let x = lookup::value(m.0.multiplicity, prep, main);
    let one = F::one_elem();
    EF::law_embed(EF::one_elem(), EF::one_elem(), x, one);
    EF::law_embed(EF::one_elem(), EF::one_elem(), x, one.opposite());
    EF::law_embed(EF::one_elem(), EF::one_elem(), x.opposite(), one);
    algebra::lemma_products(x, one, one);
    let a = message::<F, EF>(m.0, prep, main);
    let b = message_ext::<F, EF>(
        m.0,
        lookup::embedded_row(prep),
        lookup::embedded_row(main),
    );
    assert forall|i: int| 0 <= i < a.len() implies a[i] == b[i] by {
        assert(lookup::affine_fits(m.0.values@[i], prep.len(), main.len()));
        assert(lookup::affine_valid(m.0.values@[i]));
        lookup::law_value_embeds::<F, EF>(m.0.values@[i], prep, main);
    }
    assert(a =~= b);
    lemma_fingerprint_valid(alpha, beta, m.0.argument_index as int, a, a.len());
}

/// A row of the permutation trace meets the constraints of its batches.
pub proof fn law_row_satisfied<F: Field, EF: ExtensionField<F>>(
    s: Seq<(Interaction<F>, bool)>,
    prep: Seq<F>,
    main: Seq<F>,
    alpha: EF,
    beta: EF,
    batch: nat,
    k: int,
)
    requires
        batch > 0,
        all_fit(s, prep.len(), main.len()),
        forall|i: int| 0 <= i < s.len() ==> lookup::interaction_valid((#[trigger] s[i]).0),
        field::all_valid(prep),
        field::all_valid(main),
        all_units(terms::<F, EF>(s, prep, main, alpha, beta)),
        0 <= k < alu_base::rows_for(s.len(), batch),
    ensures
        batch_constraints(
            terms_ext::<F, EF>(
                s,
                lookup::embedded_row(prep),
                lookup::embedded_row(main),
                alpha,
                beta,
            ),
            row_entries(terms::<F, EF>(s, prep, main, alpha, beta), batch),
            batch,
        )[k] == EF::zero_elem(),
{
    let t = terms::<F, EF>(s, prep, main, alpha, beta);
    let u = terms_ext::<F, EF>(
        s,
        lookup::embedded_row(prep),
        lookup::embedded_row(main),
        alpha,
        beta,
    );
    assert forall|i: int| 0 <= i < s.len() implies t[i] == u[i] && (#[trigger] t[i]).mult.valid()
        && t[i].rlc.valid() by {
        assert(lookup::fits(s[i].0, prep.len(), main.len()));
        assert(lookup::interaction_valid(s[i].0));
        lemma_term_embeds::<F, EF>(s[i], prep, main, alpha, beta);
    }
    assert(t =~= u);
    lemma_batch(k, batch, s.len());
    let b = batch_of(t, k, batch);
    assert forall|i: int| 0 <= i < b.len() implies (#[trigger] b[i]).mult.valid()
        && b[i].rlc.valid() by {
        assert(b[i] == t[k * batch + i]);
    }
    assert forall|i: int| 0 <= i < b.len() implies field::is_unit((#[trigger] b[i]).rlc) by {
        assert(b[i] == t[k * batch + i]);
    }
    lemma_products_valid(b, 0, b.len());
    law_batch_constraint(b, quotients(b, b.len()));
}

/// A table asserts as many constraints as are counted, but for the one on the sum of its local
/// messages.
pub proof fn law_constraint_number<F: Field, EF: ExtensionField<F>>(
    sends: Seq<Interaction<F>>,
    receives: Seq<Interaction<F>>,
    batch: nat,
    scope: InteractionScope,
    row: SumcheckVerifierConstraintFolder<F, EF>,
)
    ensures
        permutation_constraints::<F, EF>(sends, receives, batch, scope, row).len() + (if local_directed(
            sends,
            receives,
        ).len() > 0 {
            1nat
        } else {
            0
        }) == constraint_number(local_directed(sends, receives).len(), batch, scope),
{
}

proof fn lemma_total_joined<EF: Field>(a: Seq<EF>, b: Seq<EF>, n: nat)
    requires
        field::all_valid(a),
        field::all_valid(b),
        n <= b.len(),
    ensures
        total(a, a.len()).valid(),
        total(b, n).valid(),
        total(a + b, a.len() + n) == total(a, a.len()).plus(total(b, n)),
    decreases n,
{
    broadcast use algebra::group_valid;

    EF::law_constants();
    let x = total(a, a.len());
    EF::law_plus(x, x, x);
    if n == 0 {
        lemma_total_prefix(a, a + b, a.len());
    } else {
        lemma_total_joined(a, b, (n - 1) as nat);
        assert((a + b)[a.len() + n - 1] == b[n - 1]);
        EF::law_plus(x, total(b, (n - 1) as nat), b[n - 1]);
    }
}

proof fn lemma_total_prefix<EF: Field>(a: Seq<EF>, b: Seq<EF>, n: nat)
    requires
        n <= a.len(),
        n <= b.len(),
        forall|i: int| 0 <= i < n ==> a[i] == b[i],
    ensures
        total(a, n) == total(b, n),
    decreases n,
{
    if n > 0 {
        lemma_total_prefix(a, b, (n - 1) as nat);
    }
}

/// The sum that goes with a padded table is the sum of its entries, written out.
pub proof fn law_padded_sum<EF: Field>(entries: Seq<EF>, padding: Seq<EF>, count: nat)
    requires
        field::all_valid(entries),
        field::all_valid(padding),
    ensures
        field::all_valid(trace::repeated_rows(entries, padding, count)),
        total(trace::repeated_rows(entries, padding, count), trace::repeated_rows(entries, padding, count).len())
            == total(entries, entries.len()).plus(
            total(padding, padding.len()).times(EF::from_int(count as int)),
        ),
    decreases count,
{
    broadcast use algebra::group_valid;

    EF::law_constants();
    let x = total(entries, entries.len());
    let p = total(padding, padding.len());
    lemma_total_joined(entries, padding, padding.len());
    algebra::lemma_products(p, p, p);
    EF::law_plus(x, x, x);
    if count > 0 {
        let c = (count - 1) as nat;
        law_padded_sum(entries, padding, c);
        let w = trace::repeated_rows(entries, padding, c);
        lemma_total_joined(w, padding, padding.len());
        EF::law_from_int(c as int, 1);
        EF::law_from_int(1, c as int);
        EF::law_times(p, EF::from_int(c as int), EF::one_elem());
        EF::law_plus(x, p.times(EF::from_int(c as int)), p);
        let v = trace::repeated_rows(entries, padding, count);
        assert forall|i: int| 0 <= i < v.len() implies (#[trigger] v[i]).valid() by {
            if i < w.len() {
                assert(v[i] == w[i]);
            } else {
                assert(v[i] == padding[i - w.len()]);
            }
        }
    }
}

} // verus!
