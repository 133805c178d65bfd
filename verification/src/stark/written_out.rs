//! The permutation trace of a padded table, and that of the table with its padding written out.
use vstd::prelude::*;
use vstd::arithmetic::div_mod::*;
use vstd::arithmetic::mul::*;
use crate::field::algebra;
use crate::field::{ExtensionField, Field};
use crate::stark::lookup::Interaction;
use crate::stark::permutation;
use crate::stark::trace;
use crate::stark::trace::CompressedMatrix;

verus! {

/// The stored entries of a table make up whole rows, and no more than it is padded to.
pub open spec fn whole<F: Field>(m: CompressedMatrix<F>) -> bool {
    &&& m.width > 0
    &&& m.main@.len() % m.width as nat == 0
    &&& permutation::padding_count(m) >= 0
}

/// The rows of a table with its padding written out.
pub open spec fn written_rows<F: Field>(m: CompressedMatrix<F>) -> Seq<Seq<F>> {
    permutation::rows_of(trace::decompressed(m), m.width as nat)
}

/// The rows of a table that need not be there, with its padding written out.
pub open spec fn optional_written_rows<F: Field>(
    m: Option<&CompressedMatrix<F>>,
    height: nat,
) -> Seq<Seq<F>> {
    match m {
        Some(m) => written_rows(*m),
        None => permutation::optional_rows(None, height),
    }
}

/// The rows followed by `count` times another.
pub open spec fn extended<F>(rows: Seq<Seq<F>>, row: Seq<F>, count: nat) -> Seq<Seq<F>> {
    rows + Seq::new(count, |i: int| row)
}

proof fn lemma_one_row_more<F>(values: Seq<F>, row: Seq<F>, width: nat)
    requires
        width > 0,
        values.len() % width == 0,
        row.len() == width,
    ensures
        (values + row).len() % width == 0,
        permutation::rows_of(values + row, width) == permutation::rows_of(values, width).push(row),
{
    let q = (values.len() / width) as int;
    lemma_fundamental_div_mod(values.len() as int, width as int);
    assert(values.len() == q * width) by {
        lemma_mul_is_commutative(q, width as int);
    }
    assert((values + row).len() == (q + 1) * width) by {
        lemma_mul_is_distributive_add_other_way(width as int, q, 1);
    }
    lemma_div_multiples_vanish(q + 1, width as int);
    lemma_mod_multiples_basic(q + 1, width as int);
    lemma_mul_is_commutative(q + 1, width as int);
    let more = permutation::rows_of(values + row, width);
    let less = permutation::rows_of(values, width);
    assert(more.len() == q + 1);
    assert forall|r: int| 0 <= r < more.len() implies more[r] == less.push(row)[r] by {
        lemma_mul_is_distributive_add_other_way(width as int, r, 1);
        lemma_mul_nonnegative(r, width as int);
        if r < q {
            lemma_mul_inequality(r + 1, q, width as int);
            assert(more[r] =~= less[r]);
        } else {
            assert(more[r] =~= row);
        }
    }
    assert(more =~= less.push(row));
}

proof fn lemma_repeated<F>(values: Seq<F>, row: Seq<F>, width: nat, count: nat)
    requires
        width > 0,
        values.len() % width == 0,
        row.len() == width,
    ensures
        trace::repeated_rows(values, row, count).len() % width == 0,
        permutation::rows_of(trace::repeated_rows(values, row, count), width) == extended(
            permutation::rows_of(values, width),
            row,
            count,
        ),
    decreases count,
{
    let rows = permutation::rows_of(values, width);
    if count == 0 {
        assert(extended(rows, row, 0) =~= rows);
    } else {
        let k = (count - 1) as nat;
        lemma_repeated(values, row, width, k);
        lemma_one_row_more(trace::repeated_rows(values, row, k), row, width);
        assert(extended(rows, row, k).push(row) =~= extended(rows, row, count));
    }
}

/// Written out, a table has its stored rows and then its padding row.
proof fn lemma_written_rows<F: Field>(m: CompressedMatrix<F>)
    requires
        whole(m),
        permutation::padding_count(m) > 0 ==> permutation::has_padding(Some(&m)),
    ensures
        written_rows(m) == extended(
            permutation::stored_rows(m),
            permutation::padding_of(m)->0,
            permutation::padding_count(m) as nat,
        ),
{
    let row = permutation::padding_of(m)->0;
    let count = permutation::padding_count(m) as nat;
    if count == 0 {
        assert(extended(permutation::stored_rows(m), row, 0) =~= permutation::stored_rows(m));
    } else {
        lemma_repeated(m.main@, row, m.width as nat, count);
    }
}

/// The entries depend on the rows up to the last alone.
proof fn lemma_same_entries<F: Field, EF: ExtensionField<F>>(
    s: Seq<(Interaction<F>, bool)>,
    prep: Seq<Seq<F>>,
    main: Seq<Seq<F>>,
    more_prep: Seq<Seq<F>>,
    more_main: Seq<Seq<F>>,
    alpha: EF,
    beta: EF,
    batch: nat,
    n: nat,
)
    requires
        forall|r: int| 0 <= r < n ==> #[trigger] prep[r] == more_prep[r],
        forall|r: int| 0 <= r < n ==> #[trigger] main[r] == more_main[r],
    ensures
        permutation::trace_entries::<F, EF>(s, prep, main, alpha, beta, batch, n)
            == permutation::trace_entries::<F, EF>(
            s,
            more_prep,
            more_main,
            alpha,
            beta,
            batch,
            n,
        ),
    decreases n,
{
    if n > 0 {
        lemma_same_entries::<F, EF>(
            s,
            prep,
            main,
            more_prep,
            more_main,
            alpha,
            beta,
            batch,
            (n - 1) as nat,
        );
        assert(prep[n - 1] == more_prep[n - 1]);
        assert(main[n - 1] == more_main[n - 1]);
    }
}

/// The entries of a table that ends in a repeated row end in its entries, repeated.
proof fn lemma_extended_entries<F: Field, EF: ExtensionField<F>>(
    s: Seq<(Interaction<F>, bool)>,
    prep: Seq<Seq<F>>,
    main: Seq<Seq<F>>,
    prep_row: Seq<F>,
    main_row: Seq<F>,
    alpha: EF,
    beta: EF,
    batch: nat,
    total: nat,
    count: nat,
)
    requires
        prep.len() == main.len(),
        count <= total,
    ensures
        permutation::trace_entries::<F, EF>(
            s,
            extended(prep, prep_row, total),
            extended(main, main_row, total),
            alpha,
            beta,
            batch,
            main.len() + count,
        ) == trace::repeated_rows(
            permutation::trace_entries::<F, EF>(s, prep, main, alpha, beta, batch, main.len()),
            permutation::row_entries(
                permutation::terms::<F, EF>(s, prep_row, main_row, alpha, beta),
                batch,
            ),
            count,
        ),
    decreases count,
{
    let more_prep = extended(prep, prep_row, total);
    let more_main = extended(main, main_row, total);
    if count == 0 {
        lemma_same_entries::<F, EF>(
            s,
            prep,
            main,
            more_prep,
            more_main,
            alpha,
            beta,
            batch,
            main.len(),
        );
    } else {
        lemma_extended_entries::<F, EF>(
            s,
            prep,
            main,
            prep_row,
            main_row,
            alpha,
            beta,
            batch,
            total,
            (count - 1) as nat,
        );
        let last = main.len() + count - 1;
        assert(more_prep[last] == prep_row);
        assert(more_main[last] == main_row);
    }
}

proof fn lemma_total_valid<EF: Field>(values: Seq<EF>, n: nat)
    ensures
        permutation::total(values, n).valid(),
{
    broadcast use algebra::group_valid;

    EF::law_constants();
}

proof fn lemma_total_append<EF: Field>(a: Seq<EF>, b: Seq<EF>, n: nat)
    requires
        forall|i: int| 0 <= i < b.len() ==> (#[trigger] b[i]).valid(),
        n <= b.len(),
    ensures
        permutation::total(a + b, a.len() + n) == permutation::total(a, a.len()).plus(
            permutation::total(b, n),
        ),
    decreases n,
{
    broadcast use algebra::group_valid;

    lemma_total_valid(a, a.len());
    lemma_total_valid(b, n);
    if n == 0 {
        lemma_total_prefix(a, b, a.len());
        EF::law_plus(
            permutation::total(a, a.len()),
            permutation::total(a, a.len()),
            permutation::total(a, a.len()),
        );
    } else {
        let k = (n - 1) as nat;
        lemma_total_append(a, b, k);
        lemma_total_valid(b, k);
        assert((a + b)[a.len() + n - 1] == b[n - 1]);
        EF::law_plus(
            permutation::total(a, a.len()),
            permutation::total(b, k),
            b[n - 1],
        );
    }
}

proof fn lemma_total_prefix<EF: Field>(a: Seq<EF>, b: Seq<EF>, n: nat)
    requires
        n <= a.len(),
    ensures
        permutation::total(a + b, n) == permutation::total(a, n),
    decreases n,
{
    if n > 0 {
        lemma_total_prefix(a, b, (n - 1) as nat);
        assert((a + b)[n - 1] == a[n - 1]);
    }
}

proof fn lemma_total_repeated<EF: Field>(entries: Seq<EF>, row: Seq<EF>, count: nat)
    requires
        forall|i: int| 0 <= i < row.len() ==> (#[trigger] row[i]).valid(),
    ensures
        ({
            let all = trace::repeated_rows(entries, row, count);
            permutation::total(all, all.len()) == permutation::total(entries, entries.len()).plus(
                permutation::total(row, row.len()).times(EF::from_int(count as int)),
            )
        }),
    decreases count,
{
    broadcast use algebra::group_valid;

    let e = permutation::total(entries, entries.len());
    let t = permutation::total(row, row.len());
    lemma_total_valid(entries, entries.len());
    lemma_total_valid(row, row.len());
    EF::law_constants();
    if count == 0 {
        algebra::lemma_products(t, t, t);
        EF::law_plus(e, e, e);
    } else {
        let k = (count - 1) as nat;
        let before = trace::repeated_rows(entries, row, k);
        lemma_total_repeated(entries, row, k);
        lemma_total_append(before, row, row.len());
        EF::law_from_int(k as int, 1);
        EF::law_from_int(k as int, 0);
        let f = EF::from_int(k as int);
        algebra::lemma_products(t, f, EF::one_elem());
        EF::law_plus(e, t.times(f), t);
    }
}

/// The trace with its padding row written out `count` times.
pub open spec fn written_out<EF>(t: permutation::PaddedTrace<EF>, count: nat) -> Seq<EF> {
    match t.padding {
        Some(row) => trace::repeated_rows(t.entries, row, count),
        None => t.entries,
    }
}

/// Law: the permutation trace of a padded table, written out, is that of the table written out, and
/// has its sum; and there is one exactly where there is the other.
pub proof fn law_padding_written_out<F: Field, EF: ExtensionField<F>>(
    s: Seq<(Interaction<F>, bool)>,
    preprocessed: Option<&CompressedMatrix<F>>,
    main: CompressedMatrix<F>,
    alpha: EF,
    beta: EF,
    batch: nat,
)
    requires
        s.len() > 0,
        whole(main),
        preprocessed matches Some(p) ==> whole(*p) && p.total_height == main.total_height,
        permutation::padded_alike(preprocessed, main),
    ensures
        written_rows(main).len() == main.total_height,
        ({
            let rows = written_rows(main);
            let prep = optional_written_rows(preprocessed, rows.len());
            let t = permutation::padded_trace::<F, EF>(
                s,
                preprocessed,
                main,
                alpha,
                beta,
                batch,
            );
            let all = permutation::trace_entries::<F, EF>(
                s,
                prep,
                rows,
                alpha,
                beta,
                batch,
                rows.len(),
            );
            &&& t is Some <==> permutation::rows_nonzero::<F, EF>(
                s,
                prep,
                rows,
                alpha,
                beta,
                rows.len(),
            )
            &&& t is Some ==> written_out(t->0, permutation::padding_count(main) as nat) == all
                && t->0.sum == permutation::total(all, all.len())
        }),
{
    broadcast use algebra::group_valid;

    let count = permutation::padding_count(main) as nat;
    let stored = permutation::stored_rows(main);
    let stored_prep = permutation::optional_stored_rows(preprocessed, stored.len());
    let row = permutation::padding_of(main)->0;
    let prep_row = permutation::optional_padding_of(preprocessed)->0;
    let rows = written_rows(main);
    let prep = optional_written_rows(preprocessed, rows.len());
    lemma_written_rows(main);
    match preprocessed {
        Some(p) => {
            lemma_written_rows(*p);
        },
        None => {
            assert(prep =~= extended(stored_prep, prep_row, count));
        },
    }
    assert(prep == extended(stored_prep, prep_row, count));
    let below = permutation::terms::<F, EF>(s, prep_row, row, alpha, beta);
    let padding = permutation::row_entries(below, batch);
    let entries = permutation::trace_entries::<F, EF>(
        s,
        stored_prep,
        stored,
        alpha,
        beta,
        batch,
        stored.len(),
    );
    lemma_extended_entries::<F, EF>(
        s,
        stored_prep,
        stored,
        prep_row,
        row,
        alpha,
        beta,
        batch,
        count,
        count,
    );
    assert forall|i: int| 0 <= i < padding.len() implies (#[trigger] padding[i]).valid() by {
        EF::law_constants();
    }
    lemma_total_repeated(entries, padding, count);
    let all_rows = permutation::rows_nonzero::<F, EF>(s, prep, rows, alpha, beta, rows.len());
    let first_rows = permutation::rows_nonzero::<F, EF>(
        s,
        stored_prep,
        stored,
        alpha,
        beta,
        stored.len(),
    );
    if all_rows {
        assert forall|r: int| 0 <= r < stored.len() implies permutation::all_nonzero(
            #[trigger] permutation::terms::<F, EF>(s, stored_prep[r], stored[r], alpha, beta),
        ) by {
            assert(permutation::all_nonzero(
                permutation::terms::<F, EF>(s, prep[r], rows[r], alpha, beta),
            ));
        }
        if count > 0 {
            let r = stored.len() as int;
            assert(permutation::all_nonzero(
                permutation::terms::<F, EF>(s, prep[r], rows[r], alpha, beta),
            ));
            assert(prep[r] == prep_row && rows[r] == row);
        }
    }
    if first_rows && (count > 0 ==> permutation::all_nonzero(below)) {
        assert forall|r: int| 0 <= r < rows.len() implies permutation::all_nonzero(
            #[trigger] permutation::terms::<F, EF>(s, prep[r], rows[r], alpha, beta),
        ) by {
            if r < stored.len() {
                assert(permutation::all_nonzero(
                    permutation::terms::<F, EF>(s, stored_prep[r], stored[r], alpha, beta),
                ));
            }
        }
    }
    assert(all_rows <==> first_rows && (count > 0 ==> permutation::all_nonzero(below)));
}

} // verus!
