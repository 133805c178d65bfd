//! The prover's side of the commitment scheme: commitments, proofs of work, and the combined tables
//! of the heights.
use vstd::prelude::*;
use vstd::arithmetic::power2::*;
use crate::basefold::batch;
use crate::basefold::batch::{EntryModel, GroupModel, HeightGroup};
use crate::basefold::challenger::{DuplexChallenger, Transcript};
use crate::basefold::encode;
use crate::basefold::eqpoly;
use crate::basefold::eqpoly::EqPolynomial;
use crate::basefold::linear;
use crate::basefold::math;
use crate::basefold::math::{compute_dotproduct, compute_dotproduct_mix};
use crate::basefold::mmcs;
use crate::basefold::mmcs::{Matrix, MatrixModel, MerkleField};
use crate::basefold::openings::BaseFoldError;
use crate::basefold::pcs::BaseFoldPcs;
use crate::basefold::poseidon::PermutationField;
use crate::bits;
use crate::field;
use crate::field::{ExtensionField, Field, PrimeField32};
use crate::stark::trace;
use crate::stark::trace::CompressedMatrix;

verus! {

/// The matrices hold the codewords of the columns of the given ones.
pub open spec fn are_codes_of<F: MerkleField>(
    codes: Seq<MatrixModel<F>>,
    matrices: Seq<MatrixModel<F>>,
    log_blowup: nat,
) -> bool {
    &&& codes.len() == matrices.len()
    &&& forall|i: int|
        0 <= i < codes.len() ==> linear::is_code_of(#[trigger] codes[i], matrices[i], log_blowup)
}

/// The matrix can be encoded.
pub open spec fn encodable<F: MerkleField>(m: MatrixModel<F>, log_blowup: nat) -> bool {
    &&& m.wf()
    &&& bits::log2(m.height()) + log_blowup <= F::two_adicity()
    &&& bits::log2(m.height()) + log_blowup < usize::BITS
    &&& m.values.len() * pow2(log_blowup) <= usize::MAX
}

/// The matrix of codewords of an encodable matrix is as many times higher.
pub proof fn lemma_code_matrix<F: MerkleField>(
    code: MatrixModel<F>,
    m: MatrixModel<F>,
    log_blowup: nat,
)
    requires
        encodable(m, log_blowup),
        linear::is_code_of(code, m, log_blowup),
    ensures
        code.wf(),
        code.height() == m.height() * pow2(log_blowup),
        code.height() == pow2(bits::log2(m.height()) + log_blowup),
        bits::log2(code.height()) == bits::log2(m.height()) + log_blowup,
        code.height() <= pow2((usize::BITS - 1) as nat),
{
    let h = m.height() * pow2(log_blowup);
    assert(code.values.len() == h * m.width) by (nonlinear_arith)
        requires
            code.values.len() == m.values.len() * pow2(log_blowup),
            m.values.len() == m.height() * m.width,
            h == m.height() * pow2(log_blowup),
    ;
    vstd::arithmetic::div_mod::lemma_div_multiples_vanish(h as int, m.width as int);
    assert(h * m.width == m.width * h) by (nonlinear_arith);
    lemma_pow2_adds(bits::log2(m.height()), log_blowup);
    bits::lemma_log2_pow2(bits::log2(m.height()) + log_blowup);
    if bits::log2(m.height()) + log_blowup < usize::BITS - 1 {
        lemma_pow2_strictly_increases(
            bits::log2(m.height()) + log_blowup,
            (usize::BITS - 1) as nat,
        );
    }
}

impl<F: MerkleField> BaseFoldPcs<F> {
    /// Commits to the rows of the codewords of the matrices' columns.
    pub fn commit_matrices(&self, matrices: &Vec<Matrix<F>>) -> (r: (Vec<F>, F::Tree))
        requires
            self.fri.log_blowup > 0,
            matrices@.len() > 0,
            forall|i: int|
                0 <= i < matrices@.len() ==> encodable(
                    (#[trigger] matrices@[i])@,
                    self.fri.log_blowup as nat,
                ),
        ensures
            F::tree_rounds(r.1) == self.rounds(),
            are_codes_of(
                F::tree_matrices(r.1),
                mmcs::models(matrices@),
                self.fri.log_blowup as nat,
            ),
            r.0@ == F::root(self.rounds(), F::tree_matrices(r.1)),
            mmcs::is_digest(r.0@),
    {
        let n: usize = matrices.len();
        let mut codes: Vec<Matrix<F>> = Vec::new();
        let mut i: usize = 0;
        while i < n
            invariant
                i <= n,
                n == matrices@.len(),
                forall|i: int|
                    0 <= i < matrices@.len() ==> encodable(
                        (#[trigger] matrices@[i])@,
                        self.fri.log_blowup as nat,
                    ),
                codes@.len() == i,
                forall|j: int|
                    0 <= j < i ==> linear::is_code_of(
                        (#[trigger] codes@[j])@,
                        matrices@[j]@,
                        self.fri.log_blowup as nat,
                    ),
            decreases n - i,
        {
            let m = &matrices[i];
            proof {
                assert(encodable(matrices@[i as int]@, self.fri.log_blowup as nat));
                vstd::arithmetic::div_mod::lemma_mod_multiples_basic(
                    m@.height() as int,
                    m@.width as int,
                );
            }
            let values = encode::encode_matrix(&m.values, m.width, self.fri.log_blowup);
            codes.push(Matrix { values, width: m.width });
            i += 1;
        }
        let ghost models = mmcs::models(codes@);
        proof {
            assert forall|j: int| 0 <= j < codes@.len() implies (#[trigger] codes@[j])@.wf()
                && codes@[j]@.height() <= pow2((usize::BITS - 1) as nat) by {
                assert(encodable(matrices@[j]@, self.fri.log_blowup as nat));
                lemma_code_matrix(codes@[j]@, matrices@[j]@, self.fri.log_blowup as nat);
            }
            assert forall|j: int|
                0 <= j < models.len() implies linear::is_code_of(
                #[trigger] models[j],
                mmcs::models(matrices@)[j],
                self.fri.log_blowup as nat,
            ) by {
                assert(linear::is_code_of(
                    codes@[j]@,
                    matrices@[j]@,
                    self.fri.log_blowup as nat,
                ));
            }
            F::law_root(self.rounds(), models);
        }
        F::commit(&self.permutation, codes)
    }

    /// Commits to the rows of the codewords of the padded matrices' columns.
    pub fn commit(&self, evaluations: &Vec<CompressedMatrix<F>>) -> (r: (Vec<F>, F::Tree))
        requires
            self.fri.log_blowup > 0,
            evaluations@.len() > 0,
            all_written_out(evaluations@, self.fri.log_blowup as nat),
        ensures
            F::tree_rounds(r.1) == self.rounds(),
            are_codes_of(
                F::tree_matrices(r.1),
                written_out(evaluations@),
                self.fri.log_blowup as nat,
            ),
            r.0@ == F::root(self.rounds(), F::tree_matrices(r.1)),
            mmcs::is_digest(r.0@),
    {
        let matrices = decompress_all(evaluations);
        proof {
            assert forall|i: int| 0 <= i < matrices@.len() implies encodable(
                (#[trigger] matrices@[i])@,
                self.fri.log_blowup as nat,
            ) by {
                assert(mmcs::models(matrices@)[i] == written_out(evaluations@)[i]);
                assert(trace::complete(evaluations@[i]));
            }
        }
        self.commit_matrices(&matrices)
    }

    /// Searches for a proof of work: a nonce, and a witness after it. None is found where there is
    /// none.
    pub fn find_pow_witness(&self, challenger: &mut DuplexChallenger<F>, grinding_bits: usize) -> (r:
        Result<Vec<F>, BaseFoldError>)
        requires
            old(challenger)@.wf(),
            grinding_bits < usize::BITS,
            pow2(grinding_bits as nat) < F::characteristic(),
        ensures
            final(challenger)@.wf(),
            match r {
                Ok(v) => v@.len() == 2 && is_work(
                    old(challenger)@,
                    grinding_bits as nat,
                    v@[0],
                    v@[1],
                ) && final(challenger)@ == old(challenger)@.observed(v@[0]).checked_witness(v@[1]),
                Err(e) => e == BaseFoldError::CannotFindPowWitness && no_work(
                    old(challenger)@,
                    grinding_bits as nat,
                ) && final(challenger)@ == old(challenger)@,
            },
    {
        let order: u32 = F::order();
        let ghost t = challenger@;
        let mut i: u32 = 0;
        proof {
            assert forall|n: F, w: F| n.valid() && n.to_int() < 0 implies !#[trigger] is_work(
                t,
                grinding_bits as nat,
                n,
                w,
            ) by {
                F::law_residues(n, n);
            }
        }
        while i < order
            invariant
                i <= order,
                order as int == F::characteristic(),
                challenger@ == t,
                t.wf(),
                t == old(challenger)@,
                grinding_bits < usize::BITS,
                pow2(grinding_bits as nat) < F::characteristic(),
                forall|n: F, w: F|
                    n.valid() && n.to_int() < i ==> !#[trigger] is_work(
                        t,
                        grinding_bits as nat,
                        n,
                        w,
                    ),
            decreases order - i,
        {
            let nonce = F::from_canonical_u32(i);
            let mut base = challenger.duplicate();
            base.observe(nonce);
            let ghost u = base@;
            let mut j: u32 = 0;
            proof {
                assert forall|w: F| w.valid() && w.to_int() < 0 implies !#[trigger] u.accepts_witness(
                    grinding_bits as nat,
                    w,
                ) by {
                    F::law_residues(w, w);
                }
            }
            while j < order
                invariant
                    j <= order,
                    order as int == F::characteristic(),
                    base@ == u,
                    u.wf(),
                    u == t.observed(nonce),
                    nonce.valid(),
                    challenger@ == t,
                    t == old(challenger)@,
                    t.wf(),
                    grinding_bits < usize::BITS,
                    pow2(grinding_bits as nat) < F::characteristic(),
                    forall|w: F|
                        w.valid() && w.to_int() < j ==> !#[trigger] u.accepts_witness(
                            grinding_bits as nat,
                            w,
                        ),
                decreases order - j,
            {
                let witness = F::from_canonical_u32(j);
                let mut trial = base.duplicate();
                if trial.check_witness(grinding_bits, witness) {
                    challenger.observe(nonce);
                    let accepted: bool = challenger.check_witness(grinding_bits, witness);
                    let r = vec![nonce, witness];
                    assert(is_work(t, grinding_bits as nat, nonce, witness));
                    return Ok(r);
                }
                proof {
                    assert forall|w: F|
                        w.valid() && w.to_int() < j + 1 implies !#[trigger] u.accepts_witness(
                        grinding_bits as nat,
                        w,
                    ) by {
                        if w.to_int() == j {
                            lemma_same_element(w, witness);
                        }
                    }
                }
                j += 1;
            }
            proof {
                assert forall|n: F, w: F|
                    n.valid() && n.to_int() < i + 1 implies !#[trigger] is_work(
                    t,
                    grinding_bits as nat,
                    n,
                    w,
                ) by {
                    if n.to_int() == i {
                        lemma_same_element(n, nonce);
                        if w.valid() {
                            F::law_residues(w, w);
                        }
                    }
                }
            }
            i += 1;
        }
        proof {
            assert forall|n: F, w: F| !#[trigger] is_work(t, grinding_bits as nat, n, w) by {
                if n.valid() {
                    F::law_residues(n, n);
                }
            }
        }
        Err(BaseFoldError::CannotFindPowWitness)
    }
}

/// The witness is a proof of work after the nonce.
pub open spec fn is_work<F: PermutationField>(t: Transcript<F>, bits: nat, nonce: F, witness: F) -> bool {
    nonce.valid() && witness.valid() && t.observed(nonce).accepts_witness(bits, witness)
}

/// There is no proof of work.
pub open spec fn no_work<F: PermutationField>(t: Transcript<F>, bits: nat) -> bool {
    forall|n: F, w: F| !#[trigger] is_work(t, bits, n, w)
}

proof fn lemma_same_element<F: PrimeField32>(a: F, b: F)
    requires
        a.valid(),
        b.valid(),
        a.to_int() == b.to_int(),
    ensures
        a == b,
{
    F::law_residues(a, b);
}

/// The matrices with their padding written out.
pub open spec fn written_out<F: Field>(s: Seq<CompressedMatrix<F>>) -> Seq<MatrixModel<F>> {
    Seq::new(
        s.len(),
        |i: int| MatrixModel { values: trace::decompressed(s[i]), width: s[i].width as nat },
    )
}

/// The padding of each matrix can be written out and the matrix encoded.
pub open spec fn all_written_out<F: MerkleField>(
    s: Seq<CompressedMatrix<F>>,
    log_blowup: nat,
) -> bool {
    forall|i: int|
        0 <= i < s.len() ==> trace::complete(#[trigger] s[i]) && encodable(
            written_out(s)[i],
            log_blowup,
        )
}

pub(crate) fn decompress_all<F: MerkleField>(s: &Vec<CompressedMatrix<F>>) -> (r: Vec<Matrix<F>>)
    requires
        forall|i: int| 0 <= i < s@.len() ==> trace::complete(#[trigger] s@[i]),
    ensures
        mmcs::models(r@) == written_out(s@),
        r@.len() == s@.len(),
{
    let n: usize = s.len();
    let mut r: Vec<Matrix<F>> = Vec::new();
    let mut i: usize = 0;
    while i < n
        invariant
            i <= n,
            n == s@.len(),
            forall|i: int| 0 <= i < s@.len() ==> trace::complete(#[trigger] s@[i]),
            r@.len() == i,
            forall|j: int| 0 <= j < i ==> (#[trigger] r@[j])@ == written_out(s@)[j],
        decreases n - i,
    {
        assert(trace::complete(s@[i as int]));
        let m = s[i].decompress();
        r.push(m);
        i += 1;
        assert(r@[i - 1]@ =~= written_out(s@)[i - 1]);
    }
    assert(mmcs::models(r@) =~= written_out(s@));
    r
}

/// The models of the matrices of each batch.
pub open spec fn batch_models<F>(s: Seq<Vec<Matrix<F>>>) -> Seq<Seq<MatrixModel<F>>> {
    Seq::new(s.len(), |b: int| mmcs::models(s[b]@))
}

/// The entries name matrices of the height, with as many columns as coefficients.
pub open spec fn entries_of_height<F: MerkleField, EF: ExtensionField<F>>(
    entries: Seq<EntryModel<EF>>,
    matrices: Seq<Seq<MatrixModel<F>>>,
    len: nat,
) -> bool {
    forall|i: int|
        0 <= i < entries.len() ==> linear::entry_of_height(#[trigger] entries[i], matrices, len)
}

/// The linear combination of the columns of the matrices of one height, row by row.
pub fn combine_columns_by_rows<F: MerkleField, EF: ExtensionField<F>>(
    group: &HeightGroup<EF>,
    matrices: &Vec<Vec<Matrix<F>>>,
    len: usize,
) -> (r: Vec<EF>)
    requires
        entries_of_height(group@.entries, batch_models(matrices@), len as nat),
    ensures
        r@ == linear::group_table(group@.entries, batch_models(matrices@), len as nat),
        field::all_valid(r@),
{
    let ghost models = batch_models(matrices@);
    let ghost entries = group@.entries;
    let n: usize = group.entries.len();
    let mut r: Vec<EF> = Vec::new();
    let mut i: usize = 0;
    while i < len
        invariant
            i <= len,
            n == group.entries@.len(),
            entries == group@.entries,
            models == batch_models(matrices@),
            entries_of_height(entries, models, len as nat),
            r@ == linear::group_table(entries, models, len as nat).subrange(0, i as int),
        decreases len - i,
    {
        let ghost rows = linear::rows_at(models, i as nat);
        let mut acc = EF::zero();
        let mut j: usize = 0;
        assert(entries.take(0) =~= Seq::empty());
        while j < n
            invariant
                j <= n,
                n == group.entries@.len(),
                i < len,
                entries == group@.entries,
                models == batch_models(matrices@),
                rows == linear::rows_at(models, i as nat),
                entries_of_height(entries, models, len as nat),
                acc == batch::leaf_sum(entries.take(j as int), rows),
            decreases n - j,
        {
            let e = &group.entries[j];
            proof {
                assert(linear::entry_of_height(entries[j as int], models, len as nat));
                assert(entries[j as int] == e@);
            }
            let m = &matrices[e.batch][e.matrix];
            let size: usize = m.values.len();
            let ghost model = models[e.batch as int][e.matrix as int];
            proof {
                assert(model == m@);
                assert(model.wf() && model.height() == len);
                assert(m.values@.len() == len * model.width);
                assert(i * model.width + model.width <= len * model.width) by (nonlinear_arith)
                    requires
                        i < len,
                        model.width > 0,
                ;
                assert(i * model.width >= 0) by (nonlinear_arith)
                    requires
                        i >= 0,
                        model.width > 0,
                ;
            }
            let start: usize = i * m.width;
            let row: &[F] = vstd::slice::slice_subrange(m.values.as_slice(), start, start + m.width);
            proof {
                assert(row@ == model.row(i as nat));
                assert(row@.len() == model.width);
            }
            acc = acc.add(compute_dotproduct_mix(e.coeffs.as_slice(), row));
            j += 1;
            proof {
                assert(entries.take(j as int).drop_last() =~= entries.take(j - 1));
                assert(entries.take(j as int).last() == e@);
                assert(rows[e.batch as int][e.matrix as int] == model.row(i as nat));
            }
        }
        assert(entries.take(n as int) =~= entries);
        r.push(acc);
        i += 1;
        assert(r@ =~= linear::group_table(entries, models, len as nat).subrange(0, i as int));
    }
    proof {
        let table = linear::group_table(entries, models, len as nat);
        assert(r@ =~= table);
        assert forall|k: int| 0 <= k < r@.len() implies (#[trigger] r@[k]).valid() by {
            linear::lemma_leaf_sum_valid(entries, linear::rows_at(models, k as nat));
        }
    }
    r
}

/// The tables of the groups.
pub open spec fn tables_of<F: MerkleField, EF: ExtensionField<F>>(
    groups: Seq<GroupModel<EF>>,
    matrices: Seq<Seq<MatrixModel<F>>>,
) -> Seq<Seq<EF>> {
    Seq::new(
        groups.len(),
        |g: int|
            linear::group_table(groups[g].entries, matrices, pow2(groups[g].log_height)),
    )
}

/// The groups with the claims that are true of their tables.
pub open spec fn true_groups<EF: Field>(
    groups: Seq<GroupModel<EF>>,
    tables: Seq<Seq<EF>>,
    point: Seq<EF>,
) -> Seq<GroupModel<EF>> {
    Seq::new(
        groups.len(),
        |g: int|
            GroupModel {
                claim: math::dot(
                    tables[g],
                    eqpoly::eq_table(point.take(groups[g].log_height as int)),
                ),
                ..groups[g]
            },
    )
}

/// Every group names matrices of its height.
pub open spec fn groups_of_heights<F: MerkleField, EF: ExtensionField<F>>(
    groups: Seq<GroupModel<EF>>,
    matrices: Seq<Seq<MatrixModel<F>>>,
) -> bool {
    forall|g: int|
        0 <= g < groups.len() ==> entries_of_height(
            (#[trigger] groups[g]).entries,
            matrices,
            pow2(groups[g].log_height),
        )
}

/// The tables as lists.
pub open spec fn table_views<EF>(tables: Seq<Vec<EF>>) -> Seq<Seq<EF>> {
    Seq::new(tables.len(), |g: int| tables[g]@)
}

/// The tables of the groups.
pub fn combine_tables<F: MerkleField, EF: ExtensionField<F>>(
    groups: &Vec<HeightGroup<EF>>,
    matrices: &Vec<Vec<Matrix<F>>>,
) -> (r: Vec<Vec<EF>>)
    requires
        groups_of_heights(batch::group_models(groups@), batch_models(matrices@)),
        forall|g: int|
            0 <= g < groups@.len() ==> (#[trigger] groups@[g]).log_height < usize::BITS,
    ensures
        table_views(r@) == tables_of(batch::group_models(groups@), batch_models(matrices@)),
        forall|g: int| 0 <= g < r@.len() ==> field::all_valid((#[trigger] r@[g])@),
        r@.len() == groups@.len(),
{
    let ghost models = batch::group_models(groups@);
    let n: usize = groups.len();
    let mut r: Vec<Vec<EF>> = Vec::new();
    let mut g: usize = 0;
    while g < n
        invariant
            g <= n,
            n == groups@.len(),
            models == batch::group_models(groups@),
            groups_of_heights(models, batch_models(matrices@)),
            forall|g: int|
                0 <= g < groups@.len() ==> (#[trigger] groups@[g]).log_height < usize::BITS,
            r@.len() == g,
            forall|j: int|
                0 <= j < g ==> (#[trigger] r@[j])@ == tables_of(models, batch_models(matrices@))[j]
                    && field::all_valid(r@[j]@),
        decreases n - g,
    {
        proof {
            assert(entries_of_height(
                models[g as int].entries,
                batch_models(matrices@),
                pow2(models[g as int].log_height),
            ));
            assert(groups@[g as int].log_height < usize::BITS);
        }
        let len: usize = bits::two_to_the(groups[g].log_height);
        let table = combine_columns_by_rows(&groups[g], matrices, len);
        r.push(table);
        g += 1;
    }
    assert(table_views(r@) =~= tables_of(models, batch_models(matrices@)));
    r
}

/// The equality polynomial of the first variables of a point.
pub fn partial_eq_table<EF: Field>(point: &Vec<EF>, n: usize) -> (r: Vec<EF>)
    requires
        n <= point@.len(),
        n < usize::BITS,
        field::all_valid(point@),
    ensures
        r@ == eqpoly::eq_table(point@.take(n as int)),
        field::all_valid(r@),
        r@.len() == pow2(n as nat),
{
    let mut part: Vec<EF> = Vec::new();
    let mut i: usize = 0;
    assert(point@.take(0) =~= Seq::empty());
    while i < n
        invariant
            i <= n <= point@.len(),
            part@ == point@.take(i as int),
        decreases n - i,
    {
        part.push(point[i]);
        i += 1;
        assert(part@ =~= point@.take(i as int));
    }
    proof {
        assert forall|j: int| 0 <= j < part@.len() implies (#[trigger] part@[j]).valid() by {
            assert(point@[j].valid());
        }
        crate::basefold::honest::lemma_eq_table_valid(part@);
    }
    EqPolynomial::new(part).evals()
}

/// The sums of the tables against the equality polynomials of their heights.
pub fn true_claims<EF: Field>(groups: &Vec<HeightGroup<EF>>, tables: &Vec<Vec<EF>>, point: &Vec<EF>) -> (r:
    Vec<EF>)
    requires
        tables@.len() == groups@.len(),
        forall|g: int|
            0 <= g < groups@.len() ==> (#[trigger] groups@[g]).log_height < usize::BITS
                && groups@[g].log_height <= point@.len() && tables@[g]@.len() == pow2(
                groups@[g].log_height as nat,
            ),
        field::all_valid(point@),
    ensures
        r@.len() == groups@.len(),
        forall|g: int|
            0 <= g < r@.len() ==> #[trigger] r@[g] == true_groups(
                batch::group_models(groups@),
                table_views(tables@),
                point@,
            )[g].claim && r@[g].valid(),
{
    let n: usize = groups.len();
    let mut r: Vec<EF> = Vec::new();
    let mut g: usize = 0;
    while g < n
        invariant
            g <= n,
            n == groups@.len(),
            tables@.len() == groups@.len(),
            forall|g: int|
                0 <= g < groups@.len() ==> (#[trigger] groups@[g]).log_height < usize::BITS
                    && groups@[g].log_height <= point@.len() && tables@[g]@.len() == pow2(
                    groups@[g].log_height as nat,
                ),
            field::all_valid(point@),
            r@.len() == g,
            forall|j: int|
                0 <= j < g ==> #[trigger] r@[j] == true_groups(
                    batch::group_models(groups@),
                    table_views(tables@),
                    point@,
                )[j].claim && r@[j].valid(),
        decreases n - g,
    {
        assert(groups@[g as int].log_height <= point@.len());
        let table = partial_eq_table(point, groups[g].log_height);
        let claim = compute_dotproduct(tables[g].as_slice(), table.as_slice());
        proof {
            linear::lemma_dot_valid(tables@[g as int]@, table@);
        }
        r.push(claim);
        g += 1;
    }
    r
}

} // verus!
