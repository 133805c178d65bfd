//! Messages between tables: affine functions of a row's columns, sent or received with a
//! multiplicity.
use vstd::prelude::*;
use crate::field::algebra;
use crate::field::{ExtensionField, Field};

verus! {

/// A column of a table, preprocessed or not.
#[derive(Clone, Copy, Debug, PartialEq, Eq)]
pub enum PairCol {
    Preprocessed(usize),
    Main(usize),
}

/// An affine function of the columns of a row.
#[derive(Clone, Debug, PartialEq, Eq)]
pub struct VirtualPairCol<F> {
    pub column_weights: Vec<(PairCol, F)>,
    pub constant: F,
}

/// Whether a message stays within a shard.
#[derive(Clone, Copy, Debug, PartialEq, Eq, PartialOrd, Ord, Hash)]
pub enum InteractionScope {
    Global,
    Local,
}

/// A message: its values and the multiplicity with which it is sent or received.
#[derive(Clone, Debug, PartialEq, Eq)]
pub struct Interaction<F> {
    pub values: Vec<VirtualPairCol<F>>,
    pub multiplicity: VirtualPairCol<F>,
    /// The number of the message's kind.
    pub argument_index: usize,
    pub scope: InteractionScope,
}

/// The entry of a column.
pub open spec fn column<F>(c: PairCol, prep: Seq<F>, main: Seq<F>) -> F {
    match c {
        PairCol::Preprocessed(i) => prep[i as int],
        PairCol::Main(i) => main[i as int],
    }
}

/// A row with the given numbers of entries has the column.
pub open spec fn column_fits(c: PairCol, prep: nat, main: nat) -> bool {
    match c {
        PairCol::Preprocessed(i) => i < prep,
        PairCol::Main(i) => i < main,
    }
}

/// A row with the given numbers of entries has every column of the function.
pub open spec fn affine_fits<F>(v: VirtualPairCol<F>, prep: nat, main: nat) -> bool {
    forall|i: int|
        0 <= i < v.column_weights@.len() ==> column_fits(
            (#[trigger] v.column_weights@[i]).0,
            prep,
            main,
        )
}

/// A row with the given numbers of entries has every column of the message.
pub open spec fn fits<F>(v: Interaction<F>, prep: nat, main: nat) -> bool {
    &&& affine_fits(v.multiplicity, prep, main)
    &&& forall|i: int| 0 <= i < v.values@.len() ==> affine_fits(#[trigger] v.values@[i], prep, main)
}

/// The function's coefficients are canonical.
pub open spec fn affine_valid<F: Field>(v: VirtualPairCol<F>) -> bool {
    &&& v.constant.valid()
    &&& forall|i: int|
        0 <= i < v.column_weights@.len() ==> (#[trigger] v.column_weights@[i]).1.valid()
}

/// The coefficients of the message's functions are canonical.
pub open spec fn interaction_valid<F: Field>(v: Interaction<F>) -> bool {
    &&& affine_valid(v.multiplicity)
    &&& forall|i: int| 0 <= i < v.values@.len() ==> affine_valid(#[trigger] v.values@[i])
}

/// The constant plus the first `n` weighted columns.
pub open spec fn applied<F: Field>(
    v: VirtualPairCol<F>,
    prep: Seq<F>,
    main: Seq<F>,
    n: nat,
) -> F
    decreases n,
{
    if n == 0 {
        v.constant
    } else {
        let (c, w) = v.column_weights@[n - 1];
        applied(v, prep, main, (n - 1) as nat).plus(column(c, prep, main).times(w))
    }
}

/// The constant plus the first `n` weighted columns, on a row of extension elements.
pub open spec fn applied_ext<F: Field, EF: ExtensionField<F>>(
    v: VirtualPairCol<F>,
    prep: Seq<EF>,
    main: Seq<EF>,
    n: nat,
) -> EF
    decreases n,
{
    if n == 0 {
        EF::embed(v.constant)
    } else {
        let (c, w) = v.column_weights@[n - 1];
        applied_ext::<F, EF>(v, prep, main, (n - 1) as nat).plus(
            column(c, prep, main).times(EF::embed(w)),
        )
    }
}

/// The function's value on a row.
pub open spec fn value<F: Field>(v: VirtualPairCol<F>, prep: Seq<F>, main: Seq<F>) -> F {
    applied(v, prep, main, v.column_weights@.len())
}

/// The function's value on a row of extension elements.
pub open spec fn value_ext<F: Field, EF: ExtensionField<F>>(
    v: VirtualPairCol<F>,
    prep: Seq<EF>,
    main: Seq<EF>,
) -> EF {
    applied_ext::<F, EF>(v, prep, main, v.column_weights@.len())
}

/// The images of a row's entries.
pub open spec fn embedded_row<F: Field, EF: ExtensionField<F>>(row: Seq<F>) -> Seq<EF> {
    Seq::new(row.len(), |i: int| EF::embed(row[i]))
}

proof fn lemma_applied_ext<F: Field, EF: ExtensionField<F>>(
    v: VirtualPairCol<F>,
    prep: Seq<F>,
    main: Seq<F>,
    n: nat,
)
    requires
        n <= v.column_weights@.len(),
        affine_fits(v, prep.len(), main.len()),
        affine_valid(v),
        crate::field::all_valid(prep),
        crate::field::all_valid(main),
    ensures
        applied(v, prep, main, n).valid(),
        applied_ext::<F, EF>(v, embedded_row(prep), embedded_row(main), n) == EF::embed(
            applied(v, prep, main, n),
        ),
    decreases n,
{
    broadcast use algebra::group_valid;

    if n > 0 {
        lemma_applied_ext::<F, EF>(v, prep, main, (n - 1) as nat);
        let (c, w) = v.column_weights@[n - 1];
        assert(column_fits(c, prep.len(), main.len()));
        let x = column(c, prep, main);
        assert(x.valid());
        let before = applied(v, prep, main, (n - 1) as nat);
        EF::law_constants();
        EF::law_embed(EF::one_elem(), EF::one_elem(), x, w);
        EF::law_embed(EF::one_elem(), EF::one_elem(), before, x.times(w));
    }
}

/// The value on the images of a row's entries is the image of the value.
pub proof fn law_value_embeds<F: Field, EF: ExtensionField<F>>(
    v: VirtualPairCol<F>,
    prep: Seq<F>,
    main: Seq<F>,
)
    requires
        affine_fits(v, prep.len(), main.len()),
        affine_valid(v),
        crate::field::all_valid(prep),
        crate::field::all_valid(main),
    ensures
        value(v, prep, main).valid(),
        value_ext::<F, EF>(v, embedded_row(prep), embedded_row(main)) == EF::embed(
            value(v, prep, main),
        ),
{
    lemma_applied_ext::<F, EF>(v, prep, main, v.column_weights@.len());
}

impl PairCol {
    /// The entry of the column.
    pub fn get<T: Copy>(&self, preprocessed: &Vec<T>, main: &Vec<T>) -> (r: T)
        requires
            column_fits(*self, preprocessed@.len(), main@.len()),
        ensures
            r == column(*self, preprocessed@, main@),
    {
        match self {
            PairCol::Preprocessed(i) => preprocessed[*i],
            PairCol::Main(i) => main[*i],
        }
    }
}

impl<F: Field> VirtualPairCol<F> {
    /// The function's value on a row.
    pub fn apply(&self, preprocessed: &Vec<F>, main: &Vec<F>) -> (r: F)
        requires
            affine_fits(*self, preprocessed@.len(), main@.len()),
        ensures
            r == value(*self, preprocessed@, main@),
    {
        let n: usize = self.column_weights.len();
        let mut r = self.constant;
        let mut i: usize = 0;
        while i < n
            invariant
                i <= n,
                n == self.column_weights@.len(),
                affine_fits(*self, preprocessed@.len(), main@.len()),
                r == applied(*self, preprocessed@, main@, i as nat),
            decreases n - i,
        {
            let (c, w) = self.column_weights[i];
            assert(column_fits(self.column_weights@[i as int].0, preprocessed@.len(), main@.len()));
            r = r.add(c.get(preprocessed, main).mul(w));
            i += 1;
        }
        r
    }

    /// The function's value on a row of extension elements.
    pub fn apply_ext<EF: ExtensionField<F>>(&self, preprocessed: &Vec<EF>, main: &Vec<EF>) -> (r: EF)
        requires
            affine_fits(*self, preprocessed@.len(), main@.len()),
        ensures
            r == value_ext::<F, EF>(*self, preprocessed@, main@),
    {
        let n: usize = self.column_weights.len();
        let mut r = EF::from_base(self.constant);
        let mut i: usize = 0;
        while i < n
            invariant
                i <= n,
                n == self.column_weights@.len(),
                affine_fits(*self, preprocessed@.len(), main@.len()),
                r == applied_ext::<F, EF>(*self, preprocessed@, main@, i as nat),
            decreases n - i,
        {
            let (c, w) = self.column_weights[i];
            assert(column_fits(self.column_weights@[i as int].0, preprocessed@.len(), main@.len()));
            r = r.add(c.get(preprocessed, main).mul(EF::from_base(w)));
            i += 1;
        }
        r
    }
}

} // verus!
