//! Tables whose last rows are all the same.
use vstd::prelude::*;
use crate::basefold::mmcs::Matrix;
use crate::field::Field;

verus! {

/// The row that a table is padded with.
#[derive(Clone, Debug, PartialEq, Eq)]
pub enum PaddingRow<F> {
    /// There is no such row.
    Absent,
    /// A row of zeros.
    Zero { width: usize },
    /// A row of one value.
    Constant { value: F, width: usize },
    /// Any row.
    General(Vec<F>),
}

/// A table by its first rows, one after the other, and the height that it is padded to.
#[derive(Clone, Debug, PartialEq, Eq)]
pub struct CompressedMatrix<F> {
    pub main: Vec<F>,
    pub width: usize,
    pub padding_row: PaddingRow<F>,
    pub total_height: usize,
}

/// The row that a table of the given width is padded with.
pub open spec fn padding_entries<F: Field>(padding: PaddingRow<F>, width: nat) -> Option<Seq<F>> {
    match padding {
        PaddingRow::Absent => None,
        PaddingRow::Zero { .. } => Some(Seq::new(width, |i: int| F::zero_elem())),
        PaddingRow::Constant { value, .. } => Some(Seq::new(width, |i: int| value)),
        PaddingRow::General(row) => Some(row@),
    }
}

impl<F: Field> PaddingRow<F> {
    /// The row that a table of the given width is padded with.
    pub fn entries(&self, width: usize) -> (r: Option<Vec<F>>)
        ensures
            r is Some <==> padding_entries(*self, width as nat) is Some,
            r matches Some(row) ==> padding_entries(*self, width as nat) == Some(row@),
    {
        match self {
            PaddingRow::Absent => None,
            PaddingRow::Zero { .. } => Some(repeated(F::zero(), width)),
            PaddingRow::Constant { value, .. } => Some(repeated(*value, width)),
            PaddingRow::General(row) => {
                let n: usize = row.len();
                let mut r: Vec<F> = Vec::new();
                let mut i: usize = 0;
                while i < n
                    invariant
                        i <= n,
                        n == row@.len(),
                        r@ == row@.subrange(0, i as int),
                    decreases n - i,
                {
                    r.push(row[i]);
                    i += 1;
                    assert(r@ =~= row@.subrange(0, i as int));
                }
                assert(r@ =~= row@);
                Some(r)
            },
        }
    }
}

fn repeated<F: Field>(value: F, n: usize) -> (r: Vec<F>)
    ensures
        r@ == Seq::new(n as nat, |i: int| value),
{
    let mut r: Vec<F> = Vec::new();
    let mut i: usize = 0;
    while i < n
        invariant
            i <= n,
            r@ == Seq::new(i as nat, |j: int| value),
        decreases n - i,
    {
        r.push(value);
        i += 1;
        assert(r@ =~= Seq::new(i as nat, |j: int| value));
    }
    r
}

/// Two paddings with the same row.
pub open spec fn same_padding<F>(a: PaddingRow<F>, b: PaddingRow<F>) -> bool {
    match (a, b) {
        (PaddingRow::General(x), PaddingRow::General(y)) => x@ == y@,
        _ => a == b,
    }
}

/// Two tables with the same rows, width, padding and height.
pub open spec fn same_table<F>(a: CompressedMatrix<F>, b: CompressedMatrix<F>) -> bool {
    &&& a.main@ == b.main@
    &&& a.width == b.width
    &&& same_padding(a.padding_row, b.padding_row)
    &&& a.total_height == b.total_height
}

/// Copies elements to the end of a list.
pub(crate) fn append_copies<F: Field>(list: &mut Vec<F>, more: &[F])
    ensures
        final(list)@ == old(list)@ + more@,
{
    let n: usize = more.len();
    let mut i: usize = 0;
    while i < n
        invariant
            i <= n,
            n == more@.len(),
            list@ == old(list)@ + more@.subrange(0, i as int),
        decreases n - i,
    {
        list.push(more[i]);
        i += 1;
        assert(list@ =~= old(list)@ + more@.subrange(0, i as int));
    }
    assert(more@.subrange(0, n as int) =~= more@);
}

impl<F: Field> CompressedMatrix<F> {
    /// A copy of the table.
    pub fn duplicate(&self) -> (r: Self)
        ensures
            same_table(r, *self),
    {
        let mut main: Vec<F> = Vec::new();
        append_copies(&mut main, self.main.as_slice());
        let padding_row = match &self.padding_row {
            PaddingRow::Absent => PaddingRow::Absent,
            PaddingRow::Zero { width } => PaddingRow::Zero { width: *width },
            PaddingRow::Constant { value, width } => {
                PaddingRow::Constant { value: *value, width: *width }
            },
            PaddingRow::General(row) => {
                let mut copy: Vec<F> = Vec::new();
                append_copies(&mut copy, row.as_slice());
                PaddingRow::General(copy)
            },
        };
        CompressedMatrix { main, width: self.width, padding_row, total_height: self.total_height }
    }
}

impl<F> CompressedMatrix<F> {
    /// The table with the given rows, padded with zeros.
    pub fn new(main: Vec<F>, width: usize, total_height: usize) -> (r: Self)
        ensures
            r.main == main,
            r.width == width,
            r.padding_row == (PaddingRow::<F>::Zero { width }),
            r.total_height == total_height,
    {
        CompressedMatrix { main, width, padding_row: PaddingRow::Zero { width }, total_height }
    }
}

/// The number of rows that are stored.
pub open spec fn stored_height<F>(m: CompressedMatrix<F>) -> nat {
    if m.width == 0 {
        0
    } else {
        m.main@.len() / m.width as nat
    }
}

/// The entries, then a row repeated.
pub open spec fn repeated_rows<F>(entries: Seq<F>, row: Seq<F>, count: nat) -> Seq<F>
    decreases count,
{
    if count == 0 {
        entries
    } else {
        repeated_rows(entries, row, (count - 1) as nat) + row
    }
}

/// The table has no more rows than it is padded to, and where it has less, a row to pad with.
pub open spec fn complete<F: Field>(m: CompressedMatrix<F>) -> bool {
    &&& stored_height(m) <= m.total_height
    &&& stored_height(m) < m.total_height ==> padding_entries(m.padding_row, m.width as nat) is Some
}

/// The entries of a table with its padding written out.
pub open spec fn decompressed<F: Field>(m: CompressedMatrix<F>) -> Seq<F> {
    if stored_height(m) < m.total_height {
        repeated_rows(
            m.main@,
            padding_entries(m.padding_row, m.width as nat)->0,
            (m.total_height - stored_height(m)) as nat,
        )
    } else {
        m.main@
    }
}

impl<F: Field> CompressedMatrix<F> {
    /// The table with its padding written out.
    pub fn decompress(&self) -> (r: Matrix<F>)
        requires
            complete(*self),
        ensures
            r.width == self.width,
            r.values@ == decompressed(*self),
    {
        let n: usize = self.main.len();
        let mut values: Vec<F> = Vec::new();
        let mut i: usize = 0;
        while i < n
            invariant
                i <= n,
                n == self.main@.len(),
                values@ == self.main@.subrange(0, i as int),
            decreases n - i,
        {
            values.push(self.main[i]);
            i += 1;
            assert(values@ =~= self.main@.subrange(0, i as int));
        }
        assert(values@ =~= self.main@);
        let stored: usize = if self.width == 0 {
            0
        } else {
            n / self.width
        };
        if stored < self.total_height {
            match self.padding_row.entries(self.width) {
                Some(row) => {
                    let count: usize = self.total_height - stored;
                    let len: usize = row.len();
                    let mut k: usize = 0;
                    while k < count
                        invariant
                            k <= count,
                            len == row@.len(),
                            values@ == repeated_rows(self.main@, row@, k as nat),
                        decreases count - k,
                    {
                        let ghost before = values@;
                        let mut j: usize = 0;
                        while j < len
                            invariant
                                j <= len,
                                len == row@.len(),
                                values@ == before + row@.subrange(0, j as int),
                            decreases len - j,
                        {
                            values.push(row[j]);
                            j += 1;
                            assert(values@ =~= before + row@.subrange(0, j as int));
                        }
                        assert(values@ =~= before + row@);
                        k += 1;
                    }
                },
                None => {},
            }
        }
        Matrix { values, width: self.width }
    }
}

} // verus!
