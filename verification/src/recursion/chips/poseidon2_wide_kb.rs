//! The table of permutations over KoalaBear, with one permutation in a row.
use vstd::prelude::*;

verus! {

/// The table for constraints of the given degree, which has to be three.
#[derive(Clone, Copy, Debug)]
pub struct Poseidon2WideKbChip<const DEGREE: usize>;

/// The cells of a row.
#[derive(Clone, Debug)]
pub struct Poseidon2Degree3Cols<T> {
    pub cells: Vec<T>,
}

impl<const DEGREE: usize> Poseidon2WideKbChip<DEGREE> {
    /// The columns of a row.
    pub fn convert<T: Copy>(row: &[T]) -> (r: Poseidon2Degree3Cols<T>)
        requires
            DEGREE == 3,
        ensures
            r.cells@ == row@,
    {
        let n: usize = row.len();
        let mut cells: Vec<T> = Vec::new();
        let mut i: usize = 0;
        while i < n
            invariant
                i <= n,
                n == row@.len(),
                cells@ == row@.subrange(0, i as int),
            decreases n - i,
        {
            cells.push(row[i]);
            i += 1;
            assert(cells@ =~= row@.subrange(0, i as int));
        }
        assert(cells@ =~= row@);
        Poseidon2Degree3Cols { cells }
    }
}

} // verus!
