//! Permutations of the columns of a matrix.
use vstd::prelude::*;

verus! {

/// Whether `s` holds each of `0`, ..., `n - 1` exactly once.
pub open spec fn is_permutation(s: Seq<usize>, n: int) -> bool {
    &&& s.len() == n
    &&& forall|i: int| 0 <= i < n ==> #[trigger] s[i] < n
    &&& forall|i: int, j: int| 0 <= i < j < n ==> #[trigger] s[i] != #[trigger] s[j]
}

/// `s` with the entries `i` and `j` exchanged.
pub open spec fn exchange<A>(s: Seq<A>, i: int, j: int) -> Seq<A> {
    s.update(i, s[j]).update(j, s[i])
}

/// A permutation matrix, held as a vector. Entry `i` specifies which column of
/// the identity matrix is column `i`.
#[verifier::external_body]
pub struct Permutation {
    entries: nalgebra::DVector<usize>,
}

/// The entries of the vector that a permutation holds, from the first row to the last.
pub uninterp spec fn permutation_entries(p: Permutation) -> Seq<usize>;

impl View for Permutation {
    type V = Seq<usize>;

    open spec fn view(&self) -> Seq<usize> {
        permutation_entries(*self)
    }
}

impl Permutation {
    /// Calls `nalgebra::DVector::from_iterator` on `0..n`: the vector has `n` rows, and row `i`
    /// holds what the iterator yields in place `i`, which is `i`.
    #[verifier::external_body]
    pub(crate) fn identity(n: usize) -> (p: Permutation)
        ensures
            permutation_entries(p) == Seq::new(n as nat, |i: int| i as usize),
    {
        Permutation { entries: nalgebra::DVector::from_iterator(n, 0..n) }
    }

    /// Calls `nalgebra::DVector::from_vec`: the vector has one row for each element, in order.
    #[verifier::external_body]
    fn from_vec(v: Vec<usize>) -> (p: Permutation)
        ensures
            permutation_entries(p) == v@,
    {
        Permutation { entries: nalgebra::DVector::from_vec(v) }
    }

    /// Calls `nrows` of `nalgebra::DVector`: the number of rows.
    #[verifier::external_body]
    fn nrows(&self) -> (n: usize)
        ensures
            n == permutation_entries(*self).len(),
    {
        self.entries.nrows()
    }

    /// Calls the index operator of `nalgebra::DVector`: the entry in row `i`. It panics where
    /// there is no such row.
    #[verifier::external_body]
    pub(crate) fn entry(&self, i: usize) -> (r: usize)
        requires
            i < permutation_entries(*self).len(),
        ensures
            r == permutation_entries(*self)[i as int],
    {
        self.entries[i]
    }

    /// Calls `swap_rows` of `nalgebra::DVector`: exchanges the entries in the rows `i` and `j`.
    /// It panics where one of the rows does not exist.
    #[verifier::external_body]
    pub(crate) fn swap_rows(&mut self, i: usize, j: usize)
        requires
            i < permutation_entries(*old(self)).len(),
            j < permutation_entries(*old(self)).len(),
        ensures
            permutation_entries(*final(self)) == exchange(
                permutation_entries(*old(self)),
                i as int,
                j as int,
            ),
    {
        self.entries.swap_rows(i, j);
    }

    /// The permutation with the given entries, or `None` where these are not a permutation of
    /// `0`, ..., `indices.len() - 1`.
    pub fn from_indices(indices: Vec<usize>) -> (r: Option<Permutation>)
        ensures
            r is Some <==> is_permutation(indices@, indices@.len() as int),
            r matches Some(p) ==> p@ == indices@,
    {
        let n: usize = indices.len();
        let mut i: usize = 0;
        while i < n
            invariant
                n == indices@.len(),
                i <= n,
                forall|k: int| 0 <= k < i ==> #[trigger] indices@[k] < n,
                forall|k: int, l: int|
                    0 <= k < l < i ==> #[trigger] indices@[k] != #[trigger] indices@[l],
            decreases n - i,
        {
            if indices[i] >= n {
                return None;
            }
            let mut k: usize = 0;
            while k < i
                invariant
                    n == indices@.len(),
                    k <= i < n,
                    forall|l: int| 0 <= l < k ==> #[trigger] indices@[l] != indices@[i as int],
                decreases i - k,
            {
                if indices[k] == indices[i] {
                    return None;
                }
                k += 1;
            }
            i += 1;
        }
        Some(Permutation::from_vec(indices))
    }

    /// The entries of the permutation.
    pub fn to_indices(&self) -> (r: Vec<usize>)
        ensures
            r@ == self@,
    {
        let n: usize = self.nrows();
        let mut r: Vec<usize> = Vec::new();
        let mut i: usize = 0;
        while i < n
            invariant
                n == self@.len(),
                i <= n,
                r@.len() == i,
                forall|k: int| 0 <= k < i ==> #[trigger] r@[k] == self@[k],
            decreases n - i,
        {
            r.push(self.entry(i));
            i += 1;
        }
        r
    }
}

/// Exchanging two entries of a permutation gives a permutation.
pub proof fn lemma_exchange_is_permutation(s: Seq<usize>, n: int, i: int, j: int)
    requires
        is_permutation(s, n),
        0 <= i < n,
        0 <= j < n,
    ensures
        is_permutation(exchange(s, i, j), n),
{
}

} // verus!
