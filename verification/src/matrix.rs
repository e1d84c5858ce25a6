//! The status of every pair of agents, kept as a sparse matrix of status bytes.

use crate::flags::{spec_union, union};
use vstd::prelude::*;

verus! {

/// A compressed sparse matrix of sprs with status bytes as values. What it
/// holds is known only by what the functions below claim of sprs.
#[verifier::external_body]
pub struct Compressed {
    inner: sprs::CsMat<u8>,
}

/// The entries that a compressed matrix stores, by row and column of the
/// matrix it stands for, whichever way it is laid out in memory.
pub uninterp spec fn cells(m: Compressed) -> Map<(int, int), u8>;

/// The number of rows of the matrix that `m` stands for.
pub uninterp spec fn row_count(m: Compressed) -> nat;

/// The number of columns of the matrix that `m` stands for.
pub uninterp spec fn col_count(m: Compressed) -> nat;

/// The status stored at a row and column, or no event where nothing is stored.
pub open spec fn flag_at(m: Map<(int, int), u8>, row: int, col: int) -> u8 {
    if m.contains_key((row, col)) {
        m[(row, col)]
    } else {
        0
    }
}

/// The entries given by three lists of equal length: row, column and status.
pub open spec fn triplet_cells(rows: Seq<usize>, cols: Seq<usize>, data: Seq<u8>) -> Map<
    (int, int),
    u8,
> {
    Map::new(
        |k: (int, int)| exists|i: int| 0 <= i < rows.len() && #[trigger] rows[i] == k.0 && cols[i] == k.1,
        |k: (int, int)|
            data[choose|i: int| 0 <= i < rows.len() && #[trigger] rows[i] == k.0 && cols[i] == k.1],
    )
}

/// No row and column are named together twice.
pub open spec fn distinct_pairs(rows: Seq<usize>, cols: Seq<usize>) -> bool {
    forall|i: int, j: int|
        0 <= i < j < rows.len() ==> !(#[trigger] rows[i] == #[trigger] rows[j] && cols[i] == cols[j])
}

/// Two matrices merged: each entry holds the events of both, and an entry
/// without any event is not kept.
pub open spec fn merged(a: Map<(int, int), u8>, b: Map<(int, int), u8>) -> Map<(int, int), u8> {
    Map::new(
        |k: (int, int)| spec_union(flag_at(a, k.0, k.1), flag_at(b, k.0, k.1)) != 0,
        |k: (int, int)| spec_union(flag_at(a, k.0, k.1), flag_at(b, k.0, k.1)),
    )
}

/// A matrix with rows and columns exchanged.
pub open spec fn transposed(a: Map<(int, int), u8>) -> Map<(int, int), u8> {
    Map::new(|k: (int, int)| a.contains_key((k.1, k.0)), |k: (int, int)| a[(k.1, k.0)])
}

/// Builds a row-major compressed matrix with `TriMatI::from_triplets` and
/// `TriMatBase::to_csr` of sprs. Claimed of them: for indices inside the shape
/// and no pair given twice, the matrix has that shape and stores exactly the
/// given entries. (sprs panics on an index outside the shape and adds up
/// the values of a pair that is given twice.)
#[verifier::external_body]
fn csr_from_triplets(
    shape: (usize, usize),
    rows: Vec<usize>,
    cols: Vec<usize>,
    data: Vec<u8>,
) -> (m: Compressed)
    requires
        shape.0 < usize::MAX,
        rows.len() == cols.len(),
        rows.len() == data.len(),
        forall|i: int| 0 <= i < rows.len() ==> #[trigger] rows[i] < shape.0,
        forall|i: int| 0 <= i < cols.len() ==> #[trigger] cols[i] < shape.1,
        distinct_pairs(rows@, cols@),
    ensures
        row_count(m) == shape.0,
        col_count(m) == shape.1,
        cells(m) == triplet_cells(rows@, cols@, data@),
{
    Compressed { inner: sprs::TriMat::from_triplets(shape, rows, cols, data).to_csr() }
}

/// Combines two matrices entry by entry with `sprs::binop::csmat_binop`, after
/// `to_csr` has brought both to the same layout. Claimed of it: for equal
/// shapes the result has that shape, holds at each place the union of the two
/// statuses (no event where a matrix stores nothing), and stores no entry
/// without an event. (sprs panics on unequal shapes.)
#[verifier::external_body]
fn csr_union(a: &Compressed, b: &Compressed) -> (m: Compressed)
    requires
        row_count(*a) == row_count(*b),
        col_count(*a) == col_count(*b),
    ensures
        row_count(m) == row_count(*a),
        col_count(m) == col_count(*a),
        cells(m) == merged(cells(*a), cells(*b)),
{
    let (left, right) = (a.inner.to_csr(), b.inner.to_csr());
    Compressed {
        inner: sprs::binop::csmat_binop(left.view(), right.view(), |x: &u8, y: &u8| union(*x, *y)),
    }
}

/// Exchanges rows and columns with `transpose_view` and `to_csr` of sprs.
/// Claimed of them: the result has the shape turned round and stores at column
/// and row what the argument stores at row and column. (sprs lays out one
/// offset more than the result has rows, so the argument must have fewer
/// columns than the largest number there is.)
#[verifier::external_body]
fn csr_transpose(a: &Compressed) -> (m: Compressed)
    requires
        col_count(*a) < usize::MAX,
    ensures
        row_count(m) == col_count(*a),
        col_count(m) == row_count(*a),
        cells(m) == transposed(cells(*a)),
{
    Compressed { inner: a.inner.transpose_view().to_csr() }
}

/// Hands out the stored entries row by row with `to_csr`, `outer_iterator` and
/// `CsVecBase::iter` of sprs. Claimed of them: there is one list for each row;
/// the list of a row holds column and status of each entry stored in that row
/// and nothing else, and its columns rise strictly.
#[verifier::external_body]
fn csr_rows(a: &Compressed) -> (rows: Vec<Vec<(usize, u8)>>)
    ensures
        rows.len() == row_count(*a),
        forall|r: int, i: int|
            0 <= r < rows.len() && 0 <= i < rows[r].len() ==> {
                let e = #[trigger] rows[r][i];
                cells(*a).contains_key((r, e.0 as int)) && cells(*a)[(r, e.0 as int)] == e.1
            },
        forall|r: int, c: int|
            0 <= r < rows.len() && #[trigger] cells(*a).contains_key((r, c)) ==> exists|i: int|
                0 <= i < rows[r].len() && #[trigger] rows[r][i].0 == c,
        forall|r: int, i: int, j: int|
            0 <= r < rows.len() && 0 <= i < j < rows[r].len() ==> (#[trigger] rows[r][i]).0 < (
            #[trigger] rows[r][j]).0,
{
    let local = a.inner.to_csr();
    local.outer_iterator().map(|row| row.iter().map(|(c, v)| (c, *v)).collect()).collect()
}

/// A sparse matrix of status bytes over pairs of agents.
pub struct StatusMatrix {
    inner: Compressed,
    nrows: usize,
    ncols: usize,
}

impl View for StatusMatrix {
    type V = Map<(int, int), u8>;

    /// The stored entries by row and column.
    closed spec fn view(&self) -> Map<(int, int), u8> {
        cells(self.inner)
    }
}

/// The entries that `m` stores in a row, column and status, by rising column
/// up to `cols`.
pub open spec fn row_entries(m: Map<(int, int), u8>, row: int, cols: nat) -> Seq<(usize, u8)>
    decreases cols,
{
    if cols == 0 {
        Seq::empty()
    } else if m.contains_key((row, cols - 1)) {
        row_entries(m, row, (cols - 1) as nat).push(((cols - 1) as usize, m[(row, cols - 1)]))
    } else {
        row_entries(m, row, (cols - 1) as nat)
    }
}

/// The entries of a row are those that the matrix stores in it, with columns
/// that rise strictly.
pub proof fn lemma_row_entries(m: Map<(int, int), u8>, row: int, cols: nat)
    requires
        cols <= usize::MAX,
    ensures
        forall|i: int|
            0 <= i < row_entries(m, row, cols).len() ==> {
                let e = #[trigger] row_entries(m, row, cols)[i];
                &&& e.0 < cols
                &&& m.contains_key((row, e.0 as int))
                &&& m[(row, e.0 as int)] == e.1
            },
        forall|c: int|
            0 <= c < cols && #[trigger] m.contains_key((row, c)) ==> exists|i: int|
                0 <= i < row_entries(m, row, cols).len() && #[trigger] row_entries(
                    m,
                    row,
                    cols,
                )[i].0 == c,
        forall|i: int, j: int|
            0 <= i < j < row_entries(m, row, cols).len() ==> (#[trigger] row_entries(
                m,
                row,
                cols,
            )[i]).0 < (#[trigger] row_entries(m, row, cols)[j]).0,
        row_entries(m, row, cols).len() <= cols,
    decreases cols,
{
    if cols > 0 {
        let rest = row_entries(m, row, (cols - 1) as nat);
        let all = row_entries(m, row, cols);
        lemma_row_entries(m, row, (cols - 1) as nat);
        assert forall|c: int| 0 <= c < cols && #[trigger] m.contains_key((row, c)) implies exists|
            i: int,
        | 0 <= i < all.len() && #[trigger] all[i].0 == c by {
            if c == cols - 1 {
                assert(all[all.len() - 1].0 == c);
            } else {
                let i = choose|i: int| 0 <= i < rest.len() && #[trigger] rest[i].0 == c;
                assert(all[i].0 == c);
            }
        }
    }
}

/// A list of the entries of a row by strictly rising column is the list of
/// the row.
pub proof fn lemma_row_unique(m: Map<(int, int), u8>, row: int, cols: nat, list: Seq<(usize, u8)>)
    requires
        cols <= usize::MAX,
        forall|i: int|
            0 <= i < list.len() ==> {
                let e = #[trigger] list[i];
                &&& e.0 < cols
                &&& m.contains_key((row, e.0 as int))
                &&& m[(row, e.0 as int)] == e.1
            },
        forall|c: int|
            0 <= c < cols && #[trigger] m.contains_key((row, c)) ==> exists|i: int|
                0 <= i < list.len() && #[trigger] list[i].0 == c,
        forall|i: int, j: int| 0 <= i < j < list.len() ==> (#[trigger] list[i]).0 < (#[trigger] list[j]).0,
    ensures
        list == row_entries(m, row, cols),
    decreases cols,
{
    if cols == 0 {
        if list.len() > 0 {
            assert(list[0].0 < cols);
        }
        assert(list =~= Seq::empty());
    } else {
        let c = cols - 1;
        if m.contains_key((row, c)) {
            let i = choose|i: int| 0 <= i < list.len() && #[trigger] list[i].0 == c;
            if i < list.len() - 1 {
                assert(list[i].0 < list[list.len() - 1].0);
            }
            let front = list.drop_last();
            assert forall|k: int| 0 <= k < front.len() implies {
                let e = #[trigger] front[k];
                &&& e.0 < cols - 1
                &&& m.contains_key((row, e.0 as int))
                &&& m[(row, e.0 as int)] == e.1
            } by {
                assert(front[k] == list[k]);
                assert(list[k].0 < list[list.len() - 1].0);
            }
            assert forall|d: int| 0 <= d < cols - 1 && #[trigger] m.contains_key((row, d)) implies exists|
                k: int,
            | 0 <= k < front.len() && #[trigger] front[k].0 == d by {
                let k = choose|k: int| 0 <= k < list.len() && #[trigger] list[k].0 == d;
                assert(front[k] == list[k]);
            }
            assert forall|a: int, b: int| 0 <= a < b < front.len() implies (#[trigger] front[a]).0 < (
            #[trigger] front[b]).0 by {
                assert(front[a] == list[a] && front[b] == list[b]);
            }
            lemma_row_unique(m, row, (cols - 1) as nat, front);
            assert(list =~= front.push(list[list.len() - 1]));
        } else {
            assert forall|k: int| 0 <= k < list.len() implies {
                let e = #[trigger] list[k];
                &&& e.0 < cols - 1
                &&& m.contains_key((row, e.0 as int))
                &&& m[(row, e.0 as int)] == e.1
            } by {}
            lemma_row_unique(m, row, (cols - 1) as nat, list);
        }
    }
}

/// Every key of `m` lies inside a shape of `rows` by `cols`.
pub open spec fn within(m: Map<(int, int), u8>, rows: int, cols: int) -> bool {
    forall|k: (int, int)| #[trigger] m.contains_key(k) ==> 0 <= k.0 < rows && 0 <= k.1 < cols
}

impl StatusMatrix {
    #[verifier::type_invariant]
    spec fn inv(self) -> bool {
        &&& self.nrows == row_count(self.inner)
        &&& self.ncols == col_count(self.inner)
        &&& within(cells(self.inner), self.nrows as int, self.ncols as int)
    }

    /// The number of rows.
    pub closed spec fn rows(&self) -> nat {
        self.nrows as nat
    }

    /// The number of columns.
    pub closed spec fn cols(&self) -> nat {
        self.ncols as nat
    }

    /// The number of rows.
    pub fn nrows(&self) -> (n: usize)
        ensures
            n == self.rows(),
    {
        self.nrows
    }

    /// The number of columns.
    pub fn ncols(&self) -> (n: usize)
        ensures
            n == self.cols(),
    {
        self.ncols
    }

    /// The matrix of `rows` by `cols` that stores `data[i]` at row `rows[i]`
    /// and column `cols[i]`.
    pub fn from_triplets(
        shape: (usize, usize),
        rows: Vec<usize>,
        cols: Vec<usize>,
        data: Vec<u8>,
    ) -> (m: StatusMatrix)
        requires
            shape.0 < usize::MAX,
            rows.len() == cols.len(),
            rows.len() == data.len(),
            forall|i: int| 0 <= i < rows.len() ==> #[trigger] rows[i] < shape.0,
            forall|i: int| 0 <= i < cols.len() ==> #[trigger] cols[i] < shape.1,
            distinct_pairs(rows@, cols@),
        ensures
            m.rows() == shape.0,
            m.cols() == shape.1,
            m@ == triplet_cells(rows@, cols@, data@),
            within(m@, shape.0 as int, shape.1 as int),
    {
        let ghost r = rows@;
        let ghost c = cols@;
        let ghost d = data@;
        let inner = csr_from_triplets(shape, rows, cols, data);
        assert(within(triplet_cells(r, c, d), shape.0 as int, shape.1 as int));
        StatusMatrix { inner, nrows: shape.0, ncols: shape.1 }
    }

    /// The union of two matrices of one shape: each entry holds the events of
    /// both.
    pub fn merge(&self, other: &StatusMatrix) -> (m: StatusMatrix)
        requires
            self.rows() == other.rows(),
            self.cols() == other.cols(),
        ensures
            m.rows() == self.rows(),
            m.cols() == self.cols(),
            m@ == merged(self@, other@),
            within(m@, m.rows() as int, m.cols() as int),
    {
        proof {
            use_type_invariant(self);
            use_type_invariant(other);
        }
        let inner = csr_union(&self.inner, &other.inner);
        proof {
            assert forall|k: (int, int)| #[trigger] cells(inner).contains_key(k) implies 0 <= k.0
                < self.nrows && 0 <= k.1 < self.ncols by {
                crate::flags::lemma_union_idempotent(
                    flag_at(self@, k.0, k.1),
                    flag_at(other@, k.0, k.1),
                );
                assert(self@.contains_key(k) || other@.contains_key(k));
            }
        }
        StatusMatrix { inner, nrows: self.nrows, ncols: self.ncols }
    }

    /// The matrix with rows and columns exchanged.
    pub fn transpose(&self) -> (m: StatusMatrix)
        requires
            self.cols() < usize::MAX,
        ensures
            m.rows() == self.cols(),
            m.cols() == self.rows(),
            m@ == transposed(self@),
            within(m@, m.rows() as int, m.cols() as int),
    {
        proof {
            use_type_invariant(self);
        }
        let inner = csr_transpose(&self.inner);
        proof {
            assert forall|k: (int, int)| #[trigger] cells(inner).contains_key(k) implies 0 <= k.0
                < self.ncols && 0 <= k.1 < self.nrows by {
                assert(self@.contains_key((k.1, k.0)));
            }
        }
        StatusMatrix { inner, nrows: self.ncols, ncols: self.nrows }
    }

    /// The stored entries, one list for each row: column and status, by
    /// rising column.
    pub fn by_row(&self) -> (rows: Vec<Vec<(usize, u8)>>)
        ensures
            rows.len() == self.rows(),
            within(self@, self.rows() as int, self.cols() as int),
            forall|r: int|
                0 <= r < rows.len() ==> (#[trigger] rows[r])@ == row_entries(self@, r, self.cols()),
    {
        proof {
            use_type_invariant(self);
        }
        let rows = csr_rows(&self.inner);
        proof {
            assert forall|r: int| 0 <= r < rows.len() implies (#[trigger] rows[r])@ == row_entries(
                self@,
                r,
                self.cols(),
            ) by {
                let list = rows[r]@;
                assert forall|i: int| 0 <= i < list.len() implies {
                    let e = #[trigger] list[i];
                    &&& e.0 < self.cols()
                    &&& self@.contains_key((r, e.0 as int))
                    &&& self@[(r, e.0 as int)] == e.1
                } by {
                    let e = rows[r][i];
                    assert(cells(self.inner).contains_key((r, e.0 as int)));
                }
                lemma_row_unique(self@, r, self.cols(), list);
            }
        }
        rows
    }
}

/// Merging the same matrix in twice gives what merging it in once gives.
pub proof fn lemma_merge_idempotent(acc: Map<(int, int), u8>, phase: Map<(int, int), u8>)
    ensures
        merged(merged(acc, phase), phase) == merged(acc, phase),
{
    let once = merged(acc, phase);
    let twice = merged(once, phase);
    assert forall|k: (int, int)| #[trigger]
        twice.dom().contains(k) == once.dom().contains(k) && (once.dom().contains(k) ==> twice[k]
            == once[k]) by {
        crate::flags::lemma_union_idempotent(flag_at(acc, k.0, k.1), flag_at(phase, k.0, k.1));
        crate::flags::lemma_union_idempotent(flag_at(once, k.0, k.1), flag_at(phase, k.0, k.1));
    }
    assert(twice =~= once);
}

/// The order in which two matrices are merged does not matter.
pub proof fn lemma_merge_commutes(a: Map<(int, int), u8>, b: Map<(int, int), u8>)
    ensures
        merged(a, b) == merged(b, a),
{
    let ab = merged(a, b);
    let ba = merged(b, a);
    assert forall|k: (int, int)| #[trigger]
        ab.dom().contains(k) == ba.dom().contains(k) && (ab.dom().contains(k) ==> ab[k] == ba[k]) by {
        crate::flags::lemma_union_commutes(flag_at(a, k.0, k.1), flag_at(b, k.0, k.1));
    }
    assert(ab =~= ba);
}

/// Three matrices merge to the same whichever two are merged first.
pub proof fn lemma_merge_associates(
    a: Map<(int, int), u8>,
    b: Map<(int, int), u8>,
    c: Map<(int, int), u8>,
)
    ensures
        merged(merged(a, b), c) == merged(a, merged(b, c)),
{
    let left = merged(merged(a, b), c);
    let right = merged(a, merged(b, c));
    assert forall|k: (int, int)| #[trigger]
        left.dom().contains(k) == right.dom().contains(k) && (left.dom().contains(k) ==> left[k]
            == right[k]) by {
        let x = flag_at(a, k.0, k.1);
        let y = flag_at(b, k.0, k.1);
        let z = flag_at(c, k.0, k.1);
        crate::flags::lemma_union_associates(x, y, z);
        crate::flags::lemma_union_idempotent(x, y);
        crate::flags::lemma_union_idempotent(y, z);
    }
    assert(left =~= right);
}

} // verus!
