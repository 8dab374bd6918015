//! Sparse similarity matrix in compressed row form, over a sorted set of
//! entry identifiers, with self-similarity one on the diagonal.

use vstd::prelude::*;
use crate::types::{Ratio, lex_lt, has_view, sorted_unique_ids};

verus! {

/// The names that the triples mention, in order: source then target.
pub open spec fn triple_names(edges: Seq<(String, String, u64)>) -> Seq<String>
    decreases edges.len(),
{
    if edges.len() == 0 {
        Seq::empty()
    } else {
        triple_names(edges.drop_last()).push(edges.last().0).push(edges.last().1)
    }
}

proof fn lemma_triple_names_index(edges: Seq<(String, String, u64)>, t: int)
    requires
        0 <= t < edges.len(),
    ensures
        triple_names(edges).len() == 2 * edges.len(),
        triple_names(edges)[2 * t] == edges[t].0,
        triple_names(edges)[2 * t + 1] == edges[t].1,
    decreases edges.len(),
{
    lemma_triple_names_len(edges.drop_last());
    if t < edges.len() - 1 {
        lemma_triple_names_index(edges.drop_last(), t);
        assert(edges.drop_last()[t] == edges[t]);
    }
}

proof fn lemma_triple_names_len(edges: Seq<(String, String, u64)>)
    ensures
        triple_names(edges).len() == 2 * edges.len(),
    decreases edges.len(),
{
    if edges.len() > 0 {
        lemma_triple_names_len(edges.drop_last());
    }
}

/// Sum of the weights of the triples at or above the threshold that join
/// the two distinct names `a` and `b`, in either direction.
pub open spec fn edge_sum(edges: Seq<(String, String, u64)>, a: Seq<char>, b: Seq<char>, threshold: u64) -> int
    decreases edges.len(),
{
    if edges.len() == 0 {
        0
    } else {
        let t = edges.last();
        edge_sum(edges.drop_last(), a, b, threshold) + if t.2 >= threshold && t.0@ != t.1@ && ((
        t.0@ == a && t.1@ == b) || (t.0@ == b && t.1@ == a)) {
            t.2 as int
        } else {
            0
        }
    }
}

/// The matrix entry for row `i`, column `j` of the identifier list: one on
/// the diagonal, else the summed weight of the matching triples.
pub open spec fn sm_entry(
    edges: Seq<(String, String, u64)>,
    ids: Seq<String>,
    threshold: u64,
    i: int,
    j: int,
) -> int {
    if i == j {
        1_000_000
    } else {
        edge_sum(edges, ids[i]@, ids[j]@, threshold)
    }
}

/// The entry is symmetric in its two indices.
pub proof fn lemma_sm_entry_symmetric(
    edges: Seq<(String, String, u64)>,
    ids: Seq<String>,
    threshold: u64,
    i: int,
    j: int,
)
    ensures
        sm_entry(edges, ids, threshold, i, j) == sm_entry(edges, ids, threshold, j, i),
    decreases edges.len(),
{
    if i != j {
        lemma_edge_sum_symmetric(edges, ids[i]@, ids[j]@, threshold);
    }
}

proof fn lemma_edge_sum_symmetric(edges: Seq<(String, String, u64)>, a: Seq<char>, b: Seq<char>, threshold: u64)
    ensures
        edge_sum(edges, a, b, threshold) == edge_sum(edges, b, a, threshold),
    decreases edges.len(),
{
    if edges.len() > 0 {
        lemma_edge_sum_symmetric(edges.drop_last(), a, b, threshold);
    }
}

/// First stored value for column `j` in a compressed row, zero if absent.
pub open spec fn row_entry(row: Seq<(usize, u64)>, j: int) -> int
    decreases row.len(),
{
    if row.len() == 0 {
        0
    } else if (row[0].0 as int) == j {
        row[0].1 as int
    } else {
        row_entry(row.drop_first(), j)
    }
}

/// Sum of the stored-entry counts of the rows.
pub open spec fn total_stored(rows: Seq<Vec<(usize, u64)>>) -> nat
    decreases rows.len(),
{
    if rows.len() == 0 {
        0
    } else {
        total_stored(rows.drop_last()) + rows.last()@.len()
    }
}


/// What the matrix invariant guarantees, for callers: as many rows as
/// identifiers, identifiers strictly ascending (hence duplicate-free),
/// every stored column in range, columns strictly ascending within a row
/// (hence at most `n` stored entries per row and no duplicate column), and
/// the value at `(i, j)` is exactly what the stored row holds for `j`.
pub proof fn lemma_matrix_structure(m: SparseSimilarityMatrix)
    requires
        m.wf(),
    ensures
        m.rows_view().len() == m.n(),
        m.ids_view().len() == m.n(),
        forall|k1: int, k2: int|
            0 <= k1 < k2 < m.n() ==> lex_lt(m.ids_view()[k1]@, m.ids_view()[k2]@),
        forall|k1: int, k2: int|
            0 <= k1 < k2 < m.n() ==> m.ids_view()[k1]@ != m.ids_view()[k2]@,
        forall|i: int, k: int|
            #![trigger m.rows_view()[i]@[k]]
            0 <= i < m.n() && 0 <= k < m.rows_view()[i]@.len() ==> (m.rows_view()[i]@[k].0 as int)
                < m.n(),
        forall|i: int, k1: int, k2: int|
            #![trigger m.rows_view()[i]@[k1], m.rows_view()[i]@[k2]]
            0 <= i < m.n() && 0 <= k1 < k2 < m.rows_view()[i]@.len() ==> m.rows_view()[i]@[k1].0
                < m.rows_view()[i]@[k2].0,
        forall|i: int| 0 <= i < m.n() ==> (#[trigger] m.rows_view()[i])@.len() <= m.n(),
        forall|i: int, j: int|
            0 <= i < m.n() ==> #[trigger] m.entry(i, j) == row_entry(m.rows_view()[i]@, j),
{
    assert forall|k1: int, k2: int| 0 <= k1 < k2 < m.n() implies m.ids_view()[k1]@
        != m.ids_view()[k2]@ by {
        crate::types::lemma_lex_asymmetric(m.ids_view()[k1]@, m.ids_view()[k2]@);
    }
    assert forall|i: int| 0 <= i < m.n() implies (#[trigger] m.rows_view()[i])@.len() <= m.n() by {
        lemma_ascending_len(m.rows_view()[i]@, m.n() as int);
    }
}

/// Symmetric weighted similarity matrix in compressed row form: one row of
/// `(column, weight)` pairs per identifier, columns strictly ascending,
/// zeroes not stored, the diagonal exactly one.
pub struct SparseSimilarityMatrix {
    ids: Vec<String>,
    rows: Vec<Vec<(usize, u64)>>,
}

impl SparseSimilarityMatrix {
    /// Number of rows and columns.
    pub closed spec fn n(self) -> nat {
        self.ids@.len()
    }

    /// The identifiers, sorted strictly ascending.
    pub closed spec fn ids_view(self) -> Seq<String> {
        self.ids@
    }

    /// The stored rows.
    pub closed spec fn rows_view(self) -> Seq<Vec<(usize, u64)>> {
        self.rows@
    }

    /// The matrix value at `(i, j)`: the stored weight, or zero.
    pub closed spec fn entry(self, i: int, j: int) -> int {
        row_entry(self.rows@[i]@, j)
    }

    /// Structural invariant.
    pub closed spec fn wf(self) -> bool {
        &&& self.rows@.len() == self.ids@.len()
        &&& forall|k1: int, k2: int|
            0 <= k1 < k2 < self.ids@.len() ==> lex_lt(self.ids@[k1]@, self.ids@[k2]@)
        &&& forall|i: int, k: int|
            #![trigger self.rows@[i]@[k]]
            0 <= i < self.rows@.len() && 0 <= k < self.rows@[i]@.len() ==> (self.rows@[i]@[k].0
                as int) < self.ids@.len()
        &&& forall|i: int, k1: int, k2: int|
            #![trigger self.rows@[i]@[k1], self.rows@[i]@[k2]]
            0 <= i < self.rows@.len() && 0 <= k1 < k2 < self.rows@[i]@.len() ==> self.rows@[i]@[k1].0
                < self.rows@[i]@[k2].0
    }

    /// Matrix dimensions.
    pub fn shape(&self) -> (r: (usize, usize))
        requires
            self.wf(),
        ensures
            r.0 == self.n(),
            r.1 == self.n(),
    {
        (self.ids.len(), self.ids.len())
    }

    /// Number of stored entries.
    pub fn nnz(&self) -> (r: usize)
        requires
            self.wf(),
            total_stored(self.rows_view()) <= usize::MAX,
        ensures
            r == total_stored(self.rows_view()),
    {
        let mut total: usize = 0;
        let mut i: usize = 0;
        while i < self.rows.len()
            invariant
                i <= self.rows@.len(),
                total_stored(self.rows@) <= usize::MAX,
                total == total_stored(self.rows@.take(i as int)),
                total <= total_stored(self.rows@),
            decreases self.rows@.len() - i,
        {
            proof {
                assert(self.rows@.take(i + 1).drop_last() =~= self.rows@.take(i as int));
                assert(self.rows@.take(i + 1).last() == self.rows@[i as int]);
                lemma_total_stored_prefix(self.rows@, i + 1);
            }
            total = total + self.rows[i].len();
            i = i + 1;
        }
        proof {
            assert(self.rows@.take(self.rows@.len() as int) =~= self.rows@);
        }
        total
    }

    /// Fraction of entries not stored, as an exact ratio; zero for the
    /// empty matrix.
    pub fn sparsity(&self) -> (r: Ratio)
        requires
            self.wf(),
            self.n() <= 0xffff_ffff,
            total_stored(self.rows_view()) <= usize::MAX,
        ensures
            self.n() == 0 ==> r.num == 0 && r.den == 1,
            self.n() > 0 ==> r.num == self.n() * self.n() - total_stored(self.rows_view())
                && r.den == self.n() * self.n(),
    {
        let n = self.ids.len();
        if n == 0 {
            return Ratio::zero();
        }
        proof {
            assert((n as int) * (n as int) <= 0xffff_ffff * 0xffff_ffffint && (n as int) * (
            n as int) >= 1) by (nonlinear_arith)
                requires 1 <= n <= 0xffff_ffff;
        }
        let total: u64 = (n as u64) * (n as u64);
        let stored = self.nnz();
        proof {
            lemma_total_stored_le(self.rows@, self.ids@.len() as int);
        }
        Ratio::new(total - (stored as u64), total)
    }

    /// The identifiers of the matrix, in row order.
    pub fn entry_ids(&self) -> (r: &Vec<String>)
        ensures
            r@ == self.ids_view(),
    {
        &self.ids
    }
}

proof fn lemma_total_stored_prefix(rows: Seq<Vec<(usize, u64)>>, upto: int)
    requires
        0 <= upto <= rows.len(),
    ensures
        total_stored(rows.take(upto)) <= total_stored(rows),
    decreases rows.len() - upto,
{
    if upto < rows.len() {
        lemma_total_stored_prefix(rows, upto + 1);
        assert(rows.take(upto + 1).drop_last() =~= rows.take(upto));
    } else {
        assert(rows.take(upto) =~= rows);
    }
}

proof fn lemma_total_stored_le(rows: Seq<Vec<(usize, u64)>>, n: int)
    requires
        rows.len() <= n,
        forall|i: int, k1: int, k2: int|
            #![trigger rows[i]@[k1], rows[i]@[k2]]
            0 <= i < rows.len() && 0 <= k1 < k2 < rows[i]@.len() ==> rows[i]@[k1].0
                < rows[i]@[k2].0,
        forall|i: int, k: int|
            #![trigger rows[i]@[k]]
            0 <= i < rows.len() && 0 <= k < rows[i]@.len() ==> (rows[i]@[k].0 as int) < n,
    ensures
        total_stored(rows) <= rows.len() * n,
    decreases rows.len(),
{
    if rows.len() > 0 {
        let pre = rows.drop_last();
        assert forall|i: int, k1: int, k2: int|
            #![trigger pre[i]@[k1], pre[i]@[k2]]
            0 <= i < pre.len() && 0 <= k1 < k2 < pre[i]@.len() implies pre[i]@[k1].0
            < pre[i]@[k2].0 by {
            assert(pre[i] == rows[i]);
        }
        assert forall|i: int, k: int|
            #![trigger pre[i]@[k]]
            0 <= i < pre.len() && 0 <= k < pre[i]@.len() implies (pre[i]@[k].0 as int) < n by {
            assert(pre[i] == rows[i]);
        }
        lemma_total_stored_le(pre, n);
        let last = rows.last()@;
        lemma_ascending_len(last, n);
        assert((rows.len() - 1) * n + n == rows.len() * n) by (nonlinear_arith);
    }
}

proof fn lemma_ascending_len(row: Seq<(usize, u64)>, n: int)
    requires
        n >= 0,
        forall|k1: int, k2: int|
            #![trigger row[k1], row[k2]]
            0 <= k1 < k2 < row.len() ==> row[k1].0 < row[k2].0,
        forall|k: int| 0 <= k < row.len() ==> ((#[trigger] row[k]).0 as int) < n,
    ensures
        row.len() <= n,
{
    if row.len() > 0 {
        lemma_ascending_min(row, row.len() - 1);
        assert((row[row.len() - 1].0 as int) < n);
    }
}

proof fn lemma_ascending_min(row: Seq<(usize, u64)>, k: int)
    requires
        forall|k1: int, k2: int|
            #![trigger row[k1], row[k2]]
            0 <= k1 < k2 < row.len() ==> row[k1].0 < row[k2].0,
        0 <= k < row.len(),
    ensures
        (row[k].0 as int) >= k,
    decreases k,
{
    if k > 0 {
        lemma_ascending_min(row, k - 1);
    }
}


/// Index of the first identifier whose view is `v`, or `-1`.
pub open spec fn id_index(ids: Seq<String>, v: Seq<char>) -> int
    decreases ids.len(),
{
    if ids.len() == 0 {
        -1
    } else if ids[0]@ == v {
        0
    } else {
        let r = id_index(ids.drop_first(), v);
        if r < 0 {
            -1
        } else {
            r + 1
        }
    }
}

proof fn lemma_id_index_range(ids: Seq<String>, v: Seq<char>)
    ensures
        -1 <= id_index(ids, v) < ids.len(),
        id_index(ids, v) >= 0 ==> ids[id_index(ids, v)]@ == v,
    decreases ids.len(),
{
    if ids.len() > 0 && ids[0]@ != v {
        lemma_id_index_range(ids.drop_first(), v);
    }
}

/// Scan for the row of an identifier.
fn find_row(ids: &Vec<String>, entry_id: &str) -> (r: Option<usize>)
    ensures
        match r {
            Option::Some(i) => (i as int) == id_index(ids@, entry_id@),
            Option::None => id_index(ids@, entry_id@) < 0,
        },
{
    let mut i: usize = 0;
    proof {
        assert(ids@.skip(0) =~= ids@);
    }
    while i < ids.len()
        invariant
            i <= ids@.len(),
            id_index(ids@, entry_id@) == if id_index(ids@.skip(i as int), entry_id@) < 0 {
                -1int
            } else {
                id_index(ids@.skip(i as int), entry_id@) + i
            },
        decreases ids@.len() - i,
    {
        proof {
            assert(ids@.skip(i as int)[0] == ids@[i as int]);
            assert(ids@.skip(i as int).drop_first() =~= ids@.skip(i + 1));
        }
        if crate::types::str_eq(ids[i].as_str(), entry_id) {
            return Some(i);
        }
        i = i + 1;
    }
    proof {
        assert(ids@.skip(ids@.len() as int).len() == 0);
    }
    None
}

/// The weight stored for column `j` of row `i`, or zero.
fn entry_get(m: &SparseSimilarityMatrix, i: usize, j: usize) -> (r: u64)
    requires
        m.wf(),
        (i as int) < m.n(),
    ensures
        r == m.entry(i as int, j as int),
{
    let row = m.row_ref(i);
    let mut kk: usize = 0;
    proof {
        assert(row@.skip(0) =~= row@);
    }
    while kk < row.len()
        invariant
            kk <= row@.len(),
            m.wf(),
            (i as int) < m.n(),
            row@ == m.rows_view()[i as int]@,
            m.entry(i as int, j as int) == row_entry(row@.skip(kk as int), j as int),
        decreases row@.len() - kk,
    {
        proof {
            assert(row@.skip(kk as int)[0] == row@[kk as int]);
            assert(row@.skip(kk as int).drop_first() =~= row@.skip(kk + 1));
        }
        if row[kk].0 == j {
            return row[kk].1;
        }
        kk = kk + 1;
    }
    proof {
        assert(row@.skip(row@.len() as int).len() == 0);
    }
    0
}

proof fn lemma_row_entry_push(row: Seq<(usize, u64)>, c: usize, v: u64, j: int)
    requires
        forall|k: int| 0 <= k < row.len() ==> ((#[trigger] row[k]).0 as int) < c,
    ensures
        row_entry(row.push((c, v)), j) == if j == c {
            v as int
        } else {
            row_entry(row, j)
        },
    decreases row.len(),
{
    let p = row.push((c, v));
    if row.len() == 0 {
        assert(p[0] == (c, v));
        assert(p.drop_first() =~= Seq::<(usize, u64)>::empty());
        assert(row_entry(p.drop_first(), j) == 0);
        if (c as int) == j {
            assert(row_entry(p, j) == v as int);
        } else {
            assert(row_entry(p, j) == 0);
        }
    } else {
        assert(p[0] == row[0]);
        assert(p.drop_first() =~= row.drop_first().push((c, v)));
        assert forall|k: int| 0 <= k < row.drop_first().len() implies ((#[trigger] row.drop_first()[
        k]).0 as int) < c by {
            assert(row.drop_first()[k] == row[k + 1]);
        }
        lemma_row_entry_push(row.drop_first(), c, v, j);
        assert(row_entry(p.drop_first(), j) == row_entry(row.drop_first().push((c, v)), j));
        if (row[0].0 as int) == j {
            assert(row_entry(p, j) == row[0].1 as int);
            assert(row_entry(row, j) == row[0].1 as int);
            assert((row[0].0 as int) < c);
        } else {
            assert(row_entry(p, j) == row_entry(p.drop_first(), j));
            assert(row_entry(row, j) == row_entry(row.drop_first(), j));
        }
    }
}

proof fn lemma_row_entry_absent(row: Seq<(usize, u64)>, j: int)
    requires
        forall|k: int| 0 <= k < row.len() ==> ((#[trigger] row[k]).0 as int) != j,
    ensures
        row_entry(row, j) == 0,
    decreases row.len(),
{
    if row.len() > 0 {
        assert forall|k: int| 0 <= k < row.drop_first().len() implies ((#[trigger] row.drop_first()[
        k]).0 as int) != j by {
            assert(row.drop_first()[k] == row[k + 1]);
        }
        lemma_row_entry_absent(row.drop_first(), j);
    }
}

impl SparseSimilarityMatrix {
    #[verifier::inline]
    pub(crate) open spec fn spec_row(self, i: int) -> Seq<(usize, u64)> {
        self.rows_view()[i]@
    }

    fn row_ref(&self, i: usize) -> (r: &Vec<(usize, u64)>)
        requires
            self.wf(),
            (i as int) < self.n(),
        ensures
            r@ == self.rows_view()[i as int]@,
    {
        &self.rows[i]
    }

    /// Build the matrix from weighted triples and a threshold: the
    /// identifiers are the distinct names sorted ascending, every entry is
    /// the summed weight of its matching triples at or above the threshold,
    /// and the diagonal is exactly one.
    pub fn from_edges(edges: Vec<(String, String, u64)>, threshold: u64) -> (m: SparseSimilarityMatrix)
        requires
            forall|t: int| 0 <= t < edges@.len() ==> (#[trigger] edges@[t]).2 <= 1_000_000,
            edges@.len() <= 0x10_0000,
        ensures
            m.wf(),
            m.n() == m.ids_view().len(),
            forall|k1: int, k2: int|
                0 <= k1 < k2 < m.n() ==> lex_lt(m.ids_view()[k1]@, m.ids_view()[k2]@),
            forall|k: int| #![trigger m.ids_view()[k]]
                0 <= k < m.n() ==> has_view(triple_names(edges@), m.ids_view()[k]@),
            forall|j: int| #![trigger triple_names(edges@)[j]]
                0 <= j < triple_names(edges@).len() ==> has_view(
                    m.ids_view(),
                    triple_names(edges@)[j]@,
                ),
            forall|i: int, j: int|
                #![trigger m.entry(i, j)]
                0 <= i < m.n() && 0 <= j < m.n() ==> m.entry(i, j) == sm_entry(
                    edges@,
                    m.ids_view(),
                    threshold,
                    i,
                    j,
                ),
            forall|i: int| 0 <= i < m.n() ==> #[trigger] m.entry(i, i) == 1_000_000,
    {
        let mut names: Vec<String> = Vec::new();
        let mut t: usize = 0;
        while t < edges.len()
            invariant
                t <= edges@.len(),
                names@ == triple_names(edges@.take(t as int)),
            decreases edges@.len() - t,
        {
            proof {
                assert(edges@.take(t + 1).drop_last() =~= edges@.take(t as int));
                assert(edges@.take(t + 1).last() == edges@[t as int]);
            }
            names.push(edges[t].0.clone());
            names.push(edges[t].1.clone());
            t = t + 1;
        }
        proof {
            assert(edges@.take(edges@.len() as int) =~= edges@);
        }
        let ids = sorted_unique_ids(&names);
        let n = ids.len();
        let mut rows: Vec<Vec<(usize, u64)>> = Vec::new();
        let mut i: usize = 0;
        while i < n
            invariant
                i <= n,
                n == ids@.len(),
                names@ == triple_names(edges@),
                forall|tt: int| 0 <= tt < edges@.len() ==> (#[trigger] edges@[tt]).2 <= 1_000_000,
                edges@.len() <= 0x10_0000,
                rows@.len() == i,
                forall|i2: int, k: int|
                    #![trigger rows@[i2]@[k]]
                    0 <= i2 < i && 0 <= k < rows@[i2]@.len() ==> (rows@[i2]@[k].0 as int) < n,
                forall|i2: int, k1: int, k2: int|
                    #![trigger rows@[i2]@[k1], rows@[i2]@[k2]]
                    0 <= i2 < i && 0 <= k1 < k2 < rows@[i2]@.len() ==> rows@[i2]@[k1].0
                        < rows@[i2]@[k2].0,
                forall|i2: int, j: int|
                    #![trigger row_entry(rows@[i2]@, j)]
                    0 <= i2 < i && 0 <= j < n ==> row_entry(rows@[i2]@, j) == sm_entry(
                        edges@,
                        ids@,
                        threshold,
                        i2,
                        j,
                    ),
            decreases n - i,
        {
            let mut row: Vec<(usize, u64)> = Vec::new();
            let mut j: usize = 0;
            while j < n
                invariant
                    j <= n,
                    i < n,
                    n == ids@.len(),
                    forall|tt: int|
                        0 <= tt < edges@.len() ==> (#[trigger] edges@[tt]).2 <= 1_000_000,
                    edges@.len() <= 0x10_0000,
                    forall|k: int| 0 <= k < row@.len() ==> ((#[trigger] row@[k]).0 as int) < j,
                    forall|k1: int, k2: int|
                        #![trigger row@[k1], row@[k2]]
                        0 <= k1 < k2 < row@.len() ==> row@[k1].0 < row@[k2].0,
                    forall|jj: int|
                        #![trigger row_entry(row@, jj)]
                        0 <= jj < j ==> row_entry(row@, jj) == sm_entry(
                            edges@,
                            ids@,
                            threshold,
                            i as int,
                            jj,
                        ),
                decreases n - j,
            {
                let v: u64 = if i == j {
                    1_000_000
                } else {
                    let mut sum: u64 = 0;
                    let mut t: usize = 0;
                    while t < edges.len()
                        invariant
                            t <= edges@.len(),
                            i < n,
                            j < n,
                            n == ids@.len(),
                            forall|tt: int|
                                0 <= tt < edges@.len() ==> (#[trigger] edges@[tt]).2 <= 1_000_000,
                            edges@.len() <= 0x10_0000,
                            sum == edge_sum(
                                edges@.take(t as int),
                                ids@[i as int]@,
                                ids@[j as int]@,
                                threshold,
                            ),
                            sum <= 1_000_000 * t,
                        decreases edges@.len() - t,
                    {
                        proof {
                            assert(edges@.take(t + 1).drop_last() =~= edges@.take(t as int));
                            assert(edges@.take(t + 1).last() == edges@[t as int]);
                        }
                        let e = &edges[t];
                        if e.2 >= threshold && !(e.0 == e.1) && ((e.0 == ids[i] && e.1 == ids[j])
                            || (e.0 == ids[j] && e.1 == ids[i])) {
                            sum = sum + e.2;
                        }
                        t = t + 1;
                    }
                    proof {
                        assert(edges@.take(edges@.len() as int) =~= edges@);
                    }
                    sum
                };
                let ghost old_row = row@;
                if v > 0 {
                    row.push((j, v));
                }
                proof {
                    if v > 0 {
                        lemma_row_entry_push(old_row, j, v, j as int);
                        assert forall|jj: int| 0 <= jj < j + 1 implies #[trigger] row_entry(
                            row@,
                            jj,
                        ) == sm_entry(edges@, ids@, threshold, i as int, jj) by {
                            lemma_row_entry_push(old_row, j, v, jj);
                        }
                    } else {
                        assert forall|jj: int| 0 <= jj < j + 1 implies #[trigger] row_entry(
                            row@,
                            jj,
                        ) == sm_entry(edges@, ids@, threshold, i as int, jj) by {
                            if jj == j {
                                lemma_row_entry_absent(row@, jj);
                            }
                        }
                    }
                }
                j = j + 1;
            }
            rows.push(row);
            i = i + 1;
        }
        let m = SparseSimilarityMatrix { ids, rows };
        proof {
            assert forall|i2: int| 0 <= i2 < m.n() implies #[trigger] m.entry(i2, i2)
                == 1_000_000 by {
                assert(row_entry(m.rows@[i2]@, i2) == sm_entry(edges@, m.ids@, threshold, i2, i2));
            }
        }
        m
    }

    /// Stored neighbors of an identifier with weight at or above the
    /// threshold, diagonal excluded, in storage (ascending column) order.
    pub fn neighbors_above_threshold(&self, entry_id: &str, threshold: u64) -> (r: Vec<(String, u64)>)
        requires
            self.wf(),
        ensures
            id_index(self.ids_view(), entry_id@) < 0 ==> r@.len() == 0,
            ({
                let idx = id_index(self.ids_view(), entry_id@);
                idx >= 0 ==> {
                    let row = self.rows_view()[idx]@;
                    let kept = filter_row(row, idx, threshold);
                    &&& r@.len() == kept.len()
                    &&& forall|t: int|
                        0 <= t < r@.len() ==> (#[trigger] r@[t]).1 == kept[t].1 && r@[t].0@
                            == self.ids_view()[kept[t].0 as int]@
                }
            }),
    {
        let idx = match find_row(&self.ids, entry_id) {
            Some(i) => i,
            None => {
                return Vec::new();
            },
        };
        proof {
            lemma_id_index_range(self.ids@, entry_id@);
        }
        let row = &self.rows[idx];
        let mut r: Vec<(String, u64)> = Vec::new();
        let mut kk: usize = 0;
        while kk < row.len()
            invariant
                kk <= row@.len(),
                (idx as int) < self.n(),
                self.wf(),
                row@ == self.rows_view()[idx as int]@,
                ({
                    let kept = filter_row(row@.take(kk as int), idx as int, threshold);
                    &&& r@.len() == kept.len()
                    &&& forall|t: int|
                        0 <= t < r@.len() ==> (#[trigger] r@[t]).1 == kept[t].1 && r@[t].0@
                            == self.ids_view()[kept[t].0 as int]@
                }),
            decreases row@.len() - kk,
        {
            proof {
                assert(row@.take(kk + 1).drop_last() =~= row@.take(kk as int));
                assert(row@.take(kk + 1).last() == row@[kk as int]);
            }
            let (c, w) = row[kk];
            if c != idx && w >= threshold {
                r.push((self.ids[c].clone(), w));
            }
            kk = kk + 1;
        }
        proof {
            assert(row@.take(row@.len() as int) =~= row@);
        }
        r
    }
}

/// The row entries that survive the threshold, diagonal excluded.
pub open spec fn filter_row(row: Seq<(usize, u64)>, diag: int, threshold: u64) -> Seq<(usize, u64)>
    decreases row.len(),
{
    if row.len() == 0 {
        Seq::empty()
    } else {
        let prefix = filter_row(row.drop_last(), diag, threshold);
        let e = row.last();
        if (e.0 as int) != diag && e.1 >= threshold {
            prefix.push(e)
        } else {
            prefix
        }
    }
}


/// `e1` comes strictly before `e2` in neighbor order: larger weight first,
/// then smaller column.
pub open spec fn key_before(e1: (usize, u64), e2: (usize, u64)) -> bool {
    e1.1 > e2.1 || (e1.1 == e2.1 && e1.0 < e2.0)
}

/// Column `c` is listed in `cols`.
pub open spec fn col_listed(cols: Seq<usize>, c: usize) -> bool {
    exists|t: int| 0 <= t < cols.len() && cols[t] == c
}

/// The row stores the non-diagonal entry `(c, w)`.
pub open spec fn stored_nondiag(row: Seq<(usize, u64)>, idx: int, c: usize, w: u64) -> bool {
    exists|kk: int| 0 <= kk < row.len() && row[kk] == (c, w) && (c as int) != idx
}

/// What `knn` promises: the result lists distinct stored non-diagonal
/// neighbors of the row, by descending weight with ascending-column
/// tie-break; every stored neighbor missing from it ranks behind its last
/// element, and then the result is full; an unknown identifier yields an
/// empty result.
pub open spec fn knn_post(
    ids: Seq<String>,
    rows: Seq<Vec<(usize, u64)>>,
    id: Seq<char>,
    k: int,
    r: Seq<(String, u64)>,
    cols: Seq<usize>,
) -> bool {
    let idx = id_index(ids, id);
    if idx < 0 {
        r.len() == 0 && cols.len() == 0
    } else {
        let row = rows[idx]@;
        &&& r.len() == cols.len() <= k
        &&& forall|t: int| #![trigger cols[t]]
            0 <= t < r.len() ==> stored_nondiag(row, idx, cols[t], r[t].1) && r[t].0@ == ids[cols[t]
                as int]@
        &&& forall|t1: int, t2: int|
            0 <= t1 < t2 < r.len() ==> key_before((cols[t1], r[t1].1), (cols[t2], r[t2].1))
        &&& forall|kk: int|
            0 <= kk < row.len() && ((#[trigger] row[kk]).0 as int) != idx ==> col_listed(
                cols,
                row[kk].0,
            ) || (r.len() == k && (r.len() == 0 || key_before(
                (cols[r.len() - 1], r[r.len() - 1].1),
                row[kk],
            )))
    }
}

/// The result satisfies the kNN promise for some column choice.
pub open spec fn knn_answer(m: SparseSimilarityMatrix, id: Seq<char>, k: int, r: Seq<(String, u64)>) -> bool {
    exists|cols: Seq<usize>| #[trigger] knn_post(m.ids_view(), m.rows_view(), id, k, r, cols)
}

impl SparseSimilarityMatrix {
    /// The `k` nearest stored neighbors of an identifier, by descending
    /// weight with ascending-column tie-break; the diagonal is skipped and
    /// an unknown identifier yields an empty result.
    pub fn knn(&self, entry_id: &str, k: usize) -> (r: Vec<(String, u64)>)
        requires
            self.wf(),
        ensures
            knn_answer(*self, entry_id@, k as int, r@),
    {
        let idx = match find_row(&self.ids, entry_id) {
            Some(i) => i,
            None => {
                let r: Vec<(String, u64)> = Vec::new();
                proof {
                    assert(knn_post(
                        self.ids_view(),
                        self.rows_view(),
                        entry_id@,
                        k as int,
                        r@,
                        Seq::<usize>::empty(),
                    ));
                }
                return r;
            },
        };
        proof {
            lemma_id_index_range(self.ids@, entry_id@);
        }
        let row = &self.rows[idx];
        let ghost rv = row@;
        let mut out: Vec<(String, u64)> = Vec::new();
        let mut out_cols: Vec<usize> = Vec::new();
        let mut have_last = false;
        let mut last_col: usize = 0;
        let mut last_w: u64 = 0;
        while out.len() < k
            invariant
                self.wf(),
                (idx as int) < self.n(),
                (idx as int) == id_index(self.ids_view(), entry_id@),
                rv == self.rows_view()[idx as int]@,
                row@ == rv,
                out@.len() == out_cols@.len() <= k,
                have_last <==> out@.len() > 0,
                have_last ==> out_cols@[out_cols@.len() - 1] == last_col && out@[out@.len() - 1].1
                    == last_w,
                forall|t: int| #![trigger out_cols@[t]]
                    0 <= t < out@.len() ==> stored_nondiag(rv, idx as int, out_cols@[t], out@[t].1)
                        && out@[t].0@ == self.ids_view()[out_cols@[t] as int]@,
                forall|t1: int, t2: int|
                    0 <= t1 < t2 < out@.len() ==> key_before(
                        (out_cols@[t1], out@[t1].1),
                        (out_cols@[t2], out@[t2].1),
                    ),
                forall|kk: int|
                    0 <= kk < rv.len() && ((#[trigger] rv[kk]).0 as int) != (idx as int)
                        ==> col_listed(out_cols@, rv[kk].0) || !have_last || key_before(
                        (last_col, last_w),
                        rv[kk],
                    ),
            decreases k - out@.len(),
        {
            let mut best: Option<(usize, u64)> = None;
            let mut kk: usize = 0;
            while kk < row.len()
                invariant
                    kk <= rv.len(),
                    row@ == rv,
                    match best {
                        Option::Some(b) => stored_nondiag(rv, idx as int, b.0, b.1) && (!have_last
                            || key_before((last_col, last_w), b)),
                        Option::None => true,
                    },
                    forall|k2: int|
                        0 <= k2 < kk && ((#[trigger] rv[k2]).0 as int) != (idx as int) && (
                        !have_last || key_before((last_col, last_w), rv[k2])) ==> best is Some
                            && !key_before(rv[k2], best->0),
                decreases rv.len() - kk,
            {
                let (c, w) = row[kk];
                if c != idx && (!have_last || last_w > w || (last_w == w && c > last_col)) {
                    let take = match best {
                        Some(b) => w > b.1 || (w == b.1 && c < b.0),
                        None => true,
                    };
                    if take {
                        best = Some((c, w));
                        proof {
                            assert(rv[kk as int] == (c, w));
                            assert(stored_nondiag(rv, idx as int, c, w));
                        }
                    }
                }
                kk = kk + 1;
            }
            match best {
                Some(b) => {
                    let ghost old_out = out@;
                    let ghost old_cols = out_cols@;
                    out.push((self.ids[b.0].clone(), b.1));
                    out_cols.push(b.0);
                    have_last = true;
                    last_col = b.0;
                    last_w = b.1;
                    proof {
                        lemma_knn_push(
                            rv,
                            idx as int,
                            old_cols,
                            old_out,
                            out_cols@,
                            out@,
                            b,
                            k as int,
                        );
                    }
                },
                None => {
                    proof {
                        assert forall|kk2: int|
                            0 <= kk2 < rv.len() && ((#[trigger] rv[kk2]).0 as int) != (
                        idx as int) implies col_listed(out_cols@, rv[kk2].0) by {
                            if have_last {
                                if key_before((last_col, last_w), rv[kk2]) {
                                    assert(false);
                                }
                            } else {
                                assert(false);
                            }
                        }
                        assert(knn_post(
                            self.ids_view(),
                            self.rows_view(),
                            entry_id@,
                            k as int,
                            out@,
                            out_cols@,
                        ));
                    }
                    return out;
                },
            }
        }
        proof {
            assert(knn_post(
                self.ids_view(),
                self.rows_view(),
                entry_id@,
                k as int,
                out@,
                out_cols@,
            ));
        }
        out
    }
}

proof fn lemma_knn_push(
    rv: Seq<(usize, u64)>,
    idx: int,
    old_cols: Seq<usize>,
    old_out: Seq<(String, u64)>,
    new_cols: Seq<usize>,
    new_out: Seq<(String, u64)>,
    b: (usize, u64),
    k: int,
)
    requires
        old_out.len() == old_cols.len(),
        new_cols == old_cols.push(b.0),
        new_out.len() == old_out.len() + 1,
        forall|t: int| 0 <= t < old_out.len() ==> new_out[t] == old_out[t],
        new_out[new_out.len() - 1].1 == b.1,
        forall|kk1: int, kk2: int|
            0 <= kk1 < kk2 < rv.len() ==> (#[trigger] rv[kk1]).0 < (#[trigger] rv[kk2]).0,
        stored_nondiag(rv, idx, b.0, b.1),
        forall|t1: int, t2: int|
            0 <= t1 < t2 < old_out.len() ==> key_before(
                (old_cols[t1], old_out[t1].1),
                (old_cols[t2], old_out[t2].1),
            ),
        old_out.len() > 0 ==> key_before(
            (old_cols[old_cols.len() - 1], old_out[old_out.len() - 1].1),
            b,
        ),
        forall|kk: int|
            0 <= kk < rv.len() && ((#[trigger] rv[kk]).0 as int) != idx ==> col_listed(
                old_cols,
                rv[kk].0,
            ) || old_out.len() == 0 || key_before(
                (old_cols[old_cols.len() - 1], old_out[old_out.len() - 1].1),
                rv[kk],
            ),
        forall|kk: int|
            0 <= kk < rv.len() && ((#[trigger] rv[kk]).0 as int) != idx && (old_out.len() == 0
                || key_before(
                (old_cols[old_cols.len() - 1], old_out[old_out.len() - 1].1),
                rv[kk],
            )) ==> !key_before(rv[kk], b),
    ensures
        forall|t1: int, t2: int|
            0 <= t1 < t2 < new_out.len() ==> key_before(
                (new_cols[t1], new_out[t1].1),
                (new_cols[t2], new_out[t2].1),
            ),
        forall|kk: int|
            0 <= kk < rv.len() && ((#[trigger] rv[kk]).0 as int) != idx ==> col_listed(
                new_cols,
                rv[kk].0,
            ) || key_before((b.0, b.1), rv[kk]),
{
    assert forall|t1: int, t2: int| 0 <= t1 < t2 < new_out.len() implies key_before(
        (new_cols[t1], new_out[t1].1),
        (new_cols[t2], new_out[t2].1),
    ) by {
        if t2 == new_out.len() - 1 {
            if t1 < old_out.len() - 1 {
                assert(key_before(
                    (old_cols[t1], old_out[t1].1),
                    (old_cols[old_cols.len() - 1], old_out[old_out.len() - 1].1),
                ));
            }
        } else {
            assert(key_before((old_cols[t1], old_out[t1].1), (old_cols[t2], old_out[t2].1)));
        }
    }
    assert forall|kk: int|
        0 <= kk < rv.len() && ((#[trigger] rv[kk]).0 as int) != idx implies col_listed(
        new_cols,
        rv[kk].0,
    ) || key_before((b.0, b.1), rv[kk]) by {
        if col_listed(old_cols, rv[kk].0) {
            let t = choose|t: int| 0 <= t < old_cols.len() && old_cols[t] == rv[kk].0;
            assert(new_cols[t] == rv[kk].0);
            assert(col_listed(new_cols, rv[kk].0));
        } else {
            assert(!key_before(rv[kk], b));
            if rv[kk].0 == b.0 {
                assert(new_cols[new_cols.len() - 1] == rv[kk].0);
                assert(col_listed(new_cols, rv[kk].0));
            } else {
                assert(key_before((b.0, b.1), rv[kk])) by {
                    let wk = choose|wk: int|
                        0 <= wk < rv.len() && rv[wk] == (b.0, b.1) && (b.0 as int) != idx;
                    if rv[kk].1 == b.1 {
                        if wk < kk {
                            assert(rv[wk].0 < rv[kk].0);
                        } else if kk < wk {
                            assert(rv[kk].0 < rv[wk].0);
                        }
                    }
                }
            }
        }
    }
}


/// The triples whose weight is at or above the threshold, in order.
pub open spec fn filter_edges(edges: Seq<(String, String, u64)>, threshold: u64) -> Seq<(String, String, u64)>
    decreases edges.len(),
{
    if edges.len() == 0 {
        Seq::empty()
    } else {
        let prefix = filter_edges(edges.drop_last(), threshold);
        if edges.last().2 >= threshold {
            prefix.push(edges.last())
        } else {
            prefix
        }
    }
}

/// Keep exactly the triples whose weight reaches the threshold, in order.
pub fn threshold_filter(edges: Vec<(String, String, u64)>, threshold: u64) -> (r: Vec<(String, String, u64)>)
    ensures
        r@ == filter_edges(edges@, threshold),
{
    let mut r: Vec<(String, String, u64)> = Vec::new();
    let mut t: usize = 0;
    while t < edges.len()
        invariant
            t <= edges@.len(),
            r@ == filter_edges(edges@.take(t as int), threshold),
        decreases edges@.len() - t,
    {
        proof {
            assert(edges@.take(t + 1).drop_last() =~= edges@.take(t as int));
            assert(edges@.take(t + 1).last() == edges@[t as int]);
        }
        if edges[t].2 >= threshold {
            let e = (edges[t].0.clone(), edges[t].1.clone(), edges[t].2);
            r.push(e);
        }
        t = t + 1;
    }
    proof {
        assert(edges@.take(edges@.len() as int) =~= edges@);
    }
    r
}

/// The `k` nearest neighbors for each query, one answer per query, in
/// query order; each answer satisfies the kNN promise for its query.
pub fn batch_knn(matrix: &SparseSimilarityMatrix, query_ids: &Vec<String>, k: usize) -> (r: Vec<
    Vec<(String, u64)>,
>)
    requires
        matrix.wf(),
    ensures
        r@.len() == query_ids@.len(),
        forall|q: int| #![trigger r@[q]]
            0 <= q < r@.len() ==> knn_answer(*matrix, query_ids@[q]@, k as int, r@[q]@),
{
    let mut r: Vec<Vec<(String, u64)>> = Vec::new();
    let mut q: usize = 0;
    while q < query_ids.len()
        invariant
            q <= query_ids@.len(),
            matrix.wf(),
            r@.len() == q,
            forall|q2: int| #![trigger r@[q2]]
                0 <= q2 < q ==> knn_answer(*matrix, query_ids@[q2]@, k as int, r@[q2]@),
        decreases query_ids@.len() - q,
    {
        let one = matrix.knn(query_ids[q].as_str(), k);
        let ghost old_r = r@;
        r.push(one);
        proof {
            assert forall|q2: int| #![trigger r@[q2]] 0 <= q2 < q + 1 implies knn_answer(
                *matrix,
                query_ids@[q2]@,
                k as int,
                r@[q2]@,
            ) by {
                if q2 < q {
                    assert(r@[q2] == old_r[q2]);
                } else {
                    assert(r@[q2] == one);
                }
            }
        }
        q = q + 1;
    }
    r
}


/// The row indices of the wanted identifiers that the matrix holds, in the
/// order given, absences skipped.
pub open spec fn present_indices(ids: Seq<String>, wanted: Seq<String>) -> Seq<usize>
    decreases wanted.len(),
{
    if wanted.len() == 0 {
        Seq::empty()
    } else {
        let prefix = present_indices(ids, wanted.drop_last());
        let r = id_index(ids, wanted.last()@);
        if r >= 0 {
            prefix.push(r as usize)
        } else {
            prefix
        }
    }
}

proof fn lemma_present_indices_range(ids: Seq<String>, wanted: Seq<String>)
    ensures
        forall|a: int|
            0 <= a < present_indices(ids, wanted).len() ==> ((#[trigger] present_indices(
                ids,
                wanted,
            )[a]) as int) < ids.len(),
    decreases wanted.len(),
{
    if wanted.len() > 0 {
        lemma_present_indices_range(ids, wanted.drop_last());
        lemma_id_index_range(ids, wanted.last()@);
        let prefix = present_indices(ids, wanted.drop_last());
        let cur = present_indices(ids, wanted);
        assert forall|a: int| 0 <= a < cur.len() implies ((#[trigger] cur[a]) as int)
            < ids.len() by {
            if a < prefix.len() {
                assert(cur[a] == prefix[a]);
            }
        }
    }
}

/// Dot product of a compressed row's first `upto` entries with a dense
/// vector; out-of-range columns read zero.
pub open spec fn row_dot(row: Seq<(usize, u64)>, v: Seq<u64>, upto: int) -> int
    decreases upto,
{
    if upto <= 0 || upto > row.len() {
        0
    } else {
        row_dot(row, v, upto - 1) + (row[upto - 1].1 as int) * (
        if (row[upto - 1].0 as int) < v.len() {
            v[row[upto - 1].0 as int] as int
        } else {
            0
        })
    }
}

proof fn lemma_row_dot_mono(row: Seq<(usize, u64)>, v: Seq<u64>, k: int)
    requires
        0 <= k <= row.len(),
    ensures
        0 <= row_dot(row, v, k) <= row_dot(row, v, row.len() as int),
    decreases row.len() - k,
{
    lemma_row_dot_nonneg(row, v, k);
    if k < row.len() {
        lemma_row_dot_mono(row, v, k + 1);
        let w = row[k].1 as int;
        let x: int = if (row[k].0 as int) < v.len() {
            v[row[k].0 as int] as int
        } else {
            0
        };
        assert(w * x >= 0) by (nonlinear_arith)
            requires w >= 0, x >= 0;
    }
}

proof fn lemma_row_dot_nonneg(row: Seq<(usize, u64)>, v: Seq<u64>, k: int)
    ensures
        row_dot(row, v, k) >= 0,
    decreases k,
{
    if k > 0 && k <= row.len() {
        lemma_row_dot_nonneg(row, v, k - 1);
        let w = row[k - 1].1 as int;
        let x: int = if (row[k - 1].0 as int) < v.len() {
            v[row[k - 1].0 as int] as int
        } else {
            0
        };
        assert(w * x >= 0) by (nonlinear_arith)
            requires w >= 0, x >= 0;
    }
}

impl SparseSimilarityMatrix {
    /// Dense projection onto the rows and columns of the given identifiers,
    /// in the order supplied; unknown identifiers are silently skipped and
    /// absent entries read zero.
    pub fn to_dense_submatrix(&self, entry_ids: &Vec<String>) -> (r: Vec<Vec<u64>>)
        requires
            self.wf(),
        ensures
            ({
                let idxs = present_indices(self.ids_view(), entry_ids@);
                &&& r@.len() == idxs.len()
                &&& forall|a: int| 0 <= a < r@.len() ==> (#[trigger] r@[a])@.len() == idxs.len()
                &&& forall|a: int, b: int|
                    #![trigger r@[a]@[b]]
                    0 <= a < r@.len() && 0 <= b < r@.len() ==> r@[a]@[b] == self.entry(
                        idxs[a] as int,
                        idxs[b] as int,
                    )
            }),
    {
        let ghost idxs_spec = present_indices(self.ids_view(), entry_ids@);
        let mut idxs: Vec<usize> = Vec::new();
        let mut t: usize = 0;
        while t < entry_ids.len()
            invariant
                t <= entry_ids@.len(),
                self.wf(),
                idxs@ == present_indices(self.ids_view(), entry_ids@.take(t as int)),
                forall|a: int| 0 <= a < idxs@.len() ==> ((#[trigger] idxs@[a]) as int) < self.n(),
            decreases entry_ids@.len() - t,
        {
            proof {
                assert(entry_ids@.take(t + 1).drop_last() =~= entry_ids@.take(t as int));
                assert(entry_ids@.take(t + 1).last() == entry_ids@[t as int]);
                lemma_id_index_range(self.ids_view(), entry_ids@[t as int]@);
            }
            match find_row(&self.ids, entry_ids[t].as_str()) {
                Some(i) => {
                    idxs.push(i);
                },
                None => {},
            }
            t = t + 1;
        }
        proof {
            assert(entry_ids@.take(entry_ids@.len() as int) =~= entry_ids@);
            assert(idxs@ == idxs_spec);
        }
        let m = idxs.len();
        let mut r: Vec<Vec<u64>> = Vec::new();
        let mut a: usize = 0;
        while a < m
            invariant
                a <= m,
                self.wf(),
                m == idxs@.len(),
                idxs@ == idxs_spec,
                forall|x: int| 0 <= x < idxs@.len() ==> ((#[trigger] idxs@[x]) as int) < self.n(),
                r@.len() == a,
                forall|x: int| 0 <= x < a ==> (#[trigger] r@[x])@.len() == m,
                forall|x: int, y: int|
                    #![trigger r@[x]@[y]]
                    0 <= x < a && 0 <= y < m ==> r@[x]@[y] == self.entry(
                        idxs_spec[x] as int,
                        idxs_spec[y] as int,
                    ),
            decreases m - a,
        {
            let mut row: Vec<u64> = Vec::new();
            let mut b: usize = 0;
            while b < m
                invariant
                    b <= m,
                    a < m,
                    self.wf(),
                    m == idxs@.len(),
                    idxs@ == idxs_spec,
                    forall|x: int|
                        0 <= x < idxs@.len() ==> ((#[trigger] idxs@[x]) as int) < self.n(),
                    row@.len() == b,
                    forall|y: int|
                        0 <= y < b ==> (#[trigger] row@[y]) == self.entry(
                            idxs_spec[a as int] as int,
                            idxs_spec[y] as int,
                        ),
                decreases m - b,
            {
                let v = entry_get(self, idxs[a], idxs[b]);
                row.push(v);
                b = b + 1;
            }
            r.push(row);
            a = a + 1;
        }
        r
    }

    /// Row-wise inner product with a dense vector.
    pub fn matvec(&self, v: &Vec<u64>) -> (r: Vec<u64>)
        requires
            self.wf(),
            v@.len() == self.n(),
            forall|i: int|
                0 <= i < self.n() ==> row_dot(
                    (#[trigger] self.rows_view()[i])@,
                    v@,
                    self.rows_view()[i]@.len() as int,
                ) <= u64::MAX,
        ensures
            r@.len() == self.n(),
            forall|i: int|
                0 <= i < r@.len() ==> (#[trigger] r@[i]) == row_dot(
                    self.rows_view()[i]@,
                    v@,
                    self.rows_view()[i]@.len() as int,
                ),
    {
        let n = self.ids.len();
        let mut r: Vec<u64> = Vec::new();
        let mut i: usize = 0;
        while i < n
            invariant
                i <= n,
                self.wf(),
                n == self.n(),
                v@.len() == n,
                forall|x: int|
                    0 <= x < n ==> row_dot(
                        (#[trigger] self.rows_view()[x])@,
                        v@,
                        self.rows_view()[x]@.len() as int,
                    ) <= u64::MAX,
                r@.len() == i,
                forall|x: int|
                    0 <= x < i ==> (#[trigger] r@[x]) == row_dot(
                        self.rows_view()[x]@,
                        v@,
                        self.rows_view()[x]@.len() as int,
                    ),
            decreases n - i,
        {
            let row = &self.rows[i];
            proof {
                assert(self.rows_view()[i as int] == self.rows@[i as int]);
            }
            let mut sum: u128 = 0;
            let mut k: usize = 0;
            while k < row.len()
                invariant
                    k <= row@.len(),
                    self.wf(),
                    (i as int) < self.n(),
                    row@ == self.rows_view()[i as int]@,
                    v@.len() == self.n(),
                    row_dot(row@, v@, row@.len() as int) <= u64::MAX,
                    sum == row_dot(row@, v@, k as int),
                decreases row@.len() - k,
            {
                proof {
                    lemma_row_dot_mono(row@, v@, k + 1);
                    lemma_mul_bound_sp(
                        row@[k as int].1 as int,
                        v@[row@[k as int].0 as int] as int,
                    );
                }
                let (c, w) = row[k];
                let x = if c < v.len() {
                    v[c]
                } else {
                    0
                };
                sum = sum + (w as u128) * (x as u128);
                k = k + 1;
            }
            proof {
                lemma_row_dot_mono(row@, v@, row@.len() as int);
            }
            r.push(sum as u64);
            i = i + 1;
        }
        r
    }
}

proof fn lemma_mul_bound_sp(a: int, b: int)
    requires
        0 <= a <= 0xffff_ffff_ffff_ffff,
        0 <= b <= 0xffff_ffff_ffff_ffff,
    ensures
        0 <= a * b <= 0xffff_ffff_ffff_ffff * 0xffff_ffff_ffff_ffffint,
{
    assert(0 <= a * b <= 0xffff_ffff_ffff_ffff * 0xffff_ffff_ffff_ffffint) by (nonlinear_arith)
        requires
            0 <= a <= 0xffff_ffff_ffff_ffff,
            0 <= b <= 0xffff_ffff_ffff_ffff,
    ;
}

} // verus!
