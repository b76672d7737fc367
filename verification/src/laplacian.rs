//! The sparse graph Laplacian: one sparse row per agent.
use vstd::prelude::*;
use vstd::utf8::encode_utf8;
use crate::binary64::{count_bits, count_to_bits, lemma_count_bits_nonzero, EXACT_COUNT_LIMIT, NEG_ONE_BITS, ZERO_BITS};
use crate::digits::{parse_usize, parse_usize_spec};
use crate::message::{adjacency_dense_row, cols_strictly_increasing, lemma_nonzero_entries_of_scatter, lemma_scatter_len, lemma_scatter_nonzero_entries, lemma_scatter_push, nonzero_entries, scatter, scatter_row, SparseEntry};

verus! {

/// Errors for Laplacian operations.
#[derive(Debug, Clone, PartialEq, Eq, Structural)]
pub enum LaplacianError {
    /// A vector or sender id does not match the matrix dimension.
    DimensionMismatch { expected: usize, got: usize },
    /// The matrix has no rows.
    EmptyMatrix,
    /// An eigenvalue iteration did not converge.
    NoConvergence { iterations: usize },
    /// A row index is not below the matrix size.
    IndexOutOfBounds { index: usize, size: usize },
}

/// Sparse CSR-style Laplacian matrix.
#[derive(Debug, Clone, PartialEq)]
pub struct LaplacianMatrix {
    /// Number of rows and columns (the matrix is square).
    pub n: usize,
    /// For each row, its `(col, value)` entries, sorted by column.
    pub rows: Vec<Vec<SparseEntry>>,
}

/// Inserts `e` into `s` just after the last entry (counting from the end) whose column is at
/// most `e.col`, or at the front when there is none.
pub open spec fn insert_by_col(s: Seq<SparseEntry>, e: SparseEntry) -> Seq<SparseEntry>
    decreases s.len(),
{
    if s.len() == 0 {
        seq![e]
    } else if s.last().col <= e.col {
        s.push(e)
    } else {
        insert_by_col(s.drop_last(), e).push(s.last())
    }
}

/// `s` stably sorted by column (what `sort_by_key(|e| e.col)` produces): entries inserted one
/// by one, each after every earlier entry with a column no larger than its own.
pub open spec fn sort_by_col(s: Seq<SparseEntry>) -> Seq<SparseEntry>
    decreases s.len(),
{
    if s.len() == 0 {
        s
    } else {
        insert_by_col(sort_by_col(s.drop_last()), s.last())
    }
}

/// The entries of `s` in column `c`, in their order in `s`.
pub open spec fn entries_in_col(s: Seq<SparseEntry>, c: usize) -> Seq<SparseEntry>
    decreases s.len(),
{
    if s.len() == 0 {
        s
    } else {
        let rest = entries_in_col(s.drop_last(), c);
        if s.last().col == c {
            rest.push(s.last())
        } else {
            rest
        }
    }
}

/// Whether the columns of `s` never decrease.
pub open spec fn sorted_by_col(s: Seq<SparseEntry>) -> bool {
    forall|i: int, j: int| 0 <= i < j < s.len() ==> s[i].col <= s[j].col
}

/// The unsorted Laplacian row of agent `i`: `-1` for each listed neighbour, in list order, then
/// the degree on the diagonal when there is at least one neighbour.
pub open spec fn raw_laplacian_row(neighbors: Seq<usize>, i: usize) -> Seq<SparseEntry> {
    neighbors.map_values(|j: usize| SparseEntry { col: j, value_bits: NEG_ONE_BITS }) + if neighbors.len()
        > 0 {
        seq![SparseEntry { col: i, value_bits: count_bits(neighbors.len()) as u64 }]
    } else {
        Seq::<SparseEntry>::empty()
    }
}

/// The Laplacian row of agent `i` with the given neighbours, sorted by column.
pub open spec fn laplacian_row(neighbors: Seq<usize>, i: usize) -> Seq<SparseEntry> {
    sort_by_col(raw_laplacian_row(neighbors, i))
}

/// The position of the first entry of `row` in column `col`, if any.
pub open spec fn first_index_at(row: Seq<SparseEntry>, col: usize) -> Option<nat>
    decreases row.len(),
{
    if row.len() == 0 {
        None
    } else if row[0].col == col {
        Some(0)
    } else {
        match first_index_at(row.drop_first(), col) {
            Some(k) => Some(k + 1),
            None => None,
        }
    }
}

/// The value of the first entry of `row` in column `col`, or `+0.0` when there is none.
pub open spec fn first_value_at(row: Seq<SparseEntry>, col: usize) -> u64 {
    match first_index_at(row, col) {
        Some(k) => row[k as int].value_bits,
        None => ZERO_BITS,
    }
}

proof fn lemma_first_index_at_bound(row: Seq<SparseEntry>, col: usize)
    ensures
        first_index_at(row, col) matches Some(k) ==> k < row.len() && row[k as int].col == col,
    decreases row.len(),
{
    if row.len() > 0 && row[0].col != col {
        lemma_first_index_at_bound(row.drop_first(), col);
    }
}

/// Finds the first entry of `row` in column `col`.
pub fn find_col(row: &Vec<SparseEntry>, col: usize) -> (r: Option<usize>)
    ensures
        r matches Some(k) ==> first_index_at(row@, col) == Some(k as nat),
        r is None ==> first_index_at(row@, col) is None,
{
    let mut k: usize = 0;
    assert(row@.skip(0) =~= row@);
    while k < row.len()
        invariant
            k <= row@.len(),
            first_index_at(row@, col) == match first_index_at(row@.skip(k as int), col) {
                Some(j) => Some((j + k) as nat),
                None => None,
            },
        decreases row@.len() - k,
    {
        assert(row@.skip(k as int).drop_first() =~= row@.skip(k + 1));
        if row[k].col == col {
            return Some(k);
        }
        k = k + 1;
    }
    None
}

proof fn lemma_insert_by_col_at(s: Seq<SparseEntry>, e: SparseEntry, p: int)
    requires
        0 <= p <= s.len(),
        forall|k: int| p <= k < s.len() ==> #[trigger] s[k].col > e.col,
        p == 0 || s[p - 1].col <= e.col,
    ensures
        insert_by_col(s, e) == s.insert(p, e),
    decreases s.len(),
{
    if s.len() == 0 {
        assert(s.insert(p, e) =~= seq![e]);
    } else if s.last().col <= e.col {
        assert(p == s.len());
        assert(s.insert(p, e) =~= s.push(e));
    } else {
        let t = s.drop_last();
        assert forall|k: int| p <= k < t.len() implies #[trigger] t[k].col > e.col by {
            assert(t[k] == s[k]);
        }
        lemma_insert_by_col_at(t, e, p);
        assert(s.insert(p, e) =~= t.insert(p, e).push(s.last()));
    }
}

/// Stably sorts `entries` by column.
pub fn sort_entries_by_col(entries: Vec<SparseEntry>) -> (sorted: Vec<SparseEntry>)
    ensures
        sorted@ == sort_by_col(entries@),
{
    let mut out: Vec<SparseEntry> = Vec::new();
    let mut i: usize = 0;
    assert(entries@.take(0) =~= Seq::<SparseEntry>::empty());
    while i < entries.len()
        invariant
            i <= entries@.len(),
            out@ == sort_by_col(entries@.take(i as int)),
        decreases entries@.len() - i,
    {
        let e = entries[i];
        let mut p: usize = out.len();
        while p > 0 && out[p - 1].col > e.col
            invariant
                p <= out@.len(),
                forall|k: int| p <= k < out@.len() ==> #[trigger] out@[k].col > e.col,
            decreases p,
        {
            p = p - 1;
        }
        proof {
            lemma_insert_by_col_at(out@, e, p as int);
            assert(entries@.take(i + 1).drop_last() =~= entries@.take(i as int));
        }
        out.insert(p, e);
        i = i + 1;
    }
    assert(entries@.take(i as int) =~= entries@);
    out
}

/// The Laplacian row of agent `i` with the given neighbours, sorted by column.
pub fn build_laplacian_row(neighbors: &Vec<usize>, i: usize) -> (row: Vec<SparseEntry>)
    requires
        neighbors@.len() < EXACT_COUNT_LIMIT,
    ensures
        row@ == laplacian_row(neighbors@, i),
{
    let mut entries: Vec<SparseEntry> = Vec::new();
    let mut k: usize = 0;
    while k < neighbors.len()
        invariant
            k <= neighbors@.len(),
            entries@.len() == k,
            forall|j: int|
                0 <= j < k ==> #[trigger] entries@[j] == (SparseEntry {
                    col: neighbors@[j],
                    value_bits: NEG_ONE_BITS,
                }),
        decreases neighbors@.len() - k,
    {
        entries.push(SparseEntry { col: neighbors[k], value_bits: NEG_ONE_BITS });
        k = k + 1;
    }
    if neighbors.len() > 0 {
        let degree = count_to_bits(neighbors.len());
        entries.push(SparseEntry { col: i, value_bits: degree });
    }
    assert(entries@ =~= raw_laplacian_row(neighbors@, i));
    sort_entries_by_col(entries)
}

impl LaplacianMatrix {
    /// Whether every row index below `n` has a row (the matrix may hold more rows than `n`).
    pub open spec fn well_formed(&self) -> bool {
        self.n <= self.rows@.len()
    }

    /// The entries of row `i`.
    pub open spec fn row(&self, i: int) -> Seq<SparseEntry> {
        self.rows@[i]@
    }

    /// Whether the row that the sender id `sender_id` names, if it names one below `n`, is held
    /// by the matrix.
    pub open spec fn sender_row_exists(&self, sender_id: Seq<char>) -> bool {
        match parse_usize_spec(encode_utf8(sender_id)) {
            Some(idx) => idx < self.n ==> idx < self.rows@.len(),
            None => true,
        }
    }

    /// Whether every row holds at least one entry.
    pub open spec fn complete(&self) -> bool {
        forall|i: int| 0 <= i < self.rows@.len() ==> #[trigger] self.rows@[i]@.len() > 0
    }

    /// The zero Laplacian of size `n`: `n` empty rows.
    pub fn zeros(n: usize) -> (m: Self)
        ensures
            m.n == n,
            m.rows@.len() == n,
            forall|i: int| 0 <= i < n ==> #[trigger] m.rows@[i]@.len() == 0,
    {
        let mut rows: Vec<Vec<SparseEntry>> = Vec::new();
        let mut i: usize = 0;
        while i < n
            invariant
                i <= n,
                rows@.len() == i,
                forall|j: int| 0 <= j < i ==> #[trigger] rows@[j]@.len() == 0,
            decreases n - i,
        {
            rows.push(Vec::new());
            i = i + 1;
        }
        LaplacianMatrix { n, rows }
    }

    /// The Laplacian of an undirected graph given by adjacency lists (`adjacency[i]` lists the
    /// neighbours of node `i`): row `i` holds `-1` for each listed neighbour and the degree on
    /// the diagonal, sorted by column.
    pub fn from_adjacency(adjacency: &[Vec<usize>]) -> (m: Self)
        requires
            forall|i: int| 0 <= i < adjacency@.len() ==> #[trigger] adjacency@[i]@.len() < EXACT_COUNT_LIMIT,
        ensures
            m.n == adjacency@.len(),
            m.rows@.len() == adjacency@.len(),
            forall|i: int|
                0 <= i < adjacency@.len() ==> #[trigger] m.rows@[i]@ == laplacian_row(
                    adjacency@[i]@,
                    i as usize,
                ),
            forall|i: int| 0 <= i < adjacency@.len() ==> sorted_by_col(#[trigger] m.rows@[i]@),
            forall|i: int|
                0 <= i < adjacency@.len() ==> ((#[trigger] m.rows@[i]@).len() == 0 <==> adjacency@[i]@.len()
                    == 0),
    {
        let n = adjacency.len();
        let mut rows: Vec<Vec<SparseEntry>> = Vec::new();
        let mut i: usize = 0;
        while i < n
            invariant
                i <= n,
                n == adjacency@.len(),
                forall|j: int| 0 <= j < adjacency@.len() ==> #[trigger] adjacency@[j]@.len() < EXACT_COUNT_LIMIT,
                rows@.len() == i,
                forall|j: int| 0 <= j < i ==> #[trigger] rows@[j]@ == laplacian_row(adjacency@[j]@, j as usize),
                forall|j: int| 0 <= j < i ==> sorted_by_col(#[trigger] rows@[j]@),
                forall|j: int| 0 <= j < i ==> ((#[trigger] rows@[j]@).len() == 0 <==> adjacency@[j]@.len() == 0),
            decreases n - i,
        {
            let row = build_laplacian_row(&adjacency[i], i);
            proof {
                lemma_laplacian_row_empty(adjacency@[i as int]@, i);
                lemma_sort_by_col_is_stable_sort(raw_laplacian_row(adjacency@[i as int]@, i));
            }
            rows.push(row);
            i = i + 1;
        }
        LaplacianMatrix { n, rows }
    }

    /// Row `i` as a dense vector of length `n`; all zeros when `i` is not below `n`.
    pub fn get_row_dense(&self, i: usize) -> (dense: Vec<u64>)
        requires
            i < self.n ==> i < self.rows@.len(),
        ensures
            i >= self.n ==> dense@ == scatter(Seq::empty(), self.n as nat),
            i < self.n ==> dense@ == scatter(self.row(i as int), self.n as nat),
    {
        if i >= self.n {
            let empty: Vec<SparseEntry> = Vec::new();
            return scatter_row(&empty, self.n);
        }
        scatter_row(&self.rows[i], self.n)
    }

    /// The whole matrix as dense rows.
    pub fn to_dense(&self) -> (dense: Vec<Vec<u64>>)
        requires
            self.well_formed(),
        ensures
            dense@.len() == self.n,
            forall|i: int| 0 <= i < self.n ==> #[trigger] dense@[i]@ == scatter(self.row(i), self.n as nat),
    {
        let mut dense: Vec<Vec<u64>> = Vec::new();
        let mut i: usize = 0;
        while i < self.n
            invariant
                i <= self.n,
                self.well_formed(),
                dense@.len() == i,
                forall|j: int| 0 <= j < i ==> #[trigger] dense@[j]@ == scatter(self.row(j), self.n as nat),
            decreases self.n - i,
        {
            dense.push(self.get_row_dense(i));
            i = i + 1;
        }
        dense
    }

    /// The number of rows.
    pub fn nrows(&self) -> (n: usize)
        ensures
            n == self.n,
    {
        self.n
    }

    /// Replace row `row_idx` with `entries`; an index not below `n` is refused and nothing
    /// changes.
    pub fn set_row(&mut self, row_idx: usize, entries: Vec<SparseEntry>) -> (r: Result<(), LaplacianError>)
        requires
            row_idx < old(self).n ==> row_idx < old(self).rows@.len(),
        ensures
            row_idx >= old(self).n ==> r == Err::<(), LaplacianError>(
                LaplacianError::IndexOutOfBounds { index: row_idx, size: old(self).n },
            ) && *final(self) == *old(self),
            row_idx < old(self).n ==> r is Ok && final(self).n == old(self).n && final(self).rows@ == old(
                self,
            ).rows@.update(row_idx as int, entries),
    {
        if row_idx >= self.n {
            return Err(LaplacianError::IndexOutOfBounds { index: row_idx, size: self.n });
        }
        self.rows[row_idx] = entries;
        Ok(())
    }

    /// Merge a message row into the matrix: the sender id, read as a row index the way
    /// `usize::from_str` reads it, names the row that `entries` replace.
    pub fn merge_message(&mut self, sender_id: &str, entries: Vec<SparseEntry>) -> (r: Result<
        bool,
        LaplacianError,
    >)
        requires
            old(self).sender_row_exists(sender_id@),
        ensures
            match parse_usize_spec(encode_utf8(sender_id@)) {
                None => r == Err::<bool, LaplacianError>(
                    LaplacianError::DimensionMismatch { expected: old(self).n, got: 0 },
                ) && *final(self) == *old(self),
                Some(idx) => if idx >= old(self).n {
                    r == Err::<bool, LaplacianError>(
                        LaplacianError::IndexOutOfBounds { index: idx, size: old(self).n },
                    ) && *final(self) == *old(self)
                } else {
                    r == Ok::<bool, LaplacianError>(true) && final(self).n == old(self).n
                        && final(self).rows@ == old(self).rows@.update(idx as int, entries)
                },
            },
    {
        let row_idx = match parse_usize(sender_id) {
            Some(v) => v,
            None => {
                return Err(LaplacianError::DimensionMismatch { expected: self.n, got: 0 });
            },
        };
        if row_idx >= self.n {
            return Err(LaplacianError::IndexOutOfBounds { index: row_idx, size: self.n });
        }
        self.rows[row_idx] = entries;
        Ok(true)
    }

    /// Whether every row holds at least one entry.
    pub fn is_complete(&self) -> (b: bool)
        ensures
            b == self.complete(),
            b <==> forall|i: int| 0 <= i < self.rows@.len() ==> #[trigger] self.rows@[i]@.len() != 0,
    {
        let mut i: usize = 0;
        while i < self.rows.len()
            invariant
                i <= self.rows@.len(),
                forall|j: int| 0 <= j < i ==> #[trigger] self.rows@[j]@.len() > 0,
            decreases self.rows@.len() - i,
        {
            if self.rows[i].len() == 0 {
                assert(self.rows@[i as int]@.len() == 0);
                return false;
            }
            i = i + 1;
        }
        true
    }

    /// The degree of each node: the value of the first entry on row `i`'s diagonal, or `+0.0`
    /// when the row has none.
    pub fn degrees(&self) -> (d: Vec<u64>)
        requires
            self.well_formed(),
        ensures
            d@.len() == self.n,
            forall|i: int| 0 <= i < self.n ==> #[trigger] d@[i] == first_value_at(self.row(i), i as usize),
    {
        let mut d: Vec<u64> = Vec::new();
        let mut i: usize = 0;
        while i < self.n
            invariant
                i <= self.n,
                self.well_formed(),
                d@.len() == i,
                forall|j: int| 0 <= j < i ==> #[trigger] d@[j] == first_value_at(self.row(j), j as usize),
            decreases self.n - i,
        {
            let row = &self.rows[i];
            let v = match find_col(row, i) {
                Some(k) => {
                    proof {
                        lemma_first_index_at_bound(row@, i);
                    }
                    row[k].value_bits
                },
                None => ZERO_BITS,
            };
            d.push(v);
            i = i + 1;
        }
        d
    }

    /// The rows below `n` that hold a diagonal entry, in increasing order: the rows that a
    /// diagonal correction adjusts.
    pub fn diagonal_rows(&self) -> (rows: Vec<usize>)
        requires
            self.well_formed(),
        ensures
            forall|a: int, b: int| 0 <= a < b < rows@.len() ==> rows@[a] < rows@[b],
            forall|k: int|
                0 <= k < rows@.len() ==> #[trigger] rows@[k] < self.n && first_index_at(
                    self.row(rows@[k] as int),
                    rows@[k],
                ) is Some,
            forall|i: int|
                0 <= i < self.n && first_index_at(self.row(i), i as usize) is Some ==> rows@.contains(
                    i as usize,
                ),
    {
        let mut rows: Vec<usize> = Vec::new();
        let mut i: usize = 0;
        while i < self.n
            invariant
                i <= self.n,
                self.well_formed(),
                forall|a: int, b: int| 0 <= a < b < rows@.len() ==> rows@[a] < rows@[b],
                forall|k: int|
                    0 <= k < rows@.len() ==> #[trigger] rows@[k] < i && first_index_at(
                        self.row(rows@[k] as int),
                        rows@[k],
                    ) is Some,
                forall|j: int|
                    0 <= j < i && first_index_at(self.row(j), j as usize) is Some ==> rows@.contains(
                        j as usize,
                    ),
            decreases self.n - i,
        {
            let found = find_col(&self.rows[i], i);
            if found.is_some() {
                let ghost before = rows@;
                rows.push(i);
                assert forall|j: int|
                    0 <= j < i + 1 && first_index_at(self.row(j), j as usize) is Some implies rows@.contains(
                    j as usize,
                ) by {
                    if j < i {
                        let w = choose|w: int| 0 <= w < before.len() && before[w] == j as usize;
                        assert(rows@[w] == j as usize);
                    } else {
                        assert(rows@[rows@.len() - 1] == j as usize);
                    }
                }
            }
            i = i + 1;
        }
        rows
    }

    /// For each row `i` below `n`, the position of its first diagonal entry (column `i`), if
    /// any: the entries that a diagonal correction adjusts.
    pub fn diagonal_positions(&self) -> (pos: Vec<Option<usize>>)
        requires
            self.well_formed(),
        ensures
            pos@.len() == self.n,
            forall|i: int|
                0 <= i < self.n ==> (#[trigger] pos@[i] matches Some(k) ==> first_index_at(
                    self.row(i),
                    i as usize,
                ) == Some(k as nat)) && (pos@[i] is None ==> first_index_at(self.row(i), i as usize) is None),
    {
        let mut pos: Vec<Option<usize>> = Vec::new();
        let mut i: usize = 0;
        while i < self.n
            invariant
                i <= self.n,
                self.well_formed(),
                pos@.len() == i,
                forall|j: int|
                    0 <= j < i ==> (#[trigger] pos@[j] matches Some(k) ==> first_index_at(
                        self.row(j),
                        j as usize,
                    ) == Some(k as nat)) && (pos@[j] is None ==> first_index_at(self.row(j), j as usize) is None),
            decreases self.n - i,
        {
            pos.push(find_col(&self.rows[i], i));
            i = i + 1;
        }
        pos
    }
}

/// Where `insert_by_col` places `e` in `s`.
pub open spec fn insert_pos(s: Seq<SparseEntry>, e: SparseEntry) -> nat
    decreases s.len(),
{
    if s.len() == 0 {
        0
    } else if s.last().col <= e.col {
        s.len()
    } else {
        insert_pos(s.drop_last(), e)
    }
}

proof fn lemma_insert_pos(s: Seq<SparseEntry>, e: SparseEntry)
    ensures
        insert_pos(s, e) <= s.len(),
        forall|k: int| insert_pos(s, e) <= k < s.len() ==> #[trigger] s[k].col > e.col,
        insert_pos(s, e) == 0 || s[insert_pos(s, e) - 1].col <= e.col,
        insert_by_col(s, e) == s.insert(insert_pos(s, e) as int, e),
    decreases s.len(),
{
    if s.len() > 0 && s.last().col > e.col {
        let t = s.drop_last();
        lemma_insert_pos(t, e);
        assert forall|k: int| insert_pos(s, e) <= k < s.len() implies #[trigger] s[k].col > e.col by {
            if k < t.len() {
                assert(s[k] == t[k]);
            }
        }
    }
    lemma_insert_by_col_at(s, e, insert_pos(s, e) as int);
}

proof fn lemma_entries_in_col_add(a: Seq<SparseEntry>, b: Seq<SparseEntry>, c: usize)
    ensures
        entries_in_col(a + b, c) == entries_in_col(a, c) + entries_in_col(b, c),
    decreases b.len(),
{
    if b.len() == 0 {
        assert(a + b =~= a);
        assert(entries_in_col(a, c) + entries_in_col(b, c) =~= entries_in_col(a, c));
    } else {
        lemma_entries_in_col_add(a, b.drop_last(), c);
        assert((a + b).drop_last() =~= a + b.drop_last());
        assert((a + b).last() == b.last());
        if b.last().col == c {
            assert(entries_in_col(a, c) + entries_in_col(b, c) =~= (entries_in_col(a, c)
                + entries_in_col(b.drop_last(), c)).push(b.last()));
        }
    }
}

proof fn lemma_entries_in_col_single(e: SparseEntry, c: usize)
    ensures
        entries_in_col(seq![e], c) == if e.col == c {
            seq![e]
        } else {
            Seq::<SparseEntry>::empty()
        },
{
    assert(seq![e].drop_last() =~= Seq::<SparseEntry>::empty());
    assert(entries_in_col(Seq::<SparseEntry>::empty(), c) =~= Seq::<SparseEntry>::empty());
    if e.col == c {
        assert(Seq::<SparseEntry>::empty().push(e) =~= seq![e]);
    }
}

proof fn lemma_entries_in_col_none(s: Seq<SparseEntry>, c: usize)
    requires
        forall|k: int| 0 <= k < s.len() ==> #[trigger] s[k].col != c,
    ensures
        entries_in_col(s, c) == Seq::<SparseEntry>::empty(),
    decreases s.len(),
{
    if s.len() > 0 {
        let t = s.drop_last();
        assert forall|k: int| 0 <= k < t.len() implies #[trigger] t[k].col != c by {
            assert(t[k] == s[k]);
        }
        lemma_entries_in_col_none(t, c);
    }
}

proof fn lemma_entries_in_col_insert(t: Seq<SparseEntry>, e: SparseEntry, c: usize)
    ensures
        entries_in_col(insert_by_col(t, e), c) == entries_in_col(t.push(e), c),
{
    lemma_insert_pos(t, e);
    let p = insert_pos(t, e) as int;
    let front = t.take(p);
    let back = t.skip(p);
    assert(t =~= front + back);
    assert(t.insert(p, e) =~= front + seq![e] + back);
    assert(t.push(e).drop_last() =~= t);
    lemma_entries_in_col_add(front, back, c);
    lemma_entries_in_col_add(front + seq![e], back, c);
    lemma_entries_in_col_add(front, seq![e], c);
    lemma_entries_in_col_single(e, c);
    if e.col == c {
        assert forall|k: int| 0 <= k < back.len() implies #[trigger] back[k].col != c by {
            assert(back[k] == t[p + k]);
        }
        lemma_entries_in_col_none(back, c);
        assert(entries_in_col(front, c) + seq![e] + entries_in_col(back, c) =~= entries_in_col(
            front,
            c,
        ).push(e));
        assert(entries_in_col(front, c) + entries_in_col(back, c) =~= entries_in_col(front, c));
    } else {
        assert(entries_in_col(front, c) + entries_in_col(seq![e], c) =~= entries_in_col(front, c));
    }
}

proof fn lemma_sorted_insert(t: Seq<SparseEntry>, e: SparseEntry)
    requires
        sorted_by_col(t),
    ensures
        sorted_by_col(insert_by_col(t, e)),
{
    lemma_insert_pos(t, e);
    let p = insert_pos(t, e) as int;
    let r = t.insert(p, e);
    assert forall|i: int, j: int| 0 <= i < j < r.len() implies r[i].col <= r[j].col by {
        if j < p {
            assert(r[i] == t[i] && r[j] == t[j]);
        } else if j == p {
            assert(r[i] == t[i]);
            assert(t[i].col <= t[p - 1].col);
        } else if i < p {
            assert(r[i] == t[i] && r[j] == t[j - 1]);
        } else if i == p {
            assert(r[j] == t[j - 1]);
        } else {
            assert(r[i] == t[i - 1] && r[j] == t[j - 1]);
        }
    }
}

/// `sort_by_col` is the stable sort by column: its result is sorted by column, and for every
/// column it holds exactly the input's entries in that column, in their input order.
pub proof fn lemma_sort_by_col_is_stable_sort(s: Seq<SparseEntry>)
    ensures
        sorted_by_col(sort_by_col(s)),
        forall|c: usize| #[trigger] entries_in_col(sort_by_col(s), c) == entries_in_col(s, c),
    decreases s.len(),
{
    if s.len() > 0 {
        let t = s.drop_last();
        lemma_sort_by_col_is_stable_sort(t);
        lemma_sorted_insert(sort_by_col(t), s.last());
        assert forall|c: usize| #[trigger] entries_in_col(sort_by_col(s), c) == entries_in_col(s, c) by {
            lemma_entries_in_col_insert(sort_by_col(t), s.last(), c);
            assert(sort_by_col(t).push(s.last()).drop_last() =~= sort_by_col(t));
            assert(entries_in_col(sort_by_col(t), c) == entries_in_col(t, c));
            assert(sort_by_col(s) == insert_by_col(sort_by_col(t), s.last()));
        }
    }
}

proof fn lemma_scatter_insert(t: Seq<SparseEntry>, e: SparseEntry, n: nat)
    ensures
        scatter(insert_by_col(t, e), n) == scatter(t.push(e), n),
    decreases t.len(),
{
    if t.len() == 0 {
        assert(seq![e] =~= t.push(e));
    } else if t.last().col > e.col {
        let u = t.drop_last();
        let x = t.last();
        lemma_scatter_insert(u, e, n);
        lemma_scatter_push(insert_by_col(u, e), x, n);
        lemma_scatter_push(u.push(e), x, n);
        lemma_scatter_push(u, e, n);
        lemma_scatter_push(u, x, n);
        lemma_scatter_push(t, e, n);
        assert(u.push(x) =~= t);
        lemma_scatter_len(u, n);
        if x.col < n && e.col < n {
            assert(scatter(u, n).update(e.col as int, e.value_bits).update(x.col as int, x.value_bits)
                =~= scatter(u, n).update(x.col as int, x.value_bits).update(e.col as int, e.value_bits));
        }
    }
}

/// Sorting by column does not change the dense row: stably sorted entries write each column's
/// entries in the same order, so the same entry wins.
pub proof fn lemma_scatter_sort_by_col(s: Seq<SparseEntry>, n: nat)
    ensures
        scatter(sort_by_col(s), n) == scatter(s, n),
    decreases s.len(),
{
    if s.len() > 0 {
        let t = s.drop_last();
        lemma_scatter_sort_by_col(t, n);
        lemma_scatter_insert(sort_by_col(t), s.last(), n);
        lemma_scatter_push(sort_by_col(t), s.last(), n);
        lemma_scatter_push(t, s.last(), n);
        assert(t.push(s.last()) =~= s);
    }
}

proof fn lemma_scatter_neighbors(nb: Seq<usize>, n: nat)
    requires
        n <= usize::MAX,
    ensures
        scatter(nb.map_values(|j: usize| SparseEntry { col: j, value_bits: NEG_ONE_BITS }), n) =~= Seq::new(
            n,
            |c: int|
                if nb.contains(c as usize) {
                    NEG_ONE_BITS
                } else {
                    ZERO_BITS
                },
        ),
    decreases nb.len(),
{
    let f = |j: usize| SparseEntry { col: j, value_bits: NEG_ONE_BITS };
    let m = nb.map_values(f);
    if nb.len() > 0 {
        let nb2 = nb.drop_last();
        lemma_scatter_neighbors(nb2, n);
        assert(m.drop_last() =~= nb2.map_values(f));
        lemma_scatter_len(m, n);
        assert forall|c: int| 0 <= c < n implies #[trigger] scatter(m, n)[c] == if nb.contains(
            c as usize,
        ) {
            NEG_ONE_BITS
        } else {
            ZERO_BITS
        } by {
            if nb.contains(c as usize) && c != nb.last() as int {
                let w = choose|w: int| 0 <= w < nb.len() && nb[w] == c as usize;
                assert(w != nb.len() - 1);
                assert(nb2[w] == c as usize);
            }
            if nb2.contains(c as usize) {
                let w = choose|w: int| 0 <= w < nb2.len() && nb2[w] == c as usize;
                assert(nb[w] == c as usize);
            }
            if c == nb.last() as int {
                assert(nb[nb.len() - 1] == c as usize);
            }
        }
    }
}

/// The dense form of row `i` of the Laplacian built from adjacency lists is the graph
/// Laplacian row of agent `i`: its degree on the diagonal, `-1` at each listed neighbour and
/// zero elsewhere. Agent `i`'s message built from the same lists carries the same dense row.
pub proof fn lemma_built_rows_agree(neighbors: Seq<usize>, i: usize, n: nat)
    requires
        n <= usize::MAX,
    ensures
        scatter(laplacian_row(neighbors, i), n) == adjacency_dense_row(neighbors, i as nat, n),
        scatter(nonzero_entries(adjacency_dense_row(neighbors, i as nat, n)), n) == adjacency_dense_row(
            neighbors,
            i as nat,
            n,
        ),
{
    let raw = raw_laplacian_row(neighbors, i);
    let f = |j: usize| SparseEntry { col: j, value_bits: NEG_ONE_BITS };
    let m = neighbors.map_values(f);
    lemma_scatter_sort_by_col(raw, n);
    lemma_scatter_neighbors(neighbors, n);
    lemma_scatter_len(m, n);
    if neighbors.len() > 0 {
        let d = SparseEntry { col: i, value_bits: count_bits(neighbors.len()) as u64 };
        assert(raw =~= m.push(d));
        lemma_scatter_push(m, d, n);
    } else {
        assert(raw =~= m);
        assert(count_bits(0) == 0);
    }
    assert(scatter(raw, n) =~= adjacency_dense_row(neighbors, i as nat, n));
    lemma_scatter_nonzero_entries(adjacency_dense_row(neighbors, i as nat, n), n);
    assert(adjacency_dense_row(neighbors, i as nat, n) + Seq::new(
        (n - n) as nat,
        |c: int| ZERO_BITS,
    ) =~= adjacency_dense_row(neighbors, i as nat, n));
}

proof fn lemma_first_value_at_entries_in_col(t: Seq<SparseEntry>, c: usize)
    ensures
        first_value_at(t, c) == if entries_in_col(t, c).len() > 0 {
            entries_in_col(t, c)[0].value_bits
        } else {
            ZERO_BITS
        },
    decreases t.len(),
{
    if t.len() > 0 {
        let rest = t.drop_first();
        lemma_first_value_at_entries_in_col(rest, c);
        lemma_entries_in_col_add(seq![t[0]], rest, c);
        assert(t =~= seq![t[0]] + rest);
        lemma_entries_in_col_single(t[0], c);
        if t[0].col != c {
            assert(entries_in_col(t, c) =~= entries_in_col(rest, c));
        } else {
            assert(entries_in_col(t, c)[0] == t[0]);
        }
        lemma_first_index_at_bound(rest, c);
        match first_index_at(rest, c) {
            Some(k) => {
                assert(rest[k as int] == t[(k + 1) as int]);
            },
            None => {},
        }
    }
}

/// Without a self-loop, the diagonal that `degrees` reads from a row built from adjacency
/// lists is the number of listed neighbours (as binary64); for an isolated agent it is zero.
pub proof fn lemma_degree_of_built_row(neighbors: Seq<usize>, i: usize)
    requires
        !neighbors.contains(i),
    ensures
        first_value_at(laplacian_row(neighbors, i), i) == count_bits(neighbors.len()) as u64,
{
    let raw = raw_laplacian_row(neighbors, i);
    let f = |j: usize| SparseEntry { col: j, value_bits: NEG_ONE_BITS };
    let m = neighbors.map_values(f);
    lemma_sort_by_col_is_stable_sort(raw);
    lemma_first_value_at_entries_in_col(laplacian_row(neighbors, i), i);
    assert forall|k: int| 0 <= k < m.len() implies #[trigger] m[k].col != i by {
        assert(neighbors[k] != i);
    }
    lemma_entries_in_col_none(m, i);
    if neighbors.len() > 0 {
        let d = SparseEntry { col: i, value_bits: count_bits(neighbors.len()) as u64 };
        assert(raw =~= m.push(d));
        assert(m.push(d).drop_last() =~= m);
    } else {
        assert(raw =~= m);
        assert(count_bits(0) == 0);
    }
    assert(entries_in_col(laplacian_row(neighbors, i), i) == entries_in_col(raw, i));
}

/// Sorting keeps the length, and every entry of the sorted row is an entry of the input.
pub proof fn lemma_sort_by_col_members(s: Seq<SparseEntry>)
    ensures
        sort_by_col(s).len() == s.len(),
        forall|k: int|
            0 <= k < s.len() ==> exists|j: int| 0 <= j < s.len() && #[trigger] sort_by_col(s)[k] == s[j],
    decreases s.len(),
{
    if s.len() > 0 {
        let t = s.drop_last();
        let e = s.last();
        lemma_sort_by_col_members(t);
        let st = sort_by_col(t);
        lemma_insert_pos(st, e);
        let p = insert_pos(st, e) as int;
        let r = st.insert(p, e);
        assert forall|k: int| 0 <= k < s.len() implies exists|j: int| 0 <= j < s.len() && #[trigger] sort_by_col(
            s,
        )[k] == s[j] by {
            if k < p {
                assert(r[k] == st[k]);
                let j = choose|j: int| 0 <= j < t.len() && st[k] == t[j];
                assert(s[j] == t[j]);
            } else if k == p {
                assert(r[k] == s[s.len() - 1]);
            } else {
                assert(r[k] == st[k - 1]);
                let j = choose|j: int| 0 <= j < t.len() && st[k - 1] == t[j];
                assert(s[j] == t[j]);
            }
        }
    }
}

/// Whether no two entries of `s` share a column.
pub open spec fn cols_distinct(s: Seq<SparseEntry>) -> bool {
    forall|i: int, j: int| 0 <= i < j < s.len() ==> s[i].col != s[j].col
}

/// Stably sorting entries whose columns are all different gives strictly increasing columns.
pub proof fn lemma_sort_by_col_strict(s: Seq<SparseEntry>)
    requires
        cols_distinct(s),
    ensures
        forall|i: int, j: int| 0 <= i < j < sort_by_col(s).len() ==> sort_by_col(s)[i].col < sort_by_col(
            s,
        )[j].col,
    decreases s.len(),
{
    if s.len() > 0 {
        let t = s.drop_last();
        let e = s.last();
        assert forall|i: int, j: int| 0 <= i < j < t.len() implies t[i].col != t[j].col by {
            assert(t[i] == s[i] && t[j] == s[j]);
        }
        lemma_sort_by_col_strict(t);
        lemma_sort_by_col_members(t);
        let st = sort_by_col(t);
        lemma_insert_pos(st, e);
        let p = insert_pos(st, e) as int;
        let r = st.insert(p, e);
        assert forall|k: int| 0 <= k < st.len() implies #[trigger] st[k].col != e.col by {
            let j = choose|j: int| 0 <= j < t.len() && st[k] == t[j];
            assert(t[j] == s[j]);
        }
        assert forall|i: int, j: int| 0 <= i < j < r.len() implies r[i].col < r[j].col by {
            if j < p {
                assert(r[i] == st[i] && r[j] == st[j]);
            } else if j == p {
                assert(r[i] == st[i]);
                assert(st[i].col != e.col);
                if i < p - 1 {
                    assert(st[i].col < st[p - 1].col);
                }
            } else if i < p {
                assert(r[i] == st[i] && r[j] == st[j - 1]);
            } else if i == p {
                assert(r[j] == st[j - 1]);
            } else {
                assert(r[i] == st[i - 1] && r[j] == st[j - 1]);
            }
        }
    }
}

/// The built row of an agent is empty exactly when the agent lists no neighbour.
pub proof fn lemma_laplacian_row_empty(neighbors: Seq<usize>, i: usize)
    ensures
        (laplacian_row(neighbors, i).len() == 0) <==> (neighbors.len() == 0),
{
    lemma_sort_by_col_members(raw_laplacian_row(neighbors, i));
}

/// Whether `neighbors`, the list of agent `i` in a network of `n` agents, names only agents of
/// the network, never `i` itself, and no agent twice.
pub open spec fn simple_neighbors(neighbors: Seq<usize>, i: usize, n: nat) -> bool {
    &&& forall|k: int| 0 <= k < neighbors.len() ==> #[trigger] neighbors[k] < n && neighbors[k] != i
    &&& forall|k: int, l: int| 0 <= k < l < neighbors.len() ==> neighbors[k] != neighbors[l]
}

/// Whether the adjacency lists describe a simple undirected graph: no self-loop, no repeated
/// neighbour, and every listed neighbour lists the agent back.
pub open spec fn is_simple_graph(adjacency: Seq<Vec<usize>>) -> bool {
    &&& forall|i: int|
        0 <= i < adjacency.len() ==> simple_neighbors(#[trigger] adjacency[i]@, i as usize, adjacency.len())
    &&& forall|i: int, k: int|
        0 <= i < adjacency.len() && 0 <= k < adjacency[i]@.len() ==> adjacency[#[trigger] adjacency[i]@[k] as int]@.contains(
            i as usize,
        )
}

/// For an agent with a simple neighbour list, the built row has strictly increasing columns,
/// and it is exactly the row that agent's message built from the same lists carries.
pub proof fn lemma_simple_row(neighbors: Seq<usize>, i: usize, n: nat)
    requires
        simple_neighbors(neighbors, i, n),
        i < n,
        n <= usize::MAX,
        neighbors.len() < EXACT_COUNT_LIMIT,
    ensures
        cols_strictly_increasing(laplacian_row(neighbors, i)),
        laplacian_row(neighbors, i) == nonzero_entries(adjacency_dense_row(neighbors, i as nat, n)),
{
    let raw = raw_laplacian_row(neighbors, i);
    let f = |j: usize| SparseEntry { col: j, value_bits: NEG_ONE_BITS };
    let m = neighbors.map_values(f);
    if neighbors.len() > 0 {
        lemma_count_bits_nonzero(neighbors.len());
        let d = SparseEntry { col: i, value_bits: count_bits(neighbors.len()) as u64 };
        assert(raw =~= m.push(d));
    } else {
        assert(raw =~= m);
    }
    assert forall|a: int, b: int| 0 <= a < b < raw.len() implies raw[a].col != raw[b].col by {
        if b < neighbors.len() {
            assert(raw[a] == m[a] && raw[b] == m[b]);
        } else {
            assert(raw[a] == m[a]);
        }
    }
    lemma_sort_by_col_strict(raw);
    lemma_sort_by_col_members(raw);
    let row = laplacian_row(neighbors, i);
    assert forall|k: int| 0 < k < row.len() implies row[k - 1].col < #[trigger] row[k].col by {}
    assert forall|k: int| 0 <= k < row.len() implies (#[trigger] row[k]).col < n && row[k].value_bits != ZERO_BITS by {
        let j = choose|j: int| 0 <= j < raw.len() && row[k] == raw[j];
        if j < neighbors.len() {
            assert(raw[j] == m[j]);
        }
    }
    lemma_nonzero_entries_of_scatter(row, n);
    lemma_built_rows_agree(neighbors, i, n);
}

/// For adjacency lists that describe a simple undirected graph, the Laplacian that
/// `from_adjacency` builds has strictly increasing columns in every row; each row is exactly the
/// row that agent's message built from the same lists carries; a row is empty exactly when its
/// agent has no neighbour; and the dense matrix is the graph Laplacian — the degree on the
/// diagonal, `-1` at each neighbour, zero elsewhere — and therefore symmetric.
pub proof fn lemma_simple_graph_laplacian(adjacency: Seq<Vec<usize>>)
    requires
        is_simple_graph(adjacency),
        adjacency.len() <= usize::MAX,
        forall|i: int| 0 <= i < adjacency.len() ==> #[trigger] adjacency[i]@.len() < EXACT_COUNT_LIMIT,
    ensures
        forall|i: int|
            0 <= i < adjacency.len() ==> cols_strictly_increasing(
                #[trigger] laplacian_row(adjacency[i]@, i as usize),
            ),
        forall|i: int|
            0 <= i < adjacency.len() ==> #[trigger] laplacian_row(adjacency[i]@, i as usize) == nonzero_entries(
                adjacency_dense_row(adjacency[i]@, i as nat, adjacency.len()),
            ),
        forall|i: int|
            0 <= i < adjacency.len() ==> ((#[trigger] laplacian_row(adjacency[i]@, i as usize)).len() == 0
                <==> adjacency[i]@.len() == 0),
        forall|i: int|
            0 <= i < adjacency.len() ==> #[trigger] scatter(laplacian_row(adjacency[i]@, i as usize), adjacency.len())
                == adjacency_dense_row(adjacency[i]@, i as nat, adjacency.len()),
        forall|i: int, j: int|
            0 <= i < adjacency.len() && 0 <= j < adjacency.len() ==> #[trigger] scatter(
                laplacian_row(adjacency[i]@, i as usize),
                adjacency.len(),
            )[j] == #[trigger] scatter(laplacian_row(adjacency[j]@, j as usize), adjacency.len())[i],
{
    let n = adjacency.len();
    assert forall|i: int| 0 <= i < n implies cols_strictly_increasing(
        #[trigger] laplacian_row(adjacency[i]@, i as usize),
    ) && laplacian_row(adjacency[i]@, i as usize) == nonzero_entries(
        adjacency_dense_row(adjacency[i]@, i as nat, n),
    ) && ((laplacian_row(adjacency[i]@, i as usize).len() == 0 <==> adjacency[i]@.len() == 0))
        && scatter(laplacian_row(adjacency[i]@, i as usize), n) == adjacency_dense_row(
        adjacency[i]@,
        i as nat,
        n,
    ) by {
        assert(simple_neighbors(adjacency[i]@, i as usize, n));
        lemma_simple_row(adjacency[i]@, i as usize, n);
        lemma_laplacian_row_empty(adjacency[i]@, i as usize);
        lemma_built_rows_agree(adjacency[i]@, i as usize, n);
    }
    assert forall|i: int, j: int| 0 <= i < n && 0 <= j < n implies #[trigger] scatter(
        laplacian_row(adjacency[i]@, i as usize),
        n,
    )[j] == #[trigger] scatter(laplacian_row(adjacency[j]@, j as usize), n)[i] by {
        lemma_built_rows_agree(adjacency[i]@, i as usize, n);
        lemma_built_rows_agree(adjacency[j]@, j as usize, n);
        if i != j {
            let ni = adjacency[i]@;
            let nj = adjacency[j]@;
            if ni.contains(j as usize) {
                let k = choose|k: int| 0 <= k < ni.len() && ni[k] == j as usize;
                assert(adjacency[ni[k] as int]@.contains(i as usize));
            }
            if nj.contains(i as usize) {
                let k = choose|k: int| 0 <= k < nj.len() && nj[k] == i as usize;
                assert(adjacency[nj[k] as int]@.contains(j as usize));
            }
        }
    }
}

/// A matrix is complete exactly when none of its rows, the first included, is empty: one empty
/// row anywhere makes it incomplete.
pub proof fn lemma_complete_iff_no_empty_row(m: LaplacianMatrix)
    ensures
        m.complete() <==> !(exists|i: int| 0 <= i < m.rows@.len() && #[trigger] m.rows@[i]@.len() == 0),
        forall|i: int| 0 <= i < m.rows@.len() && #[trigger] m.rows@[i]@.len() == 0 ==> !m.complete(),
{
}

} // verus!
