//! Conservation messages carry one agent's sparse Laplacian row between agents.
use vstd::prelude::*;
use vstd::utf8::encode_utf8;
use crate::binary64::{count_bits, count_to_bits, EXACT_COUNT_LIMIT, NEG_ONE_BITS, ZERO_BITS};
use crate::digits::{decimal_bytes, decimal_chars, hex_chars, lemma_decimal_chars_utf8, lemma_hex_chars_digits, push_decimal_bytes, push_hex};
use vstd::arithmetic::power::pow;

verus! {

/// Errors for message operations.
#[derive(Debug, Clone, PartialEq)]
pub enum MessageError {
    /// The sender id is not acceptable (its text says why).
    InvalidSenderId(String),
    /// Encoding failed, or the row breaks the sparse-row convention.
    SerializationFailed(String),
    /// Decoding failed.
    DeserializationFailed(String),
    /// The signature does not match the sender and timestamp.
    SignatureVerificationFailed,
    /// The timestamp is zero.
    ZeroTimestamp,
}

/// A sparse row entry in CSR-like form: a column index and the entry's value, held as the bit
/// pattern of an IEEE-754 binary64 number (what `f64::to_bits` gives).
#[derive(Debug, Clone, Copy, PartialEq, Eq, Structural)]
pub struct SparseEntry {
    /// Column index.
    pub col: usize,
    /// Bit pattern of the binary64 value.
    pub value_bits: u64,
}

/// A conservation message: one agent's row of the graph Laplacian.
#[derive(Debug, Clone, PartialEq)]
pub struct ConservationMessage {
    /// Identifier of the sending agent.
    pub sender_id: String,
    /// Sparse representation of the sender's Laplacian row.
    pub laplacian_row: Vec<SparseEntry>,
    /// Monotonic timestamp (epoch millis or logical clock).
    pub timestamp: u64,
    /// Deterministic signature of the sender id and timestamp (16 lowercase hex digits).
    pub signature: String,
}

/// FNV-1a offset basis.
pub const FNV_OFFSET_BASIS: u64 = 14_695_981_039_346_656_037;

/// FNV-1a prime.
pub const FNV_PRIME: u64 = 1_099_511_628_211;

/// One FNV-1a step: xor the byte in, then multiply by the prime modulo 2^64.
pub open spec fn fnv1a_step(hash: u64, byte: u8) -> u64 {
    vstd::wrapping::u64_specs::wrapping_mul(hash ^ (byte as u64), FNV_PRIME)
}

/// The FNV-1a hash of `bytes`.
pub open spec fn fnv1a(bytes: Seq<u8>) -> u64
    decreases bytes.len(),
{
    if bytes.len() == 0 {
        FNV_OFFSET_BASIS
    } else {
        fnv1a_step(fnv1a(bytes.drop_last()), bytes.last())
    }
}

/// The signed text: the UTF-8 bytes of `"{sender_id}:{timestamp}"`.
pub open spec fn signature_input(sender_id: Seq<char>, timestamp: u64) -> Seq<u8> {
    encode_utf8(sender_id) + seq![58u8] + decimal_bytes(timestamp as nat)
}

/// The signature of a sender and timestamp: the FNV-1a hash of the signed text, written as
/// 16 lowercase hexadecimal digits.
pub open spec fn signature_of(sender_id: Seq<char>, timestamp: u64) -> Seq<char> {
    hex_chars(fnv1a(signature_input(sender_id, timestamp)) as nat, 16)
}

/// Whether the columns of `row` strictly increase (the CSR convention).
pub open spec fn cols_strictly_increasing(row: Seq<SparseEntry>) -> bool {
    forall|k: int| 0 < k < row.len() ==> row[k - 1].col < #[trigger] row[k].col
}

/// The dense row of length `n` that `entries` describe: zero everywhere, each entry with a
/// column below `n` written in order, so that a later entry for a column wins.
pub open spec fn scatter(entries: Seq<SparseEntry>, n: nat) -> Seq<u64>
    decreases entries.len(),
{
    if entries.len() == 0 {
        Seq::new(n, |c: int| ZERO_BITS)
    } else {
        let prev = scatter(entries.drop_last(), n);
        let e = entries.last();
        if e.col < n {
            prev.update(e.col as int, e.value_bits)
        } else {
            prev
        }
    }
}

/// The dense Laplacian row of the agent `s` with the given neighbours in a network of `n`
/// agents: its degree on the diagonal, `-1` at each neighbour, zero elsewhere.
pub open spec fn adjacency_dense_row(neighbors: Seq<usize>, s: nat, n: nat) -> Seq<u64> {
    Seq::new(
        n,
        |c: int|
            if c == s {
                count_bits(neighbors.len()) as u64
            } else if neighbors.contains(c as usize) {
                NEG_ONE_BITS
            } else {
                ZERO_BITS
            },
    )
}

/// The entries of a dense row whose value is not `+0.0`, in column order. (The rows built from
/// adjacency lists hold no `-0.0`, the one other pattern that compares equal to zero, so this
/// keeps exactly the entries that are non-zero as numbers.)
pub open spec fn nonzero_entries(dense: Seq<u64>) -> Seq<SparseEntry>
    decreases dense.len(),
{
    if dense.len() == 0 {
        Seq::empty()
    } else {
        let rest = nonzero_entries(dense.drop_last());
        if dense.last() != ZERO_BITS {
            rest.push(SparseEntry { col: (dense.len() - 1) as usize, value_bits: dense.last() })
        } else {
            rest
        }
    }
}

/// Copies the bytes of `s` into a vector.
fn bytes_of(s: &str) -> (v: Vec<u8>)
    ensures
        v@ == encode_utf8(s@),
{
    let b = s.as_bytes();
    let mut v: Vec<u8> = Vec::new();
    let mut i: usize = 0;
    while i < b.len()
        invariant
            i <= b@.len(),
            b@ == encode_utf8(s@),
            v@ == b@.take(i as int),
        decreases b@.len() - i,
    {
        v.push(b[i]);
        i = i + 1;
        assert(v@ =~= b@.take(i as int));
    }
    assert(b@.take(i as int) =~= b@);
    v
}

impl ConservationMessage {
    /// Whether the signature is the one `compute_signature` gives for the sender and timestamp.
    pub open spec fn signed_correctly(&self) -> bool {
        self.signature@ == signature_of(self.sender_id@, self.timestamp)
    }

    /// Create a message, computing its deterministic signature.
    pub fn new(sender_id: &str, laplacian_row: Vec<SparseEntry>, timestamp: u64) -> (msg: Self)
        ensures
            msg.sender_id@ == sender_id@,
            msg.laplacian_row@ == laplacian_row@,
            msg.timestamp == timestamp,
            msg.signature@ == signature_of(sender_id@, timestamp),
            msg.signed_correctly(),
    {
        let signature = Self::compute_signature(sender_id, timestamp);
        ConservationMessage {
            sender_id: sender_id.to_owned(),
            laplacian_row,
            timestamp,
            signature,
        }
    }

    /// The deterministic signature of a sender id and timestamp: the FNV-1a hash of
    /// `"{sender_id}:{timestamp}"`, as 16 lowercase hex digits.
    pub fn compute_signature(sender_id: &str, timestamp: u64) -> (sig: String)
        ensures
            sig@ == signature_of(sender_id@, timestamp),
            sig@.len() == 16,
    {
        let mut data = bytes_of(sender_id);
        data.push(58u8);
        push_decimal_bytes(&mut data, timestamp);
        let ghost input = data@;
        assert(input =~= signature_input(sender_id@, timestamp));
        let mut hash: u64 = FNV_OFFSET_BASIS;
        let mut i: usize = 0;
        while i < data.len()
            invariant
                i <= data@.len(),
                data@ == input,
                hash == fnv1a(input.take(i as int)),
            decreases data@.len() - i,
        {
            assert(input.take(i + 1).drop_last() =~= input.take(i as int));
            hash = (hash ^ (data[i] as u64)).wrapping_mul(FNV_PRIME);
            i = i + 1;
        }
        assert(input.take(i as int) =~= input);
        let mut sig = String::new();
        push_hex(&mut sig, hash, 16);
        proof {
            lemma_hex_chars_len(hash as nat, 16);
        }
        assert(sig@ =~= signature_of(sender_id@, timestamp));
        sig
    }

    /// Whether this message's signature matches its sender and timestamp.
    pub fn verify_signature(&self) -> (ok: bool)
        ensures
            ok == self.signed_correctly(),
    {
        let expected = Self::compute_signature(self.sender_id.as_str(), self.timestamp);
        expected == self.signature
    }

    /// Check that the message is well formed: a non-empty sender, a non-zero timestamp, a valid
    /// signature and strictly increasing columns, tested in that order.
    pub fn validate(&self) -> (r: Result<(), MessageError>)
        ensures
            r is Ok <==> (self.sender_id@.len() > 0 && self.timestamp != 0
                && self.signed_correctly() && cols_strictly_increasing(self.laplacian_row@)),
            match r {
                Ok(()) => true,
                Err(MessageError::InvalidSenderId(why)) => self.sender_id@.len() == 0 && why@
                    == "empty"@,
                Err(MessageError::ZeroTimestamp) => self.sender_id@.len() > 0 && self.timestamp
                    == 0,
                Err(MessageError::SignatureVerificationFailed) => self.sender_id@.len() > 0
                    && self.timestamp != 0 && !self.signed_correctly(),
                Err(MessageError::SerializationFailed(why)) => self.sender_id@.len() > 0
                    && self.timestamp != 0 && self.signed_correctly()
                    && !cols_strictly_increasing(self.laplacian_row@) && why@
                    == "laplacian_row entries must be sorted by column index"@,
                Err(MessageError::DeserializationFailed(_)) => false,
            },
    {
        if self.sender_id.as_str().is_empty() {
            return Err(MessageError::InvalidSenderId("empty".to_owned()));
        }
        if self.timestamp == 0 {
            return Err(MessageError::ZeroTimestamp);
        }
        if !self.verify_signature() {
            return Err(MessageError::SignatureVerificationFailed);
        }
        let row = &self.laplacian_row;
        let mut k: usize = 1;
        while k < row.len()
            invariant
                1 <= k,
                k <= row@.len() || row@.len() == 0,
                row@ == self.laplacian_row@,
                self.sender_id@.len() > 0,
                self.timestamp != 0,
                self.signed_correctly(),
                forall|j: int| 0 < j < k && j < row@.len() ==> row@[j - 1].col < #[trigger] row@[j].col,
            decreases row@.len() - k,
        {
            if row[k - 1].col >= row[k].col {
                assert(!cols_strictly_increasing(row@)) by {
                    assert(!(row@[k - 1].col < row@[k as int].col));
                }
                return Err(
                    MessageError::SerializationFailed(
                        "laplacian_row entries must be sorted by column index".to_owned(),
                    ),
                );
            }
            k = k + 1;
        }
        Ok(())
    }

    /// The message of agent `sender_index` carrying its Laplacian row, built from the network's
    /// adjacency lists: its degree on the diagonal and `-1` at each neighbour, as sparse entries
    /// in column order.
    pub fn from_adjacency(
        sender_id: &str,
        sender_index: usize,
        adjacency: &[Vec<usize>],
        timestamp: u64,
    ) -> (msg: Self)
        requires
            sender_index < adjacency@.len(),
            forall|k: int|
                0 <= k < adjacency@[sender_index as int]@.len() ==> #[trigger] adjacency@[sender_index as int]@[k]
                    < adjacency@.len(),
            adjacency@[sender_index as int]@.len() < EXACT_COUNT_LIMIT,
        ensures
            msg.sender_id@ == sender_id@,
            msg.timestamp == timestamp,
            msg.signature@ == signature_of(sender_id@, timestamp),
            msg.laplacian_row@ == nonzero_entries(
                adjacency_dense_row(adjacency@[sender_index as int]@, sender_index as nat, adjacency@.len()),
            ),
            cols_strictly_increasing(msg.laplacian_row@),
            scatter(msg.laplacian_row@, adjacency@.len()) == adjacency_dense_row(
                adjacency@[sender_index as int]@,
                sender_index as nat,
                adjacency@.len(),
            ),
    {
        let n = adjacency.len();
        let neighbors = &adjacency[sender_index];
        let ghost nb = neighbors@;
        let mut row: Vec<u64> = Vec::new();
        let mut c: usize = 0;
        while c < n
            invariant
                c <= n,
                row@ =~= Seq::new(c as nat, |j: int| ZERO_BITS),
            decreases n - c,
        {
            row.push(ZERO_BITS);
            c = c + 1;
        }
        let mut k: usize = 0;
        while k < neighbors.len()
            invariant
                k <= nb.len(),
                neighbors@ == nb,
                n == adjacency@.len(),
                forall|j: int| 0 <= j < nb.len() ==> #[trigger] nb[j] < n,
                row@.len() == n,
                forall|col: int|
                    0 <= col < n ==> #[trigger] row@[col] == if nb.take(k as int).contains(col as usize) {
                        NEG_ONE_BITS
                    } else {
                        ZERO_BITS
                    },
            decreases nb.len() - k,
        {
            let j = neighbors[k];
            row[j] = NEG_ONE_BITS;
            k = k + 1;
            assert forall|col: int| 0 <= col < n implies #[trigger] row@[col] == if nb.take(
                k as int,
            ).contains(col as usize) {
                NEG_ONE_BITS
            } else {
                ZERO_BITS
            } by {
                assert(nb.take(k as int) =~= nb.take(k - 1).push(j));
                if col != j as int {
                    if nb.take(k as int).contains(col as usize) {
                        let w = choose|w: int| 0 <= w < k && nb.take(k as int)[w] == col as usize;
                        assert(nb.take(k - 1)[w] == col as usize);
                    }
                } else {
                    assert(nb.take(k as int)[k - 1] == j);
                }
            }
        }
        assert(nb.take(nb.len() as int) =~= nb);
        let degree = count_to_bits(neighbors.len());
        row[sender_index] = degree;
        let ghost dense = adjacency_dense_row(nb, sender_index as nat, n as nat);
        assert(row@ =~= dense);
        let mut entries: Vec<SparseEntry> = Vec::new();
        let mut c: usize = 0;
        while c < n
            invariant
                c <= n,
                row@ == dense,
                dense.len() == n,
                entries@ == nonzero_entries(dense.take(c as int)),
            decreases n - c,
        {
            assert(dense.take(c + 1).drop_last() =~= dense.take(c as int));
            if row[c] != ZERO_BITS {
                entries.push(SparseEntry { col: c, value_bits: row[c] });
            }
            c = c + 1;
        }
        assert(dense.take(n as int) =~= dense);
        proof {
            lemma_nonzero_entries_strictly_increasing(dense);
            lemma_scatter_nonzero_entries(dense, n as nat);
            assert(dense + Seq::new((n - n) as nat, |c: int| ZERO_BITS) =~= dense);
        }
        Self::new(sender_id, entries, timestamp)
    }

    /// The dense row of length `n` that the message's sparse row describes (entries whose
    /// column is `n` or more are left out).
    pub fn to_dense(&self, n: usize) -> (dense: Vec<u64>)
        ensures
            dense@ == scatter(self.laplacian_row@, n as nat),
    {
        scatter_row(&self.laplacian_row, n)
    }
}

/// The dense row of length `n` that `entries` describe.
pub fn scatter_row(entries: &Vec<SparseEntry>, n: usize) -> (dense: Vec<u64>)
    ensures
        dense@ == scatter(entries@, n as nat),
{
    let mut dense: Vec<u64> = Vec::new();
    let mut c: usize = 0;
    while c < n
        invariant
            c <= n,
            dense@ =~= Seq::new(c as nat, |j: int| ZERO_BITS),
        decreases n - c,
    {
        dense.push(ZERO_BITS);
        c = c + 1;
    }
    assert(entries@.take(0) =~= Seq::<SparseEntry>::empty());
    let mut i: usize = 0;
    while i < entries.len()
        invariant
            i <= entries@.len(),
            dense@ == scatter(entries@.take(i as int), n as nat),
            dense@.len() == n,
        decreases entries@.len() - i,
    {
        assert(entries@.take(i + 1).drop_last() =~= entries@.take(i as int));
        let e = entries[i];
        if e.col < n {
            dense[e.col] = e.value_bits;
        }
        i = i + 1;
        proof {
            lemma_scatter_len(entries@.take(i as int), n as nat);
        }
    }
    assert(entries@.take(i as int) =~= entries@);
    dense
}

/// A scattered row has the requested length.
pub proof fn lemma_scatter_len(entries: Seq<SparseEntry>, n: nat)
    ensures
        scatter(entries, n).len() == n,
    decreases entries.len(),
{
    if entries.len() > 0 {
        lemma_scatter_len(entries.drop_last(), n);
    }
}

proof fn lemma_hex_chars_len(v: nat, width: nat)
    ensures
        hex_chars(v, width).len() == width,
    decreases width,
{
    if width > 0 {
        lemma_hex_chars_len(v / 16, (width - 1) as nat);
    }
}

/// Scattering one more entry writes it over the row.
pub proof fn lemma_scatter_push(t: Seq<SparseEntry>, e: SparseEntry, n: nat)
    ensures
        scatter(t.push(e), n) == if e.col < n {
            scatter(t, n).update(e.col as int, e.value_bits)
        } else {
            scatter(t, n)
        },
{
    assert(t.push(e).drop_last() =~= t);
}

/// Scattering the non-zero entries of a dense row gives the row back, padded with zeros.
pub proof fn lemma_scatter_nonzero_entries(d: Seq<u64>, m: nat)
    requires
        d.len() <= m,
        m <= usize::MAX,
    ensures
        scatter(nonzero_entries(d), m) == d + Seq::new((m - d.len()) as nat, |c: int| ZERO_BITS),
    decreases d.len(),
{
    if d.len() == 0 {
        assert(d + Seq::new(m, |c: int| ZERO_BITS) =~= Seq::new(m, |c: int| ZERO_BITS));
    } else {
        let d2 = d.drop_last();
        lemma_scatter_nonzero_entries(d2, m);
        let rest = nonzero_entries(d2);
        lemma_scatter_len(rest, m);
        if d.last() != ZERO_BITS {
            let e = SparseEntry { col: (d.len() - 1) as usize, value_bits: d.last() };
            assert(nonzero_entries(d) == rest.push(e));
            lemma_scatter_push(rest, e, m);
        } else {
            assert(nonzero_entries(d) == rest);
        }
        assert(scatter(nonzero_entries(d), m) =~= d + Seq::new((m - d.len()) as nat, |c: int| ZERO_BITS));
    }
}

/// The columns of the non-zero entries of a dense row strictly increase, so a message built
/// from adjacency lists passes the column check of `validate`.
pub proof fn lemma_nonzero_entries_strictly_increasing(d: Seq<u64>)
    requires
        d.len() <= usize::MAX,
    ensures
        cols_strictly_increasing(nonzero_entries(d)),
        forall|k: int| 0 <= k < nonzero_entries(d).len() ==> #[trigger] nonzero_entries(d)[k].col < d.len(),
    decreases d.len(),
{
    if d.len() > 0 {
        let d2 = d.drop_last();
        lemma_nonzero_entries_strictly_increasing(d2);
        let r = nonzero_entries(d2);
        if d.last() != ZERO_BITS {
            let e = SparseEntry { col: (d.len() - 1) as usize, value_bits: d.last() };
            let r2 = r.push(e);
            assert(nonzero_entries(d) == r2);
            assert forall|k: int| 0 < k < r2.len() implies r2[k - 1].col < #[trigger] r2[k].col by {
                assert(r2[k - 1] == r[k - 1]);
                if k < r.len() {
                    assert(r2[k] == r[k]);
                }
            }
            assert forall|k: int| 0 <= k < r2.len() implies #[trigger] r2[k].col < d.len() by {
                if k < r.len() {
                    assert(r2[k] == r[k]);
                }
            }
        } else {
            assert(nonzero_entries(d) == r);
        }
    }
}

/// Columns that strictly increase from each entry to the next strictly increase across any two
/// entries.
pub proof fn lemma_cols_strictly_increasing_all(row: Seq<SparseEntry>)
    requires
        cols_strictly_increasing(row),
    ensures
        forall|i: int, j: int| 0 <= i < j < row.len() ==> row[i].col < row[j].col,
    decreases row.len(),
{
    if row.len() > 0 {
        let t = row.drop_last();
        assert forall|k: int| 0 < k < t.len() implies t[k - 1].col < #[trigger] t[k].col by {
            assert(t[k] == row[k] && t[k - 1] == row[k - 1]);
        }
        lemma_cols_strictly_increasing_all(t);
        assert forall|i: int, j: int| 0 <= i < j < row.len() implies row[i].col < row[j].col by {
            assert(row[i] == t[i]);
            if j < t.len() {
                assert(row[j] == t[j]);
            } else if i < j - 1 {
                assert(row[j - 1] == t[j - 1]);
                assert(row[j - 1].col < row[j].col);
            }
        }
    }
}

proof fn lemma_scatter_extend(s: Seq<SparseEntry>, m: nat)
    requires
        forall|k: int| 0 <= k < s.len() ==> #[trigger] s[k].col < m,
    ensures
        scatter(s, m + 1) == scatter(s, m).push(ZERO_BITS),
    decreases s.len(),
{
    if s.len() == 0 {
        assert(Seq::new(m + 1, |c: int| ZERO_BITS) =~= Seq::new(m, |c: int| ZERO_BITS).push(ZERO_BITS));
    } else {
        let t = s.drop_last();
        assert forall|k: int| 0 <= k < t.len() implies #[trigger] t[k].col < m by {
            assert(t[k] == s[k]);
        }
        lemma_scatter_extend(t, m);
        lemma_scatter_len(t, m);
        let e = s.last();
        assert(e.col < m);
        assert(scatter(t, m).push(ZERO_BITS).update(e.col as int, e.value_bits) =~= scatter(t, m).update(
            e.col as int,
            e.value_bits,
        ).push(ZERO_BITS));
    }
}

/// A row whose columns strictly increase, stay below `n` and carry non-zero values is exactly
/// the row of non-zero entries of its dense form.
pub proof fn lemma_nonzero_entries_of_scatter(s: Seq<SparseEntry>, n: nat)
    requires
        cols_strictly_increasing(s),
        forall|k: int| 0 <= k < s.len() ==> (#[trigger] s[k]).col < n && s[k].value_bits != ZERO_BITS,
        n <= usize::MAX,
    ensures
        nonzero_entries(scatter(s, n)) == s,
    decreases n,
{
    lemma_cols_strictly_increasing_all(s);
    lemma_scatter_len(s, n);
    if n == 0 {
        if s.len() > 0 {
            assert(s[0].col < 0);
        }
        assert(s =~= Seq::<SparseEntry>::empty());
        assert(scatter(s, n) =~= Seq::<u64>::empty());
    } else {
        let m = (n - 1) as nat;
        if s.len() > 0 && s.last().col == m {
            let t = s.drop_last();
            assert forall|k: int| 0 < k < t.len() implies t[k - 1].col < #[trigger] t[k].col by {
                assert(t[k] == s[k] && t[k - 1] == s[k - 1]);
            }
            assert forall|k: int| 0 <= k < t.len() implies (#[trigger] t[k]).col < m && t[k].value_bits
                != ZERO_BITS by {
                assert(t[k] == s[k]);
                assert(s[k].col < s[s.len() - 1].col);
            }
            lemma_nonzero_entries_of_scatter(t, m);
            lemma_scatter_extend(t, m);
            lemma_scatter_len(t, m);
            let e = s.last();
            let d = scatter(s, n);
            assert(d == scatter(t, n).update(m as int, e.value_bits));
            assert(d =~= scatter(t, m).push(e.value_bits));
            assert(d.drop_last() =~= scatter(t, m));
            assert(s =~= t.push(e));
        } else {
            assert forall|k: int| 0 <= k < s.len() implies (#[trigger] s[k]).col < m by {
                if s[k].col == m {
                    assert(k < s.len() - 1);
                    assert(s[k].col < s[s.len() - 1].col);
                }
            }
            lemma_nonzero_entries_of_scatter(s, m);
            lemma_scatter_extend(s, m);
            let d = scatter(s, n);
            assert(d.drop_last() =~= scatter(s, m));
        }
    }
}

proof fn lemma_encode_utf8_add(a: Seq<char>, b: Seq<char>)
    ensures
        encode_utf8(a + b) == encode_utf8(a) + encode_utf8(b),
    decreases a.len(),
{
    if a.len() == 0 {
        assert(a + b =~= b);
        assert(encode_utf8(a) + encode_utf8(b) =~= encode_utf8(b));
    } else {
        lemma_encode_utf8_add(a.drop_first(), b);
        assert((a + b)[0] == a[0]);
        assert((a + b).drop_first() =~= a.drop_first() + b);
        assert(encode_utf8(a) + encode_utf8(b) =~= encode_scalar_first(a) + (encode_utf8(a.drop_first())
            + encode_utf8(b)));
    }
}

spec fn encode_scalar_first(a: Seq<char>) -> Seq<u8> {
    vstd::utf8::encode_scalar(a[0] as u32)
}

/// The FNV-1a hash: the empty text hashes to the offset basis 14695981039346656037, and each
/// further byte is xor-ed in and the result multiplied by the prime 1099511628211 modulo 2^64.
pub proof fn lemma_fnv1a_steps(bytes: Seq<u8>, b: u8)
    ensures
        fnv1a(Seq::<u8>::empty()) == 14695981039346656037u64,
        fnv1a(bytes.push(b)) as nat == ((fnv1a(bytes) ^ (b as u64)) as nat * 1099511628211nat)
            % 0x1_0000_0000_0000_0000nat,
{
    assert(bytes.push(b).drop_last() =~= bytes);
}

/// The signed text is the UTF-8 encoding of the sender id, a `':'` and the decimal timestamp;
/// the signature is its FNV-1a hash written as 16 lowercase hexadecimal digits, most
/// significant first.
pub proof fn lemma_signature_text(sender_id: Seq<char>, timestamp: u64)
    ensures
        signature_input(sender_id, timestamp) == encode_utf8(
            sender_id + seq![':'] + decimal_chars(timestamp as nat),
        ),
        signature_of(sender_id, timestamp).len() == 16,
        forall|k: int|
            0 <= k < 16 ==> {
                let d = (fnv1a(signature_input(sender_id, timestamp)) as int / pow(16, (15 - k) as nat))
                    % 16;
                let c = #[trigger] signature_of(sender_id, timestamp)[k];
                (d < 10 && c == (48 + d) as char) || (10 <= d && c == (87 + d) as char)
            },
{
    let colon = seq![':'];
    lemma_encode_utf8_add(sender_id + colon, decimal_chars(timestamp as nat));
    lemma_encode_utf8_add(sender_id, colon);
    lemma_decimal_chars_utf8(timestamp as nat);
    assert(vstd::utf8::is_ascii_chars(colon));
    vstd::utf8::is_ascii_chars_encode_utf8(colon);
    assert(encode_utf8(colon) =~= seq![58u8]);
    lemma_hex_chars_digits(fnv1a(signature_input(sender_id, timestamp)) as nat, 16);
}

/// Strictly increasing columns, entry to entry, is the same as every earlier entry having a
/// smaller column than every later one.
pub proof fn lemma_cols_strictly_increasing_iff(row: Seq<SparseEntry>)
    ensures
        cols_strictly_increasing(row) <==> forall|i: int, j: int|
            0 <= i < j < row.len() ==> row[i].col < row[j].col,
{
    if cols_strictly_increasing(row) {
        lemma_cols_strictly_increasing_all(row);
    }
    if forall|i: int, j: int| 0 <= i < j < row.len() ==> row[i].col < row[j].col {
        assert forall|k: int| 0 < k < row.len() implies row[k - 1].col < #[trigger] row[k].col by {
            assert(row[k - 1].col < row[k].col);
        }
    }
}

/// In the dense form of a row, a column holds the value of the last entry for that column, and
/// zero when no entry names it.
pub proof fn lemma_scatter_last_entry_wins(s: Seq<SparseEntry>, n: nat, c: int)
    requires
        0 <= c < n,
    ensures
        forall|k: int|
            0 <= k < s.len() && (#[trigger] s[k]).col == c && (forall|j: int| k < j < s.len() ==> s[j].col != c)
                ==> scatter(s, n)[c] == s[k].value_bits,
        (forall|k: int| 0 <= k < s.len() ==> (#[trigger] s[k]).col != c) ==> scatter(s, n)[c] == ZERO_BITS,
    decreases s.len(),
{
    lemma_scatter_len(s, n);
    if s.len() > 0 {
        let t = s.drop_last();
        lemma_scatter_last_entry_wins(t, n, c);
        lemma_scatter_len(t, n);
        let e = s.last();
        assert forall|k: int|
            0 <= k < s.len() && (#[trigger] s[k]).col == c && (forall|j: int| k < j < s.len() ==> s[j].col != c)
                implies scatter(s, n)[c] == s[k].value_bits by {
            if k < s.len() - 1 {
                assert(s[s.len() - 1].col != c);
                assert(t[k] == s[k]);
                assert forall|j: int| k < j < t.len() implies t[j].col != c by {
                    assert(t[j] == s[j]);
                }
            }
        }
        if forall|k: int| 0 <= k < s.len() ==> (#[trigger] s[k]).col != c {
            assert(s[s.len() - 1].col != c);
            assert forall|k: int| 0 <= k < t.len() implies (#[trigger] t[k]).col != c by {
                assert(t[k] == s[k]);
            }
        }
    }
}

} // verus!
