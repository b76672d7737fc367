//! The gossip protocol: each agent broadcasts its own Laplacian row and merges the rows it
//! receives into its local view of the network's Laplacian.
use vstd::prelude::*;
use vstd::utf8::encode_utf8;
use crate::binary64::EXACT_COUNT_LIMIT;
use crate::consensus::{next_state, ConsensusState, ConsensusTracker, GapLevel};
use crate::digits::{decimal_chars, parse_usize, parse_usize_spec, usize_to_string, lemma_decimal_chars_utf8, lemma_parse_decimal_roundtrip};
use crate::laplacian::{build_laplacian_row, laplacian_row, raw_laplacian_row, LaplacianError, LaplacianMatrix};
use crate::message::{ConservationMessage, SparseEntry};
use vstd::std_specs::convert::FromSpecImpl;

verus! {

/// Errors for gossip operations.
#[derive(Debug, Clone, PartialEq)]
pub enum GossipError {
    /// The named agent is not part of the network.
    AgentNotFound { agent: String },
    /// The network sizes of two views differ.
    NetworkSizeMismatch,
    /// Merging a row into the Laplacian failed.
    Laplacian(LaplacianError),
}

impl From<LaplacianError> for GossipError {
    fn from(e: LaplacianError) -> (r: Self) {
        GossipError::Laplacian(e)
    }
}

impl FromSpecImpl<LaplacianError> for GossipError {
    open spec fn obeys_from_spec() -> bool {
        true
    }

    open spec fn from_spec(e: LaplacianError) -> Self {
        GossipError::Laplacian(e)
    }
}

/// The result of a gossip round.
#[derive(Debug, Clone, PartialEq)]
pub struct GossipRoundResult {
    /// Number of rows updated in this round.
    pub rows_updated: usize,
    /// Whether the network has converged.
    pub converged: bool,
    /// The spectral gap of this round (binary64 bit pattern).
    pub spectral_gap_bits: u64,
}

/// What a run of gossip rounds does after a round.
#[derive(Debug, Clone, Copy, PartialEq, Eq, Structural)]
pub enum RunStep {
    /// The round converged: the run ends with that round's result.
    Converged,
    /// Rounds remain: run another.
    Continue,
    /// No round is left: the run ends unconverged.
    Exhausted,
}

/// The step after the `rounds_done`-th of at most `max_rounds` rounds: a converged round ends
/// the run; otherwise the run goes on while rounds remain.
pub fn after_round(rounds_done: usize, max_rounds: usize, converged: bool) -> (step: RunStep)
    ensures
        step == if converged {
            RunStep::Converged
        } else if rounds_done < max_rounds {
            RunStep::Continue
        } else {
            RunStep::Exhausted
        },
{
    if converged {
        RunStep::Converged
    } else if rounds_done < max_rounds {
        RunStep::Continue
    } else {
        RunStep::Exhausted
    }
}

/// The listed neighbours of agent `i`, or none when the adjacency lists stop before `i`.
pub open spec fn neighbors_of(adjacency: Seq<Vec<usize>>, i: usize) -> Seq<usize> {
    if i < adjacency.len() {
        adjacency[i as int]@
    } else {
        Seq::empty()
    }
}

/// The rows of a Laplacian, each as its sequence of entries.
pub open spec fn rows_model(m: LaplacianMatrix) -> Seq<Seq<SparseEntry>> {
    m.rows@.map_values(|r: Vec<SparseEntry>| r@)
}

/// Row `i` of a Laplacian, or no entries when the matrix holds fewer rows.
pub open spec fn own_row(m: LaplacianMatrix, i: usize) -> Seq<SparseEntry> {
    if i < m.rows@.len() {
        m.rows@[i as int]@
    } else {
        Seq::empty()
    }
}

/// What receiving `msg` does to a view with rows `rows` and size `n`: a message whose signature
/// fails is ignored (`Ok(false)`); otherwise its sender id, read as a row index, names the row
/// that its entries replace (`Ok(true)`), and a sender id that is not a row index is an error
/// that leaves the rows as they were.
#[verifier::opaque]
pub open spec fn receive_outcome(rows: Seq<Seq<SparseEntry>>, n: usize, msg: ConservationMessage) -> (
    Result<bool, GossipError>,
    Seq<Seq<SparseEntry>>,
) {
    if !msg.signed_correctly() {
        (Ok(false), rows)
    } else {
        match parse_usize_spec(encode_utf8(msg.sender_id@)) {
            None => (
                Err(GossipError::Laplacian(LaplacianError::DimensionMismatch { expected: n, got: 0 })),
                rows,
            ),
            Some(idx) => if idx >= n {
                (Err(GossipError::Laplacian(LaplacianError::IndexOutOfBounds { index: idx, size: n })), rows)
            } else {
                (Ok(true), rows.update(idx as int, msg.laplacian_row@))
            },
        }
    }
}

/// Whether receiving `msg` into a view of size `n` is an error: its signature holds but its
/// sender id does not name a row below `n`.
pub open spec fn receive_fails(n: usize, msg: ConservationMessage) -> bool {
    msg.signed_correctly() && match parse_usize_spec(encode_utf8(msg.sender_id@)) {
        Some(idx) => idx >= n,
        None => true,
    }
}

/// Whether receiving `msgs` in order into `view` only ever merges into rows the view holds:
/// every signed message reached before the first error names an existing row.
pub open spec fn receive_all_in_bounds(view: LaplacianMatrix, msgs: Seq<ConservationMessage>) -> bool {
    forall|k: int|
        0 <= k < msgs.len() && (forall|j: int| 0 <= j < k ==> !receive_fails(view.n, #[trigger] msgs[j]))
            && (#[trigger] msgs[k]).signed_correctly() ==> view.sender_row_exists(msgs[k].sender_id@)
}

/// Receiving `msgs` in order, stopping at the first error: the number of rows updated, the
/// rows afterwards, and the error if one stopped it.
#[verifier::opaque]
pub open spec fn receive_all_outcome(
    rows: Seq<Seq<SparseEntry>>,
    n: usize,
    msgs: Seq<ConservationMessage>,
) -> (nat, Seq<Seq<SparseEntry>>, Option<GossipError>)
    decreases msgs.len(),
{
    if msgs.len() == 0 {
        (0, rows, None)
    } else {
        let (count, before, err) = receive_all_outcome(rows, n, msgs.drop_last());
        if err is Some {
            (count, before, err)
        } else {
            match receive_outcome(before, n, msgs.last()) {
                (Err(e), after) => (count, after, Some(e)),
                (Ok(updated), after) => (count + if updated {
                    1nat
                } else {
                    0nat
                }, after, None),
            }
        }
    }
}

/// Whether `m` is what agent `agent_index` broadcasts with row `row` at clock `clock`: sent
/// under the decimal text of its index, carrying the row, stamped and signed.
pub open spec fn is_broadcast_message(
    m: ConservationMessage,
    agent_index: usize,
    row: Seq<SparseEntry>,
    clock: u64,
) -> bool {
    &&& m.sender_id@ == decimal_chars(agent_index as nat)
    &&& m.laplacian_row@ == row
    &&& m.timestamp == clock
    &&& m.signed_correctly()
}

/// A copy of `entries`.
fn copy_entries(entries: &Vec<SparseEntry>) -> (c: Vec<SparseEntry>)
    ensures
        c@ == entries@,
{
    let mut c: Vec<SparseEntry> = Vec::new();
    let mut i: usize = 0;
    while i < entries.len()
        invariant
            i <= entries@.len(),
            c@ == entries@.take(i as int),
        decreases entries@.len() - i,
    {
        c.push(entries[i]);
        i = i + 1;
        assert(c@ =~= entries@.take(i as int));
    }
    assert(entries@.take(i as int) =~= entries@);
    c
}

/// A copy of `msg`.
fn copy_message(msg: &ConservationMessage) -> (c: ConservationMessage)
    ensures
        c.sender_id@ == msg.sender_id@,
        c.laplacian_row@ == msg.laplacian_row@,
        c.timestamp == msg.timestamp,
        c.signature@ == msg.signature@,
{
    ConservationMessage {
        sender_id: msg.sender_id.clone(),
        laplacian_row: copy_entries(&msg.laplacian_row),
        timestamp: msg.timestamp,
        signature: msg.signature.clone(),
    }
}

/// The gossip protocol engine of one agent.
#[derive(Debug, Clone)]
pub struct GossipProtocol {
    agent_id: String,
    agent_index: usize,
    n: usize,
    laplacian: LaplacianMatrix,
    adjacency: Vec<Vec<usize>>,
    consensus: ConsensusTracker,
    outgoing: Vec<ConservationMessage>,
    clock: u64,
}

impl GossipProtocol {
    /// This agent's id.
    pub closed spec fn spec_agent_id(&self) -> Seq<char> {
        self.agent_id@
    }

    /// This agent's index in the network.
    pub closed spec fn spec_agent_index(&self) -> usize {
        self.agent_index
    }

    /// The network size.
    pub closed spec fn spec_n(&self) -> usize {
        self.n
    }

    /// The local view of the network's Laplacian.
    pub closed spec fn spec_laplacian(&self) -> LaplacianMatrix {
        self.laplacian
    }

    /// The adjacency lists (who talks to whom).
    pub closed spec fn spec_adjacency(&self) -> Seq<Vec<usize>> {
        self.adjacency@
    }

    /// The consensus tracker.
    pub closed spec fn spec_consensus(&self) -> ConsensusTracker {
        self.consensus
    }

    /// Every message broadcast so far, oldest first.
    pub closed spec fn spec_outgoing(&self) -> Seq<ConservationMessage> {
        self.outgoing@
    }

    /// The logical clock that stamps broadcasts.
    pub closed spec fn spec_clock(&self) -> u64 {
        self.clock
    }

    /// A gossip node for agent `agent_index` of a network of `n` agents. Its view holds only its
    /// own Laplacian row, built from its adjacency list; consensus awaits its first reading with
    /// the given threshold (a binary64 bit pattern), and the clock starts at 1.
    pub fn new(
        agent_id: &str,
        agent_index: usize,
        n: usize,
        adjacency: Vec<Vec<usize>>,
        spectral_threshold_bits: u64,
    ) -> (p: Self)
        requires
            agent_index < n ==> neighbors_of(adjacency@, agent_index).len() < EXACT_COUNT_LIMIT,
        ensures
            p.spec_agent_id() == agent_id@,
            p.spec_agent_index() == agent_index,
            p.spec_n() == n,
            p.spec_adjacency() == adjacency@,
            p.spec_laplacian().n == n,
            p.spec_laplacian().rows@.len() == n,
            forall|j: int|
                0 <= j < n && j != agent_index ==> #[trigger] p.spec_laplacian().rows@[j]@.len() == 0,
            agent_index < n ==> p.spec_laplacian().rows@[agent_index as int]@ == laplacian_row(
                neighbors_of(adjacency@, agent_index),
                agent_index,
            ),
            p.spec_consensus().spec_threshold() == spectral_threshold_bits,
            p.spec_consensus().spec_current_gap() == crate::binary64::ZERO_BITS,
            p.spec_consensus().spec_state() == ConsensusState::Awaiting,
            p.spec_consensus().spec_history().len() == 0,
            p.spec_consensus().spec_rounds_in_state() == 0,
            p.spec_outgoing().len() == 0,
            p.spec_clock() == 1,
    {
        let mut laplacian = LaplacianMatrix::zeros(n);
        if agent_index < n {
            let entries = if agent_index < adjacency.len() {
                build_laplacian_row(&adjacency[agent_index], agent_index)
            } else {
                assert(raw_laplacian_row(Seq::empty(), agent_index) =~= Seq::<SparseEntry>::empty());
                Vec::new()
            };
            laplacian.rows[agent_index] = entries;
        }
        GossipProtocol {
            agent_id: agent_id.to_owned(),
            agent_index,
            n,
            laplacian,
            adjacency,
            consensus: ConsensusTracker::new(spectral_threshold_bits),
            outgoing: Vec::new(),
            clock: 1,
        }
    }

    /// This agent's id.
    pub fn agent_id(&self) -> (id: &str)
        ensures
            id@ == self.spec_agent_id(),
    {
        self.agent_id.as_str()
    }

    /// The network size.
    pub fn network_size(&self) -> (n: usize)
        ensures
            n == self.spec_n(),
    {
        self.n
    }

    /// The local view of the Laplacian.
    pub fn laplacian(&self) -> (m: &LaplacianMatrix)
        ensures
            *m == self.spec_laplacian(),
    {
        &self.laplacian
    }

    /// Mutable access to the local view of the Laplacian; nothing else can change through it.
    pub fn laplacian_mut(&mut self) -> (m: &mut LaplacianMatrix)
        ensures
            *m == old(self).spec_laplacian(),
            final(self).spec_laplacian() == *final(m),
            final(self).spec_agent_id() == old(self).spec_agent_id(),
            final(self).spec_agent_index() == old(self).spec_agent_index(),
            final(self).spec_n() == old(self).spec_n(),
            final(self).spec_adjacency() == old(self).spec_adjacency(),
            final(self).spec_consensus() == old(self).spec_consensus(),
            final(self).spec_outgoing() == old(self).spec_outgoing(),
            final(self).spec_clock() == old(self).spec_clock(),
    {
        &mut self.laplacian
    }

    /// The agents this agent talks to.
    pub fn neighbor_indices(&self) -> (nb: Vec<usize>)
        ensures
            nb@ == neighbors_of(self.spec_adjacency(), self.spec_agent_index()),
    {
        let mut nb: Vec<usize> = Vec::new();
        if self.agent_index < self.adjacency.len() {
            let list = &self.adjacency[self.agent_index];
            let mut i: usize = 0;
            while i < list.len()
                invariant
                    i <= list@.len(),
                    nb@ == list@.take(i as int),
                decreases list@.len() - i,
            {
                nb.push(list[i]);
                i = i + 1;
                assert(nb@ =~= list@.take(i as int));
            }
            assert(list@.take(i as int) =~= list@);
        } else {
            assert(nb@ =~= Seq::<usize>::empty());
        }
        nb
    }

    /// Broadcast our row to all neighbours: advance the clock, sign our current row under our
    /// index, queue one copy as sent, and return one copy per listed neighbour.
    pub fn broadcast(&mut self) -> (msgs: Vec<ConservationMessage>)
        requires
            old(self).spec_clock() < u64::MAX,
        ensures
            final(self).spec_clock() == old(self).spec_clock() + 1,
            final(self).spec_agent_id() == old(self).spec_agent_id(),
            final(self).spec_agent_index() == old(self).spec_agent_index(),
            final(self).spec_n() == old(self).spec_n(),
            final(self).spec_laplacian() == old(self).spec_laplacian(),
            final(self).spec_adjacency() == old(self).spec_adjacency(),
            final(self).spec_consensus() == old(self).spec_consensus(),
            final(self).spec_outgoing().len() == old(self).spec_outgoing().len() + 1,
            final(self).spec_outgoing().drop_last() == old(self).spec_outgoing(),
            is_broadcast_message(
                final(self).spec_outgoing().last(),
                old(self).spec_agent_index(),
                own_row(old(self).spec_laplacian(), old(self).spec_agent_index()),
                final(self).spec_clock(),
            ),
            msgs@.len() == neighbors_of(old(self).spec_adjacency(), old(self).spec_agent_index()).len(),
            forall|k: int|
                0 <= k < msgs@.len() ==> is_broadcast_message(
                    #[trigger] msgs@[k],
                    old(self).spec_agent_index(),
                    own_row(old(self).spec_laplacian(), old(self).spec_agent_index()),
                    final(self).spec_clock(),
                ),
    {
        self.clock = self.clock + 1;
        let row = if self.agent_index < self.laplacian.rows.len() {
            copy_entries(&self.laplacian.rows[self.agent_index])
        } else {
            Vec::new()
        };
        let sender = usize_to_string(self.agent_index);
        let msg = ConservationMessage::new(sender.as_str(), row, self.clock);
        let count = if self.agent_index < self.adjacency.len() {
            self.adjacency[self.agent_index].len()
        } else {
            0
        };
        let ghost own = own_row(self.laplacian, self.agent_index);
        let mut msgs: Vec<ConservationMessage> = Vec::new();
        let mut k: usize = 0;
        while k < count
            invariant
                k <= count,
                msgs@.len() == k,
                is_broadcast_message(msg, self.agent_index, own, self.clock),
                forall|j: int|
                    0 <= j < k ==> is_broadcast_message(#[trigger] msgs@[j], self.agent_index, own, self.clock),
            decreases count - k,
        {
            msgs.push(copy_message(&msg));
            k = k + 1;
        }
        self.outgoing.push(msg);
        assert(self.outgoing@.drop_last() =~= old(self).outgoing@);
        msgs
    }

    /// Receive a message from a neighbour: a message whose signature fails is ignored
    /// (`Ok(false)`); otherwise its row is merged into our view (`Ok(true)`), or the merge's
    /// error is returned.
    pub fn receive(&mut self, msg: &ConservationMessage) -> (r: Result<bool, GossipError>)
        requires
            msg.signed_correctly() ==> old(self).spec_laplacian().sender_row_exists(msg.sender_id@),
        ensures
            r is Err <==> receive_fails(old(self).spec_laplacian().n, *msg),
            r == Ok::<bool, GossipError>(false) <==> !msg.signed_correctly(),
            r is Err ==> final(self).spec_laplacian() == old(self).spec_laplacian(),
            r == Ok::<bool, GossipError>(false) ==> final(self).spec_laplacian() == old(self).spec_laplacian(),
            r == Ok::<bool, GossipError>(true) ==> exists|idx: usize|
                parse_usize_spec(encode_utf8(msg.sender_id@)) == Some(idx) && idx < old(self).spec_laplacian().n
                    && rows_model(final(self).spec_laplacian()) == #[trigger] rows_model(
                    old(self).spec_laplacian(),
                ).update(idx as int, msg.laplacian_row@),
            (r, rows_model(final(self).spec_laplacian())) == receive_outcome(
                rows_model(old(self).spec_laplacian()),
                old(self).spec_laplacian().n,
                *msg,
            ),
            final(self).spec_laplacian().n == old(self).spec_laplacian().n,
            final(self).spec_laplacian().rows@.len() == old(self).spec_laplacian().rows@.len(),
            final(self).spec_agent_id() == old(self).spec_agent_id(),
            final(self).spec_agent_index() == old(self).spec_agent_index(),
            final(self).spec_n() == old(self).spec_n(),
            final(self).spec_adjacency() == old(self).spec_adjacency(),
            final(self).spec_consensus() == old(self).spec_consensus(),
            final(self).spec_outgoing() == old(self).spec_outgoing(),
            final(self).spec_clock() == old(self).spec_clock(),
    {
        proof {
            reveal(receive_outcome);
        }
        if !msg.verify_signature() {
            return Ok(false);
        }
        let entries = copy_entries(&msg.laplacian_row);
        let ghost before = self.laplacian.rows@;
        match self.laplacian.merge_message(msg.sender_id.as_str(), entries) {
            Ok(_) => {
                proof {
                    let idx = parse_usize_spec(encode_utf8(msg.sender_id@))->0;
                    assert(rows_model(self.laplacian) =~= before.map_values(
                        |v: Vec<SparseEntry>| v@,
                    ).update(idx as int, msg.laplacian_row@));
                    assert(rows_model(old(self).spec_laplacian()) =~= before.map_values(
                        |v: Vec<SparseEntry>| v@,
                    ));
                    assert(rows_model(final(self).spec_laplacian()) == rows_model(
                        old(self).spec_laplacian(),
                    ).update(idx as int, msg.laplacian_row@));
                }
                Ok(true)
            },
            Err(e) => Err(GossipError::Laplacian(e)),
        }
    }

    /// Receive `msgs` in order, stopping at the first error; returns how many of them updated
    /// a row.
    pub fn receive_all(&mut self, msgs: &Vec<ConservationMessage>) -> (r: Result<usize, GossipError>)
        requires
            receive_all_in_bounds(old(self).spec_laplacian(), msgs@),
        ensures
            ({
                let (count, rows, err) = receive_all_outcome(
                    rows_model(old(self).spec_laplacian()),
                    old(self).spec_laplacian().n,
                    msgs@,
                );
                &&& rows_model(final(self).spec_laplacian()) == rows
                &&& match err {
                    None => r == Ok::<usize, GossipError>(count as usize),
                    Some(e) => r == Err::<usize, GossipError>(e),
                }
            }),
            final(self).spec_laplacian().n == old(self).spec_laplacian().n,
            final(self).spec_laplacian().rows@.len() == old(self).spec_laplacian().rows@.len(),
            final(self).spec_agent_id() == old(self).spec_agent_id(),
            final(self).spec_agent_index() == old(self).spec_agent_index(),
            final(self).spec_n() == old(self).spec_n(),
            final(self).spec_adjacency() == old(self).spec_adjacency(),
            final(self).spec_consensus() == old(self).spec_consensus(),
            final(self).spec_outgoing() == old(self).spec_outgoing(),
            final(self).spec_clock() == old(self).spec_clock(),
    {
        let ghost rows0 = rows_model(self.laplacian);
        let ghost n0 = self.laplacian.n;
        let mut updated: usize = 0;
        let mut i: usize = 0;
        assert(msgs@.take(0) =~= Seq::<ConservationMessage>::empty());
        proof {
            reveal(receive_all_outcome);
        }
        while i < msgs.len()
            invariant
                i <= msgs@.len(),
                self.laplacian.n == n0,
                n0 == old(self).laplacian.n,
                rows0 == rows_model(old(self).laplacian),
                self.laplacian.rows@.len() == old(self).laplacian.rows@.len(),
                receive_all_in_bounds(old(self).laplacian, msgs@),
                forall|j: int| 0 <= j < i ==> !receive_fails(n0, #[trigger] msgs@[j]),
                receive_all_outcome(rows0, n0, msgs@.take(i as int)) == (
                    updated as nat,
                    rows_model(self.laplacian),
                    None::<GossipError>,
                ),
                updated <= i,
                self.spec_agent_id() == old(self).spec_agent_id(),
                self.spec_agent_index() == old(self).spec_agent_index(),
                self.spec_n() == old(self).spec_n(),
                self.spec_adjacency() == old(self).spec_adjacency(),
                self.spec_consensus() == old(self).spec_consensus(),
                self.spec_outgoing() == old(self).spec_outgoing(),
                self.spec_clock() == old(self).spec_clock(),
            decreases msgs@.len() - i,
        {
            let ghost before = rows_model(self.laplacian);
            let res = self.receive(&msgs[i]);
            proof {
                if res is Ok {
                    lemma_receive_all_outcome_step(rows0, n0, msgs@, i as int);
                }
            }
            match res {
                Ok(true) => {
                    updated = updated + 1;
                },
                Ok(false) => {},
                Err(e) => {
                    proof {
                        lemma_receive_all_outcome_stops(rows0, n0, msgs@, i as int);
                    }
                    return Err(e);
                },
            }
            i = i + 1;
        }
        assert(msgs@.take(i as int) =~= msgs@);
        Ok(updated)
    }

    /// Whether receiving `msgs` in order only ever merges into rows the view holds (what
    /// `receive_all` needs: merging into a row beyond the view's rows would panic).
    pub fn can_receive_all(&self, msgs: &Vec<ConservationMessage>) -> (b: bool)
        ensures
            b == receive_all_in_bounds(self.spec_laplacian(), msgs@),
            self.spec_laplacian().n <= self.spec_laplacian().rows@.len() ==> b,
    {
        proof {
            if self.laplacian.n <= self.laplacian.rows@.len() {
                lemma_full_view_receives_everything(self.laplacian, msgs@);
            }
        }
        let n = self.laplacian.n;
        let held = self.laplacian.rows.len();
        let mut k: usize = 0;
        while k < msgs.len()
            invariant
                k <= msgs@.len(),
                n == self.laplacian.n,
                held == self.laplacian.rows@.len(),
                forall|j: int| 0 <= j < k ==> !receive_fails(n, #[trigger] msgs@[j]),
                forall|j: int|
                    0 <= j < k && (#[trigger] msgs@[j]).signed_correctly() ==> self.laplacian.sender_row_exists(
                        msgs@[j].sender_id@,
                    ),
            decreases msgs@.len() - k,
        {
            let m = &msgs[k];
            if m.verify_signature() {
                match parse_usize(m.sender_id.as_str()) {
                    Some(idx) => {
                        if idx >= n {
                            assert(receive_fails(n, msgs@[k as int]));
                            return true;
                        }
                        if idx >= held {
                            assert(!self.laplacian.sender_row_exists(msgs@[k as int].sender_id@));
                            return false;
                        }
                    },
                    None => {
                        assert(receive_fails(n, msgs@[k as int]));
                        return true;
                    },
                }
            }
            k = k + 1;
        }
        true
    }

    /// Whether the local view is complete (every row filled).
    pub fn is_view_complete(&self) -> (b: bool)
        ensures
            b == self.spec_laplacian().complete(),
            b <==> forall|i: int|
                0 <= i < self.spec_laplacian().rows@.len() ==> #[trigger] self.spec_laplacian().rows@[i]@.len()
                    != 0,
    {
        let b = self.laplacian.is_complete();
        assert(b <==> forall|i: int|
            0 <= i < self.spec_laplacian().rows@.len() ==> #[trigger] self.spec_laplacian().rows@[i]@.len() != 0)
            by {
            assert(self.spec_laplacian() == self.laplacian);
        }
        b
    }

    /// The current consensus state.
    pub fn consensus_state(&self) -> (s: &ConsensusState)
        ensures
            *s == self.spec_consensus().spec_state(),
    {
        self.consensus.state()
    }

    /// The consensus tracker.
    pub fn consensus(&self) -> (c: &ConsensusTracker)
        ensures
            *c == self.spec_consensus(),
    {
        &self.consensus
    }

    /// The logical clock that stamps the next broadcast once advanced.
    pub fn clock(&self) -> (c: u64)
        ensures
            c == self.spec_clock(),
    {
        self.clock
    }

    /// The latest spectral-gap reading (binary64 bit pattern).
    pub fn current_gap_bits(&self) -> (g: u64)
        ensures
            g == self.spec_consensus().spec_current_gap(),
    {
        self.consensus.current_gap_bits()
    }

    /// Finish a synchronous gossip round once the received rows are merged: record the round's
    /// spectral gap (falling at `level` against the threshold) with the consensus tracker,
    /// broadcast our row, and report.
    pub fn conclude_round(&mut self, rows_updated: usize, spectral_gap_bits: u64, level: GapLevel) -> (r:
        GossipRoundResult)
        requires
            old(self).spec_clock() < u64::MAX,
            old(self).spec_consensus().spec_rounds_in_state() < usize::MAX,
        ensures
            r.rows_updated == rows_updated,
            r.spectral_gap_bits == spectral_gap_bits,
            final(self).spec_consensus().spec_state() == next_state(
                old(self).spec_consensus().spec_state(),
                level,
            ),
            r.converged == (final(self).spec_consensus().spec_state() == ConsensusState::Reached),
            final(self).spec_consensus().spec_history() == old(self).spec_consensus().spec_history().push(
                spectral_gap_bits,
            ),
            final(self).spec_consensus().spec_current_gap() == spectral_gap_bits,
            final(self).spec_consensus().spec_threshold() == old(self).spec_consensus().spec_threshold(),
            final(self).spec_consensus().spec_rounds_in_state() == if next_state(
                old(self).spec_consensus().spec_state(),
                level,
            ) == old(self).spec_consensus().spec_state() {
                old(self).spec_consensus().spec_rounds_in_state() + 1
            } else {
                0
            },
            final(self).spec_clock() == old(self).spec_clock() + 1,
            final(self).spec_agent_id() == old(self).spec_agent_id(),
            final(self).spec_agent_index() == old(self).spec_agent_index(),
            final(self).spec_n() == old(self).spec_n(),
            final(self).spec_adjacency() == old(self).spec_adjacency(),
            final(self).spec_laplacian() == old(self).spec_laplacian(),
            final(self).spec_outgoing().drop_last() == old(self).spec_outgoing(),
            final(self).spec_outgoing().len() == old(self).spec_outgoing().len() + 1,
            is_broadcast_message(
                final(self).spec_outgoing().last(),
                old(self).spec_agent_index(),
                own_row(old(self).spec_laplacian(), old(self).spec_agent_index()),
                final(self).spec_clock(),
            ),
    {
        let converged = self.consensus.observe_gap(spectral_gap_bits, level);
        let _sent = self.broadcast();
        GossipRoundResult { rows_updated, converged, spectral_gap_bits }
    }
}

proof fn lemma_receive_all_outcome_step(
    rows: Seq<Seq<SparseEntry>>,
    n: usize,
    msgs: Seq<ConservationMessage>,
    i: int,
)
    requires
        0 <= i < msgs.len(),
        receive_all_outcome(rows, n, msgs.take(i)).2 is None,
        receive_outcome(receive_all_outcome(rows, n, msgs.take(i)).1, n, msgs[i]).0 is Ok,
    ensures
        ({
            let (count, before, _) = receive_all_outcome(rows, n, msgs.take(i));
            let (res, after) = receive_outcome(before, n, msgs[i]);
            receive_all_outcome(rows, n, msgs.take(i + 1)) == (
                count + if res == Ok::<bool, GossipError>(true) {
                    1nat
                } else {
                    0nat
                },
                after,
                None::<GossipError>,
            )
        }),
{
    reveal(receive_all_outcome);
    assert(msgs.take(i + 1).drop_last() =~= msgs.take(i));
    assert(msgs.take(i + 1).last() == msgs[i]);
}

proof fn lemma_receive_all_outcome_stops(
    rows: Seq<Seq<SparseEntry>>,
    n: usize,
    msgs: Seq<ConservationMessage>,
    i: int,
)
    requires
        0 <= i < msgs.len(),
        receive_all_outcome(rows, n, msgs.take(i)).2 is None,
        receive_outcome(receive_all_outcome(rows, n, msgs.take(i)).1, n, msgs[i]).0 is Err,
    ensures
        receive_all_outcome(rows, n, msgs) == (
            receive_all_outcome(rows, n, msgs.take(i)).0,
            receive_outcome(receive_all_outcome(rows, n, msgs.take(i)).1, n, msgs[i]).1,
            Some(receive_outcome(receive_all_outcome(rows, n, msgs.take(i)).1, n, msgs[i]).0->Err_0),
        ),
    decreases msgs.len() - i,
{
    reveal(receive_all_outcome);
    assert(msgs.take(i + 1).drop_last() =~= msgs.take(i));
    assert(msgs.take(i + 1).last() == msgs[i]);
    let (count, before, err) = receive_all_outcome(rows, n, msgs.take(i));
    let (res, after) = receive_outcome(before, n, msgs[i]);
    assert(receive_all_outcome(rows, n, msgs.take(i + 1)) == (count, after, Some(res->Err_0)));
    if i + 1 == msgs.len() {
        assert(msgs.take(i + 1) =~= msgs);
    } else {
        lemma_receive_all_outcome_stopped(rows, n, msgs, i + 1);
    }
}

proof fn lemma_receive_all_outcome_stopped(
    rows: Seq<Seq<SparseEntry>>,
    n: usize,
    msgs: Seq<ConservationMessage>,
    j: int,
)
    requires
        0 < j <= msgs.len(),
        receive_all_outcome(rows, n, msgs.take(j)).2 is Some,
    ensures
        receive_all_outcome(rows, n, msgs) == receive_all_outcome(rows, n, msgs.take(j)),
    decreases msgs.len() - j,
{
    reveal(receive_all_outcome);
    if j == msgs.len() {
        assert(msgs.take(j) =~= msgs);
    } else {
        assert(msgs.take(j + 1).drop_last() =~= msgs.take(j));
        lemma_receive_all_outcome_stopped(rows, n, msgs, j + 1);
    }
}

/// What agent `i` broadcasts, a node whose view has more than `i` rows accepts, and the
/// broadcast row replaces row `i` of its view.
pub proof fn lemma_broadcast_received(
    m: ConservationMessage,
    agent_index: usize,
    row: Seq<SparseEntry>,
    clock: u64,
    rows: Seq<Seq<SparseEntry>>,
    n: usize,
)
    requires
        is_broadcast_message(m, agent_index, row, clock),
        agent_index < n,
    ensures
        receive_outcome(rows, n, m) == (Ok::<bool, GossipError>(true), rows.update(agent_index as int, row)),
{
    reveal(receive_outcome);
    lemma_decimal_chars_utf8(agent_index as nat);
    lemma_parse_decimal_roundtrip(agent_index);
}

/// A message whose signature does not match its sender and timestamp changes nothing.
pub proof fn lemma_tampered_ignored(rows: Seq<Seq<SparseEntry>>, n: usize, m: ConservationMessage)
    requires
        !m.signed_correctly(),
    ensures
        receive_outcome(rows, n, m) == (Ok::<bool, GossipError>(false), rows),
{
    reveal(receive_outcome);
}

/// Receiving, in index order, the broadcasts of agents `0, 1, …, m - 1` (with `m` at most the
/// view's size) updates every one of them and replaces the first `m` rows of the view with the
/// broadcast rows; with one broadcast from every agent the view is the network's Laplacian as
/// the agents know their own rows.
pub proof fn lemma_receiving_broadcasts_fills_view(
    rows: Seq<Seq<SparseEntry>>,
    n: usize,
    msgs: Seq<ConservationMessage>,
)
    requires
        rows.len() == n,
        msgs.len() <= n,
        forall|k: int|
            0 <= k < msgs.len() ==> (#[trigger] msgs[k]).sender_id@ == decimal_chars(k as nat)
                && msgs[k].signed_correctly(),
    ensures
        receive_all_outcome(rows, n, msgs) == (
            msgs.len(),
            Seq::new(msgs.len(), |k: int| msgs[k].laplacian_row@) + rows.skip(msgs.len() as int),
            None::<GossipError>,
        ),
    decreases msgs.len(),
{
    reveal(receive_all_outcome);
    if msgs.len() == 0 {
        assert(Seq::new(0, |k: int| msgs[k].laplacian_row@) + rows.skip(0) =~= rows);
    } else {
        let prefix = msgs.drop_last();
        let last = (msgs.len() - 1) as int;
        assert forall|k: int| 0 <= k < prefix.len() implies (#[trigger] prefix[k]).sender_id@ == decimal_chars(
            k as nat,
        ) && prefix[k].signed_correctly() by {
            assert(prefix[k] == msgs[k]);
        }
        lemma_receiving_broadcasts_fills_view(rows, n, prefix);
        let before = Seq::new(prefix.len(), |k: int| prefix[k].laplacian_row@) + rows.skip(prefix.len() as int);
        let m = msgs[last];
        assert(msgs.last() == m);
        assert(m.sender_id@ == decimal_chars(last as nat));
        lemma_broadcast_received(m, last as usize, m.laplacian_row@, m.timestamp, before, n);
        assert(before.update(last, m.laplacian_row@) =~= Seq::new(msgs.len(), |k: int| msgs[k].laplacian_row@)
            + rows.skip(msgs.len() as int));
    }
}

/// A receive that fails leaves the view's rows as they were: whether the sender id names no
/// row index at all or an index not below the view's size, nothing is merged.
pub proof fn lemma_failed_receive_changes_nothing(
    rows: Seq<Seq<SparseEntry>>,
    n: usize,
    m: ConservationMessage,
)
    ensures
        receive_outcome(rows, n, m).0 is Err ==> receive_outcome(rows, n, m).1 == rows,
        receive_outcome(rows, n, m).0 == Ok::<bool, GossipError>(false) ==> receive_outcome(rows, n, m).1
            == rows,
        m.signed_correctly() && (match parse_usize_spec(encode_utf8(m.sender_id@)) {
            Some(idx) => idx >= n,
            None => true,
        }) ==> receive_outcome(rows, n, m).0 is Err && receive_outcome(rows, n, m).1 == rows,
{
    reveal(receive_outcome);
}

/// A view that holds a row for every index below its size can receive any batch of messages:
/// no merge ever falls outside its rows.
pub proof fn lemma_full_view_receives_everything(view: LaplacianMatrix, msgs: Seq<ConservationMessage>)
    requires
        view.n <= view.rows@.len(),
    ensures
        receive_all_in_bounds(view, msgs),
{
}

/// A batch is in bounds exactly when no signed message reached before the first failing one
/// names an index below the view's size that the view holds no row for.
pub proof fn lemma_in_bounds_iff_no_missing_row(view: LaplacianMatrix, msgs: Seq<ConservationMessage>)
    ensures
        receive_all_in_bounds(view, msgs) <==> !(exists|k: int|
            0 <= k < msgs.len() && (forall|j: int| 0 <= j < k ==> !receive_fails(view.n, #[trigger] msgs[j]))
                && (#[trigger] msgs[k]).signed_correctly() && match parse_usize_spec(
                encode_utf8(msgs[k].sender_id@),
            ) {
                Some(idx) => idx < view.n && view.rows@.len() <= idx,
                None => false,
            }),
{
}

} // verus!
