//! Consensus tracking: the state machine that spectral-gap readings drive
//! (Awaiting, Converging, Reached, Lost).
use vstd::prelude::*;
use crate::binary64::ZERO_BITS;

verus! {

/// Consensus states.
#[derive(Debug, Clone, Copy, PartialEq, Eq, Structural)]
pub enum ConsensusState {
    /// Not enough data yet; waiting for gossip to fill the Laplacian.
    Awaiting,
    /// Gossip is progressing; the spectral gap is positive but below the threshold.
    Converging,
    /// The spectral gap reached the threshold: consensus.
    Reached,
    /// The spectral gap dropped below the threshold after consensus was reached.
    Lost,
}

/// Errors for consensus operations.
#[derive(Debug, Clone, PartialEq, Eq, Structural)]
pub enum ConsensusError {
    /// Consensus has not been reached yet.
    NotReached,
    /// Consensus was lost.
    ConsensusLost,
}

/// Where a spectral-gap reading falls: at or above the threshold, below it but positive, or
/// not positive (zero, negative or not a number).
#[derive(Debug, Clone, Copy, PartialEq, Eq, Structural)]
pub enum GapLevel {
    /// `gap >= threshold`.
    AtThreshold,
    /// `gap < threshold` and `gap > 0`.
    Positive,
    /// Neither of the above.
    NonPositive,
}

/// The state after a reading at `level` in state `state`: a reading at the threshold reaches
/// consensus; any other reading loses a reached consensus, and otherwise gives Converging for
/// a positive gap and Awaiting for one that is not.
pub open spec fn next_state(state: ConsensusState, level: GapLevel) -> ConsensusState {
    match level {
        GapLevel::AtThreshold => ConsensusState::Reached,
        GapLevel::Positive => if state == ConsensusState::Reached {
            ConsensusState::Lost
        } else {
            ConsensusState::Converging
        },
        GapLevel::NonPositive => if state == ConsensusState::Reached {
            ConsensusState::Lost
        } else {
            ConsensusState::Awaiting
        },
    }
}

/// Tracks convergence of the spectral gap (the algebraic connectivity, λ₂). Gap values and the
/// threshold are binary64 bit patterns.
#[derive(Debug, Clone, PartialEq)]
pub struct ConsensusTracker {
    threshold: u64,
    current_gap: u64,
    state: ConsensusState,
    history: Vec<u64>,
    rounds_in_state: usize,
}

impl ConsensusTracker {
    /// The threshold.
    pub closed spec fn spec_threshold(&self) -> u64 {
        self.threshold
    }

    /// The latest reading.
    pub closed spec fn spec_current_gap(&self) -> u64 {
        self.current_gap
    }

    /// The current state.
    pub closed spec fn spec_state(&self) -> ConsensusState {
        self.state
    }

    /// Every reading so far, oldest first.
    pub closed spec fn spec_history(&self) -> Seq<u64> {
        self.history@
    }

    /// The number of readings since the state last changed.
    pub closed spec fn spec_rounds_in_state(&self) -> nat {
        self.rounds_in_state as nat
    }

    /// A tracker with the given threshold, awaiting its first reading.
    pub fn new(threshold_bits: u64) -> (t: Self)
        ensures
            t.spec_threshold() == threshold_bits,
            t.spec_current_gap() == ZERO_BITS,
            t.spec_state() == ConsensusState::Awaiting,
            t.spec_history() == Seq::<u64>::empty(),
            t.spec_rounds_in_state() == 0,
    {
        ConsensusTracker {
            threshold: threshold_bits,
            current_gap: ZERO_BITS,
            state: ConsensusState::Awaiting,
            history: Vec::new(),
            rounds_in_state: 0,
        }
    }

    /// A tracker rebuilt from its parts (as a decoder restores one).
    pub fn from_parts(
        threshold_bits: u64,
        current_gap_bits: u64,
        state: ConsensusState,
        history: Vec<u64>,
        rounds_in_state: usize,
    ) -> (t: Self)
        ensures
            t.spec_threshold() == threshold_bits,
            t.spec_current_gap() == current_gap_bits,
            t.spec_state() == state,
            t.spec_history() == history@,
            t.spec_rounds_in_state() == rounds_in_state,
    {
        ConsensusTracker {
            threshold: threshold_bits,
            current_gap: current_gap_bits,
            state,
            history,
            rounds_in_state,
        }
    }

    /// Record a reading `spectral_gap` that falls at `level` and move the state machine on;
    /// returns whether consensus is reached. The count of readings in the current state goes
    /// up by one, or restarts at zero when the state changes.
    pub fn observe_gap(&mut self, spectral_gap: u64, level: GapLevel) -> (reached: bool)
        requires
            old(self).spec_rounds_in_state() < usize::MAX,
        ensures
            final(self).spec_threshold() == old(self).spec_threshold(),
            final(self).spec_current_gap() == spectral_gap,
            final(self).spec_history() == old(self).spec_history().push(spectral_gap),
            final(self).spec_state() == next_state(old(self).spec_state(), level),
            final(self).spec_rounds_in_state() == if next_state(old(self).spec_state(), level)
                == old(self).spec_state() {
                old(self).spec_rounds_in_state() + 1
            } else {
                0
            },
            reached == (final(self).spec_state() == ConsensusState::Reached),
            reached == (level == GapLevel::AtThreshold),
    {
        self.history.push(spectral_gap);
        self.current_gap = spectral_gap;
        self.rounds_in_state = self.rounds_in_state + 1;
        let new_state = match level {
            GapLevel::AtThreshold => ConsensusState::Reached,
            GapLevel::Positive => if self.state == ConsensusState::Reached {
                ConsensusState::Lost
            } else {
                ConsensusState::Converging
            },
            GapLevel::NonPositive => if self.state == ConsensusState::Reached {
                ConsensusState::Lost
            } else {
                ConsensusState::Awaiting
            },
        };
        if new_state != self.state {
            self.state = new_state;
            self.rounds_in_state = 0;
        }
        self.state == ConsensusState::Reached
    }

    /// The latest reading.
    pub fn current_gap_bits(&self) -> (g: u64)
        ensures
            g == self.spec_current_gap(),
    {
        self.current_gap
    }

    /// The threshold.
    pub fn threshold_bits(&self) -> (t: u64)
        ensures
            t == self.spec_threshold(),
    {
        self.threshold
    }

    /// The current consensus state.
    pub fn state(&self) -> (s: &ConsensusState)
        ensures
            *s == self.spec_state(),
    {
        &self.state
    }

    /// Every reading so far, oldest first.
    pub fn history_bits(&self) -> (h: &[u64])
        ensures
            h@ == self.spec_history(),
    {
        self.history.as_slice()
    }

    /// The number of readings since the state last changed.
    pub fn rounds_in_state(&self) -> (r: usize)
        ensures
            r as nat == self.spec_rounds_in_state(),
    {
        self.rounds_in_state
    }

    /// Forget every reading and return to Awaiting; the threshold stays.
    pub fn reset(&mut self)
        ensures
            final(self).spec_threshold() == old(self).spec_threshold(),
            final(self).spec_current_gap() == ZERO_BITS,
            final(self).spec_state() == ConsensusState::Awaiting,
            final(self).spec_history() == Seq::<u64>::empty(),
            final(self).spec_rounds_in_state() == 0,
    {
        self.current_gap = ZERO_BITS;
        self.state = ConsensusState::Awaiting;
        self.history.clear();
        self.rounds_in_state = 0;
    }
}

/// Consensus is reached after a reading exactly when that reading is at the threshold,
/// whatever the state before it.
pub proof fn lemma_reached_iff_at_threshold(state: ConsensusState, level: GapLevel)
    ensures
        (next_state(state, level) == ConsensusState::Reached) <==> (level == GapLevel::AtThreshold),
{
}

/// Consensus can only be lost from the Reached state, and a reached consensus is lost by any
/// reading below the threshold.
pub proof fn lemma_lost_only_from_reached(state: ConsensusState, level: GapLevel)
    ensures
        next_state(state, level) == ConsensusState::Lost <==> (state == ConsensusState::Reached
            && level != GapLevel::AtThreshold),
{
}

/// Outside the Reached state a reading below the threshold gives Converging when the gap is
/// positive and Awaiting when it is not: the Lost state is never entered from these states.
pub proof fn lemma_below_threshold_outside_reached(state: ConsensusState, level: GapLevel)
    requires
        state != ConsensusState::Reached,
    ensures
        level == GapLevel::Positive ==> next_state(state, level) == ConsensusState::Converging,
        level == GapLevel::NonPositive ==> next_state(state, level) == ConsensusState::Awaiting,
{
}

} // verus!
