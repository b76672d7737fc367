use conservation_protocol::consensus::{ConsensusState, ConsensusTracker, GapLevel};

fn level(tracker: &ConsensusTracker, gap: f64) -> GapLevel {
    let threshold = f64::from_bits(tracker.threshold_bits());
    if gap >= threshold {
        GapLevel::AtThreshold
    } else if gap > 0.0 {
        GapLevel::Positive
    } else {
        GapLevel::NonPositive
    }
}

fn check(tracker: &mut ConsensusTracker, gap: f64) -> bool {
    let l = level(tracker, gap);
    tracker.observe_gap(gap.to_bits(), l)
}

fn history(tracker: &ConsensusTracker) -> Vec<f64> {
    tracker.history_bits().iter().map(|b| f64::from_bits(*b)).collect()
}

#[test]
fn test_new_tracker() {
    let tracker = ConsensusTracker::new(1.0f64.to_bits());
    assert_eq!(f64::from_bits(tracker.threshold_bits()), 1.0);
    assert_eq!(*tracker.state(), ConsensusState::Awaiting);
    assert_eq!(f64::from_bits(tracker.current_gap_bits()), 0.0);
}

#[test]
fn test_awaiting_to_converging() {
    let mut tracker = ConsensusTracker::new(1.0f64.to_bits());
    let reached = check(&mut tracker, 0.5);
    assert!(!reached);
    assert_eq!(*tracker.state(), ConsensusState::Converging);
}

#[test]
fn test_converging_to_reached() {
    let mut tracker = ConsensusTracker::new(1.0f64.to_bits());
    check(&mut tracker, 0.5);
    let reached = check(&mut tracker, 1.2);
    assert!(reached);
    assert_eq!(*tracker.state(), ConsensusState::Reached);
}

#[test]
fn test_reached_to_lost() {
    let mut tracker = ConsensusTracker::new(1.0f64.to_bits());
    check(&mut tracker, 0.5);
    check(&mut tracker, 1.2);
    assert_eq!(*tracker.state(), ConsensusState::Reached);
    let reached = check(&mut tracker, 0.8);
    assert!(!reached);
    assert_eq!(*tracker.state(), ConsensusState::Lost);
}

#[test]
fn test_history() {
    let mut tracker = ConsensusTracker::new(1.0f64.to_bits());
    check(&mut tracker, 0.1);
    check(&mut tracker, 0.3);
    check(&mut tracker, 0.7);
    assert_eq!(history(&tracker), vec![0.1, 0.3, 0.7]);
}

#[test]
fn test_reset() {
    let mut tracker = ConsensusTracker::new(1.0f64.to_bits());
    check(&mut tracker, 5.0);
    tracker.reset();
    assert_eq!(*tracker.state(), ConsensusState::Awaiting);
    assert_eq!(f64::from_bits(tracker.current_gap_bits()), 0.0);
    assert!(tracker.history_bits().is_empty());
}

#[test]
fn test_rounds_in_state() {
    let mut tracker = ConsensusTracker::new(1.0f64.to_bits());
    check(&mut tracker, 0.3);
    assert_eq!(tracker.rounds_in_state(), 0);
    check(&mut tracker, 0.5);
    assert_eq!(tracker.rounds_in_state(), 1);
    check(&mut tracker, 1.5);
    assert_eq!(tracker.rounds_in_state(), 0);
    check(&mut tracker, 1.2);
    assert_eq!(tracker.rounds_in_state(), 1);
}

#[test]
fn test_zero_gap_stays_awaiting() {
    let mut tracker = ConsensusTracker::new(1.0f64.to_bits());
    check(&mut tracker, 0.0);
    assert_eq!(*tracker.state(), ConsensusState::Awaiting);
}

#[test]
fn lost_consensus_recovers_through_the_levels() {
    let mut tracker = ConsensusTracker::new(2.0f64.to_bits());
    assert!(tracker.observe_gap(3.0f64.to_bits(), GapLevel::AtThreshold));
    assert!(!tracker.observe_gap(0.0f64.to_bits(), GapLevel::NonPositive));
    assert_eq!(*tracker.state(), ConsensusState::Lost);
    assert!(!tracker.observe_gap(0.0f64.to_bits(), GapLevel::NonPositive));
    assert_eq!(*tracker.state(), ConsensusState::Awaiting);
    assert!(!tracker.observe_gap(1.0f64.to_bits(), GapLevel::Positive));
    assert_eq!(*tracker.state(), ConsensusState::Converging);
    assert!(tracker.observe_gap(2.0f64.to_bits(), GapLevel::AtThreshold));
    assert_eq!(tracker.rounds_in_state(), 0);
    assert!(tracker.observe_gap(2.5f64.to_bits(), GapLevel::AtThreshold));
    assert_eq!(tracker.rounds_in_state(), 1);
    assert_eq!(f64::from_bits(tracker.current_gap_bits()), 2.5);
}
