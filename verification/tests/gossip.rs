use conservation_protocol::consensus::{ConsensusState, GapLevel};
use conservation_protocol::gossip::{after_round, GossipError, GossipProtocol, RunStep};
use conservation_protocol::laplacian::{LaplacianError, LaplacianMatrix};
use conservation_protocol::message::{ConservationMessage, SparseEntry};

fn entry(col: usize, value: f64) -> SparseEntry {
    SparseEntry { col, value_bits: value.to_bits() }
}

fn half() -> u64 {
    0.5f64.to_bits()
}

#[test]
fn test_new_protocol() {
    let adjacency = vec![vec![1], vec![0, 2], vec![1]];
    let proto = GossipProtocol::new("agent-0", 0, 3, adjacency, half());
    assert_eq!(proto.agent_id(), "agent-0");
    assert_eq!(proto.network_size(), 3);
}

#[test]
fn test_broadcast() {
    let adjacency = vec![vec![1], vec![0]];
    let mut proto = GossipProtocol::new("agent-0", 0, 2, adjacency, half());
    let msgs = proto.broadcast();
    assert_eq!(msgs.len(), 1);
    assert_eq!(msgs[0].sender_id, "0");
}

#[test]
fn test_receive_valid_message() {
    let adjacency = vec![vec![1], vec![0]];
    let mut proto = GossipProtocol::new("agent-0", 0, 2, adjacency, half());
    let msg = ConservationMessage::new("1", vec![entry(0, -1.0), entry(1, 1.0)], 1);
    let result = proto.receive(&msg).unwrap();
    assert!(result);
}

#[test]
fn test_receive_tampered_message() {
    let adjacency = vec![vec![1], vec![0]];
    let mut proto = GossipProtocol::new("agent-0", 0, 2, adjacency, half());
    let mut msg = ConservationMessage::new("1", vec![], 1);
    msg.signature = "tampered".into();
    let result = proto.receive(&msg).unwrap();
    assert!(!result);
}

#[test]
fn test_is_view_complete() {
    let adjacency = vec![vec![1], vec![0]];
    let mut proto = GossipProtocol::new("agent-0", 0, 2, adjacency, half());
    assert!(!proto.is_view_complete());
    let msg = ConservationMessage::new("1", vec![entry(0, -1.0), entry(1, 1.0)], 1);
    proto.receive(&msg).unwrap();
    assert!(proto.is_view_complete());
}

#[test]
fn test_consensus_state_initially_awaiting() {
    let adjacency = vec![vec![1], vec![0]];
    let proto = GossipProtocol::new("agent-0", 0, 2, adjacency, half());
    assert_eq!(*proto.consensus_state(), ConsensusState::Awaiting);
}

#[test]
fn new_protocol_holds_own_row_only() {
    let adjacency = vec![vec![1, 2], vec![0], vec![0]];
    let proto = GossipProtocol::new("a", 0, 3, adjacency, half());
    let lap = proto.laplacian();
    assert_eq!(lap.rows[0], vec![entry(0, 2.0), entry(1, -1.0), entry(2, -1.0)]);
    assert!(lap.rows[1].is_empty() && lap.rows[2].is_empty());
    let short = GossipProtocol::new("b", 2, 3, vec![vec![1]], half());
    assert!(short.laplacian().rows.iter().all(|r| r.is_empty()));
    let outside = GossipProtocol::new("c", 5, 2, vec![vec![1], vec![0]], half());
    assert_eq!(outside.laplacian().n, 2);
}

#[test]
fn broadcast_row_lands_in_the_receivers_view() {
    let adjacency = vec![vec![1, 2], vec![0], vec![0]];
    let mut sender = GossipProtocol::new("agent-0", 0, 3, adjacency.clone(), half());
    let mut receiver = GossipProtocol::new("agent-1", 1, 3, adjacency, half());
    let first = sender.broadcast();
    let second = sender.broadcast();
    assert_eq!(first.len(), 2);
    assert_eq!(first[0].timestamp, 2);
    assert_eq!(second[1].timestamp, 3);
    assert!(second.iter().all(|m| m.verify_signature() && m.validate().is_ok()));
    assert_eq!(receiver.receive(&second[0]), Ok(true));
    assert_eq!(receiver.laplacian().rows[0], sender.laplacian().rows[0]);
}

#[test]
fn receive_rejects_unknown_rows() {
    let mut proto = GossipProtocol::new("a", 0, 2, vec![vec![1], vec![0]], half());
    let far = ConservationMessage::new("7", vec![], 1);
    assert_eq!(
        proto.receive(&far),
        Err(GossipError::Laplacian(LaplacianError::IndexOutOfBounds { index: 7, size: 2 }))
    );
    let named = ConservationMessage::new("agent-1", vec![], 1);
    assert_eq!(
        proto.receive(&named),
        Err(GossipError::Laplacian(LaplacianError::DimensionMismatch { expected: 2, got: 0 }))
    );
}

#[test]
fn receive_all_counts_and_stops_at_first_error() {
    let mut proto = GossipProtocol::new("a", 0, 3, vec![vec![1, 2], vec![0], vec![0]], half());
    let mut tampered = ConservationMessage::new("2", vec![entry(2, 9.0)], 1);
    tampered.signature = "0".into();
    let msgs = vec![
        ConservationMessage::new("1", vec![entry(1, 1.0)], 1),
        tampered,
        ConservationMessage::new("9", vec![], 1),
        ConservationMessage::new("2", vec![entry(2, 1.0)], 1),
    ];
    let result = proto.receive_all(&msgs);
    assert_eq!(result, Err(GossipError::Laplacian(LaplacianError::IndexOutOfBounds { index: 9, size: 3 })));
    assert_eq!(proto.laplacian().rows[1], vec![entry(1, 1.0)]);
    assert!(proto.laplacian().rows[2].is_empty());
    let ok = vec![ConservationMessage::new("2", vec![entry(2, 1.0)], 1), msgs[1].clone()];
    assert_eq!(proto.receive_all(&ok), Ok(1));
    assert!(proto.is_view_complete());
}

#[test]
fn conclude_round_records_gap_and_broadcasts() {
    let mut proto = GossipProtocol::new("a", 0, 2, vec![vec![1], vec![0]], half());
    assert_eq!(proto.neighbor_indices(), vec![1]);
    let result = proto.conclude_round(1, 0.75f64.to_bits(), GapLevel::AtThreshold);
    assert_eq!(result.rows_updated, 1);
    assert!(result.converged);
    assert_eq!(f64::from_bits(result.spectral_gap_bits), 0.75);
    assert_eq!(*proto.consensus_state(), ConsensusState::Reached);
    assert_eq!(f64::from_bits(proto.current_gap_bits()), 0.75);
    let next = proto.broadcast();
    assert_eq!(next[0].timestamp, 3);
}

#[test]
fn laplacian_mut_changes_the_view() {
    let mut proto = GossipProtocol::new("a", 0, 2, vec![vec![1], vec![0]], half());
    proto.laplacian_mut().rows[1] = vec![entry(1, 1.0)];
    assert!(proto.is_view_complete());
    let msgs = proto.broadcast();
    assert_eq!(msgs[0].laplacian_row, vec![entry(0, 1.0), entry(1, -1.0)]);
}

#[test]
fn receiving_every_broadcast_assembles_the_laplacian() {
    let adjacency = vec![vec![1, 3], vec![0, 2], vec![1, 3], vec![2, 0]];
    let mut agents: Vec<GossipProtocol> = (0..4)
        .map(|i| GossipProtocol::new(&format!("agent-{i}"), i, 4, adjacency.clone(), half()))
        .collect();
    let mut observer = GossipProtocol::new("observer", 0, 4, adjacency.clone(), half());
    let mut broadcasts = Vec::new();
    for agent in agents.iter_mut() {
        broadcasts.push(agent.broadcast().remove(0));
    }
    assert_eq!(observer.receive_all(&broadcasts), Ok(4));
    assert_eq!(*observer.laplacian(), LaplacianMatrix::from_adjacency(&adjacency));
    assert!(observer.is_view_complete());
}

#[test]
fn run_steps_after_a_round() {
    assert_eq!(after_round(1, 5, true), RunStep::Converged);
    assert_eq!(after_round(5, 5, true), RunStep::Converged);
    assert_eq!(after_round(1, 5, false), RunStep::Continue);
    assert_eq!(after_round(5, 5, false), RunStep::Exhausted);
}
