use conservation_protocol::laplacian::LaplacianMatrix;
use conservation_protocol::message::{ConservationMessage, MessageError, SparseEntry};

fn entry(col: usize, value: f64) -> SparseEntry {
    SparseEntry { col, value_bits: value.to_bits() }
}

fn values(bits: &[u64]) -> Vec<f64> {
    bits.iter().map(|b| f64::from_bits(*b)).collect()
}

fn fnv_hex(text: &str) -> String {
    let mut hash: u64 = 14_695_981_039_346_656_037;
    for byte in text.bytes() {
        hash ^= byte as u64;
        hash = hash.wrapping_mul(1_099_511_628_211);
    }
    format!("{hash:016x}")
}

#[test]
fn test_message_new() {
    let msg = ConservationMessage::new("agent-1", vec![entry(0, 2.0), entry(1, -1.0)], 1000);
    assert_eq!(msg.sender_id, "agent-1");
    assert_eq!(msg.laplacian_row.len(), 2);
    assert_eq!(msg.timestamp, 1000);
    assert!(!msg.signature.is_empty());
}

#[test]
fn test_signature_deterministic() {
    let sig1 = ConservationMessage::compute_signature("agent-1", 1000);
    let sig2 = ConservationMessage::compute_signature("agent-1", 1000);
    assert_eq!(sig1, sig2);
}

#[test]
fn test_signature_differs_for_different_inputs() {
    let sig1 = ConservationMessage::compute_signature("agent-1", 1000);
    let sig2 = ConservationMessage::compute_signature("agent-2", 1000);
    assert_ne!(sig1, sig2);
}

#[test]
fn test_verify_valid_signature() {
    let msg = ConservationMessage::new("agent-1", vec![], 1000);
    assert!(msg.verify_signature());
}

#[test]
fn test_verify_tampered_signature() {
    let mut msg = ConservationMessage::new("agent-1", vec![], 1000);
    msg.signature = "0000000000000000".into();
    assert!(!msg.verify_signature());
}

#[test]
fn test_validate_good_message() {
    let msg = ConservationMessage::new("agent-1", vec![entry(0, 2.0), entry(2, -1.0)], 1000);
    assert!(msg.validate().is_ok());
}

#[test]
fn test_validate_empty_sender() {
    let mut msg = ConservationMessage::new("", vec![], 1000);
    msg.sender_id = "".into();
    assert!(matches!(msg.validate(), Err(MessageError::InvalidSenderId(_))));
}

#[test]
fn test_validate_zero_timestamp() {
    let mut msg = ConservationMessage::new("agent-1", vec![], 1000);
    msg.timestamp = 0;
    assert!(matches!(msg.validate(), Err(MessageError::ZeroTimestamp)));
}

#[test]
fn test_validate_unsorted_entries() {
    let mut msg = ConservationMessage::new("agent-1", vec![entry(2, -1.0), entry(0, 2.0)], 1000);
    msg.laplacian_row = vec![entry(2, -1.0), entry(0, 2.0)];
    assert!(matches!(msg.validate(), Err(MessageError::SerializationFailed(_))));
}

#[test]
fn test_to_dense() {
    let msg = ConservationMessage::new("agent-1", vec![entry(0, 2.0), entry(3, -1.0)], 1000);
    let dense = msg.to_dense(5);
    assert_eq!(values(&dense), vec![2.0, 0.0, 0.0, -1.0, 0.0]);
}

#[test]
fn test_from_adjacency() {
    let adjacency = vec![vec![1], vec![0, 2], vec![1]];
    let msg = ConservationMessage::from_adjacency("agent-1", 1, &adjacency, 1000);
    let dense = msg.to_dense(3);
    assert_eq!(values(&dense), vec![-1.0, 2.0, -1.0]);
}

#[test]
fn signature_is_fnv1a_of_sender_and_timestamp() {
    let sig = ConservationMessage::compute_signature("agent-1", 1000);
    assert_eq!(sig, fnv_hex("agent-1:1000"));
    assert_eq!(sig.len(), 16);
    let unicode = ConservationMessage::compute_signature("agénte-λ", 0);
    assert_eq!(unicode, fnv_hex("agénte-λ:0"));
    let big = ConservationMessage::compute_signature("", u64::MAX);
    assert_eq!(big, fnv_hex(":18446744073709551615"));
}

#[test]
fn signature_check_covers_timestamp() {
    let mut msg = ConservationMessage::new("agent-1", vec![], 1000);
    msg.timestamp = 1001;
    assert!(!msg.verify_signature());
    assert!(matches!(msg.validate(), Err(MessageError::SignatureVerificationFailed)));
}

#[test]
fn validate_reports_first_failure_in_order() {
    let mut msg = ConservationMessage::new("", vec![entry(1, 1.0), entry(1, 1.0)], 0);
    msg.signature = "bad".into();
    match msg.validate() {
        Err(MessageError::InvalidSenderId(why)) => assert_eq!(why, "empty"),
        other => panic!("unexpected {other:?}"),
    }
    let mut msg = ConservationMessage::new("a", vec![entry(1, 1.0), entry(1, 1.0)], 5);
    match msg.validate() {
        Err(MessageError::SerializationFailed(why)) => {
            assert_eq!(why, "laplacian_row entries must be sorted by column index")
        }
        other => panic!("unexpected {other:?}"),
    }
    msg.laplacian_row = vec![entry(1, 1.0), entry(4, 1.0)];
    assert_eq!(msg.validate(), Ok(()));
}

#[test]
fn adjacency_message_is_valid_and_sorted() {
    let adjacency = vec![vec![3, 1, 3], vec![0], vec![], vec![0]];
    let msg = ConservationMessage::from_adjacency("0", 0, &adjacency, 7);
    assert_eq!(msg.validate(), Ok(()));
    let cols: Vec<usize> = msg.laplacian_row.iter().map(|e| e.col).collect();
    assert_eq!(cols, vec![0, 1, 3]);
    assert_eq!(values(&msg.to_dense(4)), vec![3.0, -1.0, 0.0, -1.0]);
    let isolated = ConservationMessage::from_adjacency("2", 2, &adjacency, 7);
    assert!(isolated.laplacian_row.is_empty());
}

#[test]
fn adjacency_message_row_matches_laplacian_row() {
    let adjacency = vec![vec![1, 2, 2], vec![0, 1], vec![0, 0]];
    let lap = LaplacianMatrix::from_adjacency(&adjacency);
    for i in 0..adjacency.len() {
        let msg = ConservationMessage::from_adjacency("x", i, &adjacency, 1);
        assert_eq!(msg.to_dense(3), lap.get_row_dense(i));
    }
}

#[test]
fn to_dense_last_entry_wins_and_ignores_out_of_range() {
    let msg = ConservationMessage::new("a", vec![entry(1, 5.0), entry(9, 1.0), entry(1, -2.5)], 1);
    assert_eq!(values(&msg.to_dense(3)), vec![0.0, -2.5, 0.0]);
}
