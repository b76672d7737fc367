//! Conservation protocol: agents communicate by gossiping rows of the graph Laplacian, so the
//! Laplacian of the network is the message.
//!
//! Entry values and spectral readings are IEEE-754 binary64 numbers, carried here as their bit
//! patterns; the library verifies everything that moves, signs, checks, merges and decides on
//! them.
pub mod binary64;
pub mod consensus;
pub mod digits;
pub mod gossip;
pub mod laplacian;
pub mod message;
pub mod violation;

pub use consensus::ConsensusTracker;
pub use gossip::GossipProtocol;
pub use laplacian::LaplacianMatrix;
pub use message::ConservationMessage;
pub use violation::ViolationDetector;
