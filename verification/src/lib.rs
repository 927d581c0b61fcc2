//! A small membership-admission protocol: a closed group of members votes to
//! take in new members through a bounded, rule-based ballot.
//!
//! The crate is the host-independent core of the protocol. The host supplies a
//! caller identity and a timestamp with each call and delivers the
//! notifications that the entry points hand back; everything the protocol
//! decides — queueing of candidacies, recording and overwriting of votes,
//! and the settlement rule — lives here, with its contracts.

pub mod laws;
pub mod model;
pub mod protocol;

pub use model::AccountId;
pub use model::Decided;
pub use model::Error;
pub use model::Voted;
pub use model::MAX_CANDIDATES;
pub use model::VOTES_TO_ACCEPT;
pub use model::VOTES_TO_SETTLE;
pub use protocol::CitizenDAO;
