//! Section chains of an XOR-addressed overlay network.

pub mod approved;
pub mod authority;
pub mod candidate;
pub mod chain;
pub mod chain_model;
pub mod codes;
pub mod delivery;
pub mod delivery_laws;
pub mod error;
pub mod event_laws;
pub mod id;
pub mod message;
pub mod name_type;
pub mod neighbour_laws;
pub mod network_event;
pub mod order;
pub mod ordered;
pub mod prefix;
pub mod proof_set;
pub mod public_id;
pub mod section_info;
pub mod section_laws;
pub mod seqs;
pub mod sha3;
pub mod shared_state;
pub mod text;
pub mod trust;
pub mod trust_laws;
pub mod xor_name;
