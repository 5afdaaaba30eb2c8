//! Verified protocol logic for a small set of line- and frame-oriented TCP
//! services: an echo service, a price-history service speaking 9-byte binary
//! frames, a JSON primality service and a chat room.

pub mod lines;
pub mod smoke_test;
pub mod mean_end;
pub mod prime_time;
pub mod budget_chat;
