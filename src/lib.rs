//! Core of a peer-to-peer code-collaboration node: CRDT clocks, the wire
//! codec, evaluation of collaborative-object change graphs, the object store
//! over a backing repository, and the per-peer session state machine.

pub mod address_book;
pub mod api;
pub mod clock;
pub mod history;
pub mod message;
pub mod options;
pub mod repository;
pub mod service;
pub mod store;
pub mod vecs;
pub mod wire;
