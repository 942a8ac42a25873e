//! Data model and authorization core of a collaborative task-board service:
//! a strict hierarchy of boards, cards, tasks and subtasks with
//! ownership-and-sharing access control, a strict binder for inbound JSON
//! payloads, and the reference semantics of the persisted entity store.

pub mod api;
pub mod auth;
pub mod bind;
pub mod data;
pub mod json;
pub mod store;

use vstd::prelude::*;

verus! {

/// Identity of a requesting user: `None` stands for an anonymous request
/// whose authentication failed upstream; it is denied everywhere.
pub type Identity = Option<u64>;

} // verus!
