use vstd::prelude::*;

use crate::auth::{authorize_board, board_decision, Action, Decision, DenyReason};
use crate::bind::{decode_subtask, subtask_of};
use crate::data::{BoardV, SubtaskV};
use crate::json::json_of;
use crate::store::{
    board_of_card, board_of_subtask, board_of_task, find_board, find_card, find_subtask,
    find_task, lemma_first_in_index, locate_card, locate_subtask, locate_task, BoardStore,
    StoreError,
};
use crate::Identity;

verus! {

/// A reference to one entity of the hierarchy, by its identifier.
#[derive(Clone, Copy, Debug, PartialEq, Eq, Structural)]
pub enum EntityRef {
    Board(u64),
    Card(u64),
    Task(u64),
    Subtask(u64),
}

/// The board that owns the target: the nearest ancestor board, or the
/// entity itself when it is a board.
pub open spec fn owning_board(bs: Seq<BoardV>, target: EntityRef) -> Option<BoardV> {
    match target {
        EntityRef::Board(id) => find_board(bs, id),
        EntityRef::Card(id) => board_of_card(bs, id),
        EntityRef::Task(id) => board_of_task(bs, id),
        EntityRef::Subtask(id) => board_of_subtask(bs, id),
    }
}

/// The access decision for a target in a store: every action on an entity
/// whose owning board cannot be resolved is denied with `NotFound`;
/// otherwise the owning board's rule decides.
pub open spec fn store_decision(
    bs: Seq<BoardV>,
    identity: Identity,
    target: EntityRef,
    action: Action,
) -> Decision {
    match owning_board(bs, target) {
        None => Decision::Deny(DenyReason::NotFound),
        Some(b) => board_decision(identity, b, action),
    }
}

/// Authorize `action` on the entity `target` for `identity`, resolving the
/// owning board transitively through the hierarchy. Side-effect free; must
/// be called before any mutation reaches the store.
pub fn authorize(store: &BoardStore, identity: Identity, target: EntityRef, action: Action) -> (d:
    Decision)
    ensures
        d == store_decision(store.view_boards(), identity, target, action),
{
    match target {
        EntityRef::Board(id) => match store.get_board(id) {
            Some(b) => authorize_board(identity, b, action),
            None => Decision::Deny(DenyReason::NotFound),
        },
        EntityRef::Card(id) => match locate_card(&store.boards, id) {
            Some((i, _j)) => authorize_board(identity, &store.boards[i], action),
            None => Decision::Deny(DenyReason::NotFound),
        },
        EntityRef::Task(id) => match locate_task(&store.boards, id) {
            Some((i, _j, _k)) => authorize_board(identity, &store.boards[i], action),
            None => Decision::Deny(DenyReason::NotFound),
        },
        EntityRef::Subtask(id) => match locate_subtask(&store.boards, id) {
            Some((i, _j, _k, _l)) => authorize_board(identity, &store.boards[i], action),
            None => Decision::Deny(DenyReason::NotFound),
        },
    }
}

/// The decision on any entity equals the decision on its owning board: a
/// descendant is exactly as readable, and exactly as writable, as the board
/// that owns it.
pub proof fn lemma_descendant_decision_is_board_decision(
    bs: Seq<BoardV>,
    identity: Identity,
    target: EntityRef,
    action: Action,
)
    requires
        owning_board(bs, target) is Some,
    ensures
        store_decision(bs, identity, target, action) == board_decision(
            identity,
            owning_board(bs, target)->Some_0,
            action,
        ),
{
}

/// An entity whose ancestor board cannot be resolved denies every action.
pub proof fn lemma_dangling_denied(
    bs: Seq<BoardV>,
    identity: Identity,
    target: EntityRef,
    action: Action,
)
    requires
        owning_board(bs, target) is None,
    ensures
        store_decision(bs, identity, target, action) == Decision::Deny(DenyReason::NotFound),
{
}

/// Failure of a request, per the error taxonomy of the request boundary.
#[derive(Clone, Copy, Debug, PartialEq, Eq, Structural)]
pub enum ApiError {
    /// Malformed or incomplete payload: rejected whole, no state change.
    DecodeError,
    /// Missing or invalid credentials.
    Unauthenticated,
    /// Authenticated but not authorized; uniform whatever the inner reason.
    AccessDenied,
    /// The entity or an ancestor is missing.
    NotFound,
    /// The persistence collaborator failed; raised only at the persistence
    /// boundary outside this core, never by the handlers here.
    GatewayFailure,
}

/// Handle a request to create a subtask under `task_id`: decode the
/// payload, authorize a write against the owning board, then create. The
/// stored subtask takes its identifier from the store's counter and its
/// author from the authenticated identity, never from the payload.
pub fn handle_create_subtask(
    store: &mut BoardStore,
    identity: Identity,
    task_id: u64,
    payload: &str,
) -> (r: Result<u64, ApiError>)
    requires
        old(store).wf(),
        old(store).next_id < u64::MAX,
    ensures
        final(store).wf(),
        match r {
            Ok(id) => {
                &&& json_of(payload@) is Some
                &&& subtask_of(json_of(payload@)->Some_0) is Some
                &&& identity is Some
                &&& store_decision(
                    old(store).view_boards(),
                    identity,
                    EntityRef::Task(task_id),
                    Action::Write,
                ) == Decision::Allow
                &&& id == old(store).next_id
                &&& final(store).next_id == old(store).next_id + 1
                &&& find_subtask(final(store).view_boards(), id) == Some(
                    (SubtaskV {
                        id,
                        author_id: identity->Some_0,
                        ..subtask_of(json_of(payload@)->Some_0)->Some_0
                    }),
                )
            },
            Err(ApiError::DecodeError) => {
                &&& (json_of(payload@) is None || subtask_of(json_of(payload@)->Some_0) is None)
                &&& *final(store) == *old(store)
            },
            Err(ApiError::Unauthenticated) => {
                &&& identity is None
                &&& *final(store) == *old(store)
            },
            Err(ApiError::NotFound) => {
                &&& store_decision(
                    old(store).view_boards(),
                    identity,
                    EntityRef::Task(task_id),
                    Action::Write,
                ) == Decision::Deny(DenyReason::NotFound)
                &&& *final(store) == *old(store)
            },
            Err(ApiError::AccessDenied) => {
                &&& identity is Some
                &&& store_decision(
                    old(store).view_boards(),
                    identity,
                    EntityRef::Task(task_id),
                    Action::Write,
                ) is Deny
                &&& store_decision(
                    old(store).view_boards(),
                    identity,
                    EntityRef::Task(task_id),
                    Action::Write,
                ) != Decision::Deny(DenyReason::NotFound)
                &&& *final(store) == *old(store)
            },
            Err(ApiError::GatewayFailure) => false,
        },
{
    let sub = match decode_subtask(payload) {
        Ok(s) => s,
        Err(_) => {
            return Err(ApiError::DecodeError);
        },
    };
    let user = match identity {
        Some(u) => u,
        None => {
            return Err(ApiError::Unauthenticated);
        },
    };
    match authorize(store, identity, EntityRef::Task(task_id), Action::Write) {
        Decision::Allow => {},
        Decision::Deny(DenyReason::NotFound) => {
            return Err(ApiError::NotFound);
        },
        Decision::Deny(_) => {
            return Err(ApiError::AccessDenied);
        },
    }
    match store.create_subtask(task_id, user, sub) {
        Ok(id) => Ok(id),
        Err(StoreError::NotFound) => {
            proof {
                if board_of_task(old(store).view_boards(), task_id) is Some {
                    lemma_first_in_index(
                        old(store).view_boards(),
                        crate::store::board_has_task_pred(task_id),
                    );
                }
            }
            Err(ApiError::NotFound)
        },
    }
}

/// Handle a request to delete the board `board_id`: authorize a delete
/// against the board itself, then remove it with its whole subtree.
pub fn handle_delete_board(store: &mut BoardStore, identity: Identity, board_id: u64) -> (r:
    Result<(), ApiError>)
    requires
        old(store).wf(),
    ensures
        final(store).wf(),
        match r {
            Ok(()) => {
                &&& identity is Some
                &&& store_decision(
                    old(store).view_boards(),
                    identity,
                    EntityRef::Board(board_id),
                    Action::Delete,
                ) == Decision::Allow
                &&& find_board(final(store).view_boards(), board_id) is None
                &&& forall|q: u64|
                    #[trigger] crate::store::board_subtree_has(
                        find_board(old(store).view_boards(), board_id)->Some_0,
                        q,
                    ) ==> {
                        &&& find_board(final(store).view_boards(), q) is None
                        &&& find_card(final(store).view_boards(), q) is None
                        &&& find_task(final(store).view_boards(), q) is None
                        &&& find_subtask(final(store).view_boards(), q) is None
                    }
            },
            Err(ApiError::Unauthenticated) => {
                &&& identity is None
                &&& *final(store) == *old(store)
            },
            Err(ApiError::NotFound) => {
                &&& find_board(old(store).view_boards(), board_id) is None
                &&& *final(store) == *old(store)
            },
            Err(ApiError::AccessDenied) => {
                &&& identity is Some
                &&& store_decision(
                    old(store).view_boards(),
                    identity,
                    EntityRef::Board(board_id),
                    Action::Delete,
                ) is Deny
                &&& *final(store) == *old(store)
            },
            _ => false,
        },
{
    if identity.is_none() {
        return Err(ApiError::Unauthenticated);
    }
    match authorize(store, identity, EntityRef::Board(board_id), Action::Delete) {
        Decision::Allow => {},
        Decision::Deny(DenyReason::NotFound) => {
            return Err(ApiError::NotFound);
        },
        Decision::Deny(_) => {
            return Err(ApiError::AccessDenied);
        },
    }
    match store.delete_board(board_id) {
        Ok(()) => Ok(()),
        Err(StoreError::NotFound) => Err(ApiError::NotFound),
    }
}

} // verus!
