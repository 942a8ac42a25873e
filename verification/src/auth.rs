use vstd::prelude::*;

use crate::data::{Board, BoardV};
use crate::Identity;

verus! {

/// The operations a request may ask for on an entity.
#[derive(Clone, Copy, Debug, PartialEq, Eq, Structural)]
pub enum Action {
    Read,
    Write,
    Delete,
    Share,
}

/// Diagnostic reason attached to a denial. The externally observable failure
/// is uniform; the reason is for internal diagnostics only.
#[derive(Clone, Copy, Debug, PartialEq, Eq, Structural)]
pub enum DenyReason {
    NotOwner,
    NotShared,
    NotFound,
}

/// Outcome of an authorization check.
#[derive(Clone, Copy, Debug, PartialEq, Eq, Structural)]
pub enum Decision {
    Allow,
    Deny(DenyReason),
}

/// `write`, `delete` and `share` are all owner-only mutations.
pub open spec fn is_mutation(action: Action) -> bool {
    action != Action::Read
}

/// A user may read a board iff they authored it or appear in its share list.
pub open spec fn read_allowed(user: u64, board: BoardV) -> bool {
    user == board.author_id || board.shared_with.contains(user)
}

/// Whether `identity` may perform `action` on `board` or on anything it
/// contains. Anonymous requests are always denied; sharing grants read only.
pub open spec fn action_allowed(identity: Identity, board: BoardV, action: Action) -> bool {
    match identity {
        None => false,
        Some(user) => if is_mutation(action) {
            user == board.author_id
        } else {
            read_allowed(user, board)
        },
    }
}

/// The full decision on a board, reason included: mutations denied to
/// everyone but the author with `NotOwner`, reads denied to strangers with
/// `NotShared`.
pub open spec fn board_decision(identity: Identity, board: BoardV, action: Action) -> Decision {
    if action_allowed(identity, board, action) {
        Decision::Allow
    } else if is_mutation(action) {
        Decision::Deny(DenyReason::NotOwner)
    } else {
        Decision::Deny(DenyReason::NotShared)
    }
}

/// Membership test on a list of user identities.
pub fn contains_user(users: &Vec<u64>, user: u64) -> (r: bool)
    ensures
        r == users.deep_view().contains(user),
{
    let mut i: usize = 0;
    while i < users.len()
        invariant
            0 <= i <= users.len(),
            forall|k: int| 0 <= k < i ==> users.deep_view()[k] != user,
        decreases users.len() - i,
    {
        if users[i] == user {
            assert(users.deep_view()[i as int] == user);
            return true;
        }
        i += 1;
    }
    false
}

/// Evaluate the access rule against the owning board of the target: reads
/// for the author and the shared users, mutations for the author alone.
pub fn authorize_board(identity: Identity, board: &Board, action: Action) -> (d: Decision)
    ensures
        d == board_decision(identity, board.deep_view(), action),
{
    match identity {
        None => {
            if action == Action::Read {
                Decision::Deny(DenyReason::NotShared)
            } else {
                Decision::Deny(DenyReason::NotOwner)
            }
        },
        Some(user) => {
            if action == Action::Read {
                if user == board.author_id || contains_user(&board.shared_with, user) {
                    Decision::Allow
                } else {
                    Decision::Deny(DenyReason::NotShared)
                }
            } else {
                if user == board.author_id {
                    Decision::Allow
                } else {
                    Decision::Deny(DenyReason::NotOwner)
                }
            }
        },
    }
}

/// A board read is allowed exactly for the author and the users in the
/// share list.
pub proof fn lemma_read_rule(user: u64, board: BoardV)
    ensures
        board_decision(Some(user), board, Action::Read) == Decision::Allow
            <==> (user == board.author_id || board.shared_with.contains(user)),
{
}

/// Sharing never grants mutation rights: any user other than the author is
/// denied `write`, `delete` and `share`, whether or not the board is shared
/// with them.
pub proof fn lemma_sharing_grants_no_mutation(user: u64, board: BoardV, action: Action)
    requires
        is_mutation(action),
        user != board.author_id,
    ensures
        board_decision(Some(user), board, action) == Decision::Deny(DenyReason::NotOwner),
{
}

/// Anonymous requests are denied every action on every board.
pub proof fn lemma_anonymous_always_denied(board: BoardV, action: Action)
    ensures
        board_decision(None, board, action) is Deny,
{
}

} // verus!
