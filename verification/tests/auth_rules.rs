use cc_taskboard::auth::{authorize_board, contains_user, Action, Decision, DenyReason};
use cc_taskboard::data::{AdminAuth, Board, CCTaskboardAppContext, ColorSet};

fn colors() -> ColorSet {
    ColorSet { text_color: "fff".to_string(), background_color: "000".to_string() }
}

fn board_shared_with_nine() -> Board {
    Board {
        id: 1,
        title: "plans".to_string(),
        author_id: 7,
        shared_with: vec![9],
        color_set: colors(),
        cards: Vec::new(),
    }
}

#[test]
fn author_may_write_shared_user_may_only_read() {
    let b = board_shared_with_nine();
    assert!(authorize_board(Some(7), &b, Action::Write) == Decision::Allow);
    assert!(authorize_board(Some(9), &b, Action::Write) == Decision::Deny(DenyReason::NotOwner));
    assert!(authorize_board(Some(9), &b, Action::Read) == Decision::Allow);
    assert!(authorize_board(Some(3), &b, Action::Read) == Decision::Deny(DenyReason::NotShared));
}

#[test]
fn sharing_never_grants_delete_or_share() {
    let b = board_shared_with_nine();
    assert!(authorize_board(Some(9), &b, Action::Delete) == Decision::Deny(DenyReason::NotOwner));
    assert!(authorize_board(Some(9), &b, Action::Share) == Decision::Deny(DenyReason::NotOwner));
    assert!(authorize_board(Some(7), &b, Action::Delete) == Decision::Allow);
    assert!(authorize_board(Some(7), &b, Action::Share) == Decision::Allow);
}

#[test]
fn anonymous_is_denied_everything() {
    let b = board_shared_with_nine();
    assert!(authorize_board(None, &b, Action::Read) != Decision::Allow);
    assert!(authorize_board(None, &b, Action::Write) != Decision::Allow);
    assert!(authorize_board(None, &b, Action::Delete) != Decision::Allow);
    assert!(authorize_board(None, &b, Action::Share) != Decision::Allow);
}

#[test]
fn share_list_membership() {
    let users = vec![4, 9, 11];
    assert!(contains_user(&users, 9));
    assert!(contains_user(&users, 4));
    assert!(!contains_user(&users, 7));
    assert!(!contains_user(&Vec::new(), 7));
}

#[test]
fn admin_key_compared_exactly() {
    let ctx = CCTaskboardAppContext {
        pg_config: "host=localhost".to_string(),
        admin_key: "opensesame".to_string(),
    };
    let good = AdminAuth { key: "opensesame".to_string() };
    let bad = AdminAuth { key: "guess".to_string() };
    assert!(ctx.admin_key_matches(&good));
    assert!(!ctx.admin_key_matches(&bad));
}
