use cc_taskboard::api::{authorize, EntityRef};
use cc_taskboard::auth::{Action, Decision};
use cc_taskboard::data::{ColorSet, Subtask, Task, Timelines};
use cc_taskboard::store::{BoardStore, StoreError};

fn colors() -> ColorSet {
    ColorSet { text_color: "fff".to_string(), background_color: "000".to_string() }
}

fn timelines() -> Timelines {
    Timelines {
        preferred_time: "2026-10-01T12:00".to_string(),
        max_time: "2026-10-02T12:00".to_string(),
        expected_time_minutes: 45,
    }
}

fn task_payload(title: &str) -> Task {
    Task {
        id: 999,
        title: title.to_string(),
        author_id: 999,
        executed: false,
        notes: "some notes".to_string(),
        tags: Vec::new(),
        timelines: timelines(),
        color_set: colors(),
        executors: Vec::new(),
        subtasks: Vec::new(),
    }
}

fn subtask_payload(title: &str) -> Subtask {
    Subtask {
        id: 999,
        title: title.to_string(),
        author_id: 999,
        executed: true,
        tags: Vec::new(),
        timelines: timelines(),
        color_set: colors(),
        executors: vec![5, 6],
    }
}

#[test]
fn create_board_then_get_returns_what_was_stored() {
    let mut store = BoardStore::new();
    let id = store.create_board(7, "plans".to_string(), colors());
    let b = store.get_board(id).expect("board should be found");
    assert!(b.id == id);
    assert!(b.title == "plans");
    assert!(b.author_id == 7);
    assert!(b.shared_with.is_empty());
    assert!(b.cards.is_empty());
    assert!(b.color_set.text_color == "fff");
}

#[test]
fn create_card_then_get_returns_what_was_stored() {
    let mut store = BoardStore::new();
    let bid = store.create_board(7, "plans".to_string(), colors());
    let cid = store.create_card(bid, 7, "today".to_string(), colors()).unwrap();
    assert!(cid != bid);
    let c = store.get_card(cid).expect("card should be found");
    assert!(c.id == cid);
    assert!(c.title == "today");
    assert!(c.author_id == 7);
    assert!(c.tasks.is_empty());
}

#[test]
fn create_task_then_get_overrides_id_and_author() {
    let mut store = BoardStore::new();
    let bid = store.create_board(7, "plans".to_string(), colors());
    let cid = store.create_card(bid, 7, "today".to_string(), colors()).unwrap();
    let tid = store.create_task(cid, 7, task_payload("write report")).unwrap();
    let t = store.get_task(tid).expect("task should be found");
    assert!(t.id == tid);
    assert!(t.id != 999);
    assert!(t.author_id == 7);
    assert!(t.title == "write report");
    assert!(t.notes == "some notes");
    assert!(!t.executed);
    assert!(t.subtasks.is_empty());
}

#[test]
fn create_subtask_then_get_overrides_id_and_author() {
    let mut store = BoardStore::new();
    let bid = store.create_board(7, "plans".to_string(), colors());
    let cid = store.create_card(bid, 7, "today".to_string(), colors()).unwrap();
    let tid = store.create_task(cid, 7, task_payload("write report")).unwrap();
    let sid = store.create_subtask(tid, 7, subtask_payload("outline")).unwrap();
    let s = store.get_subtask(sid).expect("subtask should be found");
    assert!(s.id == sid);
    assert!(s.author_id == 7);
    assert!(s.title == "outline");
    assert!(s.executed);
    assert!(s.executors == vec![5, 6]);
}

#[test]
fn create_under_missing_parent_is_not_found() {
    let mut store = BoardStore::new();
    let bid = store.create_board(7, "plans".to_string(), colors());
    assert!(store.create_card(bid + 100, 7, "x".to_string(), colors())
        == Err(StoreError::NotFound));
    assert!(store.create_task(bid + 100, 7, task_payload("t")) == Err(StoreError::NotFound));
    assert!(store.create_subtask(bid + 100, 7, subtask_payload("s"))
        == Err(StoreError::NotFound));
    assert!(store.get_board(bid).is_some());
}

#[test]
fn delete_board_cascades_to_all_descendants() {
    let mut store = BoardStore::new();
    let keep = store.create_board(2, "keep".to_string(), colors());
    let bid = store.create_board(7, "plans".to_string(), colors());
    let cid = store.create_card(bid, 7, "today".to_string(), colors()).unwrap();
    let tid = store.create_task(cid, 7, task_payload("write report")).unwrap();
    let sid = store.create_subtask(tid, 7, subtask_payload("outline")).unwrap();
    assert!(store.delete_board(bid) == Ok(()));
    assert!(store.get_board(bid).is_none());
    assert!(store.get_card(cid).is_none());
    assert!(store.get_task(tid).is_none());
    assert!(store.get_subtask(sid).is_none());
    assert!(store.get_board(keep).is_some());
}

#[test]
fn delete_missing_board_is_not_found() {
    let mut store = BoardStore::new();
    assert!(store.delete_board(42) == Err(StoreError::NotFound));
}

#[test]
fn sharing_grants_read_and_only_read() {
    let mut store = BoardStore::new();
    let bid = store.create_board(7, "plans".to_string(), colors());
    assert!(authorize(&store, Some(9), EntityRef::Board(bid), Action::Read) != Decision::Allow);
    assert!(store.share_board(bid, 9) == Ok(()));
    assert!(authorize(&store, Some(9), EntityRef::Board(bid), Action::Read) == Decision::Allow);
    assert!(authorize(&store, Some(9), EntityRef::Board(bid), Action::Write) != Decision::Allow);
    let shared = store.list_shared_boards(9);
    assert!(shared == vec![bid]);
    assert!(store.list_shared_boards(7).is_empty());
}

#[test]
fn descendants_are_exactly_as_readable_as_their_board() {
    let mut store = BoardStore::new();
    let bid = store.create_board(7, "plans".to_string(), colors());
    let cid = store.create_card(bid, 7, "today".to_string(), colors()).unwrap();
    let tid = store.create_task(cid, 7, task_payload("write report")).unwrap();
    let sid = store.create_subtask(tid, 7, subtask_payload("outline")).unwrap();
    store.share_board(bid, 9).unwrap();
    for user in [7u64, 9, 3] {
        let on_board = authorize(&store, Some(user), EntityRef::Board(bid), Action::Read);
        assert!(authorize(&store, Some(user), EntityRef::Card(cid), Action::Read) == on_board);
        assert!(authorize(&store, Some(user), EntityRef::Task(tid), Action::Read) == on_board);
        assert!(authorize(&store, Some(user), EntityRef::Subtask(sid), Action::Read) == on_board);
    }
    assert!(authorize(&store, Some(9), EntityRef::Subtask(sid), Action::Write)
        != Decision::Allow);
    assert!(authorize(&store, Some(7), EntityRef::Subtask(sid), Action::Write)
        == Decision::Allow);
}

#[test]
fn update_board_keeps_identity_author_and_contents() {
    let mut store = BoardStore::new();
    let bid = store.create_board(7, "plans".to_string(), colors());
    let cid = store.create_card(bid, 7, "today".to_string(), colors()).unwrap();
    store.share_board(bid, 9).unwrap();
    let new_colors =
        ColorSet { text_color: "123".to_string(), background_color: "456".to_string() };
    assert!(store.update_board(bid, "renamed".to_string(), new_colors) == Ok(()));
    let b = store.get_board(bid).expect("updated board should be found");
    assert!(b.id == bid);
    assert!(b.title == "renamed");
    assert!(b.author_id == 7);
    assert!(b.shared_with == vec![9]);
    assert!(b.cards.len() == 1);
    assert!(b.color_set.text_color == "123");
    assert!(store.get_card(cid).is_some());
    assert!(store.update_board(bid + 50, "x".to_string(), colors())
        == Err(StoreError::NotFound));
}

#[test]
fn completion_flags_are_independent() {
    let mut store = BoardStore::new();
    let bid = store.create_board(7, "plans".to_string(), colors());
    let cid = store.create_card(bid, 7, "today".to_string(), colors()).unwrap();
    let tid = store.create_task(cid, 7, task_payload("write report")).unwrap();
    let sid = store.create_subtask(tid, 7, subtask_payload("outline")).unwrap();
    assert!(store.get_subtask(sid).unwrap().executed);
    assert!(!store.get_task(tid).unwrap().executed);
    assert!(store.set_task_executed(tid, true) == Ok(()));
    assert!(store.get_task(tid).unwrap().executed);
    assert!(store.get_subtask(sid).unwrap().executed);
    assert!(store.set_subtask_executed(sid, false) == Ok(()));
    assert!(!store.get_subtask(sid).unwrap().executed);
    assert!(store.get_task(tid).unwrap().executed);
    assert!(store.set_task_executed(sid, true) == Err(StoreError::NotFound));
    assert!(store.set_subtask_executed(9999, true) == Err(StoreError::NotFound));
}

#[test]
fn authorize_on_dangling_entity_is_denied() {
    let store = BoardStore::new();
    assert!(authorize(&store, Some(7), EntityRef::Card(5), Action::Read) != Decision::Allow);
    assert!(authorize(&store, Some(7), EntityRef::Board(5), Action::Write) != Decision::Allow);
}
