use cc_taskboard::api::{handle_create_subtask, handle_delete_board, ApiError};
use cc_taskboard::bind::{
    decode_admin_auth, decode_board, decode_subtask, decode_task, decode_user_auth,
};
use cc_taskboard::data::ColorSet;
use cc_taskboard::store::BoardStore;

fn colors() -> ColorSet {
    ColorSet { text_color: "fff".to_string(), background_color: "000".to_string() }
}

fn subtask_json(title_field: &str) -> String {
    format!(
        r#"{{"id":12,{}"author_id":99,"exec":true,"tags":[{{"title":"urgent","color_set":{{"text_color":"a","background_color":"b"}}}}],"timelines":{{"preferred_time":"t1","max_time":"t2","expected_time_minutes":30}},"color_set":{{"text_color":"c","background_color":"d"}},"executors":[4,5]}}"#,
        title_field
    )
}

#[test]
fn decode_subtask_reads_every_field() {
    let payload = subtask_json(r#""title":"outline","#);
    let s = decode_subtask(&payload).expect("well-formed payload should decode");
    assert!(s.id == 12);
    assert!(s.title == "outline");
    assert!(s.author_id == 99);
    assert!(s.executed);
    assert!(s.tags.len() == 1);
    assert!(s.tags[0].title == "urgent");
    assert!(s.tags[0].color_set.text_color == "a");
    assert!(s.timelines.preferred_time == "t1");
    assert!(s.timelines.max_time == "t2");
    assert!(s.timelines.expected_time_minutes == 30);
    assert!(s.color_set.background_color == "d");
    assert!(s.executors == vec![4, 5]);
}

#[test]
fn decode_is_idempotent_on_the_same_payload() {
    let payload = subtask_json(r#""title":"outline","#);
    let a = decode_subtask(&payload).unwrap();
    let b = decode_subtask(&payload).unwrap();
    assert!(a.id == b.id);
    assert!(a.title == b.title);
    assert!(a.author_id == b.author_id);
    assert!(a.executed == b.executed);
    assert!(a.executors == b.executors);
    assert!(a.tags.len() == b.tags.len());
}

#[test]
fn missing_required_field_rejects_the_whole_payload() {
    let payload = subtask_json("");
    assert!(decode_subtask(&payload).is_err());
}

#[test]
fn task_without_title_is_a_decode_error() {
    let payload = r#"{"id":3,"author_id":7,"exec":false,"notes":"n","tags":[],"timelines":{"preferred_time":"a","max_time":"b","expected_time_minutes":5},"color_set":{"text_color":"x","background_color":"y"},"executors":[],"subtasks":[]}"#;
    assert!(decode_task(payload).is_err());
}

#[test]
fn decode_task_with_nested_subtasks() {
    let payload = format!(
        r#"{{"id":3,"title":"report","author_id":7,"exec":false,"notes":"n","tags":[],"timelines":{{"preferred_time":"a","max_time":"b","expected_time_minutes":5}},"color_set":{{"text_color":"x","background_color":"y"}},"executors":[],"subtasks":[{}]}}"#,
        subtask_json(r#""title":"outline","#)
    );
    let t = decode_task(&payload).expect("nested task should decode");
    assert!(t.title == "report");
    assert!(t.subtasks.len() == 1);
    assert!(t.subtasks[0].title == "outline");
}

#[test]
fn unknown_fields_are_ignored() {
    let payload = r#"{"key":"abc","totally_unknown":[1,2,{"x":null}],"another":-35}"#;
    let a = decode_admin_auth(payload).expect("unknown fields must not break decoding");
    assert!(a.key == "abc");
}

#[test]
fn malformed_text_is_a_decode_error() {
    assert!(decode_admin_auth("not json at all").is_err());
    assert!(decode_board("{\"id\":").is_err());
    assert!(decode_task("[1,2,3]").is_err());
}

#[test]
fn wrong_type_for_field_is_a_decode_error() {
    assert!(decode_admin_auth("{\"key\":17}").is_err());
    let payload = subtask_json(r#""title":42,"#);
    assert!(decode_subtask(&payload).is_err());
}

#[test]
fn out_of_range_minutes_is_a_decode_error() {
    let payload = r#"{"id":1,"title":"s","author_id":2,"exec":false,"tags":[],"timelines":{"preferred_time":"a","max_time":"b","expected_time_minutes":5000000000},"color_set":{"text_color":"x","background_color":"y"},"executors":[]}"#;
    assert!(decode_subtask(payload).is_err());
}

#[test]
fn decode_board_with_shared_list() {
    let payload = r#"{"id":1,"title":"plans","author_id":7,"shared_with":[9],"color_set":{"text_color":"x","background_color":"y"},"cards":[]}"#;
    let b = decode_board(payload).expect("board should decode");
    assert!(b.id == 1);
    assert!(b.author_id == 7);
    assert!(b.shared_with == vec![9]);
    assert!(b.cards.is_empty());
}

#[test]
fn decode_user_auth_reads_credentials() {
    let payload = r#"{"login":"ada","pass":"pw","cc_key":"k1"}"#;
    let u = decode_user_auth(payload).expect("credentials should decode");
    assert!(u.login == "ada");
    assert!(u.pass == "pw");
    assert!(u.cc_key == "k1");
}

fn store_with_task() -> (BoardStore, u64, u64) {
    let mut store = BoardStore::new();
    let bid = store.create_board(7, "plans".to_string(), colors());
    let cid = store.create_card(bid, 7, "today".to_string(), colors()).unwrap();
    let tid = store
        .create_task(
            cid,
            7,
            cc_taskboard::data::Task {
                id: 0,
                title: "report".to_string(),
                author_id: 0,
                executed: false,
                notes: String::new(),
                tags: Vec::new(),
                timelines: cc_taskboard::data::Timelines {
                    preferred_time: "a".to_string(),
                    max_time: "b".to_string(),
                    expected_time_minutes: 5,
                },
                color_set: colors(),
                executors: Vec::new(),
                subtasks: Vec::new(),
            },
        )
        .unwrap();
    (store, bid, tid)
}

#[test]
fn handler_creates_subtask_with_trusted_identity_only() {
    let (mut store, _bid, tid) = store_with_task();
    let payload = subtask_json(r#""title":"outline","#);
    let sid = handle_create_subtask(&mut store, Some(7), tid, &payload)
        .expect("author should be allowed to create");
    let s = store.get_subtask(sid).expect("created subtask should be found");
    assert!(s.author_id == 7);
    assert!(s.id == sid);
    assert!(s.id != 12);
    assert!(s.title == "outline");
}

#[test]
fn handler_reports_not_found_not_decode_error_for_missing_task() {
    let (mut store, _bid, tid) = store_with_task();
    let payload = subtask_json(r#""title":"outline","#);
    let r = handle_create_subtask(&mut store, Some(7), tid + 100, &payload);
    assert!(r == Err(ApiError::NotFound));
}

#[test]
fn handler_rejects_malformed_payload_before_anything_else() {
    let (mut store, _bid, tid) = store_with_task();
    let r = handle_create_subtask(&mut store, Some(7), tid, "{broken");
    assert!(r == Err(ApiError::DecodeError));
    let missing_title = subtask_json("");
    let r2 = handle_create_subtask(&mut store, Some(7), tid, &missing_title);
    assert!(r2 == Err(ApiError::DecodeError));
}

#[test]
fn handler_denies_shared_user_and_anonymous() {
    let (mut store, bid, tid) = store_with_task();
    store.share_board(bid, 9).unwrap();
    let payload = subtask_json(r#""title":"outline","#);
    assert!(handle_create_subtask(&mut store, Some(9), tid, &payload)
        == Err(ApiError::AccessDenied));
    assert!(handle_create_subtask(&mut store, None, tid, &payload)
        == Err(ApiError::Unauthenticated));
}

#[test]
fn handler_delete_board_cascade_and_denials() {
    let (mut store, bid, tid) = store_with_task();
    assert!(handle_delete_board(&mut store, Some(9), bid) == Err(ApiError::AccessDenied));
    assert!(handle_delete_board(&mut store, None, bid) == Err(ApiError::Unauthenticated));
    assert!(handle_delete_board(&mut store, Some(7), bid + 50) == Err(ApiError::NotFound));
    assert!(handle_delete_board(&mut store, Some(7), bid) == Ok(()));
    assert!(store.get_board(bid).is_none());
    assert!(store.get_task(tid).is_none());
}
