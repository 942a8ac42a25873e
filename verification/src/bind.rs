use vstd::prelude::*;

use crate::data::{
    AdminAuth, Board, BoardV, Card, CardV, ColorSet, ColorSetV, Subtask, SubtaskV, Tag, TagV,
    Task, TaskV, Timelines, TimelinesV, UserAuth, UserAuthV,
};
use crate::json::{json_of, parse_json, JsonValue};
use crate::store::{first_in, lemma_first_in_at, lemma_first_in_none};

verus! {

/// The uniform rejection of a malformed payload: no detail of the failure is
/// exposed, so that decode errors leak nothing about parser internals.
#[derive(Clone, Copy, Debug, PartialEq, Eq, Structural)]
pub struct DecodeError;

pub open spec fn field_key_pred(key: Seq<char>) -> spec_fn((String, JsonValue)) -> bool {
    |f: (String, JsonValue)| f.0@ == key
}

/// The value of the first object entry named `key`, if any. Later entries
/// with the same name and entries with other names are ignored: decoding is
/// forward-compatible with unknown fields.
pub open spec fn lookup(fields: Seq<(String, JsonValue)>, key: Seq<char>) -> Option<JsonValue> {
    match first_in(fields, field_key_pred(key)) {
        None => None,
        Some(f) => Some(f.1),
    }
}

pub open spec fn str_field(fields: Seq<(String, JsonValue)>, key: Seq<char>) -> Option<Seq<char>> {
    match lookup(fields, key) {
        Some(JsonValue::Str(s)) => Some(s@),
        _ => None,
    }
}

pub open spec fn u64_field(fields: Seq<(String, JsonValue)>, key: Seq<char>) -> Option<u64> {
    match lookup(fields, key) {
        Some(JsonValue::UInt(n)) => Some(n),
        _ => None,
    }
}

pub open spec fn u32_field(fields: Seq<(String, JsonValue)>, key: Seq<char>) -> Option<u32> {
    match lookup(fields, key) {
        Some(JsonValue::UInt(n)) => if n <= u32::MAX {
            Some(n as u32)
        } else {
            None
        },
        _ => None,
    }
}

pub open spec fn bool_field(fields: Seq<(String, JsonValue)>, key: Seq<char>) -> Option<bool> {
    match lookup(fields, key) {
        Some(JsonValue::Bool(b)) => Some(b),
        _ => None,
    }
}

pub open spec fn uint_of(j: JsonValue) -> Option<u64> {
    match j {
        JsonValue::UInt(n) => Some(n),
        _ => None,
    }
}

pub open spec fn color_set_of(j: JsonValue) -> Option<ColorSetV> {
    match j {
        JsonValue::Obj(fs) => {
            let text_color = str_field(fs@, "text_color"@);
            let background_color = str_field(fs@, "background_color"@);
            if text_color is Some && background_color is Some {
                Some(
                    ColorSetV {
                        text_color: text_color->Some_0,
                        background_color: background_color->Some_0,
                    },
                )
            } else {
                None
            }
        },
        _ => None,
    }
}

pub open spec fn timelines_of(j: JsonValue) -> Option<TimelinesV> {
    match j {
        JsonValue::Obj(fs) => {
            let preferred_time = str_field(fs@, "preferred_time"@);
            let max_time = str_field(fs@, "max_time"@);
            let minutes = u32_field(fs@, "expected_time_minutes"@);
            if preferred_time is Some && max_time is Some && minutes is Some {
                Some(
                    TimelinesV {
                        preferred_time: preferred_time->Some_0,
                        max_time: max_time->Some_0,
                        expected_time_minutes: minutes->Some_0,
                    },
                )
            } else {
                None
            }
        },
        _ => None,
    }
}

pub open spec fn color_set_field(fields: Seq<(String, JsonValue)>) -> Option<ColorSetV> {
    match lookup(fields, "color_set"@) {
        Some(cj) => color_set_of(cj),
        None => None,
    }
}

pub open spec fn tag_of(j: JsonValue) -> Option<TagV> {
    match j {
        JsonValue::Obj(fs) => {
            let title = str_field(fs@, "title"@);
            let cs = color_set_field(fs@);
            if title is Some && cs is Some {
                Some(TagV { title: title->Some_0, color_set: cs->Some_0 })
            } else {
                None
            }
        },
        _ => None,
    }
}

pub open spec fn ids_of(arr: Seq<JsonValue>) -> Option<Seq<u64>> {
    if forall|i: int| 0 <= i < arr.len() ==> (#[trigger] uint_of(arr[i])) is Some {
        Some(Seq::new(arr.len(), |i: int| uint_of(arr[i])->Some_0))
    } else {
        None
    }
}

pub open spec fn tags_of(arr: Seq<JsonValue>) -> Option<Seq<TagV>> {
    if forall|i: int| 0 <= i < arr.len() ==> (#[trigger] tag_of(arr[i])) is Some {
        Some(Seq::new(arr.len(), |i: int| tag_of(arr[i])->Some_0))
    } else {
        None
    }
}

pub open spec fn ids_field(fields: Seq<(String, JsonValue)>, key: Seq<char>) -> Option<Seq<u64>> {
    match lookup(fields, key) {
        Some(JsonValue::Arr(a)) => ids_of(a@),
        _ => None,
    }
}

pub open spec fn tags_field(fields: Seq<(String, JsonValue)>) -> Option<Seq<TagV>> {
    match lookup(fields, "tags"@) {
        Some(JsonValue::Arr(a)) => tags_of(a@),
        _ => None,
    }
}

pub open spec fn timelines_field(fields: Seq<(String, JsonValue)>) -> Option<TimelinesV> {
    match lookup(fields, "timelines"@) {
        Some(tj) => timelines_of(tj),
        None => None,
    }
}

pub open spec fn subtask_of(j: JsonValue) -> Option<SubtaskV> {
    match j {
        JsonValue::Obj(fs) => {
            let id = u64_field(fs@, "id"@);
            let title = str_field(fs@, "title"@);
            let author_id = u64_field(fs@, "author_id"@);
            let executed = bool_field(fs@, "exec"@);
            let tags = tags_field(fs@);
            let timelines = timelines_field(fs@);
            let cs = color_set_field(fs@);
            let executors = ids_field(fs@, "executors"@);
            if id is Some && title is Some && author_id is Some && executed is Some && tags
                is Some && timelines is Some && cs is Some && executors is Some {
                Some(
                    SubtaskV {
                        id: id->Some_0,
                        title: title->Some_0,
                        author_id: author_id->Some_0,
                        executed: executed->Some_0,
                        tags: tags->Some_0,
                        timelines: timelines->Some_0,
                        color_set: cs->Some_0,
                        executors: executors->Some_0,
                    },
                )
            } else {
                None
            }
        },
        _ => None,
    }
}

pub open spec fn subtasks_of(arr: Seq<JsonValue>) -> Option<Seq<SubtaskV>> {
    if forall|i: int| 0 <= i < arr.len() ==> (#[trigger] subtask_of(arr[i])) is Some {
        Some(Seq::new(arr.len(), |i: int| subtask_of(arr[i])->Some_0))
    } else {
        None
    }
}

pub open spec fn task_of(j: JsonValue) -> Option<TaskV> {
    match j {
        JsonValue::Obj(fs) => {
            let id = u64_field(fs@, "id"@);
            let title = str_field(fs@, "title"@);
            let author_id = u64_field(fs@, "author_id"@);
            let executed = bool_field(fs@, "exec"@);
            let notes = str_field(fs@, "notes"@);
            let tags = tags_field(fs@);
            let timelines = timelines_field(fs@);
            let cs = color_set_field(fs@);
            let executors = ids_field(fs@, "executors"@);
            let subtasks = match lookup(fs@, "subtasks"@) {
                Some(JsonValue::Arr(a)) => subtasks_of(a@),
                _ => None,
            };
            if id is Some && title is Some && author_id is Some && executed is Some && notes
                is Some && tags is Some && timelines is Some && cs is Some && executors is Some
                && subtasks is Some {
                Some(
                    TaskV {
                        id: id->Some_0,
                        title: title->Some_0,
                        author_id: author_id->Some_0,
                        executed: executed->Some_0,
                        notes: notes->Some_0,
                        tags: tags->Some_0,
                        timelines: timelines->Some_0,
                        color_set: cs->Some_0,
                        executors: executors->Some_0,
                        subtasks: subtasks->Some_0,
                    },
                )
            } else {
                None
            }
        },
        _ => None,
    }
}

pub open spec fn tasks_of(arr: Seq<JsonValue>) -> Option<Seq<TaskV>> {
    if forall|i: int| 0 <= i < arr.len() ==> (#[trigger] task_of(arr[i])) is Some {
        Some(Seq::new(arr.len(), |i: int| task_of(arr[i])->Some_0))
    } else {
        None
    }
}

pub open spec fn card_of(j: JsonValue) -> Option<CardV> {
    match j {
        JsonValue::Obj(fs) => {
            let id = u64_field(fs@, "id"@);
            let title = str_field(fs@, "title"@);
            let author_id = u64_field(fs@, "author_id"@);
            let cs = color_set_field(fs@);
            let tasks = match lookup(fs@, "tasks"@) {
                Some(JsonValue::Arr(a)) => tasks_of(a@),
                _ => None,
            };
            if id is Some && title is Some && author_id is Some && cs is Some && tasks is Some {
                Some(
                    CardV {
                        id: id->Some_0,
                        title: title->Some_0,
                        author_id: author_id->Some_0,
                        color_set: cs->Some_0,
                        tasks: tasks->Some_0,
                    },
                )
            } else {
                None
            }
        },
        _ => None,
    }
}

pub open spec fn cards_of(arr: Seq<JsonValue>) -> Option<Seq<CardV>> {
    if forall|i: int| 0 <= i < arr.len() ==> (#[trigger] card_of(arr[i])) is Some {
        Some(Seq::new(arr.len(), |i: int| card_of(arr[i])->Some_0))
    } else {
        None
    }
}

pub open spec fn board_of(j: JsonValue) -> Option<BoardV> {
    match j {
        JsonValue::Obj(fs) => {
            let id = u64_field(fs@, "id"@);
            let title = str_field(fs@, "title"@);
            let author_id = u64_field(fs@, "author_id"@);
            let shared_with = ids_field(fs@, "shared_with"@);
            let cs = color_set_field(fs@);
            let cards = match lookup(fs@, "cards"@) {
                Some(JsonValue::Arr(a)) => cards_of(a@),
                _ => None,
            };
            if id is Some && title is Some && author_id is Some && shared_with is Some && cs
                is Some && cards is Some {
                Some(
                    BoardV {
                        id: id->Some_0,
                        title: title->Some_0,
                        author_id: author_id->Some_0,
                        shared_with: shared_with->Some_0,
                        color_set: cs->Some_0,
                        cards: cards->Some_0,
                    },
                )
            } else {
                None
            }
        },
        _ => None,
    }
}

pub open spec fn admin_auth_of(j: JsonValue) -> Option<Seq<char>> {
    match j {
        JsonValue::Obj(fs) => str_field(fs@, "key"@),
        _ => None,
    }
}

pub open spec fn user_auth_of(j: JsonValue) -> Option<UserAuthV> {
    match j {
        JsonValue::Obj(fs) => {
            let login = str_field(fs@, "login"@);
            let pass = str_field(fs@, "pass"@);
            let cc_key = str_field(fs@, "cc_key"@);
            if login is Some && pass is Some && cc_key is Some {
                Some(
                    UserAuthV {
                        login: login->Some_0,
                        pass: pass->Some_0,
                        cc_key: cc_key->Some_0,
                    },
                )
            } else {
                None
            }
        },
        _ => None,
    }
}

/// The first object entry named `key`, if any.
fn get_field<'a>(fields: &'a Vec<(String, JsonValue)>, key: &str) -> (r: Option<&'a JsonValue>)
    ensures
        match r {
            Some(v) => lookup(fields@, key@) == Some(*v),
            None => lookup(fields@, key@) is None,
        },
{
    let k: String = key.to_owned();
    let mut i: usize = 0;
    while i < fields.len()
        invariant
            0 <= i <= fields.len(),
            k@ == key@,
            forall|m: int| 0 <= m < i ==> !#[trigger] field_key_pred(key@)(fields@[m]),
        decreases fields.len() - i,
    {
        if fields[i].0 == k {
            proof {
                lemma_first_in_at(fields@, field_key_pred(key@), i as int);
            }
            return Some(&fields[i].1);
        }
        i += 1;
    }
    proof {
        lemma_first_in_none(fields@, field_key_pred(key@));
    }
    None
}

fn str_field_exec(fields: &Vec<(String, JsonValue)>, key: &str) -> (r: Result<String, DecodeError>)
    ensures
        match r {
            Ok(s) => str_field(fields@, key@) == Some(s@),
            Err(_) => str_field(fields@, key@) is None,
        },
{
    match get_field(fields, key) {
        Some(JsonValue::Str(s)) => Ok(s.clone()),
        _ => Err(DecodeError),
    }
}

fn u64_field_exec(fields: &Vec<(String, JsonValue)>, key: &str) -> (r: Result<u64, DecodeError>)
    ensures
        match r {
            Ok(n) => u64_field(fields@, key@) == Some(n),
            Err(_) => u64_field(fields@, key@) is None,
        },
{
    match get_field(fields, key) {
        Some(JsonValue::UInt(n)) => Ok(*n),
        _ => Err(DecodeError),
    }
}

fn u32_field_exec(fields: &Vec<(String, JsonValue)>, key: &str) -> (r: Result<u32, DecodeError>)
    ensures
        match r {
            Ok(n) => u32_field(fields@, key@) == Some(n),
            Err(_) => u32_field(fields@, key@) is None,
        },
{
    match get_field(fields, key) {
        Some(JsonValue::UInt(n)) => if *n <= 0xFFFF_FFFFu64 {
            Ok(*n as u32)
        } else {
            Err(DecodeError)
        },
        _ => Err(DecodeError),
    }
}

fn bool_field_exec(fields: &Vec<(String, JsonValue)>, key: &str) -> (r: Result<bool, DecodeError>)
    ensures
        match r {
            Ok(b) => bool_field(fields@, key@) == Some(b),
            Err(_) => bool_field(fields@, key@) is None,
        },
{
    match get_field(fields, key) {
        Some(JsonValue::Bool(b)) => Ok(*b),
        _ => Err(DecodeError),
    }
}

/// Bind one document as a `ColorSet`.
pub fn bind_color_set(j: &JsonValue) -> (r: Result<ColorSet, DecodeError>)
    ensures
        match r {
            Ok(c) => color_set_of(*j) == Some(c.deep_view()),
            Err(_) => color_set_of(*j) is None,
        },
{
    match j {
        JsonValue::Obj(fields) => {
            let text_color = match str_field_exec(fields, "text_color") {
                Ok(s) => s,
                Err(e) => {
                    return Err(e);
                },
            };
            let background_color = match str_field_exec(fields, "background_color") {
                Ok(s) => s,
                Err(e) => {
                    return Err(e);
                },
            };
            Ok(ColorSet { text_color, background_color })
        },
        _ => Err(DecodeError),
    }
}

/// Bind one document as a `Timelines`.
pub fn bind_timelines(j: &JsonValue) -> (r: Result<Timelines, DecodeError>)
    ensures
        match r {
            Ok(t) => timelines_of(*j) == Some(t.deep_view()),
            Err(_) => timelines_of(*j) is None,
        },
{
    match j {
        JsonValue::Obj(fields) => {
            let preferred_time = match str_field_exec(fields, "preferred_time") {
                Ok(s) => s,
                Err(e) => {
                    return Err(e);
                },
            };
            let max_time = match str_field_exec(fields, "max_time") {
                Ok(s) => s,
                Err(e) => {
                    return Err(e);
                },
            };
            let expected_time_minutes = match u32_field_exec(fields, "expected_time_minutes") {
                Ok(n) => n,
                Err(e) => {
                    return Err(e);
                },
            };
            Ok(Timelines { preferred_time, max_time, expected_time_minutes })
        },
        _ => Err(DecodeError),
    }
}

fn color_set_field_exec(fields: &Vec<(String, JsonValue)>) -> (r: Result<ColorSet, DecodeError>)
    ensures
        match r {
            Ok(c) => color_set_field(fields@) == Some(c.deep_view()),
            Err(_) => color_set_field(fields@) is None,
        },
{
    match get_field(fields, "color_set") {
        Some(v) => bind_color_set(v),
        None => Err(DecodeError),
    }
}

/// Bind one document as a `Tag`.
pub fn bind_tag(j: &JsonValue) -> (r: Result<Tag, DecodeError>)
    ensures
        match r {
            Ok(t) => tag_of(*j) == Some(t.deep_view()),
            Err(_) => tag_of(*j) is None,
        },
{
    match j {
        JsonValue::Obj(fields) => {
            let title = match str_field_exec(fields, "title") {
                Ok(s) => s,
                Err(e) => {
                    return Err(e);
                },
            };
            let color_set = match color_set_field_exec(fields) {
                Ok(c) => c,
                Err(e) => {
                    return Err(e);
                },
            };
            Ok(Tag { title, color_set })
        },
        _ => Err(DecodeError),
    }
}

/// Bind one document as an `AdminAuth`.
pub fn bind_admin_auth(j: &JsonValue) -> (r: Result<AdminAuth, DecodeError>)
    ensures
        match r {
            Ok(a) => admin_auth_of(*j) == Some(a.key@),
            Err(_) => admin_auth_of(*j) is None,
        },
{
    match j {
        JsonValue::Obj(fields) => {
            let key = match str_field_exec(fields, "key") {
                Ok(s) => s,
                Err(e) => {
                    return Err(e);
                },
            };
            Ok(AdminAuth { key })
        },
        _ => Err(DecodeError),
    }
}

/// Bind one document as a `UserAuth`.
pub fn bind_user_auth(j: &JsonValue) -> (r: Result<UserAuth, DecodeError>)
    ensures
        match r {
            Ok(u) => user_auth_of(*j) == Some(u.deep_view()),
            Err(_) => user_auth_of(*j) is None,
        },
{
    match j {
        JsonValue::Obj(fields) => {
            let login = match str_field_exec(fields, "login") {
                Ok(s) => s,
                Err(e) => {
                    return Err(e);
                },
            };
            let pass = match str_field_exec(fields, "pass") {
                Ok(s) => s,
                Err(e) => {
                    return Err(e);
                },
            };
            let cc_key = match str_field_exec(fields, "cc_key") {
                Ok(s) => s,
                Err(e) => {
                    return Err(e);
                },
            };
            Ok(UserAuth { login, pass, cc_key })
        },
        _ => Err(DecodeError),
    }
}

/// Bind an array of identifiers.
fn bind_ids(arr: &Vec<JsonValue>) -> (r: Result<Vec<u64>, DecodeError>)
    ensures
        match r {
            Ok(v) => ids_of(arr@) == Some(v.deep_view()),
            Err(_) => ids_of(arr@) is None,
        },
{
    let mut out: Vec<u64> = Vec::new();
    let mut i: usize = 0;
    while i < arr.len()
        invariant
            0 <= i <= arr.len(),
            forall|m: int| 0 <= m < i ==> (#[trigger] uint_of(arr@[m])) is Some,
            out.deep_view() =~= Seq::new(i as nat, |m: int| uint_of(arr@[m])->Some_0),
        decreases arr.len() - i,
    {
        match &arr[i] {
            JsonValue::UInt(n) => {
                let ghost pre = out.deep_view();
                let x = *n;
                out.push(x);
                proof {
                    assert(out.deep_view() =~= pre.push(x));
                    assert(Seq::new((i + 1) as nat, |m: int| uint_of(arr@[m])->Some_0) =~= pre.push(
                        x,
                    ));
                }
            },
            _ => {
                proof {
                    assert(uint_of(arr@[i as int]) is None);
                }
                return Err(DecodeError);
            },
        }
        i += 1;
    }
    proof {
        assert(ids_of(arr@) == Some(out.deep_view())) by {
            assert(Seq::new(arr@.len(), |m: int| uint_of(arr@[m])->Some_0) =~= out.deep_view());
        }
    }
    Ok(out)
}

/// Bind an array of tags.
fn bind_tags(arr: &Vec<JsonValue>) -> (r: Result<Vec<Tag>, DecodeError>)
    ensures
        match r {
            Ok(v) => tags_of(arr@) == Some(v.deep_view()),
            Err(_) => tags_of(arr@) is None,
        },
{
    let mut out: Vec<Tag> = Vec::new();
    let mut i: usize = 0;
    while i < arr.len()
        invariant
            0 <= i <= arr.len(),
            forall|m: int| 0 <= m < i ==> (#[trigger] tag_of(arr@[m])) is Some,
            out.deep_view() =~= Seq::new(i as nat, |m: int| tag_of(arr@[m])->Some_0),
        decreases arr.len() - i,
    {
        match bind_tag(&arr[i]) {
            Ok(t) => {
                let ghost pre = out.deep_view();
                let ghost xv = t.deep_view();
                out.push(t);
                proof {
                    assert(out.deep_view() =~= pre.push(xv));
                    assert(Seq::new((i + 1) as nat, |m: int| tag_of(arr@[m])->Some_0) =~= pre.push(
                        xv,
                    ));
                }
            },
            Err(e) => {
                return Err(e);
            },
        }
        i += 1;
    }
    proof {
        assert(tags_of(arr@) == Some(out.deep_view())) by {
            assert(Seq::new(arr@.len(), |m: int| tag_of(arr@[m])->Some_0) =~= out.deep_view());
        }
    }
    Ok(out)
}

fn tags_field_exec(fields: &Vec<(String, JsonValue)>) -> (r: Result<Vec<Tag>, DecodeError>)
    ensures
        match r {
            Ok(v) => tags_field(fields@) == Some(v.deep_view()),
            Err(_) => tags_field(fields@) is None,
        },
{
    match get_field(fields, "tags") {
        Some(JsonValue::Arr(a)) => bind_tags(a),
        _ => Err(DecodeError),
    }
}

fn ids_field_exec(fields: &Vec<(String, JsonValue)>, key: &str) -> (r: Result<
    Vec<u64>,
    DecodeError,
>)
    ensures
        match r {
            Ok(v) => ids_field(fields@, key@) == Some(v.deep_view()),
            Err(_) => ids_field(fields@, key@) is None,
        },
{
    match get_field(fields, key) {
        Some(JsonValue::Arr(a)) => bind_ids(a),
        _ => Err(DecodeError),
    }
}

fn timelines_field_exec(fields: &Vec<(String, JsonValue)>) -> (r: Result<Timelines, DecodeError>)
    ensures
        match r {
            Ok(t) => timelines_field(fields@) == Some(t.deep_view()),
            Err(_) => timelines_field(fields@) is None,
        },
{
    match get_field(fields, "timelines") {
        Some(v) => bind_timelines(v),
        None => Err(DecodeError),
    }
}

/// Bind one document as a `Subtask`.
pub fn bind_subtask(j: &JsonValue) -> (r: Result<Subtask, DecodeError>)
    ensures
        match r {
            Ok(s) => subtask_of(*j) == Some(s.deep_view()),
            Err(_) => subtask_of(*j) is None,
        },
{
    match j {
        JsonValue::Obj(fields) => {
            let id = match u64_field_exec(fields, "id") {
                Ok(n) => n,
                Err(e) => {
                    return Err(e);
                },
            };
            let title = match str_field_exec(fields, "title") {
                Ok(s) => s,
                Err(e) => {
                    return Err(e);
                },
            };
            let author_id = match u64_field_exec(fields, "author_id") {
                Ok(n) => n,
                Err(e) => {
                    return Err(e);
                },
            };
            let executed = match bool_field_exec(fields, "exec") {
                Ok(b) => b,
                Err(e) => {
                    return Err(e);
                },
            };
            let tags = match tags_field_exec(fields) {
                Ok(v) => v,
                Err(e) => {
                    return Err(e);
                },
            };
            let timelines = match timelines_field_exec(fields) {
                Ok(t) => t,
                Err(e) => {
                    return Err(e);
                },
            };
            let color_set = match color_set_field_exec(fields) {
                Ok(c) => c,
                Err(e) => {
                    return Err(e);
                },
            };
            let executors = match ids_field_exec(fields, "executors") {
                Ok(v) => v,
                Err(e) => {
                    return Err(e);
                },
            };
            Ok(Subtask { id, title, author_id, executed, tags, timelines, color_set, executors })
        },
        _ => Err(DecodeError),
    }
}

/// Bind an array of subtasks.
fn bind_subtasks(arr: &Vec<JsonValue>) -> (r: Result<Vec<Subtask>, DecodeError>)
    ensures
        match r {
            Ok(v) => subtasks_of(arr@) == Some(v.deep_view()),
            Err(_) => subtasks_of(arr@) is None,
        },
{
    let mut out: Vec<Subtask> = Vec::new();
    let mut i: usize = 0;
    while i < arr.len()
        invariant
            0 <= i <= arr.len(),
            forall|m: int| 0 <= m < i ==> (#[trigger] subtask_of(arr@[m])) is Some,
            out.deep_view() =~= Seq::new(i as nat, |m: int| subtask_of(arr@[m])->Some_0),
        decreases arr.len() - i,
    {
        match bind_subtask(&arr[i]) {
            Ok(s) => {
                let ghost pre = out.deep_view();
                let ghost xv = s.deep_view();
                out.push(s);
                proof {
                    assert(out.deep_view() =~= pre.push(xv));
                    assert(Seq::new((i + 1) as nat, |m: int| subtask_of(arr@[m])->Some_0) =~= pre.push(
                        xv,
                    ));
                }
            },
            Err(e) => {
                return Err(e);
            },
        }
        i += 1;
    }
    proof {
        assert(subtasks_of(arr@) == Some(out.deep_view())) by {
            assert(Seq::new(arr@.len(), |m: int| subtask_of(arr@[m])->Some_0)
                =~= out.deep_view());
        }
    }
    Ok(out)
}

/// Bind one document as a `Task`.
pub fn bind_task(j: &JsonValue) -> (r: Result<Task, DecodeError>)
    ensures
        match r {
            Ok(t) => task_of(*j) == Some(t.deep_view()),
            Err(_) => task_of(*j) is None,
        },
{
    match j {
        JsonValue::Obj(fields) => {
            let id = match u64_field_exec(fields, "id") {
                Ok(n) => n,
                Err(e) => {
                    return Err(e);
                },
            };
            let title = match str_field_exec(fields, "title") {
                Ok(s) => s,
                Err(e) => {
                    return Err(e);
                },
            };
            let author_id = match u64_field_exec(fields, "author_id") {
                Ok(n) => n,
                Err(e) => {
                    return Err(e);
                },
            };
            let executed = match bool_field_exec(fields, "exec") {
                Ok(b) => b,
                Err(e) => {
                    return Err(e);
                },
            };
            let notes = match str_field_exec(fields, "notes") {
                Ok(s) => s,
                Err(e) => {
                    return Err(e);
                },
            };
            let tags = match tags_field_exec(fields) {
                Ok(v) => v,
                Err(e) => {
                    return Err(e);
                },
            };
            let timelines = match timelines_field_exec(fields) {
                Ok(t) => t,
                Err(e) => {
                    return Err(e);
                },
            };
            let color_set = match color_set_field_exec(fields) {
                Ok(c) => c,
                Err(e) => {
                    return Err(e);
                },
            };
            let executors = match ids_field_exec(fields, "executors") {
                Ok(v) => v,
                Err(e) => {
                    return Err(e);
                },
            };
            let subtasks = match get_field(fields, "subtasks") {
                Some(JsonValue::Arr(a)) => match bind_subtasks(a) {
                    Ok(v) => v,
                    Err(e) => {
                        return Err(e);
                    },
                },
                _ => {
                    return Err(DecodeError);
                },
            };
            Ok(
                Task {
                    id,
                    title,
                    author_id,
                    executed,
                    notes,
                    tags,
                    timelines,
                    color_set,
                    executors,
                    subtasks,
                },
            )
        },
        _ => Err(DecodeError),
    }
}

/// Bind an array of tasks.
fn bind_tasks(arr: &Vec<JsonValue>) -> (r: Result<Vec<Task>, DecodeError>)
    ensures
        match r {
            Ok(v) => tasks_of(arr@) == Some(v.deep_view()),
            Err(_) => tasks_of(arr@) is None,
        },
{
    let mut out: Vec<Task> = Vec::new();
    let mut i: usize = 0;
    while i < arr.len()
        invariant
            0 <= i <= arr.len(),
            forall|m: int| 0 <= m < i ==> (#[trigger] task_of(arr@[m])) is Some,
            out.deep_view() =~= Seq::new(i as nat, |m: int| task_of(arr@[m])->Some_0),
        decreases arr.len() - i,
    {
        match bind_task(&arr[i]) {
            Ok(t) => {
                let ghost pre = out.deep_view();
                let ghost xv = t.deep_view();
                out.push(t);
                proof {
                    assert(out.deep_view() =~= pre.push(xv));
                    assert(Seq::new((i + 1) as nat, |m: int| task_of(arr@[m])->Some_0) =~= pre.push(
                        xv,
                    ));
                }
            },
            Err(e) => {
                return Err(e);
            },
        }
        i += 1;
    }
    proof {
        assert(tasks_of(arr@) == Some(out.deep_view())) by {
            assert(Seq::new(arr@.len(), |m: int| task_of(arr@[m])->Some_0) =~= out.deep_view());
        }
    }
    Ok(out)
}

/// Bind one document as a `Card`.
pub fn bind_card(j: &JsonValue) -> (r: Result<Card, DecodeError>)
    ensures
        match r {
            Ok(c) => card_of(*j) == Some(c.deep_view()),
            Err(_) => card_of(*j) is None,
        },
{
    match j {
        JsonValue::Obj(fields) => {
            let id = match u64_field_exec(fields, "id") {
                Ok(n) => n,
                Err(e) => {
                    return Err(e);
                },
            };
            let title = match str_field_exec(fields, "title") {
                Ok(s) => s,
                Err(e) => {
                    return Err(e);
                },
            };
            let author_id = match u64_field_exec(fields, "author_id") {
                Ok(n) => n,
                Err(e) => {
                    return Err(e);
                },
            };
            let color_set = match color_set_field_exec(fields) {
                Ok(c) => c,
                Err(e) => {
                    return Err(e);
                },
            };
            let tasks = match get_field(fields, "tasks") {
                Some(JsonValue::Arr(a)) => match bind_tasks(a) {
                    Ok(v) => v,
                    Err(e) => {
                        return Err(e);
                    },
                },
                _ => {
                    return Err(DecodeError);
                },
            };
            Ok(Card { id, title, author_id, color_set, tasks })
        },
        _ => Err(DecodeError),
    }
}

/// Bind an array of cards.
fn bind_cards(arr: &Vec<JsonValue>) -> (r: Result<Vec<Card>, DecodeError>)
    ensures
        match r {
            Ok(v) => cards_of(arr@) == Some(v.deep_view()),
            Err(_) => cards_of(arr@) is None,
        },
{
    let mut out: Vec<Card> = Vec::new();
    let mut i: usize = 0;
    while i < arr.len()
        invariant
            0 <= i <= arr.len(),
            forall|m: int| 0 <= m < i ==> (#[trigger] card_of(arr@[m])) is Some,
            out.deep_view() =~= Seq::new(i as nat, |m: int| card_of(arr@[m])->Some_0),
        decreases arr.len() - i,
    {
        match bind_card(&arr[i]) {
            Ok(c) => {
                let ghost pre = out.deep_view();
                let ghost xv = c.deep_view();
                out.push(c);
                proof {
                    assert(out.deep_view() =~= pre.push(xv));
                    assert(Seq::new((i + 1) as nat, |m: int| card_of(arr@[m])->Some_0) =~= pre.push(
                        xv,
                    ));
                }
            },
            Err(e) => {
                return Err(e);
            },
        }
        i += 1;
    }
    proof {
        assert(cards_of(arr@) == Some(out.deep_view())) by {
            assert(Seq::new(arr@.len(), |m: int| card_of(arr@[m])->Some_0) =~= out.deep_view());
        }
    }
    Ok(out)
}

/// Bind one document as a `Board`.
pub fn bind_board(j: &JsonValue) -> (r: Result<Board, DecodeError>)
    ensures
        match r {
            Ok(b) => board_of(*j) == Some(b.deep_view()),
            Err(_) => board_of(*j) is None,
        },
{
    match j {
        JsonValue::Obj(fields) => {
            let id = match u64_field_exec(fields, "id") {
                Ok(n) => n,
                Err(e) => {
                    return Err(e);
                },
            };
            let title = match str_field_exec(fields, "title") {
                Ok(s) => s,
                Err(e) => {
                    return Err(e);
                },
            };
            let author_id = match u64_field_exec(fields, "author_id") {
                Ok(n) => n,
                Err(e) => {
                    return Err(e);
                },
            };
            let shared_with = match ids_field_exec(fields, "shared_with") {
                Ok(v) => v,
                Err(e) => {
                    return Err(e);
                },
            };
            let color_set = match color_set_field_exec(fields) {
                Ok(c) => c,
                Err(e) => {
                    return Err(e);
                },
            };
            let cards = match get_field(fields, "cards") {
                Some(JsonValue::Arr(a)) => match bind_cards(a) {
                    Ok(v) => v,
                    Err(e) => {
                        return Err(e);
                    },
                },
                _ => {
                    return Err(DecodeError);
                },
            };
            Ok(Board { id, title, author_id, shared_with, color_set, cards })
        },
        _ => Err(DecodeError),
    }
}

/// Decode a payload as a `Subtask`: parse, then bind, all or nothing.
pub fn decode_subtask(payload: &str) -> (r: Result<Subtask, DecodeError>)
    ensures
        match json_of(payload@) {
            None => r is Err,
            Some(j) => match subtask_of(j) {
                Some(sv) => r is Ok && (r->Ok_0).deep_view() == sv,
                None => r is Err,
            },
        },
{
    match parse_json(payload) {
        None => Err(DecodeError),
        Some(j) => bind_subtask(&j),
    }
}

/// Decode a payload as a `Task`: parse, then bind, all or nothing.
pub fn decode_task(payload: &str) -> (r: Result<Task, DecodeError>)
    ensures
        match json_of(payload@) {
            None => r is Err,
            Some(j) => match task_of(j) {
                Some(tv) => r is Ok && (r->Ok_0).deep_view() == tv,
                None => r is Err,
            },
        },
{
    match parse_json(payload) {
        None => Err(DecodeError),
        Some(j) => bind_task(&j),
    }
}

/// Decode a payload as a `Board`: parse, then bind, all or nothing.
pub fn decode_board(payload: &str) -> (r: Result<Board, DecodeError>)
    ensures
        match json_of(payload@) {
            None => r is Err,
            Some(j) => match board_of(j) {
                Some(bv) => r is Ok && (r->Ok_0).deep_view() == bv,
                None => r is Err,
            },
        },
{
    match parse_json(payload) {
        None => Err(DecodeError),
        Some(j) => bind_board(&j),
    }
}

/// Decode a payload as an `AdminAuth`.
pub fn decode_admin_auth(payload: &str) -> (r: Result<AdminAuth, DecodeError>)
    ensures
        match json_of(payload@) {
            None => r is Err,
            Some(j) => match admin_auth_of(j) {
                Some(k) => r is Ok && (r->Ok_0).key@ == k,
                None => r is Err,
            },
        },
{
    match parse_json(payload) {
        None => Err(DecodeError),
        Some(j) => bind_admin_auth(&j),
    }
}

/// Decode a payload as a `UserAuth`.
pub fn decode_user_auth(payload: &str) -> (r: Result<UserAuth, DecodeError>)
    ensures
        match json_of(payload@) {
            None => r is Err,
            Some(j) => match user_auth_of(j) {
                Some(uv) => r is Ok && (r->Ok_0).deep_view() == uv,
                None => r is Err,
            },
        },
{
    match parse_json(payload) {
        None => Err(DecodeError),
        Some(j) => bind_user_auth(&j),
    }
}

/// Decoding is all-or-nothing: a task payload without a `title` entry is
/// rejected whole, whatever its other fields hold.
pub proof fn lemma_task_without_title_rejected(j: JsonValue)
    requires
        match j {
            JsonValue::Obj(fs) => lookup(fs@, "title"@) is None,
            _ => true,
        },
    ensures
        task_of(j) is None,
{
}

/// Decoding is idempotent: it is a function of the document alone, so two
/// decodes of one document agree.
pub proof fn lemma_decode_deterministic(j: JsonValue, t1: TaskV, t2: TaskV)
    requires
        task_of(j) == Some(t1),
        task_of(j) == Some(t2),
    ensures
        t1 == t2,
{
}

} // verus!
