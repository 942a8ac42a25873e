use vstd::prelude::*;

use crate::data::{Board, BoardV, Card, CardV, ColorSet, Subtask, SubtaskV, Task, TaskV};

verus! {

// ---------------------------------------------------------------------------
// First-match search over a sequence, shared by every level of the hierarchy.
// ---------------------------------------------------------------------------

/// The first element of `s` satisfying `p`, if any.
pub open spec fn first_in<T>(s: Seq<T>, p: spec_fn(T) -> bool) -> Option<T>
    decreases s.len(),
{
    if s.len() == 0 {
        None
    } else if p(s[0]) {
        Some(s[0])
    } else {
        first_in(s.drop_first(), p)
    }
}

pub proof fn lemma_first_in_none<T>(s: Seq<T>, p: spec_fn(T) -> bool)
    requires
        forall|k: int| 0 <= k < s.len() ==> !#[trigger] p(s[k]),
    ensures
        first_in(s, p) is None,
    decreases s.len(),
{
    if s.len() > 0 {
        assert forall|k: int| 0 <= k < s.drop_first().len() implies !#[trigger] p(
            s.drop_first()[k],
        ) by {
            assert(s.drop_first()[k] == s[k + 1]);
        }
        lemma_first_in_none(s.drop_first(), p);
    }
}

pub proof fn lemma_first_in_at<T>(s: Seq<T>, p: spec_fn(T) -> bool, i: int)
    requires
        0 <= i < s.len(),
        p(s[i]),
        forall|k: int| 0 <= k < i ==> !#[trigger] p(s[k]),
    ensures
        first_in(s, p) == Some(s[i]),
    decreases i,
{
    if i > 0 {
        assert(!p(s[0]));
        assert forall|k: int| 0 <= k < i - 1 implies !#[trigger] p(s.drop_first()[k]) by {
            assert(s.drop_first()[k] == s[k + 1]);
        }
        lemma_first_in_at(s.drop_first(), p, i - 1);
        assert(s.drop_first()[i - 1] == s[i]);
    }
}

pub proof fn lemma_first_in_index<T>(s: Seq<T>, p: spec_fn(T) -> bool)
    requires
        first_in(s, p) is Some,
    ensures
        exists|i: int|
            0 <= i < s.len() && #[trigger] p(s[i]) && first_in(s, p) == Some(s[i]),
    decreases s.len(),
{
    if p(s[0]) {
        assert(p(s[0]) && first_in(s, p) == Some(s[0]));
    } else {
        lemma_first_in_index(s.drop_first(), p);
        let j = choose|j: int|
            0 <= j < s.drop_first().len() && #[trigger] p(s.drop_first()[j]) && first_in(
                s.drop_first(),
                p,
            ) == Some(s.drop_first()[j]);
        assert(s.drop_first()[j] == s[j + 1]);
        assert(p(s[j + 1]) && first_in(s, p) == Some(s[j + 1]));
    }
}

pub proof fn lemma_first_in_push<T>(s: Seq<T>, p: spec_fn(T) -> bool, x: T)
    ensures
        first_in(s.push(x), p) == if first_in(s, p) is Some {
            first_in(s, p)
        } else if p(x) {
            Some(x)
        } else {
            None::<T>
        },
    decreases s.len(),
{
    let sp = s.push(x);
    if s.len() == 0 {
        assert(sp[0] == x);
        assert(first_in(s, p) is None);
        if p(x) {
            assert(first_in(sp, p) == Some(x));
        } else {
            assert(sp.drop_first() =~= s);
            assert(first_in(sp, p) == first_in(s, p));
        }
    } else {
        assert(sp[0] == s[0]);
        assert(sp.drop_first() =~= s.drop_first().push(x));
        lemma_first_in_push(s.drop_first(), p, x);
        if !p(s[0]) {
            assert(first_in(sp, p) == first_in(s.drop_first().push(x), p));
            assert(first_in(s, p) == first_in(s.drop_first(), p));
        }
    }
}

/// Replacing one element by another on which `p` agrees neither creates nor
/// destroys a match.
pub proof fn lemma_first_in_update_pred_eq<T>(s: Seq<T>, p: spec_fn(T) -> bool, j: int, y: T)
    requires
        0 <= j < s.len(),
        p(y) == p(s[j]),
    ensures
        first_in(s.update(j, y), p) is Some <==> first_in(s, p) is Some,
    decreases s.len(),
{
    let su = s.update(j, y);
    if j == 0 {
        if !p(s[0]) {
            assert(su.drop_first() =~= s.drop_first());
        }
    } else {
        assert(su[0] == s[0]);
        if !p(s[0]) {
            assert(su.drop_first() =~= s.drop_first().update(j - 1, y));
            lemma_first_in_update_pred_eq(s.drop_first(), p, j - 1, y);
        }
    }
}

// ---------------------------------------------------------------------------
// Finding entities by identifier, first match at every level.
// ---------------------------------------------------------------------------

pub open spec fn board_id_pred(id: u64) -> spec_fn(BoardV) -> bool {
    |b: BoardV| b.id == id
}

pub open spec fn card_id_pred(id: u64) -> spec_fn(CardV) -> bool {
    |c: CardV| c.id == id
}

pub open spec fn task_id_pred(id: u64) -> spec_fn(TaskV) -> bool {
    |t: TaskV| t.id == id
}

pub open spec fn subtask_id_pred(id: u64) -> spec_fn(SubtaskV) -> bool {
    |s: SubtaskV| s.id == id
}

pub open spec fn find_board(bs: Seq<BoardV>, id: u64) -> Option<BoardV> {
    first_in(bs, board_id_pred(id))
}

pub open spec fn find_card_in(cs: Seq<CardV>, id: u64) -> Option<CardV> {
    first_in(cs, card_id_pred(id))
}

pub open spec fn find_task_in(ts: Seq<TaskV>, id: u64) -> Option<TaskV> {
    first_in(ts, task_id_pred(id))
}

pub open spec fn find_subtask_in(ss: Seq<SubtaskV>, id: u64) -> Option<SubtaskV> {
    first_in(ss, subtask_id_pred(id))
}

pub open spec fn card_has_task_pred(id: u64) -> spec_fn(CardV) -> bool {
    |c: CardV| find_task_in(c.tasks, id) is Some
}

pub open spec fn find_task_in_cards(cs: Seq<CardV>, id: u64) -> Option<TaskV> {
    match first_in(cs, card_has_task_pred(id)) {
        None => None,
        Some(c) => find_task_in(c.tasks, id),
    }
}

pub open spec fn task_has_subtask_pred(id: u64) -> spec_fn(TaskV) -> bool {
    |t: TaskV| find_subtask_in(t.subtasks, id) is Some
}

pub open spec fn find_subtask_in_tasks(ts: Seq<TaskV>, id: u64) -> Option<SubtaskV> {
    match first_in(ts, task_has_subtask_pred(id)) {
        None => None,
        Some(t) => find_subtask_in(t.subtasks, id),
    }
}

pub open spec fn card_has_subtask_pred(id: u64) -> spec_fn(CardV) -> bool {
    |c: CardV| find_subtask_in_tasks(c.tasks, id) is Some
}

pub open spec fn find_subtask_in_cards(cs: Seq<CardV>, id: u64) -> Option<SubtaskV> {
    match first_in(cs, card_has_subtask_pred(id)) {
        None => None,
        Some(c) => find_subtask_in_tasks(c.tasks, id),
    }
}

pub open spec fn board_has_card_pred(id: u64) -> spec_fn(BoardV) -> bool {
    |b: BoardV| find_card_in(b.cards, id) is Some
}

pub open spec fn board_has_task_pred(id: u64) -> spec_fn(BoardV) -> bool {
    |b: BoardV| find_task_in_cards(b.cards, id) is Some
}

pub open spec fn board_has_subtask_pred(id: u64) -> spec_fn(BoardV) -> bool {
    |b: BoardV| find_subtask_in_cards(b.cards, id) is Some
}

/// The board owning the card `id`, resolved transitively.
pub open spec fn board_of_card(bs: Seq<BoardV>, id: u64) -> Option<BoardV> {
    first_in(bs, board_has_card_pred(id))
}

pub open spec fn board_of_task(bs: Seq<BoardV>, id: u64) -> Option<BoardV> {
    first_in(bs, board_has_task_pred(id))
}

pub open spec fn board_of_subtask(bs: Seq<BoardV>, id: u64) -> Option<BoardV> {
    first_in(bs, board_has_subtask_pred(id))
}

pub open spec fn find_card(bs: Seq<BoardV>, id: u64) -> Option<CardV> {
    match board_of_card(bs, id) {
        None => None,
        Some(b) => find_card_in(b.cards, id),
    }
}

pub open spec fn find_task(bs: Seq<BoardV>, id: u64) -> Option<TaskV> {
    match board_of_task(bs, id) {
        None => None,
        Some(b) => find_task_in_cards(b.cards, id),
    }
}

pub open spec fn find_subtask(bs: Seq<BoardV>, id: u64) -> Option<SubtaskV> {
    match board_of_subtask(bs, id) {
        None => None,
        Some(b) => find_subtask_in_cards(b.cards, id),
    }
}

// ---------------------------------------------------------------------------
// Store invariant: identifiers are assigned by one counter, so every
// identifier in the store is below the counter and no two board subtrees
// share one.
// ---------------------------------------------------------------------------

pub open spec fn task_ids_below(t: TaskV, n: u64) -> bool {
    &&& t.id < n
    &&& forall|k: int| 0 <= k < t.subtasks.len() ==> (#[trigger] t.subtasks[k]).id < n
}

pub open spec fn card_ids_below(c: CardV, n: u64) -> bool {
    &&& c.id < n
    &&& forall|k: int| 0 <= k < c.tasks.len() ==> task_ids_below(#[trigger] c.tasks[k], n)
}

pub open spec fn board_ids_below(b: BoardV, n: u64) -> bool {
    &&& b.id < n
    &&& forall|k: int| 0 <= k < b.cards.len() ==> card_ids_below(#[trigger] b.cards[k], n)
}

pub open spec fn store_ids_below(bs: Seq<BoardV>, n: u64) -> bool {
    forall|i: int| 0 <= i < bs.len() ==> board_ids_below(#[trigger] bs[i], n)
}

/// Whether `id` names the board itself or any card, task or subtask in it.
pub open spec fn board_subtree_has(b: BoardV, id: u64) -> bool {
    ||| b.id == id
    ||| find_card_in(b.cards, id) is Some
    ||| find_task_in_cards(b.cards, id) is Some
    ||| find_subtask_in_cards(b.cards, id) is Some
}

/// No identifier occurs in two distinct board subtrees.
pub open spec fn store_disjoint(bs: Seq<BoardV>) -> bool {
    forall|i1: int, i2: int, id: u64|
        0 <= i1 < bs.len() && 0 <= i2 < bs.len() && i1 != i2 && #[trigger] board_subtree_has(
            bs[i1],
            id,
        ) ==> !#[trigger] board_subtree_has(bs[i2], id)
}

pub proof fn lemma_ids_below_mono(b: BoardV, n: u64, m: u64)
    requires
        board_ids_below(b, n),
        n <= m,
    ensures
        board_ids_below(b, m),
{
    assert forall|k: int| 0 <= k < b.cards.len() implies card_ids_below(
        #[trigger] b.cards[k],
        m,
    ) by {
        let c = b.cards[k];
        assert(card_ids_below(c, n));
        assert forall|l: int| 0 <= l < c.tasks.len() implies task_ids_below(
            #[trigger] c.tasks[l],
            m,
        ) by {
            assert(task_ids_below(c.tasks[l], n));
        }
    }
}

/// A fresh identifier, at or above the counter, occurs nowhere in a task
/// whose identifiers are all below the counter.
pub proof fn lemma_fresh_not_in_task(t: TaskV, n: u64, id: u64)
    requires
        task_ids_below(t, n),
        n <= id,
    ensures
        t.id != id,
        find_subtask_in(t.subtasks, id) is None,
        !task_has_subtask_pred(id)(t),
{
    assert forall|m: int| 0 <= m < t.subtasks.len() implies !#[trigger] subtask_id_pred(id)(
        t.subtasks[m],
    ) by {
        assert(t.subtasks[m].id < n);
    }
    lemma_first_in_none(t.subtasks, subtask_id_pred(id));
}

/// A fresh identifier, at or above the counter, occurs nowhere in a card
/// whose identifiers are all below the counter.
pub proof fn lemma_fresh_not_in_card(c: CardV, n: u64, id: u64)
    requires
        card_ids_below(c, n),
        n <= id,
    ensures
        c.id != id,
        find_task_in(c.tasks, id) is None,
        find_subtask_in_tasks(c.tasks, id) is None,
        !card_has_task_pred(id)(c),
        !card_has_subtask_pred(id)(c),
{
    assert forall|l: int| 0 <= l < c.tasks.len() implies !#[trigger] task_id_pred(id)(
        c.tasks[l],
    ) by {
        assert(task_ids_below(c.tasks[l], n));
    }
    lemma_first_in_none(c.tasks, task_id_pred(id));
    assert forall|l: int| 0 <= l < c.tasks.len() implies !#[trigger] task_has_subtask_pred(id)(
        c.tasks[l],
    ) by {
        lemma_fresh_not_in_task(c.tasks[l], n, id);
    }
    lemma_first_in_none(c.tasks, task_has_subtask_pred(id));
}

/// A fresh identifier, at or above the counter, occurs nowhere in a board
/// whose identifiers are all below the counter.
pub proof fn lemma_fresh_not_in_board(b: BoardV, n: u64, id: u64)
    requires
        board_ids_below(b, n),
        n <= id,
    ensures
        !board_subtree_has(b, id),
        find_card_in(b.cards, id) is None,
        find_task_in_cards(b.cards, id) is None,
        find_subtask_in_cards(b.cards, id) is None,
{
    assert forall|k: int| 0 <= k < b.cards.len() implies !#[trigger] card_id_pred(id)(
        b.cards[k],
    ) by {
        assert(card_ids_below(b.cards[k], n));
    }
    lemma_first_in_none(b.cards, card_id_pred(id));
    assert forall|k: int| 0 <= k < b.cards.len() implies !#[trigger] card_has_task_pred(id)(
        b.cards[k],
    ) by {
        lemma_fresh_not_in_card(b.cards[k], n, id);
    }
    lemma_first_in_none(b.cards, card_has_task_pred(id));
    assert forall|k: int| 0 <= k < b.cards.len() implies !#[trigger] card_has_subtask_pred(id)(
        b.cards[k],
    ) by {
        lemma_fresh_not_in_card(b.cards[k], n, id);
    }
    lemma_first_in_none(b.cards, card_has_subtask_pred(id));
}

/// In a board without cards, the only identifier present is the board's own.
pub proof fn lemma_empty_board_subtree(b: BoardV, id: u64)
    requires
        b.cards.len() == 0,
    ensures
        board_subtree_has(b, id) <==> b.id == id,
{
    assert(first_in(b.cards, card_id_pred(id)) is None);
    assert(first_in(b.cards, card_has_task_pred(id)) is None);
    assert(first_in(b.cards, card_has_subtask_pred(id)) is None);
}

/// The identifiers of the boards shared with `user`, in store order.
pub open spec fn shared_board_ids(bs: Seq<BoardV>, user: u64) -> Seq<u64>
    decreases bs.len(),
{
    if bs.len() == 0 {
        Seq::empty()
    } else {
        let rest = shared_board_ids(bs.drop_first(), user);
        if bs[0].shared_with.contains(user) {
            seq![bs[0].id] + rest
        } else {
            rest
        }
    }
}

pub proof fn lemma_shared_board_ids_snoc(s: Seq<BoardV>, b: BoardV, user: u64)
    ensures
        shared_board_ids(s.push(b), user) =~= shared_board_ids(s, user) + (if b.shared_with.contains(
            user,
        ) {
            seq![b.id]
        } else {
            Seq::<u64>::empty()
        }),
    decreases s.len(),
{
    let sp = s.push(b);
    if s.len() == 0 {
        assert(sp[0] == b);
        assert(sp.drop_first() =~= Seq::<BoardV>::empty());
        assert(shared_board_ids(Seq::<BoardV>::empty(), user) =~= Seq::<u64>::empty());
        assert(shared_board_ids(s, user) =~= Seq::<u64>::empty());
    } else {
        assert(sp[0] == s[0]);
        assert(sp.drop_first() =~= s.drop_first().push(b));
        lemma_shared_board_ids_snoc(s.drop_first(), b, user);
    }
}

pub proof fn lemma_first_in_some<T>(s: Seq<T>, p: spec_fn(T) -> bool, i: int)
    requires
        0 <= i < s.len(),
        p(s[i]),
    ensures
        first_in(s, p) is Some,
    decreases i,
{
    if !p(s[0]) {
        assert(s.drop_first()[i - 1] == s[i]);
        lemma_first_in_some(s.drop_first(), p, i - 1);
    }
}

/// The composite finders return a value exactly when the first-match search
/// finds a container holding it.
pub proof fn lemma_find_task_in_cards_is_some(cs: Seq<CardV>, q: u64)
    ensures
        find_task_in_cards(cs, q) is Some <==> first_in(cs, card_has_task_pred(q)) is Some,
{
    if first_in(cs, card_has_task_pred(q)) is Some {
        lemma_first_in_index(cs, card_has_task_pred(q));
    }
}

pub proof fn lemma_find_subtask_in_tasks_is_some(ts: Seq<TaskV>, q: u64)
    ensures
        find_subtask_in_tasks(ts, q) is Some <==> first_in(ts, task_has_subtask_pred(q)) is Some,
{
    if first_in(ts, task_has_subtask_pred(q)) is Some {
        lemma_first_in_index(ts, task_has_subtask_pred(q));
    }
}

pub proof fn lemma_find_subtask_in_cards_is_some(cs: Seq<CardV>, q: u64)
    ensures
        find_subtask_in_cards(cs, q) is Some <==> first_in(cs, card_has_subtask_pred(q)) is Some,
{
    if first_in(cs, card_has_subtask_pred(q)) is Some {
        lemma_first_in_index(cs, card_has_subtask_pred(q));
    }
}

/// Appending a task without subtasks to the card at position `j` adds
/// exactly the task's own identifier to the board's subtree.
pub proof fn lemma_subtree_after_task_push(b: BoardV, j: int, tv: TaskV, q: u64)
    requires
        0 <= j < b.cards.len(),
        tv.subtasks.len() == 0,
    ensures
        ({
            let c = b.cards[j];
            let c2 = (CardV { tasks: c.tasks.push(tv), ..c });
            let b2 = (BoardV { cards: b.cards.update(j, c2), ..b });
            board_subtree_has(b2, q) <==> (board_subtree_has(b, q) || tv.id == q)
        }),
{
    let c = b.cards[j];
    let c2 = (CardV { tasks: c.tasks.push(tv), ..c });
    let b2 = (BoardV { cards: b.cards.update(j, c2), ..b });
    lemma_first_in_update_pred_eq(b.cards, card_id_pred(q), j, c2);
    lemma_first_in_push(c.tasks, task_id_pred(q), tv);
    assert(find_subtask_in(tv.subtasks, q) is None);
    assert(task_has_subtask_pred(q)(tv) == false);
    lemma_first_in_push(c.tasks, task_has_subtask_pred(q), tv);
    assert(card_has_subtask_pred(q)(c2) == card_has_subtask_pred(q)(c)) by {
        lemma_find_subtask_in_tasks_is_some(c2.tasks, q);
        lemma_find_subtask_in_tasks_is_some(c.tasks, q);
    }
    lemma_first_in_update_pred_eq(b.cards, card_has_subtask_pred(q), j, c2);
    lemma_find_subtask_in_cards_is_some(b2.cards, q);
    lemma_find_subtask_in_cards_is_some(b.cards, q);
    if tv.id == q {
        assert(card_has_task_pred(q)(c2));
        lemma_first_in_some(b2.cards, card_has_task_pred(q), j);
        lemma_first_in_index(b2.cards, card_has_task_pred(q));
        assert(board_subtree_has(b2, q));
    } else {
        assert(card_has_task_pred(q)(c2) == card_has_task_pred(q)(c));
        lemma_first_in_update_pred_eq(b.cards, card_has_task_pred(q), j, c2);
        lemma_find_task_in_cards_is_some(b2.cards, q);
        lemma_find_task_in_cards_is_some(b.cards, q);
    }
}

/// Replacing the task at position `(j, k)` by one with the same identifier
/// and the same subtasks leaves the board's subtree identifiers unchanged.
pub proof fn lemma_subtree_after_task_replace(b: BoardV, j: int, k: int, t2: TaskV, q: u64)
    requires
        0 <= j < b.cards.len(),
        0 <= k < b.cards[j].tasks.len(),
        t2.id == b.cards[j].tasks[k].id,
        t2.subtasks == b.cards[j].tasks[k].subtasks,
    ensures
        ({
            let c = b.cards[j];
            let c2 = (CardV { tasks: c.tasks.update(k, t2), ..c });
            let b2 = (BoardV { cards: b.cards.update(j, c2), ..b });
            board_subtree_has(b2, q) <==> board_subtree_has(b, q)
        }),
{
    let t = b.cards[j].tasks[k];
    let c = b.cards[j];
    let c2 = (CardV { tasks: c.tasks.update(k, t2), ..c });
    let b2 = (BoardV { cards: b.cards.update(j, c2), ..b });
    lemma_first_in_update_pred_eq(b.cards, card_id_pred(q), j, c2);
    lemma_first_in_update_pred_eq(c.tasks, task_id_pred(q), k, t2);
    assert(card_has_task_pred(q)(c2) == card_has_task_pred(q)(c));
    lemma_first_in_update_pred_eq(b.cards, card_has_task_pred(q), j, c2);
    lemma_find_task_in_cards_is_some(b2.cards, q);
    lemma_find_task_in_cards_is_some(b.cards, q);
    assert(task_has_subtask_pred(q)(t2) == task_has_subtask_pred(q)(t));
    lemma_first_in_update_pred_eq(c.tasks, task_has_subtask_pred(q), k, t2);
    lemma_find_subtask_in_tasks_is_some(c2.tasks, q);
    lemma_find_subtask_in_tasks_is_some(c.tasks, q);
    assert(card_has_subtask_pred(q)(c2) == card_has_subtask_pred(q)(c));
    lemma_first_in_update_pred_eq(b.cards, card_has_subtask_pred(q), j, c2);
    lemma_find_subtask_in_cards_is_some(b2.cards, q);
    lemma_find_subtask_in_cards_is_some(b.cards, q);
}

/// Appending a subtask to the task at position `(j, k)` adds exactly the
/// subtask's own identifier to the board's subtree.
pub proof fn lemma_subtree_after_subtask_push(b: BoardV, j: int, k: int, sv: SubtaskV, q: u64)
    requires
        0 <= j < b.cards.len(),
        0 <= k < b.cards[j].tasks.len(),
    ensures
        ({
            let t = b.cards[j].tasks[k];
            let t2 = (TaskV { subtasks: t.subtasks.push(sv), ..t });
            let c = b.cards[j];
            let c2 = (CardV { tasks: c.tasks.update(k, t2), ..c });
            let b2 = (BoardV { cards: b.cards.update(j, c2), ..b });
            board_subtree_has(b2, q) <==> (board_subtree_has(b, q) || sv.id == q)
        }),
{
    let t = b.cards[j].tasks[k];
    let t2 = (TaskV { subtasks: t.subtasks.push(sv), ..t });
    let c = b.cards[j];
    let c2 = (CardV { tasks: c.tasks.update(k, t2), ..c });
    let b2 = (BoardV { cards: b.cards.update(j, c2), ..b });
    lemma_first_in_update_pred_eq(b.cards, card_id_pred(q), j, c2);
    lemma_first_in_update_pred_eq(c.tasks, task_id_pred(q), k, t2);
    assert(card_has_task_pred(q)(c2) == card_has_task_pred(q)(c));
    lemma_first_in_update_pred_eq(b.cards, card_has_task_pred(q), j, c2);
    lemma_find_task_in_cards_is_some(b2.cards, q);
    lemma_find_task_in_cards_is_some(b.cards, q);
    lemma_first_in_push(t.subtasks, subtask_id_pred(q), sv);
    if sv.id == q {
        assert(task_has_subtask_pred(q)(t2));
        lemma_first_in_some(c2.tasks, task_has_subtask_pred(q), k);
        lemma_first_in_index(c2.tasks, task_has_subtask_pred(q));
        assert(card_has_subtask_pred(q)(c2));
        lemma_first_in_some(b2.cards, card_has_subtask_pred(q), j);
        lemma_first_in_index(b2.cards, card_has_subtask_pred(q));
        assert(board_subtree_has(b2, q));
    } else {
        assert(task_has_subtask_pred(q)(t2) == task_has_subtask_pred(q)(t));
        lemma_first_in_update_pred_eq(c.tasks, task_has_subtask_pred(q), k, t2);
        lemma_find_subtask_in_tasks_is_some(c2.tasks, q);
        lemma_find_subtask_in_tasks_is_some(c.tasks, q);
        assert(card_has_subtask_pred(q)(c2) == card_has_subtask_pred(q)(c));
        lemma_first_in_update_pred_eq(b.cards, card_has_subtask_pred(q), j, c2);
        lemma_find_subtask_in_cards_is_some(b2.cards, q);
        lemma_find_subtask_in_cards_is_some(b.cards, q);
    }
}

/// Replacing the subtask at position `(j, k, l)` by one with the same
/// identifier leaves the board's subtree identifiers unchanged.
pub proof fn lemma_subtree_after_subtask_replace(b: BoardV, j: int, k: int, l: int, s2: SubtaskV, q: u64)
    requires
        0 <= j < b.cards.len(),
        0 <= k < b.cards[j].tasks.len(),
        0 <= l < b.cards[j].tasks[k].subtasks.len(),
        s2.id == b.cards[j].tasks[k].subtasks[l].id,
    ensures
        ({
            let t = b.cards[j].tasks[k];
            let t2 = (TaskV { subtasks: t.subtasks.update(l, s2), ..t });
            let c = b.cards[j];
            let c2 = (CardV { tasks: c.tasks.update(k, t2), ..c });
            let b2 = (BoardV { cards: b.cards.update(j, c2), ..b });
            board_subtree_has(b2, q) <==> board_subtree_has(b, q)
        }),
{
    let t = b.cards[j].tasks[k];
    let t2 = (TaskV { subtasks: t.subtasks.update(l, s2), ..t });
    let c = b.cards[j];
    let c2 = (CardV { tasks: c.tasks.update(k, t2), ..c });
    let b2 = (BoardV { cards: b.cards.update(j, c2), ..b });
    lemma_first_in_update_pred_eq(b.cards, card_id_pred(q), j, c2);
    lemma_first_in_update_pred_eq(c.tasks, task_id_pred(q), k, t2);
    assert(card_has_task_pred(q)(c2) == card_has_task_pred(q)(c));
    lemma_first_in_update_pred_eq(b.cards, card_has_task_pred(q), j, c2);
    lemma_find_task_in_cards_is_some(b2.cards, q);
    lemma_find_task_in_cards_is_some(b.cards, q);
    lemma_first_in_update_pred_eq(t.subtasks, subtask_id_pred(q), l, s2);
    assert(task_has_subtask_pred(q)(t2) == task_has_subtask_pred(q)(t));
    lemma_first_in_update_pred_eq(c.tasks, task_has_subtask_pred(q), k, t2);
    lemma_find_subtask_in_tasks_is_some(c2.tasks, q);
    lemma_find_subtask_in_tasks_is_some(c.tasks, q);
    assert(card_has_subtask_pred(q)(c2) == card_has_subtask_pred(q)(c));
    lemma_first_in_update_pred_eq(b.cards, card_has_subtask_pred(q), j, c2);
    lemma_find_subtask_in_cards_is_some(b2.cards, q);
    lemma_find_subtask_in_cards_is_some(b.cards, q);
}

/// Appending a card without tasks to a board adds exactly the card's own
/// identifier to the board's subtree.
pub proof fn lemma_subtree_after_card_push(b: BoardV, c: CardV, q: u64)
    requires
        c.tasks.len() == 0,
    ensures
        board_subtree_has((BoardV { cards: b.cards.push(c), ..b }), q) <==> (board_subtree_has(
            b,
            q,
        ) || c.id == q),
        find_card_in(b.cards.push(c), q) == (if find_card_in(b.cards, q) is Some {
            find_card_in(b.cards, q)
        } else if c.id == q {
            Some(c)
        } else {
            None::<CardV>
        }),
        find_task_in_cards(b.cards.push(c), q) == find_task_in_cards(b.cards, q),
        find_subtask_in_cards(b.cards.push(c), q) == find_subtask_in_cards(b.cards, q),
{
    assert(find_task_in(c.tasks, q) is None);
    assert(first_in(c.tasks, task_has_subtask_pred(q)) is None);
    lemma_first_in_push(b.cards, card_id_pred(q), c);
    lemma_first_in_push(b.cards, card_has_task_pred(q), c);
    lemma_first_in_push(b.cards, card_has_subtask_pred(q), c);
}

// ---------------------------------------------------------------------------
// The persisted state: every board subtree, plus the identifier counter.
// ---------------------------------------------------------------------------

/// Failure of a store operation.
#[derive(Clone, Copy, Debug, PartialEq, Eq, Structural)]
pub enum StoreError {
    NotFound,
}

/// The store of persisted entities. Boards own their cards, cards their
/// tasks, tasks their subtasks: a child has no lifecycle of its own.
/// `next_id` is the counter from which every identifier is assigned.
pub struct BoardStore {
    pub boards: Vec<Board>,
    pub next_id: u64,
}

impl BoardStore {
    /// The mathematical content of the store.
    pub open spec fn view_boards(&self) -> Seq<BoardV> {
        self.boards.deep_view()
    }

    /// Invariant: no identifier occurs twice, and all are below the counter.
    pub open spec fn wf(&self) -> bool {
        &&& store_disjoint(self.view_boards())
        &&& store_ids_below(self.view_boards(), self.next_id)
    }

    /// An empty store.
    pub fn new() -> (s: Self)
        ensures
            s.wf(),
            s.view_boards() =~= Seq::<BoardV>::empty(),
            s.next_id == 1,
    {
        BoardStore { boards: Vec::new(), next_id: 1 }
    }

    /// Fetch a board by identifier.
    pub fn get_board(&self, id: u64) -> (r: Option<&Board>)
        ensures
            match r {
                Some(b) => find_board(self.view_boards(), id) == Some(b.deep_view()),
                None => find_board(self.view_boards(), id) is None,
            },
    {
        let mut i: usize = 0;
        while i < self.boards.len()
            invariant
                0 <= i <= self.boards.len(),
                forall|k: int|
                    0 <= k < i ==> !#[trigger] board_id_pred(id)(self.boards.deep_view()[k]),
            decreases self.boards.len() - i,
        {
            if self.boards[i].id == id {
                proof {
                    lemma_first_in_at(self.boards.deep_view(), board_id_pred(id), i as int);
                }
                return Some(&self.boards[i]);
            }
            i += 1;
        }
        proof {
            lemma_first_in_none(self.boards.deep_view(), board_id_pred(id));
        }
        None
    }

    /// Create a board owned by `author_id`, assigning it a fresh identifier.
    /// The new board starts with no cards and an empty share list.
    pub fn create_board(&mut self, author_id: u64, title: String, color_set: ColorSet) -> (id:
        u64)
        requires
            old(self).wf(),
            old(self).next_id < u64::MAX,
        ensures
            final(self).wf(),
            id == old(self).next_id,
            final(self).next_id == old(self).next_id + 1,
            final(self).view_boards() =~= old(self).view_boards().push(
                (BoardV {
                    id,
                    title: title@,
                    author_id,
                    shared_with: Seq::<u64>::empty(),
                    color_set: color_set.deep_view(),
                    cards: Seq::<CardV>::empty(),
                }),
            ),
            find_board(final(self).view_boards(), id) == Some(
                (BoardV {
                    id,
                    title: title@,
                    author_id,
                    shared_with: Seq::<u64>::empty(),
                    color_set: color_set.deep_view(),
                    cards: Seq::<CardV>::empty(),
                }),
            ),
    {
        let id = self.next_id;
        let ghost old_bs = self.view_boards();
        let board = Board {
            id,
            title,
            author_id,
            shared_with: Vec::new(),
            color_set,
            cards: Vec::new(),
        };
        let ghost bv = board.deep_view();
        self.boards.push(board);
        self.next_id = id + 1;
        proof {
            let bs2 = self.view_boards();
            assert(bs2 =~= old_bs.push(bv));
            assert(bv.shared_with =~= Seq::<u64>::empty());
            assert(bv.cards =~= Seq::<CardV>::empty());
            assert forall|k: int| 0 <= k < old_bs.len() implies !#[trigger] board_id_pred(id)(
                old_bs[k],
            ) by {
                assert(board_ids_below(old_bs[k], id));
            }
            lemma_first_in_none(old_bs, board_id_pred(id));
            lemma_first_in_push(old_bs, board_id_pred(id), bv);
            assert forall|i: int| 0 <= i < bs2.len() implies board_ids_below(
                #[trigger] bs2[i],
                self.next_id,
            ) by {
                if i < old_bs.len() {
                    lemma_ids_below_mono(old_bs[i], id, self.next_id);
                } else {
                    assert(bs2[i] == bv);
                }
            }
            assert forall|i1: int, i2: int, q: u64|
                0 <= i1 < bs2.len() && 0 <= i2 < bs2.len() && i1 != i2
                    && #[trigger] board_subtree_has(bs2[i1], q) implies !#[trigger] board_subtree_has(
                bs2[i2],
                q,
            ) by {
                lemma_empty_board_subtree(bv, q);
                if i1 < old_bs.len() && i2 < old_bs.len() {
                    assert(board_subtree_has(old_bs[i1], q));
                } else if i1 < old_bs.len() {
                    assert(bs2[i2] == bv);
                    if q == id {
                        lemma_fresh_not_in_board(old_bs[i1], id, q);
                    }
                } else {
                    assert(bs2[i1] == bv);
                    assert(q == id);
                    lemma_fresh_not_in_board(old_bs[i2], id, q);
                }
            }
        }
        id
    }

    /// Create a card on the board `board_id`, authored by `author_id`, with a
    /// fresh identifier and no tasks.
    pub fn create_card(&mut self, board_id: u64, author_id: u64, title: String, color_set:
        ColorSet) -> (r: Result<u64, StoreError>)
        requires
            old(self).wf(),
            old(self).next_id < u64::MAX,
        ensures
            final(self).wf(),
            match r {
                Ok(id) => {
                    &&& id == old(self).next_id
                    &&& final(self).next_id == old(self).next_id + 1
                    &&& find_board(old(self).view_boards(), board_id) is Some
                    &&& exists|i: int|
                        {
                            let b = old(self).view_boards()[i];
                            &&& 0 <= i < old(self).view_boards().len()
                            &&& (#[trigger] old(self).view_boards()[i]).id == board_id
                            &&& final(self).view_boards() =~= old(self).view_boards().update(
                                i,
                                (BoardV {
                                    cards: b.cards.push(
                                        (CardV {
                                            id,
                                            title: title@,
                                            author_id,
                                            color_set: color_set.deep_view(),
                                            tasks: Seq::<TaskV>::empty(),
                                        }),
                                    ),
                                    ..b
                                }),
                            )
                        }
                    &&& find_card(final(self).view_boards(), id) == Some(
                        (CardV {
                            id,
                            title: title@,
                            author_id,
                            color_set: color_set.deep_view(),
                            tasks: Seq::<TaskV>::empty(),
                        }),
                    )
                    &&& board_of_card(final(self).view_boards(), id) is Some
                    &&& (board_of_card(final(self).view_boards(), id)->Some_0).id == board_id
                },
                Err(StoreError::NotFound) => {
                    &&& find_board(old(self).view_boards(), board_id) is None
                    &&& *final(self) == *old(self)
                },
            },
    {
        let ghost old_bs = self.view_boards();
        let id = self.next_id;
        let ghost n = old(self).next_id;
        let mut i: usize = 0;
        while i < self.boards.len()
            invariant
                0 <= i <= self.boards.len(),
                self == old(self),
                self.wf(),
                id == self.next_id,
                n == id,
                id < u64::MAX,
                old_bs == self.boards.deep_view(),
                forall|k: int|
                    0 <= k < i ==> !#[trigger] board_id_pred(board_id)(self.boards.deep_view()[k]),
            decreases self.boards.len() - i,
        {
            if self.boards[i].id == board_id {
                proof {
                    lemma_first_in_at(old_bs, board_id_pred(board_id), i as int);
                }
                let ghost b = old_bs[i as int];
                let card = Card { id, title, author_id, color_set, tasks: Vec::new() };
                let ghost cv = card.deep_view();
                let mut board = self.boards.remove(i);
                board.cards.push(card);
                let ghost b2 = board.deep_view();
                self.boards.insert(i, board);
                self.next_id = id + 1;
                proof {
                    let bs2 = self.view_boards();
                    assert(cv.tasks =~= Seq::<TaskV>::empty());
                    assert(cv == (CardV {
                        id,
                        title: title@,
                        author_id,
                        color_set: color_set.deep_view(),
                        tasks: Seq::<TaskV>::empty(),
                    }));
                    assert(b2.cards =~= b.cards.push(cv));
                    assert(b2 == (BoardV { cards: b.cards.push(cv), ..b }));
                    assert(bs2 =~= old_bs.update(i as int, b2));
                    // The new card is found on its board, and nowhere else.
                    assert forall|k: int|
                        0 <= k < bs2.len() && k != i as int
                            implies !#[trigger] board_has_card_pred(id)(bs2[k]) by {
                        assert(bs2[k] == old_bs[k]);
                        assert(board_ids_below(old_bs[k], n));
                        lemma_fresh_not_in_board(old_bs[k], n, id);
                    }
                    assert(board_ids_below(b, n));
                    lemma_fresh_not_in_board(b, n, id);
                    lemma_subtree_after_card_push(b, cv, id);
                    assert(board_has_card_pred(id)(b2));
                    lemma_first_in_at(bs2, board_has_card_pred(id), i as int);
                    assert(find_card_in(b2.cards, id) == Some(cv));
                    // The counter still bounds every identifier.
                    assert forall|m: int| 0 <= m < bs2.len() implies board_ids_below(
                        #[trigger] bs2[m],
                        self.next_id,
                    ) by {
                        if m == i as int {
                            lemma_ids_below_mono(b, n, self.next_id);
                            assert(board_ids_below(b, self.next_id));
                            assert forall|k: int| 0 <= k < b2.cards.len() implies card_ids_below(
                                #[trigger] b2.cards[k],
                                self.next_id,
                            ) by {
                                if k < b.cards.len() {
                                    assert(b2.cards[k] == b.cards[k]);
                                } else {
                                    assert(b2.cards[k] == cv);
                                }
                            }
                        } else {
                            lemma_ids_below_mono(old_bs[m], n, self.next_id);
                        }
                    }
                    // Distinct subtrees still share no identifier.
                    assert forall|i1: int, i2: int, q: u64|
                        0 <= i1 < bs2.len() && 0 <= i2 < bs2.len() && i1 != i2
                            && #[trigger] board_subtree_has(bs2[i1], q)
                        implies !#[trigger] board_subtree_has(bs2[i2], q) by {
                        lemma_subtree_after_card_push(b, cv, q);
                        if i1 == i as int {
                            if q == id {
                                lemma_fresh_not_in_board(old_bs[i2], n, q);
                            } else {
                                assert(board_subtree_has(old_bs[i1], q));
                                assert(!board_subtree_has(old_bs[i2], q));
                            }
                        } else if i2 == i as int {
                            assert(bs2[i1] == old_bs[i1]);
                            assert(board_subtree_has(old_bs[i1], q));
                            if q == id {
                                lemma_fresh_not_in_board(old_bs[i1], n, q);
                            } else {
                                assert(!board_subtree_has(old_bs[i2], q));
                            }
                        } else {
                            assert(board_subtree_has(old_bs[i1], q));
                        }
                    }
                }
                return Ok(id);
            }
            i += 1;
        }
        proof {
            lemma_first_in_none(old_bs, board_id_pred(board_id));
        }
        Err(StoreError::NotFound)
    }

    /// Create a task on the card `card_id`. The identifier is assigned fresh
    /// and the author is the creating user: neither is taken from the
    /// payload; the new task starts with no subtasks.
    pub fn create_task(&mut self, card_id: u64, author_id: u64, payload: Task) -> (r: Result<
        u64,
        StoreError,
    >)
        requires
            old(self).wf(),
            old(self).next_id < u64::MAX,
        ensures
            final(self).wf(),
            match r {
                Ok(id) => {
                    &&& id == old(self).next_id
                    &&& final(self).next_id == old(self).next_id + 1
                    &&& find_card(old(self).view_boards(), card_id) is Some
                    &&& find_task(final(self).view_boards(), id) == Some(
                        (TaskV {
                            id,
                            author_id,
                            subtasks: Seq::<SubtaskV>::empty(),
                            ..payload.deep_view()
                        }),
                    )
                    &&& board_of_task(final(self).view_boards(), id) is Some
                    &&& board_of_card(old(self).view_boards(), card_id) is Some
                    &&& (board_of_task(final(self).view_boards(), id)->Some_0).id
                        == (board_of_card(old(self).view_boards(), card_id)->Some_0).id
                    &&& exists|i: int, j: int|
                        #![trigger old(self).view_boards()[i].cards[j]]
                        {
                            let bs = old(self).view_boards();
                            let b = bs[i];
                            let c = b.cards[j];
                            &&& 0 <= i < bs.len()
                            &&& 0 <= j < b.cards.len()
                            &&& c.id == card_id
                            &&& final(self).view_boards() =~= bs.update(
                                i,
                                (BoardV {
                                    cards: b.cards.update(
                                        j,
                                        (CardV {
                                            tasks: c.tasks.push(
                                                (TaskV {
                                                    id,
                                                    author_id,
                                                    subtasks: Seq::<SubtaskV>::empty(),
                                                    ..payload.deep_view()
                                                }),
                                            ),
                                            ..c
                                        }),
                                    ),
                                    ..b
                                }),
                            )
                        }
                },
                Err(StoreError::NotFound) => {
                    &&& find_card(old(self).view_boards(), card_id) is None
                    &&& *final(self) == *old(self)
                },
            },
    {
        let ghost old_bs = self.view_boards();
        let ghost n = old(self).next_id;
        match locate_card(&self.boards, card_id) {
            None => {
                proof {
                    assert(find_card(old_bs, card_id) is None);
                }
                Err(StoreError::NotFound)
            },
            Some((i, j)) => {
                let id = self.next_id;
                let ghost b = old_bs[i as int];
                let ghost c = b.cards[j as int];
                let task = Task { id, author_id, subtasks: Vec::new(), ..payload };
                let ghost tv = task.deep_view();
                let mut board = self.boards.remove(i);
                let mut card = board.cards.remove(j);
                card.tasks.push(task);
                let ghost c2 = card.deep_view();
                board.cards.insert(j, card);
                let ghost b2 = board.deep_view();
                self.boards.insert(i, board);
                self.next_id = id + 1;
                proof {
                    let bs2 = self.view_boards();
                    assert(tv.subtasks =~= Seq::<SubtaskV>::empty());
                    assert(tv == (TaskV {
                        id,
                        author_id,
                        subtasks: Seq::<SubtaskV>::empty(),
                        ..payload.deep_view()
                    }));
                    assert(c2.tasks =~= c.tasks.push(tv));
                    assert(c2 == (CardV { tasks: c.tasks.push(tv), ..c }));
                    assert(b2.cards =~= b.cards.update(j as int, c2));
                    assert(b2 == (BoardV { cards: b.cards.update(j as int, c2), ..b }));
                    assert(bs2 =~= old_bs.update(i as int, b2));
                    assert(board_ids_below(b, n));
                    assert(card_ids_below(c, n));
                    // The new task is found on its card, and nowhere else.
                    lemma_first_in_push(c.tasks, task_id_pred(id), tv);
                    lemma_fresh_not_in_card(c, n, id);
                    assert(find_task_in(c2.tasks, id) == Some(tv));
                    assert(card_has_task_pred(id)(c2));
                    assert forall|m: int| 0 <= m < j implies !#[trigger] card_has_task_pred(id)(
                        b2.cards[m],
                    ) by {
                        assert(b2.cards[m] == b.cards[m]);
                        assert(card_ids_below(b.cards[m], n));
                        lemma_fresh_not_in_card(b.cards[m], n, id);
                    }
                    lemma_first_in_at(b2.cards, card_has_task_pred(id), j as int);
                    assert(find_task_in_cards(b2.cards, id) == Some(tv));
                    assert(board_has_task_pred(id)(b2));
                    assert forall|m: int| 0 <= m < i implies !#[trigger] board_has_task_pred(id)(
                        bs2[m],
                    ) by {
                        assert(bs2[m] == old_bs[m]);
                        assert(board_ids_below(old_bs[m], n));
                        lemma_fresh_not_in_board(old_bs[m], n, id);
                    }
                    lemma_first_in_at(bs2, board_has_task_pred(id), i as int);
                    assert(find_task(bs2, id) == Some(tv));
                    // The counter still bounds every identifier.
                    assert forall|m: int| 0 <= m < bs2.len() implies board_ids_below(
                        #[trigger] bs2[m],
                        self.next_id,
                    ) by {
                        if m == i as int {
                            lemma_ids_below_mono(b, n, self.next_id);
                            assert forall|x: int| 0 <= x < b2.cards.len() implies card_ids_below(
                                #[trigger] b2.cards[x],
                                self.next_id,
                            ) by {
                                if x != j as int {
                                    assert(b2.cards[x] == b.cards[x]);
                                } else {
                                    assert(card_ids_below(c, self.next_id));
                                    assert forall|y: int|
                                        0 <= y < c2.tasks.len() implies task_ids_below(
                                        #[trigger] c2.tasks[y],
                                        self.next_id,
                                    ) by {
                                        if y < c.tasks.len() {
                                            assert(c2.tasks[y] == c.tasks[y]);
                                            assert(task_ids_below(c.tasks[y], self.next_id));
                                        } else {
                                            assert(c2.tasks[y] == tv);
                                        }
                                    }
                                }
                            }
                        } else {
                            lemma_ids_below_mono(old_bs[m], n, self.next_id);
                        }
                    }
                    // Distinct subtrees still share no identifier.
                    assert forall|i1: int, i2: int, q: u64|
                        0 <= i1 < bs2.len() && 0 <= i2 < bs2.len() && i1 != i2
                            && #[trigger] board_subtree_has(bs2[i1], q)
                        implies !#[trigger] board_subtree_has(bs2[i2], q) by {
                        lemma_subtree_after_task_push(b, j as int, tv, q);
                        if i1 == i as int {
                            if q == id {
                                lemma_fresh_not_in_board(old_bs[i2], n, q);
                            } else {
                                assert(board_subtree_has(old_bs[i1], q));
                                assert(!board_subtree_has(old_bs[i2], q));
                            }
                        } else if i2 == i as int {
                            assert(bs2[i1] == old_bs[i1]);
                            assert(board_subtree_has(old_bs[i1], q));
                            if q == id {
                                lemma_fresh_not_in_board(old_bs[i1], n, q);
                            } else {
                                assert(!board_subtree_has(old_bs[i2], q));
                            }
                        } else {
                            assert(board_subtree_has(old_bs[i1], q));
                        }
                    }
                }
                Ok(id)
            },
        }
    }

    /// Set the completion flag of the task `task_id`, touching nothing else:
    /// in particular the task's subtasks keep their own flags, so partial
    /// completion stays representable.
    pub fn set_task_executed(&mut self, task_id: u64, value: bool) -> (r: Result<
        (),
        StoreError,
    >)
        requires
            old(self).wf(),
        ensures
            final(self).wf(),
            final(self).next_id == old(self).next_id,
            match r {
                Ok(()) => {
                    &&& find_task(old(self).view_boards(), task_id) is Some
                    &&& find_task(final(self).view_boards(), task_id) == Some(
                        (TaskV {
                            executed: value,
                            ..find_task(old(self).view_boards(), task_id)->Some_0
                        }),
                    )
                    &&& exists|i: int, j: int, k: int|
                        #![trigger old(self).view_boards()[i].cards[j].tasks[k]]
                        {
                            let bs = old(self).view_boards();
                            let b = bs[i];
                            let c = b.cards[j];
                            let t = c.tasks[k];
                            &&& 0 <= i < bs.len()
                            &&& 0 <= j < b.cards.len()
                            &&& 0 <= k < c.tasks.len()
                            &&& t.id == task_id
                            &&& final(self).view_boards() =~= bs.update(
                                i,
                                (BoardV {
                                    cards: b.cards.update(
                                        j,
                                        (CardV {
                                            tasks: c.tasks.update(
                                                k,
                                                (TaskV { executed: value, ..t }),
                                            ),
                                            ..c
                                        }),
                                    ),
                                    ..b
                                }),
                            )
                        }
                },
                Err(StoreError::NotFound) => {
                    &&& find_task(old(self).view_boards(), task_id) is None
                    &&& *final(self) == *old(self)
                },
            },
    {
        let ghost old_bs = self.view_boards();
        match locate_task(&self.boards, task_id) {
            None => {
                proof {
                    assert(find_task(old_bs, task_id) is None);
                }
                Err(StoreError::NotFound)
            },
            Some((i, j, k)) => {
                let ghost b = old_bs[i as int];
                let ghost c = b.cards[j as int];
                let ghost t = c.tasks[k as int];
                let mut board = self.boards.remove(i);
                let mut card = board.cards.remove(j);
                let mut task = card.tasks.remove(k);
                task.executed = value;
                let ghost t2 = task.deep_view();
                card.tasks.insert(k, task);
                let ghost c2 = card.deep_view();
                board.cards.insert(j, card);
                let ghost b2 = board.deep_view();
                self.boards.insert(i, board);
                proof {
                    let bs2 = self.view_boards();
                    assert(t2 == (TaskV { executed: value, ..t }));
                    assert(c2.tasks =~= c.tasks.update(k as int, t2));
                    assert(c2 == (CardV { tasks: c.tasks.update(k as int, t2), ..c }));
                    assert(b2.cards =~= b.cards.update(j as int, c2));
                    assert(b2 == (BoardV { cards: b.cards.update(j as int, c2), ..b }));
                    assert(bs2 =~= old_bs.update(i as int, b2));
                    // The changed task is found where it was, with the new flag.
                    assert forall|m: int| 0 <= m < k implies !#[trigger] task_id_pred(task_id)(
                        c2.tasks[m],
                    ) by {
                        assert(c2.tasks[m] == c.tasks[m]);
                    }
                    lemma_first_in_at(c2.tasks, task_id_pred(task_id), k as int);
                    assert(find_task_in(c2.tasks, task_id) == Some(t2));
                    assert(card_has_task_pred(task_id)(c2));
                    assert forall|m: int| 0 <= m < j implies !#[trigger] card_has_task_pred(
                        task_id,
                    )(b2.cards[m]) by {
                        assert(b2.cards[m] == b.cards[m]);
                    }
                    lemma_first_in_at(b2.cards, card_has_task_pred(task_id), j as int);
                    assert(find_task_in_cards(b2.cards, task_id) == Some(t2));
                    assert(board_has_task_pred(task_id)(b2));
                    assert forall|m: int| 0 <= m < i implies !#[trigger] board_has_task_pred(
                        task_id,
                    )(bs2[m]) by {
                        assert(bs2[m] == old_bs[m]);
                    }
                    lemma_first_in_at(bs2, board_has_task_pred(task_id), i as int);
                    assert(find_task(bs2, task_id) == Some(t2));
                    // The counter still bounds every identifier.
                    assert forall|m: int| 0 <= m < bs2.len() implies board_ids_below(
                        #[trigger] bs2[m],
                        self.next_id,
                    ) by {
                        assert(board_ids_below(old_bs[m], self.next_id));
                        if m == i as int {
                            assert forall|x: int| 0 <= x < b2.cards.len() implies card_ids_below(
                                #[trigger] b2.cards[x],
                                self.next_id,
                            ) by {
                                assert(card_ids_below(b.cards[x], self.next_id));
                                if x == j as int {
                                    assert forall|y: int|
                                        0 <= y < c2.tasks.len() implies task_ids_below(
                                        #[trigger] c2.tasks[y],
                                        self.next_id,
                                    ) by {
                                        assert(task_ids_below(c.tasks[y], self.next_id));
                                    }
                                }
                            }
                        }
                    }
                    // Distinct subtrees still share no identifier.
                    assert forall|i1: int, i2: int, q: u64|
                        0 <= i1 < bs2.len() && 0 <= i2 < bs2.len() && i1 != i2
                            && #[trigger] board_subtree_has(bs2[i1], q)
                        implies !#[trigger] board_subtree_has(bs2[i2], q) by {
                        lemma_subtree_after_task_replace(b, j as int, k as int, t2, q);
                        assert(board_subtree_has(old_bs[i1], q));
                        assert(!board_subtree_has(old_bs[i2], q));
                    }
                }
                Ok(())
            },
        }
    }

    /// Set the completion flag of the subtask `subtask_id`, touching nothing
    /// else: the owning task keeps its own flag, so partial completion stays
    /// representable.
    pub fn set_subtask_executed(&mut self, subtask_id: u64, value: bool) -> (r: Result<
        (),
        StoreError,
    >)
        requires
            old(self).wf(),
        ensures
            final(self).wf(),
            final(self).next_id == old(self).next_id,
            match r {
                Ok(()) => {
                    &&& find_subtask(old(self).view_boards(), subtask_id) is Some
                    &&& find_subtask(final(self).view_boards(), subtask_id) == Some(
                        (SubtaskV {
                            executed: value,
                            ..find_subtask(old(self).view_boards(), subtask_id)->Some_0
                        }),
                    )
                    &&& exists|i: int, j: int, k: int, l: int|
                        #![trigger old(self).view_boards()[i].cards[j].tasks[k].subtasks[l]]
                        {
                            let bs = old(self).view_boards();
                            let b = bs[i];
                            let c = b.cards[j];
                            let t = c.tasks[k];
                            let s = t.subtasks[l];
                            &&& 0 <= i < bs.len()
                            &&& 0 <= j < b.cards.len()
                            &&& 0 <= k < c.tasks.len()
                            &&& 0 <= l < t.subtasks.len()
                            &&& s.id == subtask_id
                            &&& final(self).view_boards() =~= bs.update(
                                i,
                                (BoardV {
                                    cards: b.cards.update(
                                        j,
                                        (CardV {
                                            tasks: c.tasks.update(
                                                k,
                                                (TaskV {
                                                    subtasks: t.subtasks.update(
                                                        l,
                                                        (SubtaskV { executed: value, ..s }),
                                                    ),
                                                    ..t
                                                }),
                                            ),
                                            ..c
                                        }),
                                    ),
                                    ..b
                                }),
                            )
                        }
                },
                Err(StoreError::NotFound) => {
                    &&& find_subtask(old(self).view_boards(), subtask_id) is None
                    &&& *final(self) == *old(self)
                },
            },
    {
        let ghost old_bs = self.view_boards();
        match locate_subtask(&self.boards, subtask_id) {
            None => {
                proof {
                    assert(find_subtask(old_bs, subtask_id) is None);
                }
                Err(StoreError::NotFound)
            },
            Some((i, j, k, l)) => {
                let ghost b = old_bs[i as int];
                let ghost c = b.cards[j as int];
                let ghost t = c.tasks[k as int];
                let ghost s = t.subtasks[l as int];
                let mut board = self.boards.remove(i);
                let mut card = board.cards.remove(j);
                let mut task = card.tasks.remove(k);
                let mut sub = task.subtasks.remove(l);
                sub.executed = value;
                let ghost s2 = sub.deep_view();
                task.subtasks.insert(l, sub);
                let ghost t2 = task.deep_view();
                card.tasks.insert(k, task);
                let ghost c2 = card.deep_view();
                board.cards.insert(j, card);
                let ghost b2 = board.deep_view();
                self.boards.insert(i, board);
                proof {
                    let bs2 = self.view_boards();
                    assert(s2 == (SubtaskV { executed: value, ..s }));
                    assert(t2.subtasks =~= t.subtasks.update(l as int, s2));
                    assert(t2 == (TaskV { subtasks: t.subtasks.update(l as int, s2), ..t }));
                    assert(c2.tasks =~= c.tasks.update(k as int, t2));
                    assert(c2 == (CardV { tasks: c.tasks.update(k as int, t2), ..c }));
                    assert(b2.cards =~= b.cards.update(j as int, c2));
                    assert(b2 == (BoardV { cards: b.cards.update(j as int, c2), ..b }));
                    assert(bs2 =~= old_bs.update(i as int, b2));
                    // The changed subtask is found where it was, with the new flag.
                    assert forall|m: int| 0 <= m < l implies !#[trigger] subtask_id_pred(
                        subtask_id,
                    )(t2.subtasks[m]) by {
                        assert(t2.subtasks[m] == t.subtasks[m]);
                    }
                    lemma_first_in_at(t2.subtasks, subtask_id_pred(subtask_id), l as int);
                    assert(find_subtask_in(t2.subtasks, subtask_id) == Some(s2));
                    assert(task_has_subtask_pred(subtask_id)(t2));
                    assert forall|m: int| 0 <= m < k implies !#[trigger] task_has_subtask_pred(
                        subtask_id,
                    )(c2.tasks[m]) by {
                        assert(c2.tasks[m] == c.tasks[m]);
                    }
                    lemma_first_in_at(c2.tasks, task_has_subtask_pred(subtask_id), k as int);
                    assert(find_subtask_in_tasks(c2.tasks, subtask_id) == Some(s2));
                    assert(card_has_subtask_pred(subtask_id)(c2));
                    assert forall|m: int| 0 <= m < j implies !#[trigger] card_has_subtask_pred(
                        subtask_id,
                    )(b2.cards[m]) by {
                        assert(b2.cards[m] == b.cards[m]);
                    }
                    lemma_first_in_at(b2.cards, card_has_subtask_pred(subtask_id), j as int);
                    assert(find_subtask_in_cards(b2.cards, subtask_id) == Some(s2));
                    assert(board_has_subtask_pred(subtask_id)(b2));
                    assert forall|m: int| 0 <= m < i implies !#[trigger] board_has_subtask_pred(
                        subtask_id,
                    )(bs2[m]) by {
                        assert(bs2[m] == old_bs[m]);
                    }
                    lemma_first_in_at(bs2, board_has_subtask_pred(subtask_id), i as int);
                    assert(find_subtask(bs2, subtask_id) == Some(s2));
                    // The counter still bounds every identifier.
                    assert forall|m: int| 0 <= m < bs2.len() implies board_ids_below(
                        #[trigger] bs2[m],
                        self.next_id,
                    ) by {
                        assert(board_ids_below(old_bs[m], self.next_id));
                        if m == i as int {
                            assert forall|x: int| 0 <= x < b2.cards.len() implies card_ids_below(
                                #[trigger] b2.cards[x],
                                self.next_id,
                            ) by {
                                assert(card_ids_below(b.cards[x], self.next_id));
                                if x == j as int {
                                    assert forall|y: int|
                                        0 <= y < c2.tasks.len() implies task_ids_below(
                                        #[trigger] c2.tasks[y],
                                        self.next_id,
                                    ) by {
                                        assert(task_ids_below(c.tasks[y], self.next_id));
                                        if y == k as int {
                                            assert forall|z: int|
                                                0 <= z < t2.subtasks.len() implies (
                                            #[trigger] t2.subtasks[z]).id < self.next_id by {
                                                assert(t.subtasks[z].id < self.next_id);
                                            }
                                        }
                                    }
                                }
                            }
                        }
                    }
                    // Distinct subtrees still share no identifier.
                    assert forall|i1: int, i2: int, q: u64|
                        0 <= i1 < bs2.len() && 0 <= i2 < bs2.len() && i1 != i2
                            && #[trigger] board_subtree_has(bs2[i1], q)
                        implies !#[trigger] board_subtree_has(bs2[i2], q) by {
                        lemma_subtree_after_subtask_replace(
                            b,
                            j as int,
                            k as int,
                            l as int,
                            s2,
                            q,
                        );
                        assert(board_subtree_has(old_bs[i1], q));
                        assert(!board_subtree_has(old_bs[i2], q));
                    }
                }
                Ok(())
            },
        }
    }

    /// Create a subtask under the task `task_id`. The identifier is assigned
    /// fresh and the author is the creating user: neither is taken from the
    /// payload.
    pub fn create_subtask(&mut self, task_id: u64, author_id: u64, payload: Subtask) -> (r:
        Result<u64, StoreError>)
        requires
            old(self).wf(),
            old(self).next_id < u64::MAX,
        ensures
            final(self).wf(),
            match r {
                Ok(id) => {
                    &&& id == old(self).next_id
                    &&& final(self).next_id == old(self).next_id + 1
                    &&& find_task(old(self).view_boards(), task_id) is Some
                    &&& find_subtask(final(self).view_boards(), id) == Some(
                        (SubtaskV { id, author_id, ..payload.deep_view() }),
                    )
                    &&& board_of_subtask(final(self).view_boards(), id) is Some
                    &&& board_of_task(old(self).view_boards(), task_id) is Some
                    &&& (board_of_subtask(final(self).view_boards(), id)->Some_0).id
                        == (board_of_task(old(self).view_boards(), task_id)->Some_0).id
                    &&& exists|i: int, j: int, k: int|
                        #![trigger old(self).view_boards()[i].cards[j].tasks[k]]
                        {
                            let bs = old(self).view_boards();
                            let b = bs[i];
                            let c = b.cards[j];
                            let t = c.tasks[k];
                            &&& 0 <= i < bs.len()
                            &&& 0 <= j < b.cards.len()
                            &&& 0 <= k < c.tasks.len()
                            &&& t.id == task_id
                            &&& final(self).view_boards() =~= bs.update(
                                i,
                                (BoardV {
                                    cards: b.cards.update(
                                        j,
                                        (CardV {
                                            tasks: c.tasks.update(
                                                k,
                                                (TaskV {
                                                    subtasks: t.subtasks.push(
                                                        (SubtaskV {
                                                            id,
                                                            author_id,
                                                            ..payload.deep_view()
                                                        }),
                                                    ),
                                                    ..t
                                                }),
                                            ),
                                            ..c
                                        }),
                                    ),
                                    ..b
                                }),
                            )
                        }
                },
                Err(StoreError::NotFound) => {
                    &&& find_task(old(self).view_boards(), task_id) is None
                    &&& *final(self) == *old(self)
                },
            },
    {
        let ghost old_bs = self.view_boards();
        let ghost n = old(self).next_id;
        match locate_task(&self.boards, task_id) {
            None => {
                proof {
                    assert(find_task(old_bs, task_id) is None);
                }
                Err(StoreError::NotFound)
            },
            Some((i, j, k)) => {
                let id = self.next_id;
                let ghost b = old_bs[i as int];
                let ghost c = b.cards[j as int];
                let ghost t = c.tasks[k as int];
                let sub = Subtask { id, author_id, ..payload };
                let ghost sv = sub.deep_view();
                let mut board = self.boards.remove(i);
                let mut card = board.cards.remove(j);
                let mut task = card.tasks.remove(k);
                task.subtasks.push(sub);
                let ghost t2 = task.deep_view();
                card.tasks.insert(k, task);
                let ghost c2 = card.deep_view();
                board.cards.insert(j, card);
                let ghost b2 = board.deep_view();
                self.boards.insert(i, board);
                self.next_id = id + 1;
                proof {
                    let bs2 = self.view_boards();
                    assert(sv == (SubtaskV { id, author_id, ..payload.deep_view() }));
                    assert(t2.subtasks =~= t.subtasks.push(sv));
                    assert(t2 == (TaskV { subtasks: t.subtasks.push(sv), ..t }));
                    assert(c2.tasks =~= c.tasks.update(k as int, t2));
                    assert(c2 == (CardV { tasks: c.tasks.update(k as int, t2), ..c }));
                    assert(b2.cards =~= b.cards.update(j as int, c2));
                    assert(b2 == (BoardV { cards: b.cards.update(j as int, c2), ..b }));
                    assert(bs2 =~= old_bs.update(i as int, b2));
                    assert(board_ids_below(b, n));
                    assert(card_ids_below(c, n));
                    assert(task_ids_below(t, n));
                    // The new subtask is found under its task, and nowhere else.
                    lemma_first_in_push(t.subtasks, subtask_id_pred(id), sv);
                    lemma_fresh_not_in_task(t, n, id);
                    assert(find_subtask_in(t2.subtasks, id) == Some(sv));
                    assert(task_has_subtask_pred(id)(t2));
                    assert forall|m: int| 0 <= m < k implies !#[trigger] task_has_subtask_pred(
                        id,
                    )(c2.tasks[m]) by {
                        assert(c2.tasks[m] == c.tasks[m]);
                        assert(task_ids_below(c.tasks[m], n));
                        lemma_fresh_not_in_task(c.tasks[m], n, id);
                    }
                    lemma_first_in_at(c2.tasks, task_has_subtask_pred(id), k as int);
                    assert(find_subtask_in_tasks(c2.tasks, id) == Some(sv));
                    assert(card_has_subtask_pred(id)(c2));
                    assert forall|m: int| 0 <= m < j implies !#[trigger] card_has_subtask_pred(
                        id,
                    )(b2.cards[m]) by {
                        assert(b2.cards[m] == b.cards[m]);
                        assert(card_ids_below(b.cards[m], n));
                        lemma_fresh_not_in_card(b.cards[m], n, id);
                    }
                    lemma_first_in_at(b2.cards, card_has_subtask_pred(id), j as int);
                    assert(find_subtask_in_cards(b2.cards, id) == Some(sv));
                    assert(board_has_subtask_pred(id)(b2));
                    assert forall|m: int| 0 <= m < i implies !#[trigger] board_has_subtask_pred(
                        id,
                    )(bs2[m]) by {
                        assert(bs2[m] == old_bs[m]);
                        assert(board_ids_below(old_bs[m], n));
                        lemma_fresh_not_in_board(old_bs[m], n, id);
                    }
                    lemma_first_in_at(bs2, board_has_subtask_pred(id), i as int);
                    assert(find_subtask(bs2, id) == Some(sv));
                    // The counter still bounds every identifier.
                    assert forall|m: int| 0 <= m < bs2.len() implies board_ids_below(
                        #[trigger] bs2[m],
                        self.next_id,
                    ) by {
                        if m == i as int {
                            lemma_ids_below_mono(b, n, self.next_id);
                            assert forall|x: int| 0 <= x < b2.cards.len() implies card_ids_below(
                                #[trigger] b2.cards[x],
                                self.next_id,
                            ) by {
                                if x != j as int {
                                    assert(b2.cards[x] == b.cards[x]);
                                } else {
                                    assert(card_ids_below(c, self.next_id));
                                    assert forall|y: int|
                                        0 <= y < c2.tasks.len() implies task_ids_below(
                                        #[trigger] c2.tasks[y],
                                        self.next_id,
                                    ) by {
                                        if y != k as int {
                                            assert(c2.tasks[y] == c.tasks[y]);
                                            assert(task_ids_below(c.tasks[y], self.next_id));
                                        } else {
                                            assert(task_ids_below(t, self.next_id));
                                            assert forall|z: int|
                                                0 <= z < t2.subtasks.len() implies (
                                            #[trigger] t2.subtasks[z]).id < self.next_id by {
                                                if z < t.subtasks.len() {
                                                    assert(t2.subtasks[z] == t.subtasks[z]);
                                                } else {
                                                    assert(t2.subtasks[z] == sv);
                                                }
                                            }
                                        }
                                    }
                                }
                            }
                        } else {
                            lemma_ids_below_mono(old_bs[m], n, self.next_id);
                        }
                    }
                    // Distinct subtrees still share no identifier.
                    assert forall|i1: int, i2: int, q: u64|
                        0 <= i1 < bs2.len() && 0 <= i2 < bs2.len() && i1 != i2
                            && #[trigger] board_subtree_has(bs2[i1], q)
                        implies !#[trigger] board_subtree_has(bs2[i2], q) by {
                        lemma_subtree_after_subtask_push(b, j as int, k as int, sv, q);
                        if i1 == i as int {
                            if q == id {
                                lemma_fresh_not_in_board(old_bs[i2], n, q);
                            } else {
                                assert(board_subtree_has(old_bs[i1], q));
                                assert(!board_subtree_has(old_bs[i2], q));
                            }
                        } else if i2 == i as int {
                            assert(bs2[i1] == old_bs[i1]);
                            assert(board_subtree_has(old_bs[i1], q));
                            if q == id {
                                lemma_fresh_not_in_board(old_bs[i1], n, q);
                            } else {
                                assert(!board_subtree_has(old_bs[i2], q));
                            }
                        } else {
                            assert(board_subtree_has(old_bs[i1], q));
                        }
                    }
                    assert((#[trigger] old_bs[i as int].cards[j as int].tasks[k as int]).id
                        == task_id);
                }
                Ok(id)
            },
        }
    }

    /// Delete the board `id` together with its whole subtree of cards, tasks
    /// and subtasks: afterwards none of their identifiers resolves any more.
    pub fn delete_board(&mut self, id: u64) -> (r: Result<(), StoreError>)
        requires
            old(self).wf(),
        ensures
            final(self).wf(),
            final(self).next_id == old(self).next_id,
            match r {
                Ok(()) => {
                    &&& find_board(old(self).view_boards(), id) is Some
                    &&& find_board(final(self).view_boards(), id) is None
                    &&& forall|q: u64|
                        #[trigger] board_subtree_has(
                            find_board(old(self).view_boards(), id)->Some_0,
                            q,
                        ) ==> {
                            &&& find_board(final(self).view_boards(), q) is None
                            &&& find_card(final(self).view_boards(), q) is None
                            &&& find_task(final(self).view_boards(), q) is None
                            &&& find_subtask(final(self).view_boards(), q) is None
                        }
                    &&& exists|i: int|
                        0 <= i < old(self).view_boards().len()
                            && (#[trigger] old(self).view_boards()[i]).id == id
                            && final(self).view_boards() =~= old(self).view_boards().remove(i)
                },
                Err(StoreError::NotFound) => {
                    &&& find_board(old(self).view_boards(), id) is None
                    &&& *final(self) == *old(self)
                },
            },
    {
        let ghost old_bs = self.view_boards();
        let mut i: usize = 0;
        while i < self.boards.len()
            invariant
                0 <= i <= self.boards.len(),
                self == old(self),
                self.wf(),
                old_bs == self.boards.deep_view(),
                forall|k: int|
                    0 <= k < i ==> !#[trigger] board_id_pred(id)(self.boards.deep_view()[k]),
            decreases self.boards.len() - i,
        {
            if self.boards[i].id == id {
                proof {
                    lemma_first_in_at(old_bs, board_id_pred(id), i as int);
                }
                let ghost b = old_bs[i as int];
                self.boards.remove(i);
                proof {
                    let bs2 = self.view_boards();
                    assert(bs2 =~= old_bs.remove(i as int));
                    assert forall|m: int| 0 <= m < bs2.len() implies bs2[m] == (if m < i as int {
                        old_bs[m]
                    } else {
                        old_bs[m + 1]
                    }) by {}
                    assert forall|m: int| 0 <= m < bs2.len() implies board_ids_below(
                        #[trigger] bs2[m],
                        self.next_id,
                    ) by {
                        let k = if m < i as int { m } else { m + 1 };
                        assert(board_ids_below(old_bs[k], self.next_id));
                    }
                    assert forall|i1: int, i2: int, q: u64|
                        0 <= i1 < bs2.len() && 0 <= i2 < bs2.len() && i1 != i2
                            && #[trigger] board_subtree_has(bs2[i1], q)
                        implies !#[trigger] board_subtree_has(bs2[i2], q) by {
                        let k1 = if i1 < i as int { i1 } else { i1 + 1 };
                        let k2 = if i2 < i as int { i2 } else { i2 + 1 };
                        assert(board_subtree_has(old_bs[k1], q));
                    }
                    assert forall|q: u64| #[trigger] board_subtree_has(b, q) implies {
                        &&& find_board(bs2, q) is None
                        &&& find_card(bs2, q) is None
                        &&& find_task(bs2, q) is None
                        &&& find_subtask(bs2, q) is None
                    } by {
                        assert forall|m: int| 0 <= m < bs2.len() implies !#[trigger] board_id_pred(
                            q,
                        )(bs2[m]) by {
                            let k = if m < i as int { m } else { m + 1 };
                            assert(bs2[m] == old_bs[k]);
                            assert(!board_subtree_has(old_bs[k], q));
                        }
                        assert forall|m: int|
                            0 <= m < bs2.len() implies !#[trigger] board_has_card_pred(q)(
                            bs2[m],
                        ) by {
                            let k = if m < i as int { m } else { m + 1 };
                            assert(bs2[m] == old_bs[k]);
                            assert(!board_subtree_has(old_bs[k], q));
                        }
                        assert forall|m: int|
                            0 <= m < bs2.len() implies !#[trigger] board_has_task_pred(q)(
                            bs2[m],
                        ) by {
                            let k = if m < i as int { m } else { m + 1 };
                            assert(bs2[m] == old_bs[k]);
                            assert(!board_subtree_has(old_bs[k], q));
                        }
                        assert forall|m: int|
                            0 <= m < bs2.len() implies !#[trigger] board_has_subtask_pred(q)(
                            bs2[m],
                        ) by {
                            let k = if m < i as int { m } else { m + 1 };
                            assert(bs2[m] == old_bs[k]);
                            assert(!board_subtree_has(old_bs[k], q));
                        }
                        lemma_first_in_none(bs2, board_id_pred(q));
                        lemma_first_in_none(bs2, board_has_card_pred(q));
                        lemma_first_in_none(bs2, board_has_task_pred(q));
                        lemma_first_in_none(bs2, board_has_subtask_pred(q));
                    }
                    assert(board_subtree_has(b, id));
                    assert(find_board(bs2, id) is None);
                }
                return Ok(());
            }
            i += 1;
        }
        proof {
            lemma_first_in_none(old_bs, board_id_pred(id));
        }
        Err(StoreError::NotFound)
    }

    /// Grant `user` read-only visibility of the board `board_id`. Granting
    /// twice is the same as granting once.
    pub fn share_board(&mut self, board_id: u64, user: u64) -> (r: Result<(), StoreError>)
        requires
            old(self).wf(),
        ensures
            final(self).wf(),
            final(self).next_id == old(self).next_id,
            match r {
                Ok(()) => {
                    &&& find_board(old(self).view_boards(), board_id) is Some
                    &&& exists|i: int|
                        {
                            let b = old(self).view_boards()[i];
                            &&& 0 <= i < old(self).view_boards().len()
                            &&& (#[trigger] old(self).view_boards()[i]).id == board_id
                            &&& final(self).view_boards() =~= old(self).view_boards().update(
                                i,
                                (BoardV {
                                    shared_with: if b.shared_with.contains(user) {
                                        b.shared_with
                                    } else {
                                        b.shared_with.push(user)
                                    },
                                    ..b
                                }),
                            )
                        }
                    &&& find_board(final(self).view_boards(), board_id) is Some
                    &&& (find_board(final(self).view_boards(), board_id)->Some_0).shared_with.contains(
                        user,
                    )
                    &&& (find_board(final(self).view_boards(), board_id)->Some_0).author_id == (find_board(
                        old(self).view_boards(),
                        board_id,
                    )->Some_0).author_id
                },
                Err(StoreError::NotFound) => {
                    &&& find_board(old(self).view_boards(), board_id) is None
                    &&& *final(self) == *old(self)
                },
            },
    {
        let ghost old_bs = self.view_boards();
        let mut i: usize = 0;
        while i < self.boards.len()
            invariant
                0 <= i <= self.boards.len(),
                self == old(self),
                self.wf(),
                old_bs == self.boards.deep_view(),
                forall|k: int|
                    0 <= k < i ==> !#[trigger] board_id_pred(board_id)(self.boards.deep_view()[k]),
            decreases self.boards.len() - i,
        {
            if self.boards[i].id == board_id {
                proof {
                    lemma_first_in_at(old_bs, board_id_pred(board_id), i as int);
                }
                let ghost b = old_bs[i as int];
                if crate::auth::contains_user(&self.boards[i].shared_with, user) {
                    proof {
                        assert(self.view_boards() =~= old_bs.update(
                            i as int,
                            (BoardV { shared_with: b.shared_with, ..b }),
                        ));
                    }
                    return Ok(());
                }
                let mut board = self.boards.remove(i);
                board.shared_with.push(user);
                let ghost b2 = board.deep_view();
                self.boards.insert(i, board);
                proof {
                    let bs2 = self.view_boards();
                    assert(b2.shared_with =~= b.shared_with.push(user));
                    assert(b2 == (BoardV { shared_with: b.shared_with.push(user), ..b }));
                    assert(bs2 =~= old_bs.update(i as int, b2));
                    assert(b.shared_with.push(user)[b.shared_with.len() as int] == user);
                    lemma_first_in_at(bs2, board_id_pred(board_id), i as int);
                    assert forall|m: int| 0 <= m < bs2.len() implies board_ids_below(
                        #[trigger] bs2[m],
                        self.next_id,
                    ) by {
                        assert(board_ids_below(old_bs[m], self.next_id));
                        if m == i as int {
                            assert(b2.id == b.id && b2.cards == b.cards);
                        }
                    }
                    assert forall|i1: int, i2: int, q: u64|
                        0 <= i1 < bs2.len() && 0 <= i2 < bs2.len() && i1 != i2
                            && #[trigger] board_subtree_has(bs2[i1], q)
                        implies !#[trigger] board_subtree_has(bs2[i2], q) by {
                        assert(b2.id == b.id && b2.cards == b.cards);
                        assert(board_subtree_has(b2, q) == board_subtree_has(b, q));
                        assert(board_subtree_has(old_bs[i1], q));
                        assert(!board_subtree_has(old_bs[i2], q));
                    }
                }
                return Ok(());
            }
            i += 1;
        }
        proof {
            lemma_first_in_none(old_bs, board_id_pred(board_id));
        }
        Err(StoreError::NotFound)
    }

    /// Update the presentation of the board `board_id`: title and colors come
    /// from the request, while identifier, author, share list and cards are
    /// kept as persisted. `author_id` is set at creation and never
    /// reassigned.
    pub fn update_board(&mut self, board_id: u64, title: String, color_set: ColorSet) -> (r:
        Result<(), StoreError>)
        requires
            old(self).wf(),
        ensures
            final(self).wf(),
            final(self).next_id == old(self).next_id,
            match r {
                Ok(()) => {
                    &&& find_board(old(self).view_boards(), board_id) is Some
                    &&& find_board(final(self).view_boards(), board_id) == Some(
                        (BoardV {
                            title: title@,
                            color_set: color_set.deep_view(),
                            ..find_board(old(self).view_boards(), board_id)->Some_0
                        }),
                    )
                    &&& exists|i: int|
                        {
                            let b = old(self).view_boards()[i];
                            &&& 0 <= i < old(self).view_boards().len()
                            &&& (#[trigger] old(self).view_boards()[i]).id == board_id
                            &&& final(self).view_boards() =~= old(self).view_boards().update(
                                i,
                                (BoardV {
                                    title: title@,
                                    color_set: color_set.deep_view(),
                                    ..b
                                }),
                            )
                        }
                },
                Err(StoreError::NotFound) => {
                    &&& find_board(old(self).view_boards(), board_id) is None
                    &&& *final(self) == *old(self)
                },
            },
    {
        let ghost old_bs = self.view_boards();
        let mut i: usize = 0;
        while i < self.boards.len()
            invariant
                0 <= i <= self.boards.len(),
                self == old(self),
                self.wf(),
                old_bs == self.boards.deep_view(),
                forall|k: int|
                    0 <= k < i ==> !#[trigger] board_id_pred(board_id)(self.boards.deep_view()[k]),
            decreases self.boards.len() - i,
        {
            if self.boards[i].id == board_id {
                proof {
                    lemma_first_in_at(old_bs, board_id_pred(board_id), i as int);
                }
                let ghost b = old_bs[i as int];
                let mut board = self.boards.remove(i);
                board.title = title;
                board.color_set = color_set;
                let ghost b2 = board.deep_view();
                self.boards.insert(i, board);
                proof {
                    let bs2 = self.view_boards();
                    assert(b2 == (BoardV {
                        title: title@,
                        color_set: color_set.deep_view(),
                        ..b
                    }));
                    assert(bs2 =~= old_bs.update(i as int, b2));
                    lemma_first_in_at(bs2, board_id_pred(board_id), i as int);
                    assert forall|m: int| 0 <= m < bs2.len() implies board_ids_below(
                        #[trigger] bs2[m],
                        self.next_id,
                    ) by {
                        assert(board_ids_below(old_bs[m], self.next_id));
                        if m == i as int {
                            assert(b2.id == b.id && b2.cards == b.cards);
                        }
                    }
                    assert forall|i1: int, i2: int, q: u64|
                        0 <= i1 < bs2.len() && 0 <= i2 < bs2.len() && i1 != i2
                            && #[trigger] board_subtree_has(bs2[i1], q)
                        implies !#[trigger] board_subtree_has(bs2[i2], q) by {
                        assert(b2.id == b.id && b2.cards == b.cards);
                        assert(board_subtree_has(b2, q) == board_subtree_has(b, q));
                        assert(board_subtree_has(old_bs[i1], q));
                        assert(!board_subtree_has(old_bs[i2], q));
                    }
                }
                return Ok(());
            }
            i += 1;
        }
        proof {
            lemma_first_in_none(old_bs, board_id_pred(board_id));
        }
        Err(StoreError::NotFound)
    }

    /// The boards shared with `user`, in store order: the read-time query
    /// behind a user's `shared_boards` view.
    pub fn list_shared_boards(&self, user: u64) -> (r: Vec<u64>)
        ensures
            r.deep_view() == shared_board_ids(self.view_boards(), user),
    {
        let mut r: Vec<u64> = Vec::new();
        let mut i: usize = 0;
        while i < self.boards.len()
            invariant
                0 <= i <= self.boards.len(),
                r.deep_view() =~= shared_board_ids(self.view_boards().take(i as int), user),
            decreases self.boards.len() - i,
        {
            let ghost prefix = self.view_boards().take(i as int);
            let ghost bv = self.view_boards()[i as int];
            if crate::auth::contains_user(&self.boards[i].shared_with, user) {
                r.push(self.boards[i].id);
            }
            proof {
                lemma_shared_board_ids_snoc(prefix, bv, user);
                assert(self.view_boards().take(i + 1 as int) =~= prefix.push(bv));
                if bv.shared_with.contains(user) {
                    assert(r.deep_view() =~= shared_board_ids(prefix.push(bv), user));
                } else {
                    assert(r.deep_view() =~= shared_board_ids(prefix.push(bv), user));
                }
            }
            i += 1;
        }
        proof {
            assert(self.view_boards().take(self.boards.len() as int) =~= self.view_boards());
        }
        r
    }

    /// Fetch a card by identifier, searching every board subtree.
    pub fn get_card(&self, id: u64) -> (r: Option<&Card>)
        ensures
            match r {
                Some(c) => find_card(self.view_boards(), id) == Some(c.deep_view()),
                None => find_card(self.view_boards(), id) is None,
            },
    {
        match locate_card(&self.boards, id) {
            None => None,
            Some((i, j)) => Some(&self.boards[i].cards[j]),
        }
    }

    /// Fetch a task by identifier, searching every board subtree.
    pub fn get_task(&self, id: u64) -> (r: Option<&crate::data::Task>)
        ensures
            match r {
                Some(t) => find_task(self.view_boards(), id) == Some(t.deep_view()),
                None => find_task(self.view_boards(), id) is None,
            },
    {
        match locate_task(&self.boards, id) {
            None => None,
            Some((i, j, k)) => Some(&self.boards[i].cards[j].tasks[k]),
        }
    }

    /// Fetch a subtask by identifier, searching every board subtree.
    pub fn get_subtask(&self, id: u64) -> (r: Option<&crate::data::Subtask>)
        ensures
            match r {
                Some(s) => find_subtask(self.view_boards(), id) == Some(s.deep_view()),
                None => find_subtask(self.view_boards(), id) is None,
            },
    {
        match locate_subtask(&self.boards, id) {
            None => None,
            Some((i, j, k, l)) => Some(&self.boards[i].cards[j].tasks[k].subtasks[l]),
        }
    }
}

/// Index of the first card with identifier `id`.
fn find_card_index_in(cards: &Vec<Card>, id: u64) -> (r: Option<usize>)
    ensures
        match r {
            Some(j) => {
                &&& j < cards.len()
                &&& cards.deep_view()[j as int].id == id
                &&& find_card_in(cards.deep_view(), id) == Some(cards.deep_view()[j as int])
                &&& forall|k: int|
                    0 <= k < j ==> !#[trigger] card_id_pred(id)(cards.deep_view()[k])
            },
            None => find_card_in(cards.deep_view(), id) is None,
        },
{
    let mut j: usize = 0;
    while j < cards.len()
        invariant
            0 <= j <= cards.len(),
            forall|k: int| 0 <= k < j ==> !#[trigger] card_id_pred(id)(cards.deep_view()[k]),
        decreases cards.len() - j,
    {
        if cards[j].id == id {
            proof {
                lemma_first_in_at(cards.deep_view(), card_id_pred(id), j as int);
            }
            return Some(j);
        }
        j += 1;
    }
    proof {
        lemma_first_in_none(cards.deep_view(), card_id_pred(id));
    }
    None
}

/// Index of the first task with identifier `id`.
fn find_task_index_in(tasks: &Vec<crate::data::Task>, id: u64) -> (r: Option<usize>)
    ensures
        match r {
            Some(k) => {
                &&& k < tasks.len()
                &&& tasks.deep_view()[k as int].id == id
                &&& find_task_in(tasks.deep_view(), id) == Some(tasks.deep_view()[k as int])
                &&& forall|m: int|
                    0 <= m < k ==> !#[trigger] task_id_pred(id)(tasks.deep_view()[m])
            },
            None => find_task_in(tasks.deep_view(), id) is None,
        },
{
    let mut k: usize = 0;
    while k < tasks.len()
        invariant
            0 <= k <= tasks.len(),
            forall|m: int| 0 <= m < k ==> !#[trigger] task_id_pred(id)(tasks.deep_view()[m]),
        decreases tasks.len() - k,
    {
        if tasks[k].id == id {
            proof {
                lemma_first_in_at(tasks.deep_view(), task_id_pred(id), k as int);
            }
            return Some(k);
        }
        k += 1;
    }
    proof {
        lemma_first_in_none(tasks.deep_view(), task_id_pred(id));
    }
    None
}

/// Index of the first subtask with identifier `id`.
fn find_subtask_index_in(subs: &Vec<crate::data::Subtask>, id: u64) -> (r: Option<usize>)
    ensures
        match r {
            Some(l) => {
                &&& l < subs.len()
                &&& subs.deep_view()[l as int].id == id
                &&& find_subtask_in(subs.deep_view(), id) == Some(subs.deep_view()[l as int])
                &&& forall|m: int|
                    0 <= m < l ==> !#[trigger] subtask_id_pred(id)(subs.deep_view()[m])
            },
            None => find_subtask_in(subs.deep_view(), id) is None,
        },
{
    let mut l: usize = 0;
    while l < subs.len()
        invariant
            0 <= l <= subs.len(),
            forall|m: int| 0 <= m < l ==> !#[trigger] subtask_id_pred(id)(subs.deep_view()[m]),
        decreases subs.len() - l,
    {
        if subs[l].id == id {
            proof {
                lemma_first_in_at(subs.deep_view(), subtask_id_pred(id), l as int);
            }
            return Some(l);
        }
        l += 1;
    }
    proof {
        lemma_first_in_none(subs.deep_view(), subtask_id_pred(id));
    }
    None
}

/// Position of the first card with identifier `id` across the boards.
pub(crate) fn locate_card(boards: &Vec<Board>, id: u64) -> (r: Option<(usize, usize)>)
    ensures
        match r {
            Some((i, j)) => {
                &&& i < boards.len()
                &&& j < boards.deep_view()[i as int].cards.len()
                &&& boards.deep_view()[i as int].cards[j as int].id == id
                &&& board_of_card(boards.deep_view(), id) == Some(boards.deep_view()[i as int])
                &&& find_card(boards.deep_view(), id) == Some(
                    boards.deep_view()[i as int].cards[j as int],
                )
                &&& forall|k: int|
                    0 <= k < i ==> !#[trigger] board_has_card_pred(id)(boards.deep_view()[k])
                &&& forall|k: int|
                    0 <= k < j ==> !#[trigger] card_id_pred(id)(
                        boards.deep_view()[i as int].cards[k],
                    )
            },
            None => board_of_card(boards.deep_view(), id) is None,
        },
{
    let bsv = Ghost(boards.deep_view());
    let mut i: usize = 0;
    while i < boards.len()
        invariant
            0 <= i <= boards.len(),
            bsv@ == boards.deep_view(),
            forall|k: int| 0 <= k < i ==> !#[trigger] board_has_card_pred(id)(bsv@[k]),
        decreases boards.len() - i,
    {
        match find_card_index_in(&boards[i].cards, id) {
            Some(j) => {
                proof {
                    assert(boards@[i as int].cards.deep_view() == bsv@[i as int].cards);
                    lemma_first_in_at(bsv@, board_has_card_pred(id), i as int);
                }
                return Some((i, j));
            },
            None => {
                proof {
                    assert(boards@[i as int].cards.deep_view() == bsv@[i as int].cards);
                }
            },
        }
        i += 1;
    }
    proof {
        lemma_first_in_none(bsv@, board_has_card_pred(id));
    }
    None
}

/// Position of the first task with identifier `id` among a board's cards.
fn locate_task_in_cards(cards: &Vec<Card>, id: u64) -> (r: Option<(usize, usize)>)
    ensures
        match r {
            Some((j, k)) => {
                &&& j < cards.len()
                &&& k < cards.deep_view()[j as int].tasks.len()
                &&& cards.deep_view()[j as int].tasks[k as int].id == id
                &&& find_task_in_cards(cards.deep_view(), id) == Some(
                    cards.deep_view()[j as int].tasks[k as int],
                )
                &&& forall|m: int|
                    0 <= m < j ==> !#[trigger] card_has_task_pred(id)(cards.deep_view()[m])
                &&& forall|m: int|
                    0 <= m < k ==> !#[trigger] task_id_pred(id)(
                        cards.deep_view()[j as int].tasks[m],
                    )
            },
            None => find_task_in_cards(cards.deep_view(), id) is None,
        },
{
    let csv = Ghost(cards.deep_view());
    let mut j: usize = 0;
    while j < cards.len()
        invariant
            0 <= j <= cards.len(),
            csv@ == cards.deep_view(),
            forall|m: int| 0 <= m < j ==> !#[trigger] card_has_task_pred(id)(csv@[m]),
        decreases cards.len() - j,
    {
        match find_task_index_in(&cards[j].tasks, id) {
            Some(k) => {
                proof {
                    assert(cards@[j as int].tasks.deep_view() == csv@[j as int].tasks);
                    lemma_first_in_at(csv@, card_has_task_pred(id), j as int);
                }
                return Some((j, k));
            },
            None => {
                proof {
                    assert(cards@[j as int].tasks.deep_view() == csv@[j as int].tasks);
                }
            },
        }
        j += 1;
    }
    proof {
        lemma_first_in_none(csv@, card_has_task_pred(id));
    }
    None
}

/// Position of the first task with identifier `id` across the boards.
pub(crate) fn locate_task(boards: &Vec<Board>, id: u64) -> (r: Option<(usize, usize, usize)>)
    ensures
        match r {
            Some((i, j, k)) => {
                &&& i < boards.len()
                &&& j < boards.deep_view()[i as int].cards.len()
                &&& k < boards.deep_view()[i as int].cards[j as int].tasks.len()
                &&& boards.deep_view()[i as int].cards[j as int].tasks[k as int].id == id
                &&& board_of_task(boards.deep_view(), id) == Some(boards.deep_view()[i as int])
                &&& find_task(boards.deep_view(), id) == Some(
                    boards.deep_view()[i as int].cards[j as int].tasks[k as int],
                )
                &&& forall|m: int|
                    0 <= m < i ==> !#[trigger] board_has_task_pred(id)(boards.deep_view()[m])
                &&& forall|m: int|
                    0 <= m < j ==> !#[trigger] card_has_task_pred(id)(
                        boards.deep_view()[i as int].cards[m],
                    )
                &&& forall|m: int|
                    0 <= m < k ==> !#[trigger] task_id_pred(id)(
                        boards.deep_view()[i as int].cards[j as int].tasks[m],
                    )
            },
            None => board_of_task(boards.deep_view(), id) is None,
        },
{
    let bsv = Ghost(boards.deep_view());
    let mut i: usize = 0;
    while i < boards.len()
        invariant
            0 <= i <= boards.len(),
            bsv@ == boards.deep_view(),
            forall|m: int| 0 <= m < i ==> !#[trigger] board_has_task_pred(id)(bsv@[m]),
        decreases boards.len() - i,
    {
        match locate_task_in_cards(&boards[i].cards, id) {
            Some((j, k)) => {
                proof {
                    assert(boards@[i as int].cards.deep_view() == bsv@[i as int].cards);
                    lemma_first_in_at(bsv@, board_has_task_pred(id), i as int);
                }
                return Some((i, j, k));
            },
            None => {
                proof {
                    assert(boards@[i as int].cards.deep_view() == bsv@[i as int].cards);
                }
            },
        }
        i += 1;
    }
    proof {
        lemma_first_in_none(bsv@, board_has_task_pred(id));
    }
    None
}

/// Position of the first subtask with identifier `id` among a card's tasks.
fn locate_subtask_in_tasks(tasks: &Vec<crate::data::Task>, id: u64) -> (r: Option<(usize, usize)>)
    ensures
        match r {
            Some((k, l)) => {
                &&& k < tasks.len()
                &&& l < tasks.deep_view()[k as int].subtasks.len()
                &&& tasks.deep_view()[k as int].subtasks[l as int].id == id
                &&& find_subtask_in_tasks(tasks.deep_view(), id) == Some(
                    tasks.deep_view()[k as int].subtasks[l as int],
                )
                &&& forall|m: int|
                    0 <= m < k ==> !#[trigger] task_has_subtask_pred(id)(tasks.deep_view()[m])
                &&& forall|m: int|
                    0 <= m < l ==> !#[trigger] subtask_id_pred(id)(
                        tasks.deep_view()[k as int].subtasks[m],
                    )
            },
            None => find_subtask_in_tasks(tasks.deep_view(), id) is None,
        },
{
    let tsv = Ghost(tasks.deep_view());
    let mut k: usize = 0;
    while k < tasks.len()
        invariant
            0 <= k <= tasks.len(),
            tsv@ == tasks.deep_view(),
            forall|m: int| 0 <= m < k ==> !#[trigger] task_has_subtask_pred(id)(tsv@[m]),
        decreases tasks.len() - k,
    {
        match find_subtask_index_in(&tasks[k].subtasks, id) {
            Some(l) => {
                proof {
                    assert(tasks@[k as int].subtasks.deep_view() == tsv@[k as int].subtasks);
                    lemma_first_in_at(tsv@, task_has_subtask_pred(id), k as int);
                }
                return Some((k, l));
            },
            None => {
                proof {
                    assert(tasks@[k as int].subtasks.deep_view() == tsv@[k as int].subtasks);
                }
            },
        }
        k += 1;
    }
    proof {
        lemma_first_in_none(tsv@, task_has_subtask_pred(id));
    }
    None
}

/// Position of the first subtask with identifier `id` among a board's cards.
fn locate_subtask_in_cards(cards: &Vec<Card>, id: u64) -> (r: Option<(usize, usize, usize)>)
    ensures
        match r {
            Some((j, k, l)) => {
                &&& j < cards.len()
                &&& k < cards.deep_view()[j as int].tasks.len()
                &&& l < cards.deep_view()[j as int].tasks[k as int].subtasks.len()
                &&& cards.deep_view()[j as int].tasks[k as int].subtasks[l as int].id == id
                &&& find_subtask_in_cards(cards.deep_view(), id) == Some(
                    cards.deep_view()[j as int].tasks[k as int].subtasks[l as int],
                )
                &&& forall|m: int|
                    0 <= m < j ==> !#[trigger] card_has_subtask_pred(id)(cards.deep_view()[m])
                &&& forall|m: int|
                    0 <= m < k ==> !#[trigger] task_has_subtask_pred(id)(
                        cards.deep_view()[j as int].tasks[m],
                    )
                &&& forall|m: int|
                    0 <= m < l ==> !#[trigger] subtask_id_pred(id)(
                        cards.deep_view()[j as int].tasks[k as int].subtasks[m],
                    )
            },
            None => find_subtask_in_cards(cards.deep_view(), id) is None,
        },
{
    let csv = Ghost(cards.deep_view());
    let mut j: usize = 0;
    while j < cards.len()
        invariant
            0 <= j <= cards.len(),
            csv@ == cards.deep_view(),
            forall|m: int| 0 <= m < j ==> !#[trigger] card_has_subtask_pred(id)(csv@[m]),
        decreases cards.len() - j,
    {
        match locate_subtask_in_tasks(&cards[j].tasks, id) {
            Some((k, l)) => {
                proof {
                    assert(cards@[j as int].tasks.deep_view() == csv@[j as int].tasks);
                    lemma_first_in_at(csv@, card_has_subtask_pred(id), j as int);
                }
                return Some((j, k, l));
            },
            None => {
                proof {
                    assert(cards@[j as int].tasks.deep_view() == csv@[j as int].tasks);
                }
            },
        }
        j += 1;
    }
    proof {
        lemma_first_in_none(csv@, card_has_subtask_pred(id));
    }
    None
}

/// Position of the first subtask with identifier `id` across the boards.
pub(crate) fn locate_subtask(boards: &Vec<Board>, id: u64) -> (r: Option<(usize, usize, usize, usize)>)
    ensures
        match r {
            Some((i, j, k, l)) => {
                &&& i < boards.len()
                &&& j < boards.deep_view()[i as int].cards.len()
                &&& k < boards.deep_view()[i as int].cards[j as int].tasks.len()
                &&& l < boards.deep_view()[i as int].cards[j as int].tasks[k as int].subtasks.len()
                &&& boards.deep_view()[i as int].cards[j as int].tasks[k as int].subtasks[l as int].id
                    == id
                &&& board_of_subtask(boards.deep_view(), id) == Some(
                    boards.deep_view()[i as int],
                )
                &&& find_subtask(boards.deep_view(), id) == Some(
                    boards.deep_view()[i as int].cards[j as int].tasks[k as int].subtasks[l as int],
                )
                &&& forall|m: int|
                    0 <= m < i ==> !#[trigger] board_has_subtask_pred(id)(boards.deep_view()[m])
                &&& forall|m: int|
                    0 <= m < j ==> !#[trigger] card_has_subtask_pred(id)(
                        boards.deep_view()[i as int].cards[m],
                    )
                &&& forall|m: int|
                    0 <= m < k ==> !#[trigger] task_has_subtask_pred(id)(
                        boards.deep_view()[i as int].cards[j as int].tasks[m],
                    )
                &&& forall|m: int|
                    0 <= m < l ==> !#[trigger] subtask_id_pred(id)(
                        boards.deep_view()[i as int].cards[j as int].tasks[k as int].subtasks[m],
                    )
            },
            None => board_of_subtask(boards.deep_view(), id) is None,
        },
{
    let bsv = Ghost(boards.deep_view());
    let mut i: usize = 0;
    while i < boards.len()
        invariant
            0 <= i <= boards.len(),
            bsv@ == boards.deep_view(),
            forall|m: int| 0 <= m < i ==> !#[trigger] board_has_subtask_pred(id)(bsv@[m]),
        decreases boards.len() - i,
    {
        match locate_subtask_in_cards(&boards[i].cards, id) {
            Some((j, k, l)) => {
                proof {
                    assert(boards@[i as int].cards.deep_view() == bsv@[i as int].cards);
                    lemma_first_in_at(bsv@, board_has_subtask_pred(id), i as int);
                }
                return Some((i, j, k, l));
            },
            None => {
                proof {
                    assert(boards@[i as int].cards.deep_view() == bsv@[i as int].cards);
                }
            },
        }
        i += 1;
    }
    proof {
        lemma_first_in_none(bsv@, board_has_subtask_pred(id));
    }
    None
}

} // verus!
