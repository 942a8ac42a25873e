use vstd::prelude::*;

verus! {

/// Process-wide configuration handle, passed explicitly into each request's
/// handling scope: the persistence connection string and the admin key.
pub struct CCTaskboardAppContext {
    pub pg_config: String,
    pub admin_key: String,
}

/// Credentials presented by an administrator.
pub struct AdminAuth {
    pub key: String,
}

/// Credentials presented by a user.
pub struct UserAuth {
    pub login: String,
    pub pass: String,
    pub cc_key: String,
}

/// Pair of opaque color-encoding strings for drawing a component.
pub struct ColorSet {
    pub text_color: String,
    pub background_color: String,
}

/// Timing metadata for tasks and subtasks. `preferred_time <= max_time` is a
/// soft expectation that the model does not enforce: draft items may violate it.
pub struct Timelines {
    pub preferred_time: String,
    pub max_time: String,
    pub expected_time_minutes: u32,
}

/// Free-standing label attached to tasks and subtasks, compared by value.
pub struct Tag {
    pub title: String,
    pub color_set: ColorSet,
}

/// Leaf of the hierarchy: a subtask of a task.
pub struct Subtask {
    pub id: u64,
    pub title: String,
    pub author_id: u64,
    pub executed: bool,
    pub tags: Vec<Tag>,
    pub timelines: Timelines,
    pub color_set: ColorSet,
    pub executors: Vec<u64>,
}

/// A task on a card. Its own `executed` flag is independent of its subtasks'
/// flags: partial completion is representable.
pub struct Task {
    pub id: u64,
    pub title: String,
    pub author_id: u64,
    pub executed: bool,
    pub notes: String,
    pub tags: Vec<Tag>,
    pub timelines: Timelines,
    pub color_set: ColorSet,
    pub executors: Vec<u64>,
    pub subtasks: Vec<Subtask>,
}

/// A card on a board, holding tasks.
pub struct Card {
    pub id: u64,
    pub title: String,
    pub author_id: u64,
    pub color_set: ColorSet,
    pub tasks: Vec<Task>,
}

/// The unit of ownership and sharing: root of a card/task/subtask subtree.
/// `shared_with` lists the users granted read-only visibility.
pub struct Board {
    pub id: u64,
    pub title: String,
    pub author_id: u64,
    pub shared_with: Vec<u64>,
    pub color_set: ColorSet,
    pub cards: Vec<Card>,
}

/// A workspace page grouping boards for presentation.
pub struct Page {
    pub id: u64,
    pub title: String,
    pub background_color: String,
    pub boards: Vec<Board>,
}

/// A user account. `shared_boards` is a read-time view derived from the
/// boards' own `shared_with` lists, never a second stored copy.
pub struct User {
    pub id: u64,
    pub shared_boards: Vec<u64>,
    pub credentials: UserAuth,
}

/// Mathematical image of `UserAuth`.
pub ghost struct UserAuthV {
    pub login: Seq<char>,
    pub pass: Seq<char>,
    pub cc_key: Seq<char>,
}

/// Mathematical image of `ColorSet`.
pub ghost struct ColorSetV {
    pub text_color: Seq<char>,
    pub background_color: Seq<char>,
}

/// Mathematical image of `Timelines`.
pub ghost struct TimelinesV {
    pub preferred_time: Seq<char>,
    pub max_time: Seq<char>,
    pub expected_time_minutes: u32,
}

/// Mathematical image of `Tag`.
pub ghost struct TagV {
    pub title: Seq<char>,
    pub color_set: ColorSetV,
}

/// Mathematical image of `Subtask`.
pub ghost struct SubtaskV {
    pub id: u64,
    pub title: Seq<char>,
    pub author_id: u64,
    pub executed: bool,
    pub tags: Seq<TagV>,
    pub timelines: TimelinesV,
    pub color_set: ColorSetV,
    pub executors: Seq<u64>,
}

/// Mathematical image of `Task`.
pub ghost struct TaskV {
    pub id: u64,
    pub title: Seq<char>,
    pub author_id: u64,
    pub executed: bool,
    pub notes: Seq<char>,
    pub tags: Seq<TagV>,
    pub timelines: TimelinesV,
    pub color_set: ColorSetV,
    pub executors: Seq<u64>,
    pub subtasks: Seq<SubtaskV>,
}

/// Mathematical image of `Card`.
pub ghost struct CardV {
    pub id: u64,
    pub title: Seq<char>,
    pub author_id: u64,
    pub color_set: ColorSetV,
    pub tasks: Seq<TaskV>,
}

/// Mathematical image of `Board`.
pub ghost struct BoardV {
    pub id: u64,
    pub title: Seq<char>,
    pub author_id: u64,
    pub shared_with: Seq<u64>,
    pub color_set: ColorSetV,
    pub cards: Seq<CardV>,
}

/// Mathematical image of `Page`.
pub ghost struct PageV {
    pub id: u64,
    pub title: Seq<char>,
    pub background_color: Seq<char>,
    pub boards: Seq<BoardV>,
}

impl DeepView for UserAuth {
    type V = UserAuthV;

    open spec fn deep_view(&self) -> UserAuthV {
        UserAuthV { login: self.login@, pass: self.pass@, cc_key: self.cc_key@ }
    }
}

impl DeepView for ColorSet {
    type V = ColorSetV;

    open spec fn deep_view(&self) -> ColorSetV {
        ColorSetV { text_color: self.text_color@, background_color: self.background_color@ }
    }
}

impl DeepView for Timelines {
    type V = TimelinesV;

    open spec fn deep_view(&self) -> TimelinesV {
        TimelinesV {
            preferred_time: self.preferred_time@,
            max_time: self.max_time@,
            expected_time_minutes: self.expected_time_minutes,
        }
    }
}

impl DeepView for Tag {
    type V = TagV;

    open spec fn deep_view(&self) -> TagV {
        TagV { title: self.title@, color_set: self.color_set.deep_view() }
    }
}

impl DeepView for Subtask {
    type V = SubtaskV;

    open spec fn deep_view(&self) -> SubtaskV {
        SubtaskV {
            id: self.id,
            title: self.title@,
            author_id: self.author_id,
            executed: self.executed,
            tags: self.tags.deep_view(),
            timelines: self.timelines.deep_view(),
            color_set: self.color_set.deep_view(),
            executors: self.executors.deep_view(),
        }
    }
}

impl DeepView for Task {
    type V = TaskV;

    open spec fn deep_view(&self) -> TaskV {
        TaskV {
            id: self.id,
            title: self.title@,
            author_id: self.author_id,
            executed: self.executed,
            notes: self.notes@,
            tags: self.tags.deep_view(),
            timelines: self.timelines.deep_view(),
            color_set: self.color_set.deep_view(),
            executors: self.executors.deep_view(),
            subtasks: self.subtasks.deep_view(),
        }
    }
}

impl DeepView for Card {
    type V = CardV;

    open spec fn deep_view(&self) -> CardV {
        CardV {
            id: self.id,
            title: self.title@,
            author_id: self.author_id,
            color_set: self.color_set.deep_view(),
            tasks: self.tasks.deep_view(),
        }
    }
}

impl DeepView for Board {
    type V = BoardV;

    open spec fn deep_view(&self) -> BoardV {
        BoardV {
            id: self.id,
            title: self.title@,
            author_id: self.author_id,
            shared_with: self.shared_with.deep_view(),
            color_set: self.color_set.deep_view(),
            cards: self.cards.deep_view(),
        }
    }
}

impl DeepView for Page {
    type V = PageV;

    open spec fn deep_view(&self) -> PageV {
        PageV {
            id: self.id,
            title: self.title@,
            background_color: self.background_color@,
            boards: self.boards.deep_view(),
        }
    }
}

impl CCTaskboardAppContext {
    /// The admin credential check: the presented key must equal the
    /// configured admin key, character for character.
    pub fn admin_key_matches(&self, auth: &AdminAuth) -> (r: bool)
        ensures
            r == (auth.key@ == self.admin_key@),
    {
        auth.key == self.admin_key
    }
}

} // verus!
