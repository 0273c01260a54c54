//! Questions put to the user by the interactive commands, and the answers
//! they get back.
use vstd::prelude::*;
use crate::entry::{lit_active, lit_archived, lit_critical, lit_done, lit_high, lit_idea, lit_low, lit_medium,
    lit_note, lit_todo, Kind, Priority, Status};
use crate::text::seq_view_of;

verus! {

/// A question for the user.
pub enum Question {
    /// A line of text. With a `default`, that answer is shown and taken
    /// when nothing is typed; without one, typing starts from `initial` and
    /// an empty answer is accepted.
    Line { prompt: String, initial: String, default: Option<String> },
    /// One of `items`, starting at the one at `selected`.
    Choose { prompt: String, items: Vec<String>, selected: usize },
    /// A text written in the editor, which opens on `initial`.
    Edit { initial: String },
}

/// An answer.
pub enum Answer {
    /// The line typed.
    Text(String),
    /// The position of the item chosen.
    Chosen(usize),
    /// The text saved in the editor, or nothing if it was not saved.
    Edited(Option<String>),
}

/// A question as plain values.
pub enum QuestionView {
    Line(Seq<char>, Seq<char>, Option<Seq<char>>),
    Choose(Seq<char>, Seq<Seq<char>>, int),
    Edit(Seq<char>),
}

pub open spec fn question_view(q: Question) -> QuestionView {
    match q {
        Question::Line { prompt, initial, default } => QuestionView::Line(
            prompt@,
            initial@,
            match default {
                Some(d) => Some(d@),
                None => None,
            },
        ),
        Question::Choose { prompt, items, selected } => QuestionView::Choose(prompt@, seq_view_of(items@), selected as int),
        Question::Edit { initial } => QuestionView::Edit(initial@),
    }
}

/// An answer as plain values.
pub enum AnswerView {
    Text(Seq<char>),
    Chosen(int),
    Edited(Option<Seq<char>>),
}

pub open spec fn answer_view(a: Option<Answer>) -> Option<AnswerView> {
    match a {
        Some(Answer::Text(t)) => Some(AnswerView::Text(t@)),
        Some(Answer::Chosen(i)) => Some(AnswerView::Chosen(i as int)),
        Some(Answer::Edited(Some(t))) => Some(AnswerView::Edited(Some(t@))),
        Some(Answer::Edited(None)) => Some(AnswerView::Edited(None)),
        None => None,
    }
}

/// The line typed, if that is the answer.
pub open spec fn typed(a: Option<AnswerView>) -> Option<Seq<char>> {
    match a {
        Some(AnswerView::Text(t)) => Some(t),
        _ => None,
    }
}

/// The position chosen, if that is the answer.
pub open spec fn chosen(a: Option<AnswerView>) -> Option<int> {
    match a {
        Some(AnswerView::Chosen(i)) => Some(i),
        _ => None,
    }
}

/// What the editor gave, if that is the answer.
pub open spec fn edited(a: Option<AnswerView>) -> Option<Option<Seq<char>>> {
    match a {
        Some(AnswerView::Edited(t)) => Some(t),
        _ => None,
    }
}

/// The names of the kinds, in the order they are offered.
pub open spec fn kind_names() -> Seq<Seq<char>> {
    seq![lit_idea(), lit_todo(), lit_note()]
}

/// The names of the priorities, in the order they are offered.
pub open spec fn priority_names() -> Seq<Seq<char>> {
    seq![lit_low(), lit_medium(), lit_high(), lit_critical()]
}

/// The names of the statuses, in the order they are offered.
pub open spec fn status_names() -> Seq<Seq<char>> {
    seq![lit_active(), lit_done(), lit_archived()]
}

/// The kind at a position of `kind_names`.
pub open spec fn kind_at(i: int) -> Option<Kind> {
    if i == 0 {
        Some(Kind::Idea)
    } else if i == 1 {
        Some(Kind::Todo)
    } else if i == 2 {
        Some(Kind::Note)
    } else {
        None
    }
}

/// The priority at a position of `priority_names`.
pub open spec fn priority_at(i: int) -> Option<Priority> {
    if i == 0 {
        Some(Priority::Low)
    } else if i == 1 {
        Some(Priority::Medium)
    } else if i == 2 {
        Some(Priority::High)
    } else if i == 3 {
        Some(Priority::Critical)
    } else {
        None
    }
}

/// The status at a position of `status_names`.
pub open spec fn status_at(i: int) -> Option<Status> {
    if i == 0 {
        Some(Status::Active)
    } else if i == 1 {
        Some(Status::Done)
    } else if i == 2 {
        Some(Status::Archived)
    } else {
        None
    }
}

/// The position of a kind among `kind_names`.
pub open spec fn kind_pos(k: Kind) -> int {
    match k {
        Kind::Idea => 0,
        Kind::Todo => 1,
        Kind::Note => 2,
    }
}

/// The position of a priority among `priority_names`.
pub open spec fn priority_pos(p: Priority) -> int {
    match p {
        Priority::Low => 0,
        Priority::Medium => 1,
        Priority::High => 2,
        Priority::Critical => 3,
    }
}

/// The position of a status among `status_names`.
pub open spec fn status_pos(s: Status) -> int {
    match s {
        Status::Active => 0,
        Status::Done => 1,
        Status::Archived => 2,
    }
}

/// Each name offered is the name of the value at its position, and each
/// value is offered at its position.
pub proof fn lemma_names_positions(k: Kind, p: Priority, s: Status)
    ensures
        kind_at(kind_pos(k)) == Some(k),
        priority_at(priority_pos(p)) == Some(p),
        status_at(status_pos(s)) == Some(s),
        kind_names()[kind_pos(k)] == k.name(),
        priority_names()[priority_pos(p)] == p.name(),
        status_names()[status_pos(s)] == s.name(),
{
}

/// The names of the kinds.
pub fn kind_list() -> (r: Vec<String>)
    ensures
        seq_view_of(r@) == kind_names(),
{
    let v = vec![Kind::Idea.to_string(), Kind::Todo.to_string(), Kind::Note.to_string()];
    assert(seq_view_of(v@) =~= kind_names());
    v
}

/// The names of the priorities.
pub fn priority_list() -> (r: Vec<String>)
    ensures
        seq_view_of(r@) == priority_names(),
{
    let v = vec![
        Priority::Low.to_string(),
        Priority::Medium.to_string(),
        Priority::High.to_string(),
        Priority::Critical.to_string(),
    ];
    assert(seq_view_of(v@) =~= priority_names());
    v
}

/// The names of the statuses.
pub fn status_list() -> (r: Vec<String>)
    ensures
        seq_view_of(r@) == status_names(),
{
    let v = vec![Status::Active.to_string(), Status::Done.to_string(), Status::Archived.to_string()];
    assert(seq_view_of(v@) =~= status_names());
    v
}

/// The kind at a position of the list of kinds.
pub fn kind_at_pos(i: usize) -> (r: Option<Kind>)
    ensures
        r == kind_at(i as int),
{
    if i == 0 {
        Some(Kind::Idea)
    } else if i == 1 {
        Some(Kind::Todo)
    } else if i == 2 {
        Some(Kind::Note)
    } else {
        None
    }
}

/// The priority at a position of the list of priorities.
pub fn priority_at_pos(i: usize) -> (r: Option<Priority>)
    ensures
        r == priority_at(i as int),
{
    if i == 0 {
        Some(Priority::Low)
    } else if i == 1 {
        Some(Priority::Medium)
    } else if i == 2 {
        Some(Priority::High)
    } else if i == 3 {
        Some(Priority::Critical)
    } else {
        None
    }
}

/// The status at a position of the list of statuses.
pub fn status_at_pos(i: usize) -> (r: Option<Status>)
    ensures
        r == status_at(i as int),
{
    if i == 0 {
        Some(Status::Active)
    } else if i == 1 {
        Some(Status::Done)
    } else if i == 2 {
        Some(Status::Archived)
    } else {
        None
    }
}

/// The position of a kind in the list of kinds.
pub fn kind_position(k: Kind) -> (r: usize)
    ensures
        r == kind_pos(k),
{
    match k {
        Kind::Idea => 0,
        Kind::Todo => 1,
        Kind::Note => 2,
    }
}

/// The position of a priority in the list of priorities.
pub fn priority_position(p: Priority) -> (r: usize)
    ensures
        r == priority_pos(p),
{
    match p {
        Priority::Low => 0,
        Priority::Medium => 1,
        Priority::High => 2,
        Priority::Critical => 3,
    }
}

/// The position of a status in the list of statuses.
pub fn status_position(s: Status) -> (r: usize)
    ensures
        r == status_pos(s),
{
    match s {
        Status::Active => 0,
        Status::Done => 1,
        Status::Archived => 2,
    }
}

} // verus!
