//! `insert`: a new entry from flags (and, in the program, prompts).
use vstd::prelude::*;
use crate::commands::ls::{
    date_value, first_error, kind_error, normalized_namespace, opt_str, priority_error, status_error,
};
use crate::commands::prompt::{
    answer_view, chosen, edited, kind_at, kind_at_pos, kind_list, kind_names, priority_at, priority_at_pos,
    priority_list, priority_names, status_at, status_at_pos, status_list, status_names, typed, Answer,
    AnswerView, Question, QuestionView,
};
use crate::entry::{
    entry_view, lemma_normalize_tags_idempotent, namespace_of, normalize_namespace, normalize_tags,
    normalized_description, normalized_tags, opt_view, Entry, EntryView, Kind, Priority, Status,
};
use crate::text::{
    concat, copy_opt, copy_strings, push_str, seq_view_of, split, split_str, trim, trim_str, unicode_lower,
};
use crate::time::{clock_reading, msg_clock, read_date, read_date_str, Date};

verus! {

/// The message for a deadline that cannot be read.
pub open spec fn deadline_error(e: Seq<char>) -> Seq<char> {
    "invalid date format: "@ + e
}

/// Reads a `YYYY-MM-DD` deadline.
pub fn parse_deadline(s: &str) -> (r: Result<Date, String>)
    ensures
        match read_date(s@) {
            Ok(d) => r == Ok::<Date, String>(d),
            Err(e) => r matches Err(m) && m@ == deadline_error(e),
        },
{
    match read_date_str(s) {
        Ok(d) => Ok(d),
        Err(e) => Err(concat("invalid date format: ", e.as_str())),
    }
}

pub open spec fn deadline_option_error(d: Option<Seq<char>>) -> Option<Seq<char>> {
    match d {
        Some(x) => match read_date(x) {
            Err(e) => Some(deadline_error(e)),
            Ok(_) => None,
        },
        None => None,
    }
}

/// The tags of a comma-separated list.
pub open spec fn tags_of_list(t: Seq<char>) -> Seq<Seq<char>> {
    normalized_tags(split(t, ','))
}

/// Reads a comma-separated list of tags.
pub fn parse_tags(t: &str) -> (r: Vec<String>)
    ensures
        seq_view_of(r@) == tags_of_list(t@),
{
    let parts = split_str(t, ',');
    normalize_tags(parts.as_slice())
}

/// A text given for a field, trimmed, if anything is left of it.
pub open spec fn given_text(t: Option<Seq<char>>) -> Option<Seq<char>> {
    match t {
        Some(x) => if trim(x).len() > 0 { Some(trim(x)) } else { None },
        None => None,
    }
}

/// A text given for a field, trimmed, if anything is left of it.
pub fn clean_text(text: Option<&str>) -> (r: Option<String>)
    ensures
        opt_view(r) == given_text(opt_str(text)),
{
    match text {
        Some(x) => {
            let t = trim_str(x);
            if t.as_str().is_empty() {
                None
            } else {
                Some(t)
            }
        },
        None => None,
    }
}

/// The namespace of a new entry: the `--namespace` flag if given, else the
/// one written before the slug.
pub fn effective_namespace(flag: Option<&str>, compat: Option<String>) -> (r: Result<Option<String>, String>)
    ensures
        match opt_str(flag) {
            None => r matches Ok(n) && opt_view(n) == opt_view(compat),
            Some(f) => match namespace_of(f) {
                Ok(n) => r matches Ok(m) && opt_view(m) == n,
                Err(e) => r matches Err(m) && m@ == e,
            },
        },
{
    match flag {
        Some(value) => {
            let n = normalize_namespace(value)?;
            Ok(n)
        },
        None => Ok(compat),
    }
}

/// The message for an entry that already exists.
pub fn already_exists(slug: &str) -> (r: String)
    ensures
        r@ == "Entry '"@ + slug@ + "' already exists. Use `mind edit "@ + slug@ + "` instead."@,
{
    let mut m = concat("Entry '", slug);
    push_str(&mut m, "' already exists. Use `mind edit ");
    push_str(&mut m, slug);
    push_str(&mut m, "` instead.");
    m
}

/// The status an entry is given: the one named, else active.
pub open spec fn status_given(st: Option<Seq<char>>) -> Status {
    match st {
        Some(x) => match Status::named(unicode_lower(x)) {
            Some(s) => s,
            None => Status::Active,
        },
        None => Status::Active,
    }
}

pub open spec fn namespace_error(ns: Option<Seq<char>>) -> Option<Seq<char>> {
    match ns {
        Some(n) => match namespace_of(n) {
            Err(e) => Some(e),
            Ok(_) => None,
        },
        None => None,
    }
}

/// A new entry from the flags of `insert`. The first flag that cannot be
/// read is reported, in the order kind, priority, status, deadline; then
/// the clock is read (an error if it cannot be), and last the namespace.
pub fn build_from_flags(
    slug: &str,
    title: Option<&str>,
    namespace: Option<String>,
    kind: &str,
    description: Option<&str>,
    priority: &str,
    status: Option<&str>,
    deadline: Option<&str>,
    tags: Option<&str>,
) -> (r: Result<Entry, String>)
    ensures
        match first_error(seq![
            kind_error(Some(kind@)),
            priority_error(Some(priority@)),
            status_error(opt_str(status)),
            deadline_option_error(opt_str(deadline)),
        ]) {
            Some(e) => r matches Err(m) && m@ == e,
            None => (r matches Err(m) && m@ == msg_clock()) || match namespace_error(opt_view(namespace)) {
                Some(e) => r matches Err(m) && m@ == e,
                None => r matches Ok(entry) && {
                    &&& entry.title@ == match given_text(opt_str(title)) {
                        Some(t) => t,
                        None => slug@,
                    }
                    &&& Some(entry.kind) == Kind::named(unicode_lower(kind@))
                    &&& Some(entry.priority) == Priority::named(unicode_lower(priority@))
                    &&& entry.status == status_given(opt_str(status))
                    &&& opt_view(entry.description) == normalized_description(opt_str(description))
                    &&& entry.deadline == date_value(opt_str(deadline))
                    &&& seq_view_of(entry.tags@) == match opt_str(tags) {
                        Some(t) => tags_of_list(t),
                        None => Seq::empty(),
                    }
                    &&& opt_view(entry.namespace) == match opt_view(namespace) {
                        Some(n) => namespace_of(n)->Ok_0,
                        None => None,
                    }
                    &&& entry.created == entry.updated
                    &&& clock_reading(entry.created)
                },
            },
        },
{
    let ghost errs = seq![
        kind_error(Some(kind@)),
        priority_error(Some(priority@)),
        status_error(opt_str(status)),
        deadline_option_error(opt_str(deadline)),
    ];
    proof {
        reveal_with_fuel(first_error, 5);
        assert(errs.drop_first()[0] == errs[1]);
        assert(errs.drop_first().drop_first()[0] == errs[2]);
        assert(errs.drop_first().drop_first().drop_first()[0] == errs[3]);
        assert(errs.drop_first().drop_first().drop_first().drop_first().len() == 0);
    }
    let kind = Kind::from_str(kind)?;
    let priority = Priority::from_str(priority)?;
    let status = match status {
        Some(s) => Status::from_str(s)?,
        None => Status::Active,
    };
    let deadline = match deadline {
        Some(d) => Some(parse_deadline(d)?),
        None => None,
    };
    let title = match clean_text(title) {
        Some(t) => t,
        None => slug.to_owned(),
    };
    let mut entry = Entry::new(title, kind, priority, status)?;
    entry.namespace = namespace;
    entry.description = match description {
        Some(d) => {
            let t = trim_str(d);
            if t.as_str().is_empty() {
                None
            } else {
                Some(d.to_owned())
            }
        },
        None => None,
    };
    entry.deadline = deadline;
    if let Some(t) = tags {
        entry.tags = parse_tags(t);
    }
    let ghost before = entry;
    entry.normalize()?;
    proof {
        if let Some(t) = tags {
            lemma_normalize_tags_idempotent(split(t@, ','));
        } else {
            assert(seq_view_of(before.tags@) =~= Seq::<Seq<char>>::empty());
        }
        if let Some(d) = description {
            crate::entry::lemma_trim_idempotent(d@);
        }
    }
    Ok(entry)
}

/// The field that the interactive building of a new entry fills next.
pub enum InsertPhase {
    Title,
    Kind,
    Description,
    Namespace,
    Priority,
    Status,
    Deadline,
    Tags,
}

/// The flags of `insert` that the interactive building reads.
pub struct InsertFlags {
    pub title: Option<String>,
    pub kind: Option<String>,
    pub description: Option<String>,
    pub priority: Option<String>,
    pub status: Option<String>,
    pub deadline: Option<String>,
    pub tags: Option<String>,
}

/// A new entry being built from flags and answers.
pub struct InsertDraft {
    pub phase: InsertPhase,
    pub slug: String,
    pub flags: InsertFlags,
    pub title: String,
    pub kind: Kind,
    pub description: Option<String>,
    pub namespace: Option<String>,
    pub priority: Priority,
    pub status: Status,
    pub deadline: Option<Date>,
    pub tags: Vec<String>,
}

/// What to do after a step of the interactive building.
pub enum InsertStep {
    /// Put the question, and come back with its answer.
    Ask(Question),
    /// Come back without an answer: a field was filled.
    Next,
    /// The entry cannot be built, for this reason.
    Failed(String),
    /// The entry is built.
    Built(Entry),
}

/// The flags as plain values.
pub struct InsertFlagsView {
    pub title: Option<Seq<char>>,
    pub kind: Option<Seq<char>>,
    pub description: Option<Seq<char>>,
    pub priority: Option<Seq<char>>,
    pub status: Option<Seq<char>>,
    pub deadline: Option<Seq<char>>,
    pub tags: Option<Seq<char>>,
}

pub open spec fn flags_view(f: InsertFlags) -> InsertFlagsView {
    InsertFlagsView {
        title: opt_view(f.title),
        kind: opt_view(f.kind),
        description: opt_view(f.description),
        priority: opt_view(f.priority),
        status: opt_view(f.status),
        deadline: opt_view(f.deadline),
        tags: opt_view(f.tags),
    }
}

/// The fields of a draft as plain values.
pub struct InsertView {
    pub phase: InsertPhase,
    pub title: Seq<char>,
    pub kind: Kind,
    pub description: Option<Seq<char>>,
    pub namespace: Option<Seq<char>>,
    pub priority: Priority,
    pub status: Status,
    pub deadline: Option<Date>,
    pub tags: Seq<Seq<char>>,
}

pub open spec fn insert_view(d: InsertDraft) -> InsertView {
    InsertView {
        phase: d.phase,
        title: d.title@,
        kind: d.kind,
        description: opt_view(d.description),
        namespace: opt_view(d.namespace),
        priority: d.priority,
        status: d.status,
        deadline: d.deadline,
        tags: seq_view_of(d.tags@),
    }
}

/// A step's outcome as plain values (the entry without its instants).
pub enum InsertStepView {
    Ask(QuestionView),
    Next,
    Failed(Seq<char>),
    Built(EntryView),
}

pub open spec fn insert_step_view(r: InsertStep) -> InsertStepView {
    match r {
        InsertStep::Ask(q) => InsertStepView::Ask(crate::commands::prompt::question_view(q)),
        InsertStep::Next => InsertStepView::Next,
        InsertStep::Failed(e) => InsertStepView::Failed(e@),
        InsertStep::Built(e) => InsertStepView::Built(entry_view(e)),
    }
}

/// The entry made of the fields of a draft, normalised; its namespace may
/// be refused.
pub open spec fn built(v: InsertView) -> InsertStepView {
    match normalized_namespace(v.namespace) {
        Err(e) => InsertStepView::Failed(e),
        Ok(ns) => InsertStepView::Built(EntryView {
            title: v.title,
            kind: v.kind,
            description: normalized_description(v.description),
            priority: v.priority,
            status: v.status,
            tags: normalized_tags(v.tags),
            deadline: v.deadline,
            namespace: ns,
        }),
    }
}

/// One step of the interactive building: the answer to the last question,
/// if any, fills the current field; else its flag does, if given (a flag
/// that cannot be read ends the building); else the field's question is
/// put. After the tags the entry is built.
pub open spec fn insert_next(v: InsertView, slug: Seq<char>, f: InsertFlagsView, a: Option<AnswerView>) -> (InsertView, InsertStepView) {
    match v.phase {
        InsertPhase::Title => match typed(a) {
            Some(t) => (InsertView { phase: InsertPhase::Kind, title: t, ..v }, InsertStepView::Next),
            None => match given_text(f.title) {
                Some(t) => (InsertView { phase: InsertPhase::Kind, title: t, ..v }, InsertStepView::Next),
                None => (v, InsertStepView::Ask(QuestionView::Line("Title"@, Seq::empty(), Some(slug)))),
            },
        },
        InsertPhase::Kind => if chosen(a) is Some && kind_at(chosen(a)->Some_0) is Some {
            (InsertView { phase: InsertPhase::Description, kind: kind_at(chosen(a)->Some_0)->Some_0, ..v }, InsertStepView::Next)
        } else {
            match f.kind {
                Some(k) => match Kind::named(unicode_lower(k)) {
                    Some(x) => (InsertView { phase: InsertPhase::Description, kind: x, ..v }, InsertStepView::Next),
                    None => (v, InsertStepView::Failed("unknown kind: "@ + k)),
                },
                None => (v, InsertStepView::Ask(QuestionView::Choose("Kind"@, kind_names(), 0))),
            }
        },
        InsertPhase::Description => match edited(a) {
            Some(t) => (InsertView { phase: InsertPhase::Namespace, description: given_text(t), ..v }, InsertStepView::Next),
            None => match f.description {
                Some(x) => (InsertView { phase: InsertPhase::Namespace, description: given_text(Some(x)), ..v }, InsertStepView::Next),
                None => (v, InsertStepView::Ask(QuestionView::Edit(
                    "Enter description (optional, save and close editor when done)"@,
                ))),
            },
        },
        InsertPhase::Namespace => match typed(a) {
            Some(t) => match namespace_of(t) {
                Ok(n) => (InsertView { phase: InsertPhase::Priority, namespace: n, ..v }, InsertStepView::Next),
                Err(e) => (v, InsertStepView::Failed(e)),
            },
            None => if v.namespace is Some {
                (InsertView { phase: InsertPhase::Priority, ..v }, InsertStepView::Next)
            } else {
                (v, InsertStepView::Ask(QuestionView::Line("Namespace (leave empty for ungrouped)"@, Seq::empty(), None)))
            },
        },
        InsertPhase::Priority => if chosen(a) is Some && priority_at(chosen(a)->Some_0) is Some {
            (InsertView { phase: InsertPhase::Status, priority: priority_at(chosen(a)->Some_0)->Some_0, ..v }, InsertStepView::Next)
        } else {
            match f.priority {
                Some(p) => match Priority::named(unicode_lower(p)) {
                    Some(x) => (InsertView { phase: InsertPhase::Status, priority: x, ..v }, InsertStepView::Next),
                    None => (v, InsertStepView::Failed("unknown priority: "@ + p)),
                },
                None => (v, InsertStepView::Ask(QuestionView::Choose("Priority"@, priority_names(), 1))),
            }
        },
        InsertPhase::Status => if chosen(a) is Some && status_at(chosen(a)->Some_0) is Some {
            (InsertView { phase: InsertPhase::Deadline, status: status_at(chosen(a)->Some_0)->Some_0, ..v }, InsertStepView::Next)
        } else {
            match f.status {
                Some(st) => match Status::named(unicode_lower(st)) {
                    Some(x) => (InsertView { phase: InsertPhase::Deadline, status: x, ..v }, InsertStepView::Next),
                    None => (v, InsertStepView::Failed("unknown status: "@ + st)),
                },
                None => (v, InsertStepView::Ask(QuestionView::Choose("Status"@, status_names(), 0))),
            }
        },
        InsertPhase::Deadline => match typed(a) {
            Some(t) => if t.len() == 0 {
                (InsertView { phase: InsertPhase::Tags, deadline: None, ..v }, InsertStepView::Next)
            } else {
                match read_date(t) {
                    Ok(dt) => (InsertView { phase: InsertPhase::Tags, deadline: Some(dt), ..v }, InsertStepView::Next),
                    Err(e) => (v, InsertStepView::Failed(deadline_error(e))),
                }
            },
            None => match f.deadline {
                Some(x) => match read_date(x) {
                    Ok(dt) => (InsertView { phase: InsertPhase::Tags, deadline: Some(dt), ..v }, InsertStepView::Next),
                    Err(e) => (v, InsertStepView::Failed(deadline_error(e))),
                },
                None => (v, InsertStepView::Ask(QuestionView::Line(
                    "Deadline (YYYY-MM-DD, leave empty to skip)"@,
                    Seq::empty(),
                    None,
                ))),
            },
        },
        InsertPhase::Tags => match typed(a) {
            Some(t) => {
                let w = InsertView { tags: if t.len() == 0 { Seq::empty() } else { tags_of_list(t) }, ..v };
                (w, built(w))
            },
            None => match f.tags {
                Some(x) => {
                    let w = InsertView { tags: tags_of_list(x), ..v };
                    (w, built(w))
                },
                None => (v, InsertStepView::Ask(QuestionView::Line(
                    "Tags (comma-separated, leave empty to skip)"@,
                    Seq::empty(),
                    None,
                ))),
            },
        },
    }
}

impl InsertDraft {
    /// A draft for the entry `slug`, in the namespace given (if any), with
    /// the flags given; its title comes first.
    pub fn new(slug: String, namespace: Option<String>, flags: InsertFlags) -> (d: InsertDraft)
        ensures
            d.slug == slug,
            d.flags == flags,
            insert_view(d) == (InsertView {
                phase: InsertPhase::Title,
                title: Seq::empty(),
                kind: Kind::Idea,
                description: None,
                namespace: opt_view(namespace),
                priority: Priority::Medium,
                status: Status::Active,
                deadline: None,
                tags: Seq::empty(),
            }),
    {
        let d = InsertDraft {
            phase: InsertPhase::Title,
            slug,
            flags,
            title: String::new(),
            kind: Kind::Idea,
            description: None,
            namespace,
            priority: Priority::Medium,
            status: Status::Active,
            deadline: None,
            tags: Vec::new(),
        };
        assert(seq_view_of(d.tags@) =~= Seq::<Seq<char>>::empty());
        d
    }
}

fn opt_as_str(o: &Option<String>) -> (r: Option<&str>)
    ensures
        opt_str(r) == opt_view(*o),
{
    match o {
        Some(s) => Some(s.as_str()),
        None => None,
    }
}

/// The entry made of the fields of a draft, unless the clock cannot be read.
fn build_draft(d: &InsertDraft) -> (r: InsertStep)
    ensures
        insert_step_view(r) == built(insert_view(*d)) || insert_step_view(r) == InsertStepView::Failed(msg_clock()),
        r matches InsertStep::Built(e) ==> e.created == e.updated && clock_reading(e.created),
{
    let mut entry = match Entry::new(d.title.clone(), d.kind, d.priority, d.status) {
        Ok(e) => e,
        Err(e) => return InsertStep::Failed(e),
    };
    entry.namespace = copy_opt(&d.namespace);
    entry.description = copy_opt(&d.description);
    entry.deadline = d.deadline;
    entry.tags = copy_strings(&d.tags);
    match entry.normalize() {
        Ok(()) => InsertStep::Built(entry),
        Err(e) => InsertStep::Failed(e),
    }
}

/// One step of building a new entry interactively, with the answer to the
/// question of the previous step, if there was one.
#[verifier::rlimit(60)]
pub fn insert_step(d: &mut InsertDraft, answer: Option<Answer>) -> (r: InsertStep)
    ensures
        final(d).slug == old(d).slug,
        final(d).flags == old(d).flags,
        insert_view(*final(d)) == insert_next(
            insert_view(*old(d)),
            old(d).slug@,
            flags_view(old(d).flags),
            answer_view(answer),
        ).0,
        ({
            let next = insert_next(insert_view(*old(d)), old(d).slug@, flags_view(old(d).flags), answer_view(answer));
            ||| insert_step_view(r) == next.1
            ||| old(d).phase == InsertPhase::Tags && next.1 == built(next.0)
                && insert_step_view(r) == InsertStepView::Failed(msg_clock())
        }),
        r matches InsertStep::Built(e) ==> e.created == e.updated && clock_reading(e.created),
{
    let ghost a = answer_view(answer);
    match d.phase {
        InsertPhase::Title => {
            if let Some(Answer::Text(t)) = answer {
                d.title = t;
                d.phase = InsertPhase::Kind;
                return InsertStep::Next;
            }
            match clean_text(opt_as_str(&d.flags.title)) {
                Some(t) => {
                    d.title = t;
                    d.phase = InsertPhase::Kind;
                    InsertStep::Next
                },
                None => InsertStep::Ask(Question::Line {
                    prompt: "Title".to_owned(),
                    initial: String::new(),
                    default: Some(d.slug.clone()),
                }),
            }
        },
        InsertPhase::Kind => {
            if let Some(Answer::Chosen(i)) = answer {
                if let Some(k) = kind_at_pos(i) {
                    d.kind = k;
                    d.phase = InsertPhase::Description;
                    return InsertStep::Next;
                }
            }
            match &d.flags.kind {
                Some(k) => match Kind::from_str(k.as_str()) {
                    Ok(x) => {
                        d.kind = x;
                        d.phase = InsertPhase::Description;
                        InsertStep::Next
                    },
                    Err(e) => InsertStep::Failed(e),
                },
                None => InsertStep::Ask(Question::Choose { prompt: "Kind".to_owned(), items: kind_list(), selected: 0 }),
            }
        },
        InsertPhase::Description => {
            if let Some(Answer::Edited(t)) = answer {
                d.description = clean_text(opt_as_str(&t));
                d.phase = InsertPhase::Namespace;
                return InsertStep::Next;
            }
            match &d.flags.description {
                Some(x) => {
                    d.description = clean_text(Some(x.as_str()));
                    d.phase = InsertPhase::Namespace;
                    InsertStep::Next
                },
                None => InsertStep::Ask(Question::Edit {
                    initial: "Enter description (optional, save and close editor when done)".to_owned(),
                }),
            }
        },
        InsertPhase::Namespace => {
            if let Some(Answer::Text(t)) = answer {
                return match normalize_namespace(t.as_str()) {
                    Ok(n) => {
                        d.namespace = n;
                        d.phase = InsertPhase::Priority;
                        InsertStep::Next
                    },
                    Err(e) => InsertStep::Failed(e),
                };
            }
            if d.namespace.is_some() {
                d.phase = InsertPhase::Priority;
                InsertStep::Next
            } else {
                InsertStep::Ask(Question::Line {
                    prompt: "Namespace (leave empty for ungrouped)".to_owned(),
                    initial: String::new(),
                    default: None,
                })
            }
        },
        InsertPhase::Priority => {
            if let Some(Answer::Chosen(i)) = answer {
                if let Some(p) = priority_at_pos(i) {
                    d.priority = p;
                    d.phase = InsertPhase::Status;
                    return InsertStep::Next;
                }
            }
            match &d.flags.priority {
                Some(p) => match Priority::from_str(p.as_str()) {
                    Ok(x) => {
                        d.priority = x;
                        d.phase = InsertPhase::Status;
                        InsertStep::Next
                    },
                    Err(e) => InsertStep::Failed(e),
                },
                None => InsertStep::Ask(Question::Choose {
                    prompt: "Priority".to_owned(),
                    items: priority_list(),
                    selected: 1,
                }),
            }
        },
        InsertPhase::Status => {
            if let Some(Answer::Chosen(i)) = answer {
                if let Some(st) = status_at_pos(i) {
                    d.status = st;
                    d.phase = InsertPhase::Deadline;
                    return InsertStep::Next;
                }
            }
            match &d.flags.status {
                Some(st) => match Status::from_str(st.as_str()) {
                    Ok(x) => {
                        d.status = x;
                        d.phase = InsertPhase::Deadline;
                        InsertStep::Next
                    },
                    Err(e) => InsertStep::Failed(e),
                },
                None => InsertStep::Ask(Question::Choose {
                    prompt: "Status".to_owned(),
                    items: status_list(),
                    selected: 0,
                }),
            }
        },
        InsertPhase::Deadline => {
            if let Some(Answer::Text(t)) = answer {
                if t.as_str().is_empty() {
                    d.deadline = None;
                    d.phase = InsertPhase::Tags;
                    return InsertStep::Next;
                }
                return match parse_deadline(t.as_str()) {
                    Ok(dt) => {
                        d.deadline = Some(dt);
                        d.phase = InsertPhase::Tags;
                        InsertStep::Next
                    },
                    Err(e) => InsertStep::Failed(e),
                };
            }
            match &d.flags.deadline {
                Some(x) => match parse_deadline(x.as_str()) {
                    Ok(dt) => {
                        d.deadline = Some(dt);
                        d.phase = InsertPhase::Tags;
                        InsertStep::Next
                    },
                    Err(e) => InsertStep::Failed(e),
                },
                None => InsertStep::Ask(Question::Line {
                    prompt: "Deadline (YYYY-MM-DD, leave empty to skip)".to_owned(),
                    initial: String::new(),
                    default: None,
                }),
            }
        },
        InsertPhase::Tags => {
            if let Some(Answer::Text(t)) = answer {
                let ghost v = insert_view(*d);
                d.tags = if t.as_str().is_empty() { Vec::new() } else { parse_tags(t.as_str()) };
                assert(seq_view_of(d.tags@) =~= if t@.len() == 0 { Seq::empty() } else { tags_of_list(t@) });
                assert(insert_view(*d) == InsertView { tags: if t@.len() == 0 { Seq::empty() } else { tags_of_list(t@) }, ..v });
                return build_draft(d);
            }
            match &d.flags.tags {
                Some(x) => {
                    d.tags = parse_tags(x.as_str());
                    build_draft(d)
                },
                None => InsertStep::Ask(Question::Line {
                    prompt: "Tags (comma-separated, leave empty to skip)".to_owned(),
                    initial: String::new(),
                    default: None,
                }),
            }
        },
    }
}

/// What each answer in interactive insertion does: the title typed becomes
/// the title; a description saved in the editor becomes the description,
/// trimmed, unless blank; the position chosen for kind, priority or status
/// selects the value of the name offered there; the namespace typed is read
/// as a namespace (its error ends the insertion). Each answer changes that
/// field alone and moves to the next question. A title flag that is not
/// blank is taken, trimmed, without asking; with none the slug is offered.
pub proof fn law_insert_answers(v: InsertView, slug: Seq<char>, f: InsertFlagsView, t: Seq<char>, i: int)
    ensures
        ({
            let n = insert_next(InsertView { phase: InsertPhase::Title, ..v }, slug, f, Some(AnswerView::Text(t)));
            n.0 == (InsertView { phase: InsertPhase::Kind, title: t, ..v }) && n.1 == InsertStepView::Next
        }),
        f.title matches Some(x) ==> (trim(x).len() > 0 ==> insert_next(InsertView { phase: InsertPhase::Title, ..v }, slug, f, None).0
            == (InsertView { phase: InsertPhase::Kind, title: trim(x), ..v })),
        f.title is None ==> insert_next(InsertView { phase: InsertPhase::Title, ..v }, slug, f, None).1 == InsertStepView::Ask(
            QuestionView::Line("Title"@, Seq::empty(), Some(slug)),
        ),
        trim(t).len() > 0 ==> insert_next(InsertView { phase: InsertPhase::Description, ..v }, slug, f, Some(
            AnswerView::Edited(Some(t)),
        )).0 == (InsertView { phase: InsertPhase::Namespace, description: Some(trim(t)), ..v }),
        trim(t).len() == 0 ==> insert_next(InsertView { phase: InsertPhase::Description, ..v }, slug, f, Some(
            AnswerView::Edited(Some(t)),
        )).0 == (InsertView { phase: InsertPhase::Namespace, description: None, ..v }),
        0 <= i < kind_names().len() ==> ({
            let n = insert_next(InsertView { phase: InsertPhase::Kind, ..v }, slug, f, Some(AnswerView::Chosen(i)));
            n.0 == (InsertView { phase: InsertPhase::Description, kind: n.0.kind, ..v }) && n.0.kind.name() == kind_names()[i]
        }),
        0 <= i < priority_names().len() ==> ({
            let n = insert_next(InsertView { phase: InsertPhase::Priority, ..v }, slug, f, Some(AnswerView::Chosen(i)));
            n.0 == (InsertView { phase: InsertPhase::Status, priority: n.0.priority, ..v })
                && n.0.priority.name() == priority_names()[i]
        }),
        0 <= i < status_names().len() ==> ({
            let n = insert_next(InsertView { phase: InsertPhase::Status, ..v }, slug, f, Some(AnswerView::Chosen(i)));
            n.0 == (InsertView { phase: InsertPhase::Deadline, status: n.0.status, ..v }) && n.0.status.name() == status_names()[i]
        }),
        namespace_of(t) matches Ok(ns) ==> insert_next(InsertView { phase: InsertPhase::Namespace, ..v }, slug, f, Some(
            AnswerView::Text(t),
        )).0 == (InsertView { phase: InsertPhase::Priority, namespace: ns, ..v }),
        namespace_of(t) matches Err(e) ==> insert_next(InsertView { phase: InsertPhase::Namespace, ..v }, slug, f, Some(
            AnswerView::Text(t),
        )).1 == InsertStepView::Failed(e),
{
}

} // verus!
