//! `edit`: changes to an existing entry, given as flags.
use vstd::prelude::*;
use crate::commands::insert::{deadline_option_error, given_text, namespace_error, parse_deadline};
use crate::commands::ls::{date_value, kind_error, opt_str, priority_error, status_error};
use crate::commands::insert::{clean_text, deadline_error};
use crate::commands::prompt::{
    answer_view, chosen, edited, kind_at, kind_at_pos, kind_list, kind_names, kind_pos, kind_position,
    priority_at, priority_at_pos, priority_list, priority_names, priority_pos, priority_position, status_at,
    status_at_pos, status_list, status_names, status_pos, status_position, typed, Answer, AnswerView,
    Question, QuestionView,
};
use crate::entry::{entry_view, namespace_of, normalize_namespace, opt_view, Entry, EntryView, Kind, Priority, Status};
use crate::text::{
    concat, join, join_strs, push_str, seq_view_of, split, split_str, str_eq, trim, trim_str, unicode_lower,
};
use crate::time::{chrono_date_text, date_text, four_digit_date, lemma_ymd_text_read, read_date, ymd_text, Date};

verus! {

pub open spec fn lit_none() -> Seq<char> {
    seq!['n', 'o', 'n', 'e']
}

pub open spec fn msg_both_descriptions() -> Seq<char> {
    "use either --description or --append-description, not both"@
}

/// A deadline flag: `none` clears it, anything else must be a date.
pub open spec fn deadline_flag_error(d: Option<Seq<char>>) -> Option<Seq<char>> {
    match d {
        Some(x) => if x == lit_none() { None } else { deadline_option_error(d) },
        None => None,
    }
}

/// A namespace flag: `none` clears it, anything else must be a namespace.
pub open spec fn namespace_flag_error(n: Option<Seq<char>>) -> Option<Seq<char>> {
    match n {
        Some(x) => if x == lit_none() { None } else { namespace_error(n) },
        None => None,
    }
}

/// The description after `--description` or `--append-description`.
pub open spec fn description_after(old: Option<Seq<char>>, set: Option<Seq<char>>, append: Option<Seq<char>>) -> Option<Seq<char>> {
    match set {
        Some(d) => Some(d),
        None => match append {
            Some(d) => match old {
                Some(o) => if o.len() == 0 { Some(d) } else { Some(o + seq!['\n'] + d) },
                None => Some(d),
            },
            None => old,
        },
    }
}

/// The tags after `--tags`: `none` clears them, anything else is split at
/// commas and each piece trimmed.
pub open spec fn tags_after(old: Seq<Seq<char>>, t: Option<Seq<char>>) -> Seq<Seq<char>> {
    match t {
        Some(x) => if x == lit_none() {
            Seq::empty()
        } else {
            split(x, ',').map_values(|p: Seq<char>| trim(p))
        },
        None => old,
    }
}

/// Splits at commas and trims each piece.
pub fn split_trimmed(t: &str) -> (r: Vec<String>)
    ensures
        seq_view_of(r@) == split(t@, ',').map_values(|p: Seq<char>| trim(p)),
{
    let parts = split_str(t, ',');
    let ghost pv = seq_view_of(parts@);
    let mut out: Vec<String> = Vec::new();
    let mut i: usize = 0;
    while i < parts.len()
        invariant
            i <= parts.len(),
            pv == seq_view_of(parts@),
            seq_view_of(out@) == pv.take(i as int).map_values(|p: Seq<char>| trim(p)),
        decreases parts.len() - i,
    {
        let ghost prev = seq_view_of(out@);
        out.push(trim_str(parts[i].as_str()));
        assert(seq_view_of(out@) =~= prev.push(trim(pv[i as int])));
        assert(pv.take(i + 1).map_values(|p: Seq<char>| trim(p)) =~= pv.take(i as int).map_values(|p: Seq<char>| trim(p)).push(trim(pv[i as int])));
        i = i + 1;
    }
    assert(pv.take(parts.len() as int) == pv);
    out
}

/// The value a `none`-or-namespace flag sets.
pub open spec fn namespace_flag_value(n: Seq<char>) -> Option<Seq<char>> {
    if n == lit_none() { None } else { namespace_of(n)->Ok_0 }
}

/// The value a `none`-or-date flag sets.
pub open spec fn deadline_flag_value(d: Seq<char>) -> Option<Date> {
    if d == lit_none() { None } else { date_value(Some(d)) }
}

/// The kind, priority or status a flag sets, or the one before.
pub open spec fn kind_after(old: Kind, k: Option<Seq<char>>) -> Kind {
    match k {
        Some(x) => match Kind::named(unicode_lower(x)) {
            Some(v) => v,
            None => old,
        },
        None => old,
    }
}

pub open spec fn priority_after(old: Priority, p: Option<Seq<char>>) -> Priority {
    match p {
        Some(x) => match Priority::named(unicode_lower(x)) {
            Some(v) => v,
            None => old,
        },
        None => old,
    }
}

pub open spec fn status_after(old: Status, st: Option<Seq<char>>) -> Status {
    match st {
        Some(x) => match Status::named(unicode_lower(x)) {
            Some(v) => v,
            None => old,
        },
        None => old,
    }
}

/// What the flags of `edit` make of an entry with fields `e`, applied in
/// turn (after the check that not both descriptions are given: kind,
/// description, priority, status, deadline, tags, title, namespace), and the
/// error of the first flag that cannot be read, if any. The flags applied
/// before that one stay applied.
pub open spec fn flags_outcome(
    e: EntryView,
    title: Option<Seq<char>>,
    namespace: Option<Seq<char>>,
    kind: Option<Seq<char>>,
    description: Option<Seq<char>>,
    append_description: Option<Seq<char>>,
    priority: Option<Seq<char>>,
    status: Option<Seq<char>>,
    deadline: Option<Seq<char>>,
    tags: Option<Seq<char>>,
) -> (EntryView, Option<Seq<char>>) {
    if description is Some && append_description is Some {
        (e, Some(msg_both_descriptions()))
    } else if kind_error(kind) is Some {
        (e, kind_error(kind))
    } else {
        let e1 = EntryView {
            kind: kind_after(e.kind, kind),
            description: description_after(e.description, description, append_description),
            ..e
        };
        if priority_error(priority) is Some {
            (e1, priority_error(priority))
        } else {
            let e2 = EntryView { priority: priority_after(e1.priority, priority), ..e1 };
            if status_error(status) is Some {
                (e2, status_error(status))
            } else {
                let e3 = EntryView { status: status_after(e2.status, status), ..e2 };
                if deadline_flag_error(deadline) is Some {
                    (e3, deadline_flag_error(deadline))
                } else {
                    let e4 = EntryView {
                        deadline: match deadline {
                            Some(d) => deadline_flag_value(d),
                            None => e3.deadline,
                        },
                        tags: tags_after(e3.tags, tags),
                        title: match given_text(title) {
                            Some(t) => t,
                            None => e3.title,
                        },
                        ..e3
                    };
                    if namespace_flag_error(namespace) is Some {
                        (e4, namespace_flag_error(namespace))
                    } else {
                        (EntryView {
                            namespace: match namespace {
                                Some(n) => namespace_flag_value(n),
                                None => e4.namespace,
                            },
                            ..e4
                        }, None)
                    }
                }
            }
        }
    }
}

/// The conflict check, then the kind and the description flags.
fn apply_kind_and_description(
    entry: &mut Entry,
    kind: Option<&str>,
    description: Option<&str>,
    append_description: Option<&str>,
) -> (r: Result<(), String>)
    ensures
        description is Some && append_description is Some ==> (r matches Err(m) && m@ == msg_both_descriptions()
            && *final(entry) == *old(entry)),
        !(description is Some && append_description is Some) ==> match kind_error(opt_str(kind)) {
            Some(e) => r matches Err(m) && m@ == e && *final(entry) == *old(entry),
            None => r is Ok && entry_view(*final(entry)) == (EntryView {
                kind: kind_after(old(entry).kind, opt_str(kind)),
                description: description_after(
                    opt_view(old(entry).description),
                    opt_str(description),
                    opt_str(append_description),
                ),
                ..entry_view(*old(entry))
            }),
        },
        final(entry).created == old(entry).created,
        final(entry).updated == old(entry).updated,
{
    if description.is_some() && append_description.is_some() {
        return Err("use either --description or --append-description, not both".to_owned());
    }
    if let Some(k) = kind {
        entry.kind = Kind::from_str(k)?;
    }
    if let Some(d) = description {
        entry.description = Some(d.to_owned());
    } else if let Some(d) = append_description {
        let appended = match &entry.description {
            Some(old) => if old.as_str().is_empty() {
                d.to_owned()
            } else {
                let mut s = concat(old.as_str(), "\n");
                proof {
                    reveal_strlit("\n");
                    assert("\n"@ =~= seq!['\n']);
                }
                push_str(&mut s, d);
                s
            },
            None => d.to_owned(),
        };
        entry.description = Some(appended);
    }
    Ok(())
}

/// The priority flag.
fn apply_priority(entry: &mut Entry, priority: Option<&str>) -> (r: Result<(), String>)
    ensures
        match priority_error(opt_str(priority)) {
            Some(e) => r matches Err(m) && m@ == e && *final(entry) == *old(entry),
            None => r is Ok && entry_view(*final(entry)) == (EntryView {
                priority: priority_after(old(entry).priority, opt_str(priority)),
                ..entry_view(*old(entry))
            }),
        },
        final(entry).created == old(entry).created,
        final(entry).updated == old(entry).updated,
{
    if let Some(p) = priority {
        entry.priority = Priority::from_str(p)?;
    }
    Ok(())
}

/// The status flag.
fn apply_status(entry: &mut Entry, status: Option<&str>) -> (r: Result<(), String>)
    ensures
        match status_error(opt_str(status)) {
            Some(e) => r matches Err(m) && m@ == e && *final(entry) == *old(entry),
            None => r is Ok && entry_view(*final(entry)) == (EntryView {
                status: status_after(old(entry).status, opt_str(status)),
                ..entry_view(*old(entry))
            }),
        },
        final(entry).created == old(entry).created,
        final(entry).updated == old(entry).updated,
{
    if let Some(st) = status {
        entry.status = Status::from_str(st)?;
    }
    Ok(())
}

/// The deadline flag, then the tags and title flags.
fn apply_deadline_tags_title(
    entry: &mut Entry,
    deadline: Option<&str>,
    tags: Option<&str>,
    title: Option<&str>,
) -> (r: Result<(), String>)
    ensures
        match deadline_flag_error(opt_str(deadline)) {
            Some(e) => r matches Err(m) && m@ == e && *final(entry) == *old(entry),
            None => r is Ok && entry_view(*final(entry)) == (EntryView {
                deadline: match deadline {
                    Some(d) => deadline_flag_value(d@),
                    None => old(entry).deadline,
                },
                tags: tags_after(seq_view_of(old(entry).tags@), opt_str(tags)),
                title: match given_text(opt_str(title)) {
                    Some(t) => t,
                    None => old(entry).title@,
                },
                ..entry_view(*old(entry))
            }),
        },
        final(entry).created == old(entry).created,
        final(entry).updated == old(entry).updated,
{
    proof {
        reveal_strlit("none");
        assert("none"@ =~= lit_none());
    }
    if let Some(d) = deadline {
        if str_eq(d, "none") {
            entry.deadline = None;
        } else {
            entry.deadline = Some(parse_deadline(d)?);
        }
    }
    if let Some(t) = tags {
        if str_eq(t, "none") {
            entry.tags = Vec::new();
            assert(seq_view_of(entry.tags@) =~= Seq::<Seq<char>>::empty());
        } else {
            entry.tags = split_trimmed(t);
        }
    }
    if let Some(t) = clean_text(title) {
        entry.title = t;
    }
    Ok(())
}

/// The namespace flag.
fn apply_namespace(entry: &mut Entry, namespace: Option<&str>) -> (r: Result<(), String>)
    ensures
        match namespace_flag_error(opt_str(namespace)) {
            Some(e) => r matches Err(m) && m@ == e && *final(entry) == *old(entry),
            None => r is Ok && entry_view(*final(entry)) == (EntryView {
                namespace: match namespace {
                    Some(n) => namespace_flag_value(n@),
                    None => opt_view(old(entry).namespace),
                },
                ..entry_view(*old(entry))
            }),
        },
        final(entry).created == old(entry).created,
        final(entry).updated == old(entry).updated,
{
    proof {
        reveal_strlit("none");
        assert("none"@ =~= lit_none());
    }
    if let Some(n) = namespace {
        if str_eq(n, "none") {
            entry.namespace = None;
        } else {
            entry.namespace = normalize_namespace(n)?;
        }
    }
    Ok(())
}

/// Applies the flags of `edit` to an entry, in turn: the first flag that
/// cannot be read ends it with its error, the flags before it applied.
pub fn apply_flags(
    entry: &mut Entry,
    title: Option<&str>,
    namespace: Option<&str>,
    kind: Option<&str>,
    description: Option<&str>,
    append_description: Option<&str>,
    priority: Option<&str>,
    status: Option<&str>,
    deadline: Option<&str>,
    tags: Option<&str>,
) -> (r: Result<(), String>)
    ensures
        ({
            let out = flags_outcome(
                entry_view(*old(entry)),
                opt_str(title),
                opt_str(namespace),
                opt_str(kind),
                opt_str(description),
                opt_str(append_description),
                opt_str(priority),
                opt_str(status),
                opt_str(deadline),
                opt_str(tags),
            );
            &&& entry_view(*final(entry)) == out.0
            &&& match out.1 {
                Some(e) => r matches Err(m) && m@ == e,
                None => r is Ok,
            }
        }),
        final(entry).created == old(entry).created,
        final(entry).updated == old(entry).updated,
{
    apply_kind_and_description(entry, kind, description, append_description)?;
    apply_priority(entry, priority)?;
    apply_status(entry, status)?;
    apply_deadline_tags_title(entry, deadline, tags, title)?;
    apply_namespace(entry, namespace)?;
    Ok(())
}

/// The message for an entry that does not exist.
pub fn not_found(name: &str) -> (r: String)
    ensures
        r@ == "Entry '"@ + name@ + "' not found."@,
{
    let mut m = concat("Entry '", name);
    push_str(&mut m, "' not found.");
    m
}

/// The field that editing an entry interactively asks about next.
pub enum EditPhase {
    Kind,
    Description,
    Priority,
    Status,
    Deadline,
    Tags,
}

/// An entry being edited interactively.
pub struct EditDraft {
    pub phase: EditPhase,
    pub entry: Entry,
}

/// What to do after a step of interactive editing.
pub enum EditStep {
    /// Put the question, and come back with its answer.
    Ask(Question),
    /// Come back without an answer: a field was changed.
    Next,
    /// The answer cannot be read, for this reason.
    Failed(String),
    /// Every field has been asked about.
    Finished,
}

/// A step's outcome as plain values.
pub enum EditStepView {
    Ask(QuestionView),
    Next,
    Failed(Seq<char>),
    Finished,
}

pub open spec fn edit_step_view(r: EditStep) -> EditStepView {
    match r {
        EditStep::Ask(q) => EditStepView::Ask(crate::commands::prompt::question_view(q)),
        EditStep::Next => EditStepView::Next,
        EditStep::Failed(e) => EditStepView::Failed(e@),
        EditStep::Finished => EditStepView::Finished,
    }
}

/// The text a deadline is shown as: chrono's `YYYY-MM-DD`, or nothing.
pub open spec fn deadline_text(dl: Option<Date>) -> Seq<char> {
    match dl {
        Some(d) => if four_digit_date(d.year as int, d.month as int, d.day as int) {
            ymd_text(d.year as int, d.month as int, d.day as int)
        } else {
            match chrono_date_text(d.year, d.month, d.day) {
                Some(t) => t,
                None => Seq::empty(),
            }
        },
        None => Seq::empty(),
    }
}

/// The text a deadline is shown as.
pub fn deadline_string(dl: Option<Date>) -> (r: String)
    ensures
        r@ == deadline_text(dl),
{
    match dl {
        Some(d) => match date_text(d) {
            Some(t) => t,
            None => String::new(),
        },
        None => String::new(),
    }
}

/// One step of interactive editing, in `phase`, of an entry with fields
/// `e`: the answer to the last question, if any, changes the current field;
/// else the field's question is put, starting from its current value.
pub open spec fn edit_next(phase: EditPhase, e: EntryView, a: Option<AnswerView>) -> (EditPhase, EntryView, EditStepView) {
    match phase {
        EditPhase::Kind => if chosen(a) is Some && kind_at(chosen(a)->Some_0) is Some {
            (EditPhase::Description, EntryView { kind: kind_at(chosen(a)->Some_0)->Some_0, ..e }, EditStepView::Next)
        } else {
            (phase, e, EditStepView::Ask(QuestionView::Choose("Kind"@, kind_names(), kind_pos(e.kind))))
        },
        EditPhase::Description => match edited(a) {
            Some(t) => (EditPhase::Priority, match given_text(t) {
                Some(x) => EntryView { description: Some(x), ..e },
                None => e,
            }, EditStepView::Next),
            None => (phase, e, EditStepView::Ask(QuestionView::Edit(match e.description {
                Some(x) => x,
                None => Seq::empty(),
            }))),
        },
        EditPhase::Priority => if chosen(a) is Some && priority_at(chosen(a)->Some_0) is Some {
            (EditPhase::Status, EntryView { priority: priority_at(chosen(a)->Some_0)->Some_0, ..e }, EditStepView::Next)
        } else {
            (phase, e, EditStepView::Ask(QuestionView::Choose("Priority"@, priority_names(), priority_pos(e.priority))))
        },
        EditPhase::Status => if chosen(a) is Some && status_at(chosen(a)->Some_0) is Some {
            (EditPhase::Deadline, EntryView { status: status_at(chosen(a)->Some_0)->Some_0, ..e }, EditStepView::Next)
        } else {
            (phase, e, EditStepView::Ask(QuestionView::Choose("Status"@, status_names(), status_pos(e.status))))
        },
        EditPhase::Deadline => match typed(a) {
            Some(t) => if t.len() == 0 {
                (EditPhase::Tags, EntryView { deadline: None, ..e }, EditStepView::Next)
            } else {
                match read_date(t) {
                    Ok(dt) => (EditPhase::Tags, EntryView { deadline: Some(dt), ..e }, EditStepView::Next),
                    Err(err) => (phase, e, EditStepView::Failed(deadline_error(err))),
                }
            },
            None => (phase, e, EditStepView::Ask(QuestionView::Line(
                "Deadline (YYYY-MM-DD, clear to remove)"@,
                deadline_text(e.deadline),
                None,
            ))),
        },
        EditPhase::Tags => match typed(a) {
            Some(t) => (phase, EntryView {
                tags: if t.len() == 0 { Seq::empty() } else { split(t, ',').map_values(|p: Seq<char>| trim(p)) },
                ..e
            }, EditStepView::Finished),
            None => (phase, e, EditStepView::Ask(QuestionView::Line(
                "Tags (comma-separated, clear to remove)"@,
                join(e.tags, ", "@),
                None,
            ))),
        },
    }
}

impl EditDraft {
    /// A draft that starts by asking about the kind of `entry`.
    pub fn new(entry: Entry) -> (d: EditDraft)
        ensures
            d.phase == EditPhase::Kind,
            d.entry == entry,
    {
        EditDraft { phase: EditPhase::Kind, entry }
    }
}

/// One step of editing an entry interactively, with the answer to the
/// question of the previous step, if there was one. The instants of the
/// entry are left as they are.
pub fn edit_step(d: &mut EditDraft, answer: Option<Answer>) -> (r: EditStep)
    ensures
        (final(d).phase, entry_view(final(d).entry), edit_step_view(r)) == edit_next(
            old(d).phase,
            entry_view(old(d).entry),
            answer_view(answer),
        ),
        final(d).entry.created == old(d).entry.created,
        final(d).entry.updated == old(d).entry.updated,
{
    match d.phase {
        EditPhase::Kind => {
            if let Some(Answer::Chosen(i)) = answer {
                if let Some(k) = kind_at_pos(i) {
                    d.entry.kind = k;
                    d.phase = EditPhase::Description;
                    return EditStep::Next;
                }
            }
            EditStep::Ask(Question::Choose {
                prompt: "Kind".to_owned(),
                items: kind_list(),
                selected: kind_position(d.entry.kind),
            })
        },
        EditPhase::Description => {
            if let Some(Answer::Edited(t)) = answer {
                let text = match &t {
                    Some(x) => Some(x.as_str()),
                    None => None,
                };
                if let Some(x) = clean_text(text) {
                    d.entry.description = Some(x);
                }
                d.phase = EditPhase::Priority;
                return EditStep::Next;
            }
            let initial = match &d.entry.description {
                Some(x) => x.clone(),
                None => String::new(),
            };
            EditStep::Ask(Question::Edit { initial })
        },
        EditPhase::Priority => {
            if let Some(Answer::Chosen(i)) = answer {
                if let Some(p) = priority_at_pos(i) {
                    d.entry.priority = p;
                    d.phase = EditPhase::Status;
                    return EditStep::Next;
                }
            }
            EditStep::Ask(Question::Choose {
                prompt: "Priority".to_owned(),
                items: priority_list(),
                selected: priority_position(d.entry.priority),
            })
        },
        EditPhase::Status => {
            if let Some(Answer::Chosen(i)) = answer {
                if let Some(st) = status_at_pos(i) {
                    d.entry.status = st;
                    d.phase = EditPhase::Deadline;
                    return EditStep::Next;
                }
            }
            EditStep::Ask(Question::Choose {
                prompt: "Status".to_owned(),
                items: status_list(),
                selected: status_position(d.entry.status),
            })
        },
        EditPhase::Deadline => {
            if let Some(Answer::Text(t)) = answer {
                if t.as_str().is_empty() {
                    d.entry.deadline = None;
                    d.phase = EditPhase::Tags;
                    return EditStep::Next;
                }
                return match parse_deadline(t.as_str()) {
                    Ok(dt) => {
                        d.entry.deadline = Some(dt);
                        d.phase = EditPhase::Tags;
                        EditStep::Next
                    },
                    Err(e) => EditStep::Failed(e),
                };
            }
            let initial = deadline_string(d.entry.deadline);
            EditStep::Ask(Question::Line {
                prompt: "Deadline (YYYY-MM-DD, clear to remove)".to_owned(),
                initial,
                default: None,
            })
        },
        EditPhase::Tags => {
            if let Some(Answer::Text(t)) = answer {
                if t.as_str().is_empty() {
                    d.entry.tags = Vec::new();
                    assert(seq_view_of(d.entry.tags@) =~= Seq::<Seq<char>>::empty());
                } else {
                    d.entry.tags = split_trimmed(t.as_str());
                }
                return EditStep::Finished;
            }
            let initial = join_strs(&d.entry.tags, ", ");
            EditStep::Ask(Question::Line {
                prompt: "Tags (comma-separated, clear to remove)".to_owned(),
                initial,
                default: None,
            })
        },
    }
}

/// Text free of `c` is one piece when split at `c`.
proof fn lemma_split_plain(x: Seq<char>, c: char)
    requires
        !x.contains(c),
    ensures
        split(x, c) == seq![x],
    decreases x.len(),
{
    if x.len() > 0 {
        let y = x.drop_last();
        assert(!y.contains(c)) by {
            if y.contains(c) {
                let k = choose|k: int| 0 <= k < y.len() && y[k] == c;
                assert(x[k] == c);
            }
        }
        lemma_split_plain(y, c);
        assert(x.last() != c) by {
            assert(x[x.len() - 1] == x.last());
        }
        assert(y.push(x.last()) =~= x);
        assert(seq![y].update(0, y.push(x.last())) =~= seq![x]);
    } else {
        assert(x =~= Seq::<char>::empty());
    }
}

/// Splitting at `c` what follows a last `c` gives one more piece.
proof fn lemma_split_append(a: Seq<char>, x: Seq<char>, c: char)
    requires
        !x.contains(c),
    ensures
        split(a + seq![c] + x, c) == split(a, c).push(x),
    decreases x.len(),
{
    if x.len() == 0 {
        assert(x =~= Seq::<char>::empty());
        assert(a + seq![c] + x =~= a.push(c));
        assert(a.push(c).drop_last() =~= a);
        assert(a.push(c).last() == c);
        assert(split(a.push(c), c) == split(a, c).push(Seq::empty()));
    } else {
        let y = x.drop_last();
        assert(!y.contains(c)) by {
            if y.contains(c) {
                let k = choose|k: int| 0 <= k < y.len() && y[k] == c;
                assert(x[k] == c);
            }
        }
        lemma_split_append(a, y, c);
        assert((a + seq![c] + x).drop_last() =~= a + seq![c] + y);
        assert((a + seq![c] + x).last() == x.last());
        assert(x.last() != c) by {
            assert(x[x.len() - 1] == x.last());
        }
        assert(y.push(x.last()) =~= x);
        let r = split(a, c).push(y);
        let w = a + seq![c] + x;
        assert(w.len() > 0);
        assert(split(w, c) == r.update(r.len() - 1, r.last().push(x.last())));
        assert(r.update(r.len() - 1, r.last().push(x.last())) =~= split(a, c).push(x));
    }
}

/// Tags that `edit` can show and read back unchanged: not empty, trimmed,
/// and free of commas.
pub open spec fn tags_plain(ts: Seq<Seq<char>>) -> bool {
    forall|i: int| 0 <= i < ts.len() ==> (#[trigger] ts[i]).len() > 0 && trim(ts[i]) == ts[i] && !ts[i].contains(',')
}

/// Plain tags joined with `, ` are split back, once trimmed, as themselves.
proof fn lemma_split_join_tags(ts: Seq<Seq<char>>)
    requires
        tags_plain(ts),
        ts.len() > 0,
    ensures
        split(join(ts, ", "@), ',').map_values(|p: Seq<char>| trim(p)) == ts,
        join(ts, ", "@).len() > 0,
    decreases ts.len(),
{
    reveal_strlit(", ");
    if ts.len() == 1 {
        assert(ts[0].len() > 0);
        lemma_split_plain(ts[0], ',');
        assert(seq![ts[0]].map_values(|p: Seq<char>| trim(p)) =~= ts);
    } else {
        let init = ts.drop_last();
        let t = ts.last();
        assert(tags_plain(init)) by {
            assert forall|i: int| 0 <= i < init.len() implies (#[trigger] init[i]).len() > 0 && trim(init[i]) == init[i]
                && !init[i].contains(',') by {
                assert(init[i] == ts[i]);
            }
        }
        lemma_split_join_tags(init);
        assert(ts[ts.len() - 1] == t);
        let x = seq![' '] + t;
        assert(!x.contains(',')) by {
            if x.contains(',') {
                let k = choose|k: int| 0 <= k < x.len() && x[k] == ',';
                assert(k > 0);
                assert(t[k - 1] == ',');
            }
        }
        assert(join(ts, ", "@) =~= join(init, ", "@) + seq![','] + x);
        lemma_split_append(join(init, ", "@), x, ',');
        assert(crate::text::strip_start(x, crate::text::space_pred()) == crate::text::strip_start(t, crate::text::space_pred())) by {
            assert(x.drop_first() =~= t);
        }
        assert(trim(x) == trim(t));
        let sp = split(join(init, ", "@), ',');
        assert(sp.push(x).map_values(|p: Seq<char>| trim(p)) =~= sp.map_values(|p: Seq<char>| trim(p)).push(trim(x)));
        assert(init.push(t) =~= ts);
    }
}

/// Accepting every answer that interactive editing offers (the kind,
/// priority and status selected first, the editor left unsaved, the
/// deadline and tags as shown) leaves the entry as it was, when its tags
/// are plain and its deadline, if any, is a day of a year from 0 to 9999.
pub proof fn law_edit_defaults_keep_entry(e: EntryView)
    requires
        tags_plain(e.tags),
        e.deadline matches Some(d) ==> four_digit_date(d.year as int, d.month as int, d.day as int),
    ensures
        ({
            let s1 = edit_next(EditPhase::Kind, e, Some(AnswerView::Chosen(kind_pos(e.kind))));
            let s2 = edit_next(s1.0, s1.1, Some(AnswerView::Edited(None)));
            let s3 = edit_next(s2.0, s2.1, Some(AnswerView::Chosen(priority_pos(e.priority))));
            let s4 = edit_next(s3.0, s3.1, Some(AnswerView::Chosen(status_pos(e.status))));
            let s5 = edit_next(s4.0, s4.1, Some(AnswerView::Text(deadline_text(e.deadline))));
            let s6 = edit_next(s5.0, s5.1, Some(AnswerView::Text(join(e.tags, ", "@))));
            &&& s1.2 == EditStepView::Next
            &&& s2.2 == EditStepView::Next
            &&& s3.2 == EditStepView::Next
            &&& s4.2 == EditStepView::Next
            &&& s5.2 == EditStepView::Next
            &&& s6.2 == EditStepView::Finished
            &&& s6.1 == e
        }),
{
    crate::commands::prompt::lemma_names_positions(e.kind, e.priority, e.status);
    if let Some(d) = e.deadline {
        lemma_ymd_text_read(d.year as int, d.month as int, d.day as int);
    }
    if e.tags.len() > 0 {
        lemma_split_join_tags(e.tags);
    } else {
        assert(e.tags =~= Seq::<Seq<char>>::empty());
        assert(join(e.tags, ", "@).len() == 0);
    }
}

/// What each answer in interactive editing does: the answer to the
/// description question, if not blank, becomes the description, trimmed
/// (an unsaved or blank text keeps it); the position chosen for kind,
/// priority or status selects the value of the name offered there; an empty
/// deadline clears it and a date sets it; the tags typed replace them, each
/// trimmed. Each answer changes that field alone and moves to the next
/// question.
pub proof fn law_edit_answers(e: EntryView, t: Seq<char>, i: int)
    ensures
        trim(t).len() > 0 ==> ({
            let n = edit_next(EditPhase::Description, e, Some(AnswerView::Edited(Some(t))));
            n.0 == EditPhase::Priority && n.1 == (EntryView { description: Some(trim(t)), ..e }) && n.2 == EditStepView::Next
        }),
        trim(t).len() == 0 ==> edit_next(EditPhase::Description, e, Some(AnswerView::Edited(Some(t)))).1 == e,
        edit_next(EditPhase::Description, e, Some(AnswerView::Edited(None))).1 == e,
        0 <= i < kind_names().len() ==> ({
            let n = edit_next(EditPhase::Kind, e, Some(AnswerView::Chosen(i)));
            n.0 == EditPhase::Description && n.1 == (EntryView { kind: n.1.kind, ..e }) && n.1.kind.name() == kind_names()[i]
        }),
        0 <= i < priority_names().len() ==> ({
            let n = edit_next(EditPhase::Priority, e, Some(AnswerView::Chosen(i)));
            n.0 == EditPhase::Status && n.1 == (EntryView { priority: n.1.priority, ..e })
                && n.1.priority.name() == priority_names()[i]
        }),
        0 <= i < status_names().len() ==> ({
            let n = edit_next(EditPhase::Status, e, Some(AnswerView::Chosen(i)));
            n.0 == EditPhase::Deadline && n.1 == (EntryView { status: n.1.status, ..e }) && n.1.status.name() == status_names()[i]
        }),
        edit_next(EditPhase::Deadline, e, Some(AnswerView::Text(Seq::empty()))).1 == (EntryView { deadline: None, ..e }),
        t.len() > 0 && read_date(t) is Ok ==> edit_next(EditPhase::Deadline, e, Some(AnswerView::Text(t))).1 == (EntryView {
            deadline: Some(read_date(t)->Ok_0),
            ..e
        }),
        t.len() > 0 ==> ({
            let n = edit_next(EditPhase::Tags, e, Some(AnswerView::Text(t)));
            &&& n.2 == EditStepView::Finished
            &&& n.1 == (EntryView { tags: n.1.tags, ..e })
            &&& n.1.tags.len() == split(t, ',').len()
            &&& forall|k: int| 0 <= k < n.1.tags.len() ==> #[trigger] n.1.tags[k] == trim(split(t, ',')[k])
        }),
{
    if t.len() > 0 {
        let n = edit_next(EditPhase::Tags, e, Some(AnswerView::Text(t)));
        assert(n.1.tags == split(t, ',').map_values(|p: Seq<char>| trim(p)));
    }
}

} // verus!
