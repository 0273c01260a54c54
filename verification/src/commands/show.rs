//! `show`: the fields of an entry as they are printed.
use vstd::prelude::*;
use crate::commands::edit::{deadline_string, deadline_text};
use crate::entry::{entry_view, Entry, EntryView};
use crate::text::{join, join_strs};

verus! {

/// A printed field: its label and its value.
pub struct ShowField {
    pub label: String,
    pub value: String,
}

pub open spec fn field_view(f: ShowField) -> (Seq<char>, Seq<char>) {
    (f.label@, f.value@)
}

/// The fields printed for the entry `e` stored under `slug`, below its
/// title and above its description: slug, namespace (`ungrouped` when it
/// has none), kind, priority, status, the two instants as written, then the
/// deadline and the tags, each only if there is one.
pub open spec fn show_fields_of(slug: Seq<char>, e: EntryView, created: Seq<char>, updated: Seq<char>) -> Seq<(Seq<char>, Seq<char>)> {
    let head = seq![
        ("Slug"@, slug),
        ("Namespace"@, match e.namespace {
            Some(n) => n,
            None => "ungrouped"@,
        }),
        ("Kind"@, e.kind.name()),
        ("Priority"@, e.priority.name()),
        ("Status"@, e.status.name()),
        ("Created"@, created),
        ("Updated"@, updated),
    ];
    let with_deadline = match e.deadline {
        Some(d) => head.push(("Deadline"@, deadline_text(Some(d)))),
        None => head,
    };
    if e.tags.len() > 0 {
        with_deadline.push(("Tags"@, join(e.tags, ", "@)))
    } else {
        with_deadline
    }
}

fn field(label: &str, value: String) -> (r: ShowField)
    ensures
        field_view(r) == (label@, value@),
{
    ShowField { label: label.to_owned(), value }
}

/// The fields printed for an entry, its instants already written.
pub fn show_fields(slug: &str, entry: &Entry, created: &str, updated: &str) -> (r: Vec<ShowField>)
    ensures
        r@.map_values(|f: ShowField| field_view(f)) == show_fields_of(slug@, entry_view(*entry), created@, updated@),
{
    let namespace = match &entry.namespace {
        Some(n) => n.clone(),
        None => "ungrouped".to_owned(),
    };
    let mut out: Vec<ShowField> = Vec::new();
    out.push(field("Slug", slug.to_owned()));
    out.push(field("Namespace", namespace));
    out.push(field("Kind", entry.kind.to_string()));
    out.push(field("Priority", entry.priority.to_string()));
    out.push(field("Status", entry.status.to_string()));
    out.push(field("Created", created.to_owned()));
    out.push(field("Updated", updated.to_owned()));
    let ghost head = out@.map_values(|f: ShowField| field_view(f));
    if entry.deadline.is_some() {
        out.push(field("Deadline", deadline_string(entry.deadline)));
    }
    let ghost mid = out@.map_values(|f: ShowField| field_view(f));
    if entry.tags.len() > 0 {
        out.push(field("Tags", join_strs(&entry.tags, ", ")));
    }
    proof {
        let e = entry_view(*entry);
        assert(head =~= seq![
            ("Slug"@, slug@),
            ("Namespace"@, match e.namespace {
                Some(n) => n,
                None => "ungrouped"@,
            }),
            ("Kind"@, e.kind.name()),
            ("Priority"@, e.priority.name()),
            ("Status"@, e.status.name()),
            ("Created"@, created@),
            ("Updated"@, updated@),
        ]);
        assert(mid =~= match e.deadline {
            Some(d) => head.push(("Deadline"@, deadline_text(Some(d)))),
            None => head,
        });
        assert(out@.map_values(|f: ShowField| field_view(f)) =~= if e.tags.len() > 0 {
            mid.push(("Tags"@, join(e.tags, ", "@)))
        } else {
            mid
        });
    }
    out
}

} // verus!
