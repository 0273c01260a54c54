//! Entries of the store: their metadata, and how it is normalised.
use vstd::prelude::*;
use crate::text::{
    all_ascii, ascii_lower, char_pred, concat, contains_str, has_infix, join, join_strs, seq_view_of, split,
    split_str, str_eq, strip_end, strip_start, to_lowercase, trim, trim_char, trim_char_str,
    trim_str, unicode_lower, is_space, space_pred,
};
use crate::time::{clock_error, clock_reading, msg_clock, now, Date, Timestamp};

verus! {

/// What an entry is.
#[derive(Debug, Clone, Copy, PartialEq, Eq, Structural)]
pub enum Kind {
    Idea,
    Todo,
    Note,
}

/// How urgent an entry is.
#[derive(Debug, Clone, Copy, PartialEq, Eq, Structural)]
pub enum Priority {
    Low,
    Medium,
    High,
    Critical,
}

/// Where an entry stands.
#[derive(Debug, Clone, Copy, PartialEq, Eq, Structural)]
pub enum Status {
    Active,
    Done,
    Archived,
}

pub open spec fn lit_idea() -> Seq<char> { seq!['i', 'd', 'e', 'a'] }
pub open spec fn lit_todo() -> Seq<char> { seq!['t', 'o', 'd', 'o'] }
pub open spec fn lit_note() -> Seq<char> { seq!['n', 'o', 't', 'e'] }
pub open spec fn lit_low() -> Seq<char> { seq!['l', 'o', 'w'] }
pub open spec fn lit_medium() -> Seq<char> { seq!['m', 'e', 'd', 'i', 'u', 'm'] }
pub open spec fn lit_high() -> Seq<char> { seq!['h', 'i', 'g', 'h'] }
pub open spec fn lit_critical() -> Seq<char> { seq!['c', 'r', 'i', 't', 'i', 'c', 'a', 'l'] }
pub open spec fn lit_active() -> Seq<char> { seq!['a', 'c', 't', 'i', 'v', 'e'] }
pub open spec fn lit_done() -> Seq<char> { seq!['d', 'o', 'n', 'e'] }
pub open spec fn lit_archived() -> Seq<char> { seq!['a', 'r', 'c', 'h', 'i', 'v', 'e', 'd'] }

impl Kind {
    /// The lowercase name under which a kind is written and read.
    pub open spec fn name(self) -> Seq<char> {
        match self {
            Kind::Idea => lit_idea(),
            Kind::Todo => lit_todo(),
            Kind::Note => lit_note(),
        }
    }

    /// The kind whose name is `lowered`, if any.
    pub open spec fn named(lowered: Seq<char>) -> Option<Kind> {
        if lowered == lit_idea() {
            Some(Kind::Idea)
        } else if lowered == lit_todo() {
            Some(Kind::Todo)
        } else if lowered == lit_note() {
            Some(Kind::Note)
        } else {
            None
        }
    }

    /// The name of the kind, as entries and output write it.
    pub fn to_string(&self) -> (s: String)
        ensures
            s@ == self.name(),
    {
        proof {
            reveal_strlit("idea");
            assert("idea"@ =~= lit_idea());
            reveal_strlit("todo");
            assert("todo"@ =~= lit_todo());
            reveal_strlit("note");
            assert("note"@ =~= lit_note());
        }
        match self {
            Kind::Idea => "idea".to_owned(),
            Kind::Todo => "todo".to_owned(),
            Kind::Note => "note".to_owned(),
        }
    }

    /// The kind whose name is `lowered`, already lowercased.
    pub fn from_lowered(lowered: &str) -> (r: Option<Kind>)
        ensures
            r == Kind::named(lowered@),
    {
        proof {
            reveal_strlit("idea");
            assert("idea"@ =~= lit_idea());
            reveal_strlit("todo");
            assert("todo"@ =~= lit_todo());
            reveal_strlit("note");
            assert("note"@ =~= lit_note());
        }
        if str_eq(lowered, "idea") {
            Some(Kind::Idea)
        } else if str_eq(lowered, "todo") {
            Some(Kind::Todo)
        } else if str_eq(lowered, "note") {
            Some(Kind::Note)
        } else {
            None
        }
    }

    /// Reads a kind, whatever the case of its letters.
    pub fn from_str(s: &str) -> (r: Result<Kind, String>)
        ensures
            match Kind::named(unicode_lower(s@)) {
                Some(k) => r == Ok::<Kind, String>(k),
                None => r matches Err(e) && e@ == "unknown kind: "@ + s@,
            },
            all_ascii(s@) ==> match Kind::named(ascii_lower(s@)) {
                Some(k) => r == Ok::<Kind, String>(k),
                None => r is Err,
            },
    {
        let lowered = to_lowercase(s);
        match Kind::from_lowered(lowered.as_str()) {
            Some(k) => Ok(k),
            None => Err(concat("unknown kind: ", s)),
        }
    }
}

impl Priority {
    /// The lowercase name under which a priority is written and read.
    pub open spec fn name(self) -> Seq<char> {
        match self {
            Priority::Low => lit_low(),
            Priority::Medium => lit_medium(),
            Priority::High => lit_high(),
            Priority::Critical => lit_critical(),
        }
    }

    /// The priority whose name is `lowered`, if any.
    pub open spec fn named(lowered: Seq<char>) -> Option<Priority> {
        if lowered == lit_low() {
            Some(Priority::Low)
        } else if lowered == lit_medium() {
            Some(Priority::Medium)
        } else if lowered == lit_high() {
            Some(Priority::High)
        } else if lowered == lit_critical() {
            Some(Priority::Critical)
        } else {
            None
        }
    }

    /// The name of the priority, as entries and output write it.
    pub fn to_string(&self) -> (s: String)
        ensures
            s@ == self.name(),
    {
        proof {
            reveal_strlit("low");
            assert("low"@ =~= lit_low());
            reveal_strlit("medium");
            assert("medium"@ =~= lit_medium());
            reveal_strlit("high");
            assert("high"@ =~= lit_high());
            reveal_strlit("critical");
            assert("critical"@ =~= lit_critical());
        }
        match self {
            Priority::Low => "low".to_owned(),
            Priority::Medium => "medium".to_owned(),
            Priority::High => "high".to_owned(),
            Priority::Critical => "critical".to_owned(),
        }
    }

    /// The priority whose name is `lowered`, already lowercased.
    pub fn from_lowered(lowered: &str) -> (r: Option<Priority>)
        ensures
            r == Priority::named(lowered@),
    {
        proof {
            reveal_strlit("low");
            assert("low"@ =~= lit_low());
            reveal_strlit("medium");
            assert("medium"@ =~= lit_medium());
            reveal_strlit("high");
            assert("high"@ =~= lit_high());
            reveal_strlit("critical");
            assert("critical"@ =~= lit_critical());
        }
        if str_eq(lowered, "low") {
            Some(Priority::Low)
        } else if str_eq(lowered, "medium") {
            Some(Priority::Medium)
        } else if str_eq(lowered, "high") {
            Some(Priority::High)
        } else if str_eq(lowered, "critical") {
            Some(Priority::Critical)
        } else {
            None
        }
    }

    /// Reads a priority, whatever the case of its letters.
    pub fn from_str(s: &str) -> (r: Result<Priority, String>)
        ensures
            match Priority::named(unicode_lower(s@)) {
                Some(p) => r == Ok::<Priority, String>(p),
                None => r matches Err(e) && e@ == "unknown priority: "@ + s@,
            },
            all_ascii(s@) ==> match Priority::named(ascii_lower(s@)) {
                Some(p) => r == Ok::<Priority, String>(p),
                None => r is Err,
            },
    {
        let lowered = to_lowercase(s);
        match Priority::from_lowered(lowered.as_str()) {
            Some(p) => Ok(p),
            None => Err(concat("unknown priority: ", s)),
        }
    }
}

impl Status {
    /// The lowercase name under which a status is written and read.
    pub open spec fn name(self) -> Seq<char> {
        match self {
            Status::Active => lit_active(),
            Status::Done => lit_done(),
            Status::Archived => lit_archived(),
        }
    }

    /// The status whose name is `lowered`, if any.
    pub open spec fn named(lowered: Seq<char>) -> Option<Status> {
        if lowered == lit_active() {
            Some(Status::Active)
        } else if lowered == lit_done() {
            Some(Status::Done)
        } else if lowered == lit_archived() {
            Some(Status::Archived)
        } else {
            None
        }
    }

    /// The name of the status, as entries and output write it.
    pub fn to_string(&self) -> (s: String)
        ensures
            s@ == self.name(),
    {
        proof {
            reveal_strlit("active");
            assert("active"@ =~= lit_active());
            reveal_strlit("done");
            assert("done"@ =~= lit_done());
            reveal_strlit("archived");
            assert("archived"@ =~= lit_archived());
        }
        match self {
            Status::Active => "active".to_owned(),
            Status::Done => "done".to_owned(),
            Status::Archived => "archived".to_owned(),
        }
    }

    /// The status whose name is `lowered`, already lowercased.
    pub fn from_lowered(lowered: &str) -> (r: Option<Status>)
        ensures
            r == Status::named(lowered@),
    {
        proof {
            reveal_strlit("active");
            assert("active"@ =~= lit_active());
            reveal_strlit("done");
            assert("done"@ =~= lit_done());
            reveal_strlit("archived");
            assert("archived"@ =~= lit_archived());
        }
        if str_eq(lowered, "active") {
            Some(Status::Active)
        } else if str_eq(lowered, "done") {
            Some(Status::Done)
        } else if str_eq(lowered, "archived") {
            Some(Status::Archived)
        } else {
            None
        }
    }

    /// Reads a status, whatever the case of its letters.
    pub fn from_str(s: &str) -> (r: Result<Status, String>)
        ensures
            match Status::named(unicode_lower(s@)) {
                Some(st) => r == Ok::<Status, String>(st),
                None => r matches Err(e) && e@ == "unknown status: "@ + s@,
            },
            all_ascii(s@) ==> match Status::named(ascii_lower(s@)) {
                Some(st) => r == Ok::<Status, String>(st),
                None => r is Err,
            },
    {
        let lowered = to_lowercase(s);
        match Status::from_lowered(lowered.as_str()) {
            Some(st) => Ok(st),
            None => Err(concat("unknown status: ", s)),
        }
    }
}


/// One entry of the store.
#[derive(Debug, Clone)]
pub struct Entry {
    pub title: String,
    pub kind: Kind,
    pub description: Option<String>,
    pub priority: Priority,
    pub status: Status,
    pub created: Timestamp,
    pub updated: Timestamp,
    pub tags: Vec<String>,
    pub deadline: Option<Date>,
    pub namespace: Option<String>,
}

/// The fields of an entry as plain values, its instants aside.
pub struct EntryView {
    pub title: Seq<char>,
    pub kind: Kind,
    pub description: Option<Seq<char>>,
    pub priority: Priority,
    pub status: Status,
    pub tags: Seq<Seq<char>>,
    pub deadline: Option<Date>,
    pub namespace: Option<Seq<char>>,
}

pub open spec fn entry_view(e: Entry) -> EntryView {
    EntryView {
        title: e.title@,
        kind: e.kind,
        description: opt_view(e.description),
        priority: e.priority,
        status: e.status,
        tags: seq_view_of(e.tags@),
        deadline: e.deadline,
        namespace: opt_view(e.namespace),
    }
}

/// The characters of an optional string.
pub open spec fn opt_view(o: Option<String>) -> Option<Seq<char>> {
    match o {
        Some(s) => Some(s@),
        None => None,
    }
}

/// A description trimmed, and dropped when nothing is left of it.
pub open spec fn normalized_description(d: Option<Seq<char>>) -> Option<Seq<char>> {
    match d {
        Some(x) => if trim(x).len() > 0 { Some(trim(x)) } else { None },
        None => None,
    }
}

/// Some tag of `out` has the case-folded form `key`.
pub open spec fn key_taken(out: Seq<Seq<char>>, key: Seq<char>) -> bool {
    exists|i: int| 0 <= i < out.len() && unicode_lower(#[trigger] out[i]) == key
}

/// The tags trimmed, blank ones dropped, and of those with the same
/// lowercase form only the first kept, in their order.
pub open spec fn normalized_tags(tags: Seq<Seq<char>>) -> Seq<Seq<char>>
    decreases tags.len(),
{
    if tags.len() == 0 {
        Seq::empty()
    } else {
        let prev = normalized_tags(tags.drop_last());
        let t = trim(tags.last());
        if t.len() == 0 || key_taken(prev, unicode_lower(t)) {
            prev
        } else {
            prev.push(t)
        }
    }
}

pub open spec fn slash() -> char { '/' }

pub open spec fn double_slash() -> Seq<char> { seq!['/', '/'] }

pub open spec fn dot_segment(seg: Seq<char>) -> bool {
    seg == seq!['.'] || seg == seq!['.', '.']
}

/// A segment of a namespace that cannot stand in it.
pub open spec fn bad_segment(seg: Seq<char>) -> bool {
    seg.len() == 0 || dot_segment(seg)
}

pub open spec fn msg_empty_segments() -> Seq<char> {
    "namespace cannot contain empty segments"@
}

pub open spec fn msg_invalid_segments() -> Seq<char> {
    "namespace contains invalid path segments"@
}

/// What a namespace written as `input` stands for: whitespace and outer
/// slashes dropped; no namespace when nothing is left; an error when a
/// segment is empty, `.` or `..`.
pub open spec fn namespace_of(input: Seq<char>) -> Result<Option<Seq<char>>, Seq<char>> {
    let t = trim_char(trim(input), slash());
    if t.len() == 0 {
        Ok(None)
    } else if has_infix(t, double_slash()) {
        Err(msg_empty_segments())
    } else if exists|i: int| 0 <= i < split(t, slash()).len() && bad_segment(#[trigger] split(t, slash())[i]) {
        Err(msg_invalid_segments())
    } else {
        Ok(Some(t))
    }
}

/// Splitting at a character and joining with it gives the string back.
pub proof fn lemma_join_split(s: Seq<char>, c: char)
    ensures
        join(split(s, c), seq![c]) == s,
        split(s, c).len() >= 1,
    decreases s.len(),
{
    if s.len() > 0 {
        let r = split(s.drop_last(), c);
        lemma_join_split(s.drop_last(), c);
        if s.last() == c {
            let r2 = r.push(Seq::empty());
            assert(r2.drop_last() == r);
            assert(join(r2, seq![c]) == join(r, seq![c]) + seq![c] + Seq::<char>::empty());
            assert(s == s.drop_last().push(c));
            assert(join(r2, seq![c]) =~= s);
        } else {
            let r2 = r.update(r.len() - 1, r.last().push(s.last()));
            if r.len() == 1 {
                assert(r.last() == r[0]);
                assert(r2[0] == r[0].push(s.last()));
                assert(s == s.drop_last().push(s.last()));
                assert(join(r2, seq![c]) == r2[0]);
                assert(join(r, seq![c]) == r[0]);
                assert(join(r2, seq![c]) =~= s);
            } else {
                assert(r2.drop_last() == r.drop_last());
                assert(join(r2, seq![c]) == join(r.drop_last(), seq![c]) + seq![c] + r.last().push(s.last()));
                assert(join(r, seq![c]) == join(r.drop_last(), seq![c]) + seq![c] + r.last());
                let a = join(r.drop_last(), seq![c]) + seq![c];
                assert(a + r.last().push(s.last()) =~= (a + r.last()).push(s.last()));
                assert(s == s.drop_last().push(s.last()));
                assert(join(r2, seq![c]) =~= s);
            }
        }
    }
}

/// Reads a namespace.
pub fn normalize_namespace(input: &str) -> (r: Result<Option<String>, String>)
    ensures
        match namespace_of(input@) {
            Ok(Some(n)) => r matches Ok(Some(m)) && m@ == n,
            Ok(None) => r matches Ok(None),
            Err(e) => r matches Err(m) && m@ == e,
        },
{
    let t0 = trim_str(input);
    let trimmed = trim_char_str(t0.as_str(), '/');
    if trimmed.as_str().is_empty() {
        return Ok(None);
    }
    proof {
        reveal_strlit("//");
        assert("//"@ =~= double_slash());
    }
    if contains_str(trimmed.as_str(), "//") {
        return Err("namespace cannot contain empty segments".to_owned());
    }
    let segments = split_str(trimmed.as_str(), '/');
    let ghost segs = seq_view_of(segments@);
    assert(segs == split(trimmed@, slash()));
    let mut i: usize = 0;
    while i < segments.len()
        invariant
            i <= segments.len(),
            segs == seq_view_of(segments@),
            segs == split(trimmed@, slash()),
            trimmed@ == trim_char(trim(input@), slash()),
            trimmed@.len() > 0,
            !has_infix(trimmed@, double_slash()),
            forall|k: int| 0 <= k < i ==> !bad_segment(#[trigger] segs[k]),
        decreases segments.len() - i,
    {
        proof {
            reveal_strlit(".");
            reveal_strlit("..");
            assert("."@ =~= seq!['.']);
            assert(".."@ =~= seq!['.', '.']);
        }
        let seg = segments[i].as_str();
        assert(segs[i as int] == seg@);
        if seg.is_empty() || str_eq(seg, ".") || str_eq(seg, "..") {
            assert(bad_segment(split(trimmed@, slash())[i as int]));
            return Err("namespace contains invalid path segments".to_owned());
        }
        assert(!bad_segment(segs[i as int]));
        i = i + 1;
    }
    let joined = join_strs(&segments, "/");
    proof {
        reveal_strlit("/");
        assert("/"@ =~= seq![slash()]);
        lemma_join_split(trimmed@, slash());
    }
    Ok(Some(joined))
}

/// Whether some string of `v` has the characters of `s`.
fn contains_string(v: &Vec<String>, s: &String) -> (b: bool)
    ensures
        b == (exists|i: int| 0 <= i < v.len() && #[trigger] v@[i]@ == s@),
{
    let mut i: usize = 0;
    while i < v.len()
        invariant
            i <= v.len(),
            forall|k: int| 0 <= k < i ==> #[trigger] v@[k]@ != s@,
        decreases v.len() - i,
    {
        if v[i] == *s {
            return true;
        }
        i = i + 1;
    }
    false
}

/// Tags trimmed, without blank ones, without repeats up to case.
pub fn normalize_tags(tags: &[String]) -> (out: Vec<String>)
    ensures
        seq_view_of(out@) == normalized_tags(seq_view_of(tags@)),
{
    let ghost all = seq_view_of(tags@);
    let mut seen: Vec<String> = Vec::new();
    let mut out: Vec<String> = Vec::new();
    let mut i: usize = 0;
    while i < tags.len()
        invariant
            i <= tags.len(),
            all == seq_view_of(tags@),
            seq_view_of(out@) == normalized_tags(all.take(i as int)),
            seen.len() == out.len(),
            forall|k: int| 0 <= k < seen.len() ==> #[trigger] seen@[k]@ == unicode_lower(out@[k]@),
        decreases tags.len() - i,
    {
        assert(all.take(i + 1).drop_last() == all.take(i as int));
        assert(all.take(i + 1).last() == tags@[i as int]@);
        let trimmed = trim_str(tags[i].as_str());
        if !trimmed.as_str().is_empty() {
            let key = to_lowercase(trimmed.as_str());
            let taken = contains_string(&seen, &key);
            proof {
                let prev = seq_view_of(out@);
                if taken {
                    let k = choose|k: int| 0 <= k < seen.len() && #[trigger] seen@[k]@ == key@;
                    assert(unicode_lower(prev[k]) == unicode_lower(trimmed@));
                } else {
                    assert forall|k: int| 0 <= k < prev.len() implies unicode_lower(#[trigger] prev[k]) != unicode_lower(trimmed@) by {
                        assert(seen@[k]@ == unicode_lower(out@[k]@));
                    }
                }
            }
            if !taken {
                seen.push(key);
                out.push(trimmed);
                assert(seq_view_of(out@) =~= normalized_tags(all.take(i as int)).push(trim(all[i as int])));
            }
        }
        i = i + 1;
    }
    assert(all.take(tags.len() as int) == all);
    out
}

/// The priority an entry has when none is written.
pub fn default_priority() -> (p: Priority)
    ensures
        p == Priority::Medium,
{
    Priority::Medium
}

/// The status an entry has when none is written.
pub fn default_status() -> (s: Status)
    ensures
        s == Status::Active,
{
    Status::Active
}

impl Entry {
    /// A new entry made now, with no description, tags, deadline or
    /// namespace; an error if the clock cannot be read.
    pub fn new(title: String, kind: Kind, priority: Priority, status: Status) -> (r: Result<Entry, String>)
        ensures
            match r {
                Ok(e) => {
                    &&& e.title == title
                    &&& e.kind == kind
                    &&& e.priority == priority
                    &&& e.status == status
                    &&& e.description is None
                    &&& e.tags@.len() == 0
                    &&& e.deadline is None
                    &&& e.namespace is None
                    &&& e.created == e.updated
                    &&& clock_reading(e.created)
                },
                Err(m) => m@ == msg_clock(),
            },
    {
        let t = match now() {
            Some(t) => t,
            None => return Err(clock_error()),
        };
        Ok(Entry {
            title,
            kind,
            description: None,
            priority,
            status,
            created: t,
            updated: t,
            tags: Vec::new(),
            deadline: None,
            namespace: None,
        })
    }

    /// Marks the entry as updated now: `updated` becomes the clock's
    /// current reading, and nothing else changes; if the clock cannot be
    /// read, an error and the entry as it was.
    pub fn touch(&mut self) -> (r: Result<(), String>)
        ensures
            match r {
                Ok(()) => clock_reading(final(self).updated),
                Err(m) => m@ == msg_clock() && final(self).updated == old(self).updated,
            },
            final(self).title == old(self).title,
            final(self).kind == old(self).kind,
            final(self).description == old(self).description,
            final(self).priority == old(self).priority,
            final(self).status == old(self).status,
            final(self).created == old(self).created,
            final(self).tags == old(self).tags,
            final(self).deadline == old(self).deadline,
            final(self).namespace == old(self).namespace,
    {
        match now() {
            Some(t) => {
                self.updated = t;
                Ok(())
            },
            None => Err(clock_error()),
        }
    }

    /// Normalises the description, the tags and the namespace. The
    /// description and the tags are normalised even when the namespace is
    /// refused, and the namespace then stays as it was.
    pub fn normalize(&mut self) -> (r: Result<(), String>)
        ensures
            final(self).title == old(self).title,
            final(self).kind == old(self).kind,
            final(self).priority == old(self).priority,
            final(self).status == old(self).status,
            final(self).created == old(self).created,
            final(self).updated == old(self).updated,
            final(self).deadline == old(self).deadline,
            opt_view(final(self).description) == normalized_description(opt_view(old(self).description)),
            seq_view_of(final(self).tags@) == normalized_tags(seq_view_of(old(self).tags@)),
            match opt_view(old(self).namespace) {
                None => r is Ok && final(self).namespace is None,
                Some(n) => match namespace_of(n) {
                    Ok(m) => r is Ok && opt_view(final(self).namespace) == m,
                    Err(e) => r matches Err(msg) && msg@ == e && final(self).namespace == old(self).namespace,
                },
            },
    {
        let description = match &self.description {
            Some(d) => {
                let t = trim_str(d.as_str());
                if t.as_str().is_empty() {
                    None
                } else {
                    Some(t)
                }
            },
            None => None,
        };
        self.description = description;
        let tags = normalize_tags(self.tags.as_slice());
        self.tags = tags;
        let namespace = match &self.namespace {
            Some(n) => normalize_namespace(n.as_str())?,
            None => None,
        };
        self.namespace = namespace;
        Ok(())
    }
}

proof fn lemma_strip_start_shape(s: Seq<char>, p: spec_fn(char) -> bool)
    ensures
        strip_start(s, p).len() <= s.len(),
        strip_start(s, p) == s.skip(s.len() - strip_start(s, p).len()),
        strip_start(s, p).len() == 0 || !p(strip_start(s, p)[0]),
    decreases s.len(),
{
    if s.len() > 0 && p(s[0]) {
        lemma_strip_start_shape(s.drop_first(), p);
        let t = strip_start(s.drop_first(), p);
        assert(s.drop_first().skip(s.drop_first().len() - t.len()) =~= s.skip(s.len() - t.len()));
    } else {
        assert(s.skip(0) =~= s);
    }
}

proof fn lemma_strip_end_shape(s: Seq<char>, p: spec_fn(char) -> bool)
    ensures
        strip_end(s, p).len() <= s.len(),
        strip_end(s, p) == s.take(strip_end(s, p).len() as int),
        strip_end(s, p).len() == 0 || !p(strip_end(s, p).last()),
    decreases s.len(),
{
    if s.len() > 0 && p(s.last()) {
        lemma_strip_end_shape(s.drop_last(), p);
        let t = strip_end(s.drop_last(), p);
        assert(s.drop_last().take(t.len() as int) =~= s.take(t.len() as int));
    } else {
        assert(s.take(s.len() as int) =~= s);
    }
}

proof fn lemma_strip_start_removed(s: Seq<char>, p: spec_fn(char) -> bool)
    ensures
        forall|i: int| 0 <= i < s.len() - strip_start(s, p).len() ==> p(#[trigger] s[i]),
    decreases s.len(),
{
    if s.len() > 0 && p(s[0]) {
        lemma_strip_start_removed(s.drop_first(), p);
        assert forall|i: int| 0 <= i < s.len() - strip_start(s, p).len() implies p(#[trigger] s[i]) by {
            if i > 0 {
                assert(s[i] == s.drop_first()[i - 1]);
            }
        }
    }
}

proof fn lemma_strip_end_removed(s: Seq<char>, p: spec_fn(char) -> bool)
    ensures
        forall|i: int| strip_end(s, p).len() <= i < s.len() ==> p(#[trigger] s[i]),
    decreases s.len(),
{
    if s.len() > 0 && p(s.last()) {
        lemma_strip_end_removed(s.drop_last(), p);
        assert forall|i: int| strip_end(s, p).len() <= i < s.len() implies p(#[trigger] s[i]) by {
            if i < s.len() - 1 {
                assert(s[i] == s.drop_last()[i]);
            }
        }
    }
}

/// What `trim` gives neither starts nor ends with whitespace.
pub proof fn lemma_trim_shape(s: Seq<char>)
    ensures
        trim(s).len() == 0 || (!is_space(trim(s)[0]) && !is_space(trim(s).last())),
{
    let u = strip_start(s, space_pred());
    lemma_strip_start_shape(s, space_pred());
    lemma_strip_end_shape(u, space_pred());
    let t = strip_end(u, space_pred());
    if t.len() > 0 {
        assert(t[0] == u.take(t.len() as int)[0]);
        assert(u[0] == t[0]);
    }
}

/// A string that neither starts nor ends with whitespace is its own trim.
pub proof fn lemma_trim_fixed(t: Seq<char>)
    requires
        t.len() == 0 || (!is_space(t[0]) && !is_space(t.last())),
    ensures
        trim(t) == t,
{
    assert(strip_start(t, space_pred()) == t);
    assert(strip_end(t, space_pred()) == t);
}

/// Trimming twice is trimming once.
pub proof fn lemma_trim_idempotent(s: Seq<char>)
    ensures
        trim(trim(s)) == trim(s),
{
    lemma_trim_shape(s);
    lemma_trim_fixed(trim(s));
}

/// A namespace that is read as itself neither starts nor ends with
/// whitespace or a slash.
pub proof fn lemma_namespace_fixed_shape(n: Seq<char>)
    requires
        namespace_of(n) == Ok::<Option<Seq<char>>, Seq<char>>(Some(n)),
    ensures
        n.len() > 0,
        !is_space(n[0]),
        !is_space(n.last()),
        n[0] != '/',
        n.last() != '/',
{
    let a = strip_start(n, space_pred());
    let u = strip_end(a, space_pred());
    let b = strip_start(u, char_pred(slash()));
    let t = strip_end(b, char_pred(slash()));
    lemma_strip_start_shape(n, space_pred());
    lemma_strip_end_shape(a, space_pred());
    lemma_strip_start_shape(u, char_pred(slash()));
    lemma_strip_end_shape(b, char_pred(slash()));
    assert(t == n);
    assert(b == t) by {
        assert(t == b.take(t.len() as int));
        assert(b =~= b.take(b.len() as int));
    }
    assert(u == b) by {
        assert(b == u.skip(u.len() - b.len()));
        assert(u =~= u.skip(0));
    }
    assert(a == u) by {
        assert(u == a.take(u.len() as int));
        assert(a =~= a.take(a.len() as int));
    }
    lemma_trim_shape(n);
}

/// Tags as `normalize_tags` hands them out: trimmed, not blank, and no two
/// with the same lowercase form.
pub open spec fn tags_normal(v: Seq<Seq<char>>) -> bool {
    &&& forall|i: int| 0 <= i < v.len() ==> trim(#[trigger] v[i]) == v[i] && v[i].len() > 0
    &&& forall|i: int, j: int| 0 <= i < j < v.len() ==> unicode_lower(#[trigger] v[i]) != unicode_lower(#[trigger] v[j])
}

/// What `normalize_tags` hands out is normal.
pub proof fn lemma_normalized_tags_normal(tags: Seq<Seq<char>>)
    ensures
        tags_normal(normalized_tags(tags)),
    decreases tags.len(),
{
    if tags.len() > 0 {
        lemma_normalized_tags_normal(tags.drop_last());
        let prev = normalized_tags(tags.drop_last());
        let t = trim(tags.last());
        lemma_trim_idempotent(tags.last());
        if !(t.len() == 0 || key_taken(prev, unicode_lower(t))) {
            let out = prev.push(t);
            assert forall|i: int, j: int| 0 <= i < j < out.len() implies unicode_lower(#[trigger] out[i]) != unicode_lower(#[trigger] out[j]) by {
                if j == out.len() - 1 {
                    assert(out[i] == prev[i]);
                    if unicode_lower(prev[i]) == unicode_lower(t) {
                        assert(key_taken(prev, unicode_lower(t)));
                    }
                } else {
                    assert(out[i] == prev[i]);
                    assert(out[j] == prev[j]);
                }
            }
            assert forall|i: int| 0 <= i < out.len() implies trim(#[trigger] out[i]) == out[i] && out[i].len() > 0 by {
                if i < prev.len() {
                    assert(out[i] == prev[i]);
                }
            }
        }
    }
}

/// Normal tags are left as they are.
pub proof fn lemma_normal_tags_fixed(v: Seq<Seq<char>>)
    requires
        tags_normal(v),
    ensures
        normalized_tags(v) == v,
    decreases v.len(),
{
    if v.len() > 0 {
        let init = v.drop_last();
        assert(tags_normal(init)) by {
            assert forall|i: int| 0 <= i < init.len() implies trim(#[trigger] init[i]) == init[i] && init[i].len() > 0 by {
                assert(init[i] == v[i]);
            }
            assert forall|i: int, j: int| 0 <= i < j < init.len() implies unicode_lower(#[trigger] init[i]) != unicode_lower(#[trigger] init[j]) by {
                assert(init[i] == v[i]);
                assert(init[j] == v[j]);
            }
        }
        lemma_normal_tags_fixed(init);
        let t = v.last();
        assert(trim(v[v.len() - 1]) == v[v.len() - 1]);
        if key_taken(init, unicode_lower(t)) {
            let k = choose|k: int| 0 <= k < init.len() && unicode_lower(#[trigger] init[k]) == unicode_lower(t);
            assert(init[k] == v[k]);
            assert(unicode_lower(v[k]) != unicode_lower(v[v.len() - 1]));
        }
        assert(init.push(t) =~= v);
    }
}

/// Normalising tags twice is normalising them once.
pub proof fn lemma_normalize_tags_idempotent(tags: Seq<Seq<char>>)
    ensures
        normalized_tags(normalized_tags(tags)) == normalized_tags(tags),
{
    lemma_normalized_tags_normal(tags);
    lemma_normal_tags_fixed(normalized_tags(tags));
}

/// Normalising tags gives no more tags than were given, and keeps every
/// tag that is not blank: some tag of the result has its trimmed form's
/// lowercase form.
pub proof fn law_normalized_tags_cover(tags: Seq<Seq<char>>)
    ensures
        normalized_tags(tags).len() <= tags.len(),
        forall|i: int| 0 <= i < tags.len() && #[trigger] trim(tags[i]).len() > 0
            ==> key_taken(normalized_tags(tags), unicode_lower(trim(tags[i]))),
    decreases tags.len(),
{
    if tags.len() > 0 {
        let init = tags.drop_last();
        law_normalized_tags_cover(init);
        let prev = normalized_tags(init);
        let out = normalized_tags(tags);
        let t = trim(tags.last());
        assert forall|i: int| 0 <= i < tags.len() && #[trigger] trim(tags[i]).len() > 0
            implies key_taken(out, unicode_lower(trim(tags[i]))) by {
            if i < tags.len() - 1 {
                assert(tags[i] == init[i]);
                assert(trim(init[i]).len() > 0);
                let k = choose|k: int| 0 <= k < prev.len() && unicode_lower(#[trigger] prev[k]) == unicode_lower(trim(init[i]));
                assert(out[k] == prev[k]);
            } else {
                if !key_taken(prev, unicode_lower(t)) {
                    assert(out[prev.len() as int] == t);
                }
            }
        }
    }
}

proof fn lemma_lowercase_word(w: Seq<char>)
    requires
        forall|i: int| 0 <= i < w.len() ==> 'a' <= #[trigger] w[i] <= 'z',
    ensures
        all_ascii(w),
        ascii_lower(w) == w,
{
    assert(ascii_lower(w) =~= w);
}

/// Reading back the name a kind is written under gives the kind.
pub proof fn law_kind_roundtrip(k: Kind)
    ensures
        all_ascii(k.name()),
        Kind::named(ascii_lower(k.name())) == Some(k),
{
    lemma_lowercase_word(k.name());
}

/// Reading back the name a priority is written under gives the priority.
pub proof fn law_priority_roundtrip(p: Priority)
    ensures
        all_ascii(p.name()),
        Priority::named(ascii_lower(p.name())) == Some(p),
{
    lemma_lowercase_word(p.name());
}

/// Reading back the name a status is written under gives the status.
pub proof fn law_status_roundtrip(s: Status)
    ensures
        all_ascii(s.name()),
        Status::named(ascii_lower(s.name())) == Some(s),
{
    lemma_lowercase_word(s.name());
}

/// Normalising a description twice is normalising it once.
pub proof fn law_description_idempotent(d: Option<Seq<char>>)
    ensures
        normalized_description(normalized_description(d)) == normalized_description(d),
{
    if let Some(x) = d {
        lemma_trim_idempotent(x);
    }
}

/// A namespace read back is read as itself, when it neither starts nor
/// ends with whitespace (a slash next to whitespace in the input can leave
/// such a namespace, which a second reading trims further).
pub proof fn law_namespace_idempotent(s: Seq<char>)
    requires
        namespace_of(s) matches Ok(Some(n)) && !is_space(n[0]) && !is_space(n.last()),
    ensures
        namespace_of(s) matches Ok(Some(n)) && namespace_of(n) == Ok::<Option<Seq<char>>, Seq<char>>(Some(n)),
{
    let t = trim_char(trim(s), slash());
    let u = strip_start(trim(s), char_pred(slash()));
    lemma_strip_start_shape(trim(s), char_pred(slash()));
    lemma_strip_end_shape(u, char_pred(slash()));
    assert(t.len() > 0);
    assert(t[0] == u[0]) by {
        assert(t == u.take(t.len() as int));
    }
    lemma_trim_fixed(t);
    assert(strip_start(t, char_pred(slash())) == t);
    assert(strip_end(t, char_pred(slash())) == t);
    assert(trim_char(trim(t), slash()) == t);
}

/// No whitespace stands next to a slash: every segment of the namespace,
/// as written, is trimmed.
pub open spec fn slashes_unspaced(s: Seq<char>) -> bool {
    forall|k: int| 0 <= k < s.len() && #[trigger] is_space(s[k]) ==> (k == 0 || s[k - 1] != '/') && (k + 1 == s.len()
        || s[k + 1] != '/')
}

/// A namespace written with no whitespace next to a slash is read as a
/// namespace that neither starts nor ends with a slash, holds no empty,
/// `.` or `..` segment, and is read again as itself.
pub proof fn law_namespace_read_again(input: Seq<char>)
    requires
        slashes_unspaced(input),
        namespace_of(input) is Ok,
        namespace_of(input)->Ok_0 is Some,
    ensures
        ({
            let n = namespace_of(input)->Ok_0->Some_0;
            &&& n[0] != '/'
            &&& n.last() != '/'
            &&& !has_infix(n, double_slash())
            &&& forall|i: int| 0 <= i < split(n, slash()).len() ==> !bad_segment(#[trigger] split(n, slash())[i])
            &&& namespace_of(n) == Ok::<Option<Seq<char>>, Seq<char>>(Some(n))
        }),
{
    let a = strip_start(input, space_pred());
    let u = strip_end(a, space_pred());
    let b = strip_start(u, char_pred(slash()));
    let t = strip_end(b, char_pred(slash()));
    lemma_strip_start_shape(input, space_pred());
    lemma_strip_end_shape(a, space_pred());
    lemma_strip_start_shape(u, char_pred(slash()));
    lemma_strip_end_shape(b, char_pred(slash()));
    lemma_strip_start_removed(u, char_pred(slash()));
    lemma_strip_end_removed(b, char_pred(slash()));
    let k1 = input.len() - a.len();
    let k2 = u.len() - b.len();
    assert(t.len() > 0);
    // `t[j]` stands at `k1 + k2 + j` of the input.
    assert forall|j: int| 0 <= j < b.len() implies #[trigger] b[j] == input[k1 + k2 + j] by {
        assert(b[j] == u[k2 + j]);
        assert(u[k2 + j] == a[k2 + j]);
        assert(a[k2 + j] == input[k1 + k2 + j]);
    }
    assert(forall|j: int| 0 <= j < t.len() ==> #[trigger] t[j] == b[j]);
    assert(!is_space(t[0])) by {
        if k2 == 0 {
            assert(b =~= u);
            assert(u[0] == a[0]);
        } else {
            assert(u[k2 - 1] == '/');
            assert(u[k2 - 1] == a[k2 - 1]);
            assert(input[k1 + k2 - 1] == '/');
            assert(t[0] == input[k1 + k2]);
        }
    }
    assert(!is_space(t.last())) by {
        let lt = t.len();
        assert(t.last() == t[lt - 1]);
        if lt == b.len() {
            assert(b.last() == u.last()) by {
                assert(b[b.len() - 1] == u[u.len() - 1]);
            }
            assert(u.last() == u[u.len() - 1]);
        } else {
            assert(b[lt as int] == '/');
            assert(input[k1 + k2 + lt] == '/');
            assert(t[lt - 1] == input[k1 + k2 + lt - 1]);
        }
    }
    assert(t[0] != '/');
    assert(t.last() != '/');
    law_namespace_idempotent(input);
}

/// Every piece of `s` split at `/`, but maybe the last, is trimmed, and the
/// last does not start with whitespace.
pub open spec fn segments_trimmed_but_last(s: Seq<char>) -> bool {
    let segs = split(s, slash());
    &&& forall|i: int| 0 <= i < segs.len() - 1 ==> trim(#[trigger] segs[i]) == segs[i]
    &&& segs.last().len() == 0 || !is_space(segs.last()[0])
}

proof fn lemma_trimmed_ends(l: Seq<char>)
    requires
        trim(l) == l,
        l.len() > 0,
    ensures
        !is_space(l[0]),
        !is_space(l.last()),
{
    lemma_trim_shape(l);
}

proof fn lemma_segments_unspaced(s: Seq<char>)
    requires
        segments_trimmed_but_last(s),
    ensures
        slashes_unspaced(s),
    decreases s.len(),
{
    if s.len() > 0 {
        let init = s.drop_last();
        let ch = s.last();
        let r = split(init, slash());
        lemma_join_split(init, slash());
        assert(s == init.push(ch));
        if ch == '/' {
            assert(split(s, slash()) == r.push(Seq::empty()));
            assert forall|i: int| 0 <= i < r.len() implies trim(#[trigger] r[i]) == r[i] by {
                assert(split(s, slash())[i] == r[i]);
            }
            if r.last().len() > 0 {
                assert(r.last() == r[r.len() - 1]);
                lemma_trimmed_ends(r.last());
            }
            lemma_segments_unspaced(init);
            if init.len() > 0 && init.last() != '/' {
                lemma_split_last_ends(init, slash());
                assert(r.last() == r[r.len() - 1]);
                lemma_trimmed_ends(r.last());
            }
            assert forall|k: int| 0 <= k < s.len() && #[trigger] is_space(s[k]) implies (k == 0 || s[k - 1] != '/') && (k + 1
                == s.len() || s[k + 1] != '/') by {
                assert(k < s.len() - 1);
                assert(s[k] == init[k]);
                if k >= 1 {
                    assert(s[k - 1] == init[k - 1]);
                }
                if k + 1 < init.len() {
                    assert(s[k + 1] == init[k + 1]);
                } else {
                    assert(init.last() == init[k]);
                }
            }
        } else {
            let l = r.last().push(ch);
            assert(split(s, slash()) == r.update(r.len() - 1, l));
            assert forall|i: int| 0 <= i < r.len() - 1 implies trim(#[trigger] r[i]) == r[i] by {
                assert(split(s, slash())[i] == r[i]);
            }
            assert(split(s, slash()).last() == l);
            if r.last().len() > 0 {
                assert(l[0] == r.last()[0]);
            }
            lemma_segments_unspaced(init);
            assert forall|k: int| 0 <= k < s.len() && #[trigger] is_space(s[k]) implies (k == 0 || s[k - 1] != '/') && (k + 1
                == s.len() || s[k + 1] != '/') by {
                if k == s.len() - 1 {
                    if k > 0 && s[k - 1] == '/' {
                        assert(init.last() == s[k - 1]);
                        lemma_split_last_empty(init, slash());
                        assert(l =~= seq![ch]);
                    }
                } else {
                    assert(s[k] == init[k]);
                    if k >= 1 {
                        assert(s[k - 1] == init[k - 1]);
                    }
                    if k + 1 < init.len() {
                        assert(s[k + 1] == init[k + 1]);
                    }
                }
            }
        }
    }
}

proof fn lemma_split_last_empty(x: Seq<char>, c: char)
    requires
        x.len() > 0,
        x.last() == c,
    ensures
        split(x, c).last().len() == 0,
{
}

proof fn lemma_split_last_ends(x: Seq<char>, c: char)
    requires
        x.len() > 0,
        x.last() != c,
    ensures
        split(x, c).last().len() > 0,
        split(x, c).last().last() == x.last(),
{
    lemma_join_split(x.drop_last(), c);
}

/// A namespace whose segments, as written, are all trimmed is read as a
/// namespace that neither starts nor ends with a slash, holds no empty,
/// `.` or `..` segment, and is read again as itself.
pub proof fn law_namespace_segments_trimmed(input: Seq<char>)
    requires
        forall|i: int| 0 <= i < split(input, slash()).len() ==> trim(#[trigger] split(input, slash())[i]) == split(
            input,
            slash(),
        )[i],
        namespace_of(input) is Ok,
        namespace_of(input)->Ok_0 is Some,
    ensures
        ({
            let n = namespace_of(input)->Ok_0->Some_0;
            &&& n[0] != '/'
            &&& n.last() != '/'
            &&& !has_infix(n, double_slash())
            &&& forall|i: int| 0 <= i < split(n, slash()).len() ==> !bad_segment(#[trigger] split(n, slash())[i])
            &&& namespace_of(n) == Ok::<Option<Seq<char>>, Seq<char>>(Some(n))
        }),
{
    let segs = split(input, slash());
    lemma_join_split(input, slash());
    assert(segs.last() == segs[segs.len() - 1]);
    if segs.last().len() > 0 {
        lemma_trimmed_ends(segs.last());
    }
    lemma_segments_unspaced(input);
    law_namespace_read_again(input);
}

} // verus!
