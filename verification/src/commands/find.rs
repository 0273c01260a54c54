//! `find`: entries whose slug, title or namespace holds a pattern.
use vstd::prelude::*;
use crate::entry::{opt_view, Entry};
use crate::text::{concat, contains_str, has_infix, push_str, to_lowercase, unicode_lower};

verus! {

/// The namespace of an entry, empty when it has none.
pub open spec fn namespace_text(ns: Option<Seq<char>>) -> Seq<char> {
    match ns {
        Some(n) => n,
        None => Seq::empty(),
    }
}

/// How `find` names an entry: `namespace/slug`, or the slug alone.
pub open spec fn identifier(slug: Seq<char>, ns: Seq<char>) -> Seq<char> {
    if ns.len() == 0 {
        slug
    } else {
        ns + "/"@ + slug
    }
}

/// The identifier of the entry stored under `slug` if its slug, title or
/// namespace (lowercased, joined with spaces) holds the lowercased pattern.
pub open spec fn find_spec(slug: Seq<char>, title: Seq<char>, ns: Option<Seq<char>>, pattern: Seq<char>) -> Option<Seq<char>> {
    let n = namespace_text(ns);
    let searchable = slug + " "@ + title + " "@ + n;
    if has_infix(unicode_lower(searchable), unicode_lower(pattern)) {
        Some(identifier(slug, n))
    } else {
        None
    }
}

/// The identifier of the entry stored under `slug`, if it matches `pattern`.
pub fn find_match(slug: &str, entry: &Entry, pattern: &str) -> (r: Option<String>)
    ensures
        match find_spec(slug@, entry.title@, opt_view(entry.namespace), pattern@) {
            Some(id) => r matches Some(x) && x@ == id,
            None => r is None,
        },
{
    let namespace = match &entry.namespace {
        Some(n) => n.clone(),
        None => String::new(),
    };
    let identifier = if namespace.as_str().is_empty() {
        slug.to_owned()
    } else {
        let mut id = concat(namespace.as_str(), "/");
        push_str(&mut id, slug);
        id
    };
    let mut searchable = concat(slug, " ");
    push_str(&mut searchable, entry.title.as_str());
    push_str(&mut searchable, " ");
    push_str(&mut searchable, namespace.as_str());
    let hay = to_lowercase(searchable.as_str());
    let needle = to_lowercase(pattern);
    if contains_str(hay.as_str(), needle.as_str()) {
        Some(identifier)
    } else {
        None
    }
}

/// An infix of a piece is an infix of a text that holds the piece.
proof fn lemma_infix_in(a: Seq<char>, x: Seq<char>, b: Seq<char>, p: Seq<char>)
    requires
        has_infix(x, p),
    ensures
        has_infix(a + x + b, p),
{
    let i = choose|i: int| 0 <= i && i + p.len() <= x.len() && #[trigger] x.subrange(i, i + p.len()) == p;
    let w = a + x + b;
    assert(w.subrange(a.len() + i, a.len() + i + p.len()) =~= x.subrange(i, i + p.len()));
}

/// `find` searches the slug, the title and the namespace: when lowercasing
/// the searched text lowercases each of them in place (as it does for ASCII
/// text), an entry is found as soon as the lowercased slug, title or
/// namespace holds the lowercased pattern, and it is named `namespace/slug`,
/// or by its slug when it has no namespace.
pub proof fn law_find_searches_each_field(slug: Seq<char>, title: Seq<char>, n: Seq<char>, pattern: Seq<char>)
    requires
        unicode_lower(slug + " "@ + title + " "@ + n) == unicode_lower(slug) + unicode_lower(" "@) + unicode_lower(title)
            + unicode_lower(" "@) + unicode_lower(n),
        has_infix(unicode_lower(slug), unicode_lower(pattern)) || has_infix(unicode_lower(title), unicode_lower(pattern))
            || has_infix(unicode_lower(n), unicode_lower(pattern)),
    ensures
        find_spec(slug, title, Some(n), pattern) == Some(if n.len() == 0 { slug } else { n + "/"@ + slug }),
{
    let (ls, sp, lt, ln) = (unicode_lower(slug), unicode_lower(" "@), unicode_lower(title), unicode_lower(n));
    let lp = unicode_lower(pattern);
    let whole = ls + sp + lt + sp + ln;
    if has_infix(ls, lp) {
        lemma_infix_in(Seq::empty(), ls, sp + lt + sp + ln, lp);
        assert(Seq::<char>::empty() + ls + (sp + lt + sp + ln) =~= whole);
    } else if has_infix(lt, lp) {
        lemma_infix_in(ls + sp, lt, sp + ln, lp);
        assert(ls + sp + lt + (sp + ln) =~= whole);
    } else {
        lemma_infix_in(ls + sp + lt + sp, ln, Seq::empty(), lp);
        assert(ls + sp + lt + sp + ln + Seq::<char>::empty() =~= whole);
    }
}

} // verus!
