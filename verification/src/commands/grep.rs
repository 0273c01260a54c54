//! `grep`: the lines of entry files that hold a pattern.
use vstd::prelude::*;
use crate::store::{ends_with_suffix, toml_suffix};
use crate::text::{
    concat, contains_str, ends_with, has_infix, seq_view_of, split, split_str, starts_with,
    starts_with_str, string_of, chars_of, to_lowercase, unicode_lower,
};

verus! {

/// A line without the `\r` of a `\r\n` ending.
pub open spec fn strip_cr(l: Seq<char>) -> Seq<char> {
    if l.len() > 0 && l.last() == '\r' {
        l.drop_last()
    } else {
        l
    }
}

/// `str::lines`: the pieces between `\n`s, each without the `\r` before
/// its `\n`; a last empty piece is no line.
pub open spec fn text_lines(s: Seq<char>) -> Seq<Seq<char>> {
    let p = split(s, '\n');
    let body = p.drop_last().map_values(|l: Seq<char>| strip_cr(l));
    if p.last().len() == 0 {
        body
    } else {
        body.push(p.last())
    }
}

pub open spec fn holds_pattern(pattern: Seq<char>) -> spec_fn(Seq<char>) -> bool {
    |l: Seq<char>| has_infix(unicode_lower(l), unicode_lower(pattern))
}

/// The lines of `contents` that hold `pattern` (both lowercased), when the
/// whole text holds it and at least one line does.
pub open spec fn grep_spec(contents: Seq<char>, pattern: Seq<char>) -> Option<Seq<Seq<char>>> {
    if has_infix(unicode_lower(contents), unicode_lower(pattern)) {
        let m = text_lines(contents).filter(holds_pattern(pattern));
        if m.len() > 0 {
            Some(m)
        } else {
            None
        }
    } else {
        None
    }
}

/// The lines of an entry file that match `pattern`, if any.
pub fn grep_lines(contents: &str, pattern: &str) -> (r: Option<Vec<String>>)
    ensures
        match grep_spec(contents@, pattern@) {
            Some(m) => r matches Some(v) && seq_view_of(v@) == m,
            None => r is None,
        },
{
    let needle = to_lowercase(pattern);
    let hay = to_lowercase(contents);
    if !contains_str(hay.as_str(), needle.as_str()) {
        return None;
    }
    let pieces = split_str(contents, '\n');
    let ghost pv = seq_view_of(pieces@);
    let ghost lines = text_lines(contents@);
    let n = pieces.len();
    let mut out: Vec<String> = Vec::new();
    let mut i: usize = 0;
    proof {
        crate::entry::lemma_join_split(contents@, '\n');
    }
    let ghost body = pv.drop_last().map_values(|l: Seq<char>| strip_cr(l));
    while i < n
        invariant
            i <= n == pieces@.len(),
            n >= 1,
            needle@ == unicode_lower(pattern@),
            pv == seq_view_of(pieces@),
            pv == split(contents@, '\n'),
            lines == text_lines(contents@),
            body == pv.drop_last().map_values(|l: Seq<char>| strip_cr(l)),
            seq_view_of(out@) == (if i < n { body.take(i as int) } else { lines }).filter(holds_pattern(pattern@)),
        decreases n - i,
    {
        let piece = pieces[i].as_str();
        let v = chars_of(piece);
        let ghost prev = seq_view_of(out@);
        if i + 1 < n {
            let line = if v.len() > 0 && v[v.len() - 1] == '\r' {
                string_of(&v, 0, v.len() - 1)
            } else {
                piece.to_owned()
            };
            assert(line@ == body[i as int]);
            let low = to_lowercase(line.as_str());
            let keep = contains_str(low.as_str(), needle.as_str());
            assert(body.take(i + 1).filter(holds_pattern(pattern@)) == if holds_pattern(pattern@)(body[i as int]) {
                body.take(i as int).filter(holds_pattern(pattern@)).push(body[i as int])
            } else {
                body.take(i as int).filter(holds_pattern(pattern@))
            }) by {
                reveal(Seq::filter);
                assert(body.take(i + 1).drop_last() =~= body.take(i as int));
            }
            if keep {
                out.push(line);
                assert(seq_view_of(out@) =~= prev.push(body[i as int]));
            }
        } else {
            assert(body.len() == n - 1);
            assert(body.take(i as int) =~= body);
            if v.len() > 0 {
                assert(lines == body.push(pv[i as int]));
                let low = to_lowercase(piece);
                let keep = contains_str(low.as_str(), needle.as_str());
                assert(lines.filter(holds_pattern(pattern@)) == if holds_pattern(pattern@)(pv[i as int]) {
                    body.filter(holds_pattern(pattern@)).push(pv[i as int])
                } else {
                    body.filter(holds_pattern(pattern@))
                }) by {
                    reveal(Seq::filter);
                    assert(lines.drop_last() =~= body);
                }
                if keep {
                    out.push(piece.to_owned());
                    assert(seq_view_of(out@) =~= prev.push(pv[i as int]));
                }
            } else {
                assert(lines == body);
            }
        }
        i = i + 1;
    }
    if out.len() > 0 {
        Some(out)
    } else {
        None
    }
}

/// How `grep` names an entry file: its path below the store, without a
/// final `.toml`.
pub open spec fn entry_name_of(root: Seq<char>, path: Seq<char>) -> Seq<char> {
    let below = root + "/"@;
    let rel = if starts_with(path, below) { path.skip(below.len() as int) } else { path };
    if ends_with(rel, toml_suffix()) { rel.take(rel.len() - 5) } else { rel }
}

/// The name of the entry file at `path` below the store `root`.
pub fn entry_name(root: &str, path: &str) -> (r: String)
    ensures
        r@ == entry_name_of(root@, path@),
{
    let below = concat(root, "/");
    let v = chars_of(path);
    let w = chars_of(below.as_str());
    let start = if starts_with_str(path, below.as_str()) { w.len() } else { 0 };
    let rel = string_of(&v, start, v.len());
    assert(start > 0 ==> rel@ == path@.skip(below@.len() as int));
    assert(start == 0 ==> rel@ =~= path@);
    let r = chars_of(rel.as_str());
    if ends_with_suffix(rel.as_str()) {
        string_of(&r, 0, r.len() - 5)
    } else {
        rel
    }
}

/// What `grep` reports of a file: only lines of the file, each holding the
/// pattern (both lowercased), and, when it reports anything, every line
/// that holds the pattern, in the file's order; a file no line of which
/// holds the pattern is not reported.
pub proof fn law_grep_lines(contents: Seq<char>, pattern: Seq<char>)
    ensures
        grep_spec(contents, pattern) matches Some(m) ==> {
            &&& m.len() > 0
            &&& forall|k: int| 0 <= k < m.len() ==> text_lines(contents).contains(#[trigger] m[k])
                && has_infix(unicode_lower(m[k]), unicode_lower(pattern))
            &&& forall|i: int| 0 <= i < text_lines(contents).len() && #[trigger] has_infix(
                unicode_lower(text_lines(contents)[i]),
                unicode_lower(pattern),
            ) ==> m.contains(text_lines(contents)[i])
        },
        (forall|i: int| 0 <= i < text_lines(contents).len() ==> !#[trigger] has_infix(
            unicode_lower(text_lines(contents)[i]),
            unicode_lower(pattern),
        )) ==> grep_spec(contents, pattern) is None,
{
    let lines = text_lines(contents);
    let hp = holds_pattern(pattern);
    let m = lines.filter(hp);
    assert forall|k: int| 0 <= k < m.len() implies lines.contains(#[trigger] m[k]) && has_infix(
        unicode_lower(m[k]),
        unicode_lower(pattern),
    ) by {
        lines.lemma_filter_pred(hp, k);
        assert(m.contains(m[k]));
        lines.lemma_filter_contains_rev(hp, m[k]);
    }
    assert forall|i: int| 0 <= i < lines.len() && #[trigger] has_infix(unicode_lower(lines[i]), unicode_lower(pattern))
        implies m.contains(lines[i]) by {
        assert(hp(lines[i]));
        lines.lemma_filter_contains(hp, i);
    }
    if forall|i: int| 0 <= i < lines.len() ==> !#[trigger] has_infix(unicode_lower(lines[i]), unicode_lower(pattern)) {
        if m.len() > 0 {
            lines.lemma_filter_pred(hp, 0);
            assert(m.contains(m[0]));
            lines.lemma_filter_contains_rev(hp, m[0]);
        }
    }
}

} // verus!
