//! Where entries live: the store directory, entry identifiers and paths.
use vstd::prelude::*;
use crate::entry::{namespace_of, normalize_namespace, opt_view};
use crate::text::{
    char_pred, chars_of, concat, ends_with, space_pred, strip_end, strip_start, find_last, last_index, lemma_last_index, push_str, seq_view_of, sort_strings,
    sorted_views, split, split_str, str_eq, string_of, strip_suffixes, strip_suffixes_str, trim,
    trim_char, trim_char_str, trim_str,
};

verus! {

pub open spec fn lit_store_dir() -> Seq<char> {
    ".mind-store"@
}

pub open spec fn toml_suffix() -> Seq<char> {
    seq!['.', 't', 'o', 'm', 'l']
}

pub open spec fn toml_ext() -> Seq<char> {
    seq!['t', 'o', 'm', 'l']
}

/// `PathBuf::join` of a relative path with no separator in it: a `/` is put
/// between the two unless `base` is empty or already ends with one.
pub open spec fn path_join(base: Seq<char>, rel: Seq<char>) -> Seq<char> {
    if base.len() == 0 || base.last() == '/' {
        base + rel
    } else {
        base + seq!['/'] + rel
    }
}

/// `base` joined with the relative path `rel`.
pub fn join_path(base: &str, rel: &str) -> (r: String)
    ensures
        r@ == path_join(base@, rel@),
{
    let v = chars_of(base);
    if v.len() == 0 || v[v.len() - 1] == '/' {
        concat(base, rel)
    } else {
        let mut out = concat(base, "/");
        proof {
            reveal_strlit("/");
        }
        push_str(&mut out, rel);
        out
    }
}

/// The store's directory: the one `MIND_STORE_DIR` names, else
/// `.mind-store` in the home directory.
pub open spec fn store_dir_of(env_dir: Option<Seq<char>>, home: Option<Seq<char>>) -> Seq<char> {
    match env_dir {
        Some(d) => d,
        None => path_join(home.unwrap(), lit_store_dir()),
    }
}

/// The store's directory, from the values of `MIND_STORE_DIR` and `HOME`.
/// Without either there is none (the program stops).
pub fn store_dir(env_dir: Option<String>, home: Option<String>) -> (r: String)
    requires
        env_dir is Some || home is Some,
    ensures
        r@ == store_dir_of(opt_view(env_dir), opt_view(home)),
{
    match env_dir {
        Some(d) => d,
        None => {
            let h = home.unwrap();
            join_path(h.as_str(), ".mind-store")
        },
    }
}

/// Refuses to go on when the store's directory does not exist.
pub fn ensure_store_exists(dir: &str, exists: bool) -> (r: Result<(), String>)
    ensures
        exists ==> r is Ok,
        !exists ==> (r matches Err(e) && e@ == "Mind store not found at "@ + dir@
            + ". Run `mind init` first."@),
{
    if exists {
        Ok(())
    } else {
        let mut msg = concat("Mind store not found at ", dir);
        push_str(&mut msg, ". Run `mind init` first.");
        Err(msg)
    }
}

/// A character that a slug may hold.
pub open spec fn slug_char(c: char) -> bool {
    ||| 'a' <= c <= 'z'
    ||| 'A' <= c <= 'Z'
    ||| '0' <= c <= '9'
    ||| c == '-'
    ||| c == '_'
    ||| c == '.'
}

pub open spec fn msg_slug_empty() -> Seq<char> {
    "slug cannot be empty"@
}

pub open spec fn msg_slug_separator() -> Seq<char> {
    "slug cannot contain path separators"@
}

pub open spec fn msg_slug_chars() -> Seq<char> {
    "slug can only contain letters, numbers, '-', '_' and '.'"@
}

/// The slug that `input` names: trimmed, without trailing `.toml`s; it must
/// be non-empty, hold no path separator and only ASCII letters, digits,
/// `-`, `_` and `.`.
pub open spec fn slug_of(input: Seq<char>) -> Result<Seq<char>, Seq<char>> {
    let t = strip_suffixes(trim(input), toml_suffix());
    if t.len() == 0 {
        Err(msg_slug_empty())
    } else if t.contains('/') || t.contains('\\') {
        Err(msg_slug_separator())
    } else if !(forall|i: int| 0 <= i < t.len() ==> slug_char(#[trigger] t[i])) {
        Err(msg_slug_chars())
    } else {
        Ok(t)
    }
}

fn is_slug_char(c: char) -> (b: bool)
    ensures
        b == slug_char(c),
{
    ('a' <= c && c <= 'z') || ('A' <= c && c <= 'Z') || ('0' <= c && c <= '9') || c == '-' || c
        == '_' || c == '.'
}

/// Checks an entry's slug.
pub fn validate_slug(input: &str) -> (r: Result<String, String>)
    ensures
        match slug_of(input@) {
            Ok(s) => r matches Ok(x) && x@ == s,
            Err(e) => r matches Err(x) && x@ == e,
        },
{
    let t0 = trim_str(input);
    proof {
        reveal_strlit(".toml");
        assert(".toml"@ =~= toml_suffix());
    }
    let trimmed = strip_suffixes_str(t0.as_str(), ".toml");
    let v = chars_of(trimmed.as_str());
    if v.len() == 0 {
        return Err("slug cannot be empty".to_owned());
    }
    let mut i: usize = 0;
    while i < v.len()
        invariant
            i <= v.len(),
            v@ == strip_suffixes(trim(input@), toml_suffix()),
            v.len() > 0,
            forall|k: int| 0 <= k < i ==> v@[k] != '/' && v@[k] != '\\',
        decreases v.len() - i,
    {
        if v[i] == '/' || v[i] == '\\' {
            assert(v@.contains(v@[i as int]));
            return Err("slug cannot contain path separators".to_owned());
        }
        i = i + 1;
    }
    let mut j: usize = 0;
    while j < v.len()
        invariant
            j <= v.len(),
            v@ == strip_suffixes(trim(input@), toml_suffix()),
            v.len() > 0,
            !v@.contains('/'),
            !v@.contains('\\'),
            forall|k: int| 0 <= k < j ==> slug_char(#[trigger] v@[k]),
        decreases v.len() - j,
    {
        if !is_slug_char(v[j]) {
            return Err("slug can only contain letters, numbers, '-', '_' and '.'".to_owned());
        }
        j = j + 1;
    }
    Ok(trimmed)
}

pub open spec fn msg_identifier_empty() -> Seq<char> {
    "entry identifier cannot be empty"@
}

/// What an entry identifier names: an optional namespace (everything
/// before the last `/`) and a slug (what follows it).
pub open spec fn identifier_of(input: Seq<char>) -> Result<(Option<Seq<char>>, Seq<char>), Seq<char>> {
    let t = trim_char(trim(input), '/');
    if t.len() == 0 {
        Err(msg_identifier_empty())
    } else if t.contains('/') {
        let i = last_index(t, '/');
        match namespace_of(t.take(i)) {
            Err(e) => Err(e),
            Ok(n) => match slug_of(t.skip(i + 1)) {
                Err(e) => Err(e),
                Ok(s) => Ok((n, s)),
            },
        }
    } else {
        match slug_of(t) {
            Err(e) => Err(e),
            Ok(s) => Ok((None, s)),
        }
    }
}

/// Reads an entry identifier: a slug, or `namespace/slug`.
pub fn parse_namespace_and_slug(input: &str) -> (r: Result<(Option<String>, String), String>)
    ensures
        match identifier_of(input@) {
            Ok((n, s)) => r matches Ok((x, y)) && opt_view(x) == n && y@ == s,
            Err(e) => r matches Err(x) && x@ == e,
        },
{
    let t0 = trim_str(input);
    let trimmed = trim_char_str(t0.as_str(), '/');
    let v = chars_of(trimmed.as_str());
    if v.len() == 0 {
        return Err("entry identifier cannot be empty".to_owned());
    }
    proof {
        lemma_last_index(v@, '/');
    }
    match find_last(&v, '/') {
        Some(i) => {
            let ns_text = string_of(&v, 0, i);
            let slug_text = string_of(&v, i + 1, v.len());
            assert(ns_text@ == v@.take(i as int));
            assert(slug_text@ == v@.skip(i + 1));
            let namespace = normalize_namespace(ns_text.as_str())?;
            let slug = validate_slug(slug_text.as_str())?;
            Ok((namespace, slug))
        },
        None => {
            let slug = validate_slug(trimmed.as_str())?;
            Ok((None, slug))
        },
    }
}

/// The path of the file of the entry that `identifier` names: entries are
/// flat, so only the slug counts.
pub fn entry_path(store: &str, identifier: &str) -> (r: Result<String, String>)
    ensures
        match identifier_of(identifier@) {
            Ok((_, s)) => r matches Ok(p) && p@ == path_join(store@, s + toml_suffix()),
            Err(e) => r matches Err(x) && x@ == e,
        },
{
    let (_, slug) = parse_namespace_and_slug(identifier)?;
    proof {
        reveal_strlit(".toml");
        assert(".toml"@ =~= toml_suffix());
    }
    let file = concat(slug.as_str(), ".toml");
    Ok(join_path(store, file.as_str()))
}

/// The path, the namespace asked for and the slug of an identifier.
pub fn resolve_identifier(store: &str, name: &str) -> (r: Result<(String, Option<String>, String), String>)
    ensures
        match identifier_of(name@) {
            Ok((n, s)) => r matches Ok((p, x, y)) && p@ == path_join(store@, s + toml_suffix())
                && opt_view(x) == n && y@ == s,
            Err(e) => r matches Err(x) && x@ == e,
        },
{
    let (namespace, slug) = parse_namespace_and_slug(name)?;
    proof {
        lemma_identifier_slug_good(name@);
        lemma_good_slug_fixed(slug@);
    }
    let path = entry_path(store, slug.as_str())?;
    Ok((path, namespace, slug))
}

/// A slug as `validate_slug` hands it out.
pub open spec fn good_slug(s: Seq<char>) -> bool {
    &&& s.len() > 0
    &&& forall|i: int| 0 <= i < s.len() ==> slug_char(#[trigger] s[i])
    &&& !ends_with(s, toml_suffix())
}

/// After every trailing copy of `t` is removed, none is left.
pub proof fn lemma_strip_suffixes_done(s: Seq<char>, t: Seq<char>)
    requires
        t.len() > 0,
    ensures
        !ends_with(strip_suffixes(s, t), t),
    decreases s.len(),
{
    if ends_with(s, t) {
        lemma_strip_suffixes_done(s.subrange(0, s.len() - t.len()), t);
    }
}

/// What `slug_of` accepts is a good slug.
pub proof fn lemma_slug_of_good(x: Seq<char>)
    ensures
        slug_of(x) matches Ok(s) ==> good_slug(s),
{
    lemma_strip_suffixes_done(trim(x), toml_suffix());
}

/// The slug part of what `identifier_of` accepts is a good slug.
pub proof fn lemma_identifier_slug_good(x: Seq<char>)
    ensures
        identifier_of(x) matches Ok((_, s)) ==> good_slug(s),
{
    let t = trim_char(trim(x), '/');
    lemma_slug_of_good(t);
    lemma_slug_of_good(t.skip(last_index(t, '/') + 1));
}

/// A good slug is read back as itself, as a slug and as an identifier.
pub proof fn lemma_good_slug_fixed(s: Seq<char>)
    requires
        good_slug(s),
    ensures
        slug_of(s) == Ok::<Seq<char>, Seq<char>>(s),
        identifier_of(s) == Ok::<(Option<Seq<char>>, Seq<char>), Seq<char>>((None, s)),
{
    assert(slug_char(s[0]));
    assert(slug_char(s.last()));
    assert(strip_start(s, space_pred()) == s);
    assert(strip_end(s, space_pred()) == s);
    assert(trim(s) == s);
    assert(strip_suffixes(s, toml_suffix()) == s);
    assert(strip_start(s, char_pred('/')) == s);
    assert(strip_end(s, char_pred('/')) == s);
    assert(trim_char(s, '/') == s);
    if s.contains('/') {
        let k = choose|k: int| 0 <= k < s.len() && s[k] == '/';
        assert(slug_char(s[k]));
    }
    if s.contains('\\') {
        let k = choose|k: int| 0 <= k < s.len() && s[k] == '\\';
        assert(slug_char(s[k]));
    }
}

/// The last segment of `segs` that is neither empty nor `.`.
pub open spec fn last_component(segs: Seq<Seq<char>>) -> Option<Seq<char>>
    decreases segs.len(),
{
    if segs.len() == 0 {
        None
    } else if segs.last().len() == 0 || segs.last() == seq!['.'] {
        last_component(segs.drop_last())
    } else {
        Some(segs.last())
    }
}

/// `Path::file_name`: the last normal component of a path.
pub open spec fn file_name(p: Seq<char>) -> Option<Seq<char>> {
    match last_component(split(p, '/')) {
        Some(n) => if n == seq!['.', '.'] { None } else { Some(n) },
        None => None,
    }
}

/// `Path::file_stem` and `Path::extension` of a file name: split at the
/// last `.`, unless there is none or it is the first character.
pub open spec fn stem_and_ext(name: Seq<char>) -> (Seq<char>, Option<Seq<char>>) {
    let i = last_index(name, '.');
    if name == seq!['.', '.'] || i <= 0 {
        (name, None)
    } else {
        (name.take(i), Some(name.skip(i + 1)))
    }
}

/// The file name of a path.
pub fn path_file_name(path: &str) -> (r: Option<String>)
    ensures
        opt_view(r) == file_name(path@),
{
    let segs = split_str(path, '/');
    let ghost views = seq_view_of(segs@);
    let mut j: usize = segs.len();
    assert(views.take(j as int) == views);
    proof {
        reveal_strlit(".");
        assert("."@ =~= seq!['.']);
    }
    while j > 0
        invariant
            j <= segs.len(),
            views == seq_view_of(segs@),
            views == split(path@, '/'),
            "."@ == seq!['.'],
            last_component(views) == last_component(views.take(j as int)),
        decreases j,
    {
        let seg = segs[j - 1].as_str();
        assert(views.take(j as int).last() == seg@);
        if !(seg.is_empty() || str_eq(seg, ".")) {
            proof {
                reveal_strlit("..");
                assert(".."@ =~= seq!['.', '.']);
            }
            if str_eq(seg, "..") {
                return None;
            }
            return Some(seg.to_owned());
        }
        assert(views.take(j as int).drop_last() == views.take(j - 1));
        j = j - 1;
    }
    None
}

/// The stem and the extension of a file name.
pub fn split_extension(name: &str) -> (r: (String, Option<String>))
    ensures
        r.0@ == stem_and_ext(name@).0,
        opt_view(r.1) == stem_and_ext(name@).1,
{
    let v = chars_of(name);
    proof {
        reveal_strlit("..");
        assert(".."@ =~= seq!['.', '.']);
    }
    if str_eq(name, "..") {
        return (name.to_owned(), None);
    }
    proof {
        lemma_last_index(v@, '.');
    }
    match find_last(&v, '.') {
        Some(i) => {
            if i == 0 {
                (name.to_owned(), None)
            } else {
                (string_of(&v, 0, i), Some(string_of(&v, i + 1, v.len())))
            }
        },
        None => (name.to_owned(), None),
    }
}

/// The slug of the entry stored at `path`: the stem of a file whose
/// extension is `toml`.
pub open spec fn slug_at(path: Seq<char>, is_file: bool) -> Option<Seq<char>> {
    if !is_file {
        None
    } else {
        match file_name(path) {
            None => None,
            Some(n) => if stem_and_ext(n).1 == Some(toml_ext()) {
                Some(stem_and_ext(n).0)
            } else {
                None
            },
        }
    }
}

/// The slug of the entry file at `path`, which is a regular file when
/// `is_file` holds.
pub fn entry_slug(path: &str, is_file: bool) -> (r: Option<String>)
    ensures
        opt_view(r) == slug_at(path@, is_file),
{
    if !is_file {
        return None;
    }
    let name = match path_file_name(path) {
        Some(n) => n,
        None => return None,
    };
    let (stem, ext) = split_extension(name.as_str());
    proof {
        reveal_strlit("toml");
        assert("toml"@ =~= toml_ext());
    }
    match ext {
        Some(e) => if str_eq(e.as_str(), "toml") {
            Some(stem)
        } else {
            None
        },
        None => None,
    }
}

/// A path whose file name starts with a dot.
pub open spec fn hidden(path: Seq<char>) -> bool {
    match file_name(path) {
        Some(n) => n.len() > 0 && n[0] == '.',
        None => false,
    }
}

/// A path that `list_entry_paths` keeps: not hidden, a file, with the
/// `toml` extension.
pub open spec fn listed(path: Seq<char>, is_file: bool) -> bool {
    &&& !hidden(path)
    &&& is_file
    &&& match file_name(path) {
        Some(n) => stem_and_ext(n).1 == Some(toml_ext()),
        None => false,
    }
}

/// The paths that `items` lists and `listed` keeps, in the order of `items`.
pub open spec fn kept_paths(items: Seq<(String, bool)>) -> Seq<Seq<char>>
    decreases items.len(),
{
    if items.len() == 0 {
        Seq::empty()
    } else if listed(items.last().0@, items.last().1) {
        kept_paths(items.drop_last()).push(items.last().0@)
    } else {
        kept_paths(items.drop_last())
    }
}

/// Of the items of the store's directory (each path with whether it is a
/// regular file), the entry files, sorted.
pub fn list_entry_paths(items: &Vec<(String, bool)>) -> (r: Vec<String>)
    ensures
        sorted_views(seq_view_of(r@)),
        seq_view_of(r@).to_multiset() == kept_paths(items@).to_multiset(),
{
    let mut out: Vec<String> = Vec::new();
    let mut i: usize = 0;
    while i < items.len()
        invariant
            i <= items.len(),
            seq_view_of(out@) == kept_paths(items@.take(i as int)),
        decreases items.len() - i,
    {
        assert(items@.take(i + 1).drop_last() == items@.take(i as int));
        let path = items[i].0.as_str();
        let is_file = items[i].1;
        let name = path_file_name(path);
        let is_hidden = match &name {
            Some(n) => {
                let v = chars_of(n.as_str());
                v.len() > 0 && v[0] == '.'
            },
            None => false,
        };
        if !is_hidden && is_file {
            match &name {
                Some(n) => {
                    let (_, ext) = split_extension(n.as_str());
                    proof {
                        reveal_strlit("toml");
                        assert("toml"@ =~= toml_ext());
                    }
                    let keep = match &ext {
                        Some(e) => str_eq(e.as_str(), "toml"),
                        None => false,
                    };
                    if keep {
                        out.push(items[i].0.clone());
                        assert(seq_view_of(out@) =~= kept_paths(items@.take(i as int)).push(path@));
                    }
                },
                None => {},
            }
        }
        i = i + 1;
    }
    assert(items@.take(items.len() as int) == items@);
    sort_strings(&out)
}

/// The error given when an entry is not in the namespace that its identifier
/// asks for.
pub open spec fn namespace_mismatch(slug: Seq<char>, actual: Option<Seq<char>>, requested: Seq<char>) -> Seq<char> {
    "Entry '"@ + slug + "' exists but is in namespace '"@ + match actual {
        Some(n) => n,
        None => "ungrouped"@,
    } + "' (requested '"@ + requested + "')."@
}

/// Checks that an entry is in the namespace its identifier asks for, if it
/// asks for one.
pub fn check_namespace(slug: &str, expected: &Option<String>, actual: &Option<String>) -> (r: Result<(), String>)
    ensures
        match opt_view(*expected) {
            None => r is Ok,
            Some(ns) => if opt_view(*actual) == Some(ns) {
                r is Ok
            } else {
                r matches Err(e) && e@ == namespace_mismatch(slug@, opt_view(*actual), ns)
            },
        },
{
    match expected {
        None => Ok(()),
        Some(ns) => {
            let same = match actual {
                Some(a) => str_eq(a.as_str(), ns.as_str()),
                None => false,
            };
            if same {
                Ok(())
            } else {
                let mut msg = concat("Entry '", slug);
                push_str(&mut msg, "' exists but is in namespace '");
                match actual {
                    Some(a) => push_str(&mut msg, a.as_str()),
                    None => push_str(&mut msg, "ungrouped"),
                }
                push_str(&mut msg, "' (requested '");
                push_str(&mut msg, ns.as_str());
                push_str(&mut msg, "').");
                Err(msg)
            }
        },
    }
}

/// Whether the characters of `s` end with `.toml`.
pub fn ends_with_suffix(s: &str) -> (b: bool)
    ensures
        b == ends_with(s@, toml_suffix()),
{
    let v = chars_of(s);
    let n = v.len();
    if n < 5 {
        return false;
    }
    let r = v[n - 5] == '.' && v[n - 4] == 't' && v[n - 3] == 'o' && v[n - 2] == 'm' && v[n - 1] == 'l';
    assert(r ==> v@.subrange(n - 5, n as int) =~= toml_suffix());
    assert(v@.subrange(n - 5, n as int) == toml_suffix() ==> r) by {
        if v@.subrange(n - 5, n as int) == toml_suffix() {
            assert(v@.subrange(n - 5, n as int)[0] == v@[n - 5]);
            assert(v@.subrange(n - 5, n as int)[1] == v@[n - 4]);
            assert(v@.subrange(n - 5, n as int)[2] == v@[n - 3]);
            assert(v@.subrange(n - 5, n as int)[3] == v@[n - 2]);
            assert(v@.subrange(n - 5, n as int)[4] == v@[n - 1]);
        }
    }
    r
}

/// A slug that `validate_slug` accepted is accepted again as itself.
pub proof fn law_slug_idempotent(x: Seq<char>)
    requires
        slug_of(x) is Ok,
    ensures
        slug_of(slug_of(x)->Ok_0) == slug_of(x),
{
    lemma_slug_of_good(x);
    lemma_good_slug_fixed(slug_of(x)->Ok_0);
}

/// Storage is flat: an identifier with a namespace names the same entry
/// file as its slug alone.
pub proof fn law_flat_storage(x: Seq<char>, store: Seq<char>)
    requires
        identifier_of(x) is Ok,
    ensures
        identifier_of(identifier_of(x)->Ok_0.1) matches Ok((None, s)) && s == identifier_of(x)->Ok_0.1
            && path_join(store, s + toml_suffix()) == path_join(store, identifier_of(x)->Ok_0.1 + toml_suffix()),
{
    lemma_identifier_slug_good(x);
    lemma_good_slug_fixed(identifier_of(x)->Ok_0.1);
}

/// Splitting `a + x` at `c`, where `a` is empty or ends with `c` and `x`
/// holds no `c`, ends with the piece `x`.
proof fn lemma_split_last_piece(a: Seq<char>, x: Seq<char>, c: char)
    requires
        a.len() == 0 || a.last() == c,
        !x.contains(c),
    ensures
        split(a + x, c).len() >= 1,
        split(a + x, c).last() == x,
    decreases x.len(),
{
    crate::entry::lemma_join_split(a + x, c);
    if x.len() == 0 {
        assert(a + x =~= a);
        if a.len() > 0 {
            assert(a.drop_last().push(c) =~= a);
        }
    } else {
        let y = x.drop_last();
        assert(!y.contains(c)) by {
            if y.contains(c) {
                let k = choose|k: int| 0 <= k < y.len() && y[k] == c;
                assert(x[k] == c);
            }
        }
        lemma_split_last_piece(a, y, c);
        assert((a + x).drop_last() =~= a + y);
        assert((a + x).last() == x.last());
        assert(x.last() != c) by {
            assert(x[x.len() - 1] == x.last());
        }
        assert(y.push(x.last()) =~= x);
    }
}

/// The entry file named after a slug is read back as that slug.
pub proof fn law_entry_slug_of_path(store: Seq<char>, s: Seq<char>)
    requires
        slug_of(s) == Ok::<Seq<char>, Seq<char>>(s),
    ensures
        slug_at(path_join(store, s + toml_suffix()), true) == Some(s),
{
    lemma_slug_of_good(s);
    let x = s + toml_suffix();
    assert(!x.contains('/')) by {
        if x.contains('/') {
            let k = choose|k: int| 0 <= k < x.len() && x[k] == '/';
            if k < s.len() {
                assert(slug_char(s[k]));
            }
        }
    }
    let a = if store.len() == 0 || store.last() == '/' { store } else { store + seq!['/'] };
    assert(path_join(store, x) =~= a + x);
    if store.len() > 0 && store.last() != '/' {
        assert(a.last() == '/');
    }
    lemma_split_last_piece(a, x, '/');
    let segs = split(a + x, '/');
    assert(segs.last() == x);
    assert(x.len() >= 5);
    assert(x != seq!['.']);
    assert(last_component(segs) == Some(x));
    assert(x != seq!['.', '.']);
    assert(file_name(path_join(store, x)) == Some(x));
    lemma_last_index(x, '.');
    let i = last_index(x, '.');
    assert(x[s.len() as int] == '.');
    assert(i == s.len()) by {
        if i < s.len() {
            assert(x[s.len() as int] != '.');
        }
        if i > s.len() {
            assert(x[i] == toml_suffix()[i - s.len()]);
        }
    }
    assert(x.take(i) =~= s);
    assert(x.skip(i + 1) =~= toml_ext());
}

/// A namespace and a slug that are each read as themselves are read back
/// from `namespace/slug` as that namespace and slug, and the slug alone as
/// the slug with no namespace.
pub proof fn law_identifier_roundtrip(n: Seq<char>, s: Seq<char>)
    requires
        namespace_of(n) == Ok::<Option<Seq<char>>, Seq<char>>(Some(n)),
        slug_of(s) == Ok::<Seq<char>, Seq<char>>(s),
    ensures
        identifier_of(n + seq!['/'] + s) == Ok::<(Option<Seq<char>>, Seq<char>), Seq<char>>((Some(n), s)),
        identifier_of(s) == Ok::<(Option<Seq<char>>, Seq<char>), Seq<char>>((None, s)),
{
    lemma_slug_of_good(s);
    lemma_good_slug_fixed(s);
    crate::entry::lemma_namespace_fixed_shape(n);
    let x = n + seq!['/'] + s;
    assert(x[0] == n[0]);
    assert(x.last() == s.last());
    assert(slug_char(s.last())) by {
        assert(s[s.len() - 1] == s.last());
    }
    assert(strip_start(x, space_pred()) == x);
    assert(strip_end(x, space_pred()) == x);
    assert(trim(x) == x);
    assert(strip_start(x, char_pred('/')) == x);
    assert(strip_end(x, char_pred('/')) == x);
    assert(trim_char(trim(x), '/') == x);
    assert(x[n.len() as int] == '/');
    assert(x.contains('/'));
    lemma_last_index(x, '/');
    let i = last_index(x, '/');
    assert(i == n.len()) by {
        if i < n.len() {
            assert(x[n.len() as int] != '/');
        }
        if i > n.len() {
            assert(x[i] == s[i - n.len() - 1]);
            assert(slug_char(s[i - n.len() - 1]));
        }
    }
    assert(x.take(i) =~= n);
    assert(x.skip(i + 1) =~= s);
}

/// An ASCII letter or digit.
pub open spec fn ascii_alphanumeric(c: char) -> bool {
    ||| 'a' <= c <= 'z'
    ||| 'A' <= c <= 'Z'
    ||| '0' <= c <= '9'
}

/// Every non-empty string of ASCII letters and digits is a slug, read as
/// itself, alone or as an identifier.
pub proof fn law_alphanumeric_slug(s: Seq<char>)
    requires
        s.len() > 0,
        forall|i: int| 0 <= i < s.len() ==> ascii_alphanumeric(#[trigger] s[i]),
    ensures
        slug_of(s) == Ok::<Seq<char>, Seq<char>>(s),
        identifier_of(s) == Ok::<(Option<Seq<char>>, Seq<char>), Seq<char>>((None, s)),
{
    assert forall|i: int| 0 <= i < s.len() implies slug_char(#[trigger] s[i]) by {
        assert(ascii_alphanumeric(s[i]));
    }
    assert(!ends_with(s, toml_suffix())) by {
        if ends_with(s, toml_suffix()) {
            assert(s.subrange(s.len() - 5, s.len() as int)[0] == s[s.len() - 5]);
            assert(ascii_alphanumeric(s[s.len() - 5]));
        }
    }
    lemma_good_slug_fixed(s);
}

} // verus!
