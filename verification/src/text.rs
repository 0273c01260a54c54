//! Character-level helpers over the `Seq<char>` view of strings.
use vstd::prelude::*;

verus! {

/// The Unicode `White_Space` property, which `char::is_whitespace` and
/// `str::trim` use.
pub open spec fn is_space(c: char) -> bool {
    let u = c as u32;
    ||| 0x9 <= u <= 0xd
    ||| u == 0x20
    ||| u == 0x85
    ||| u == 0xa0
    ||| u == 0x1680
    ||| 0x2000 <= u <= 0x200a
    ||| u == 0x2028
    ||| u == 0x2029
    ||| u == 0x202f
    ||| u == 0x205f
    ||| u == 0x3000
}

/// `s` without its leading characters that satisfy `p`.
pub open spec fn strip_start(s: Seq<char>, p: spec_fn(char) -> bool) -> Seq<char>
    decreases s.len(),
{
    if s.len() > 0 && p(s[0]) {
        strip_start(s.drop_first(), p)
    } else {
        s
    }
}

/// `s` without its trailing characters that satisfy `p`.
pub open spec fn strip_end(s: Seq<char>, p: spec_fn(char) -> bool) -> Seq<char>
    decreases s.len(),
{
    if s.len() > 0 && p(s.last()) {
        strip_end(s.drop_last(), p)
    } else {
        s
    }
}

pub open spec fn space_pred() -> spec_fn(char) -> bool {
    |c: char| is_space(c)
}

pub open spec fn char_pred(c: char) -> spec_fn(char) -> bool {
    |d: char| d == c
}

/// `str::trim`: leading and trailing whitespace removed.
pub open spec fn trim(s: Seq<char>) -> Seq<char> {
    strip_end(strip_start(s, space_pred()), space_pred())
}

/// `str::trim_matches(c)` for a single character `c`.
pub open spec fn trim_char(s: Seq<char>, c: char) -> Seq<char> {
    strip_end(strip_start(s, char_pred(c)), char_pred(c))
}

/// `t` is a suffix of `s`.
pub open spec fn ends_with(s: Seq<char>, t: Seq<char>) -> bool {
    t.len() <= s.len() && s.subrange(s.len() - t.len(), s.len() as int) == t
}

/// `t` is a prefix of `s`.
pub open spec fn starts_with(s: Seq<char>, t: Seq<char>) -> bool {
    t.len() <= s.len() && s.subrange(0, t.len() as int) == t
}

/// `str::trim_end_matches(t)` for a non-empty string pattern `t`: every
/// trailing copy of `t` removed.
pub open spec fn strip_suffixes(s: Seq<char>, t: Seq<char>) -> Seq<char>
    decreases s.len(),
{
    if t.len() > 0 && ends_with(s, t) {
        strip_suffixes(s.subrange(0, s.len() - t.len()), t)
    } else {
        s
    }
}

/// `t` occurs in `s` as a contiguous piece (`str::contains` with a string pattern).
pub open spec fn has_infix(s: Seq<char>, t: Seq<char>) -> bool {
    exists|i: int| 0 <= i && i + t.len() <= s.len() && #[trigger] s.subrange(i, i + t.len()) == t
}

/// `str::split(c)` for a single character `c`: the pieces between the
/// occurrences of `c`, always at least one.
pub open spec fn split(s: Seq<char>, c: char) -> Seq<Seq<char>>
    decreases s.len(),
{
    if s.len() == 0 {
        seq![Seq::empty()]
    } else {
        let r = split(s.drop_last(), c);
        if s.last() == c {
            r.push(Seq::empty())
        } else {
            r.update(r.len() - 1, r.last().push(s.last()))
        }
    }
}

/// The pieces of `parts` with `sep` between each two of them (`join`).
pub open spec fn join(parts: Seq<Seq<char>>, sep: Seq<char>) -> Seq<char>
    decreases parts.len(),
{
    if parts.len() == 0 {
        Seq::empty()
    } else if parts.len() == 1 {
        parts[0]
    } else {
        join(parts.drop_last(), sep) + sep + parts.last()
    }
}

/// Lexicographic order on character sequences, which is the order of
/// `String` (byte-wise UTF-8 order agrees with code-point order).
pub open spec fn seq_lt(a: Seq<char>, b: Seq<char>) -> bool
    decreases a.len(),
{
    if a.len() == 0 {
        b.len() > 0
    } else if b.len() == 0 {
        false
    } else if a[0] != b[0] {
        (a[0] as int) < (b[0] as int)
    } else {
        seq_lt(a.drop_first(), b.drop_first())
    }
}

/// The characters of each string of a sequence.
pub open spec fn seq_view_of(v: Seq<String>) -> Seq<Seq<char>> {
    v.map_values(|s: String| s@)
}

/// ASCII lowercase of one character.
pub open spec fn ascii_lower_char(c: char) -> char {
    if 'A' <= c <= 'Z' {
        ((c as u32) + 32) as char
    } else {
        c
    }
}

/// ASCII lowercase of every character of `s`.
pub open spec fn ascii_lower(s: Seq<char>) -> Seq<char> {
    s.map_values(|c: char| ascii_lower_char(c))
}

pub open spec fn all_ascii(s: Seq<char>) -> bool {
    forall|i: int| 0 <= i < s.len() ==> (#[trigger] s[i] as u32) < 128
}

/// What `str::to_lowercase` gives for `s`: the Unicode lowercase mapping.
pub uninterp spec fn unicode_lower(s: Seq<char>) -> Seq<char>;

/// `str::to_lowercase`. Trusted: the result is `unicode_lower` of the
/// argument; on an all-ASCII string it maps `A..=Z` to `a..=z` and keeps every
/// other character, as std documents for ASCII. Nothing else is stated of the
/// mapping of other characters.
#[verifier::external_body]
pub(crate) fn to_lowercase(s: &str) -> (res: String)
    ensures
        res@ == unicode_lower(s@),
        all_ascii(s@) ==> res@ == ascii_lower(s@),
{
    s.to_lowercase()
}

/// Appends one character to a `String` (std's `String::push`).
/// Trusted: the result is the old contents followed by `c`.
#[verifier::external_body]
pub(crate) fn push_char(s: &mut String, c: char)
    ensures
        final(s)@ == old(s)@.push(c),
{
    s.push(c);
}

/// The characters of `s`, in order.
pub fn chars_of(s: &str) -> (res: Vec<char>)
    ensures
        res@ == s@,
{
    let mut out: Vec<char> = Vec::new();
    for c in it: s.chars()
        invariant
            out@ == it.seq().take(it.index() as int),
            it.seq() == s@,
    {
        out.push(c);
    }
    out
}

/// A copy of an optional string.
pub fn copy_opt(o: &Option<String>) -> (r: Option<String>)
    ensures
        r == *o,
{
    match o {
        Some(s) => Some(s.clone()),
        None => None,
    }
}

/// A copy of a list of strings.
pub fn copy_strings(v: &Vec<String>) -> (r: Vec<String>)
    ensures
        r@ == v@,
{
    let mut out: Vec<String> = Vec::new();
    let mut i: usize = 0;
    while i < v.len()
        invariant
            i <= v.len(),
            out@ == v@.take(i as int),
        decreases v.len() - i,
    {
        out.push(v[i].clone());
        assert(out@ =~= v@.take(i + 1));
        i = i + 1;
    }
    assert(v@.take(v.len() as int) =~= v@);
    out
}

/// The characters `v[lo..hi]` as a `String`.
pub fn string_of(v: &Vec<char>, lo: usize, hi: usize) -> (res: String)
    requires
        lo <= hi <= v.len(),
    ensures
        res@ == v@.subrange(lo as int, hi as int),
{
    let mut out = String::new();
    let mut i = lo;
    while i < hi
        invariant
            lo <= i <= hi <= v.len(),
            out@ == v@.subrange(lo as int, i as int),
        decreases hi - i,
    {
        push_char(&mut out, v[i]);
        i = i + 1;
    }
    out
}

/// Appends the characters of `t` to `s`.
pub fn push_str(s: &mut String, t: &str)
    ensures
        final(s)@ == old(s)@ + t@,
{
    let v = chars_of(t);
    let mut i: usize = 0;
    while i < v.len()
        invariant
            i <= v.len(),
            v@ == t@,
            s@ == old(s)@ + v@.subrange(0, i as int),
        decreases v.len() - i,
    {
        push_char(s, v[i]);
        i = i + 1;
        assert(v@.subrange(0, i as int) == v@.subrange(0, i - 1).push(v@[i - 1]));
    }
    assert(v@.subrange(0, v.len() as int) == v@);
}

/// `a` followed by `b`.
pub fn concat(a: &str, b: &str) -> (res: String)
    ensures
        res@ == a@ + b@,
{
    let mut out = String::new();
    push_str(&mut out, a);
    push_str(&mut out, b);
    out
}

pub fn is_space_char(c: char) -> (b: bool)
    ensures
        b == is_space(c),
{
    let u = c as u32;
    (0x9 <= u && u <= 0xd) || u == 0x20 || u == 0x85 || u == 0xa0 || u == 0x1680 || (0x2000 <= u
        && u <= 0x200a) || u == 0x2028 || u == 0x2029 || u == 0x202f || u == 0x205f || u == 0x3000
}

proof fn lemma_strip_start_step(s: Seq<char>, i: int, p: spec_fn(char) -> bool)
    requires
        0 <= i < s.len(),
        p(s[i]),
    ensures
        strip_start(s.subrange(i, s.len() as int), p) == strip_start(
            s.subrange(i + 1, s.len() as int),
            p,
        ),
{
    assert(s.subrange(i, s.len() as int).drop_first() == s.subrange(i + 1, s.len() as int));
}

proof fn lemma_strip_end_step(s: Seq<char>, j: int, p: spec_fn(char) -> bool)
    requires
        0 < j <= s.len(),
        p(s[j - 1]),
    ensures
        strip_end(s.subrange(0, j), p) == strip_end(s.subrange(0, j - 1), p),
{
    assert(s.subrange(0, j).drop_last() == s.subrange(0, j - 1));
}

/// `str::trim`.
pub fn trim_str(s: &str) -> (res: String)
    ensures
        res@ == trim(s@),
{
    let v = chars_of(s);
    let n = v.len();
    let mut lo: usize = 0;
    assert(v@.subrange(0, n as int) == v@);
    while lo < n && is_space_char(v[lo])
        invariant
            lo <= n == v.len(),
            v@ == s@,
            strip_start(v@, space_pred()) == strip_start(v@.subrange(lo as int, n as int), space_pred()),
        decreases n - lo,
    {
        proof {
            lemma_strip_start_step(v@, lo as int, space_pred());
        }
        lo = lo + 1;
    }
    let ghost mid = v@.subrange(lo as int, n as int);
    assert(strip_start(mid, space_pred()) == mid);
    let mut hi: usize = n;
    assert(mid.subrange(0, (hi - lo) as int) == mid);
    while hi > lo && is_space_char(v[hi - 1])
        invariant
            lo <= hi <= n == v.len(),
            mid == v@.subrange(lo as int, n as int),
            strip_end(mid, space_pred()) == strip_end(mid.subrange(0, hi - lo), space_pred()),
        decreases hi - lo,
    {
        proof {
            lemma_strip_end_step(mid, hi - lo, space_pred());
            assert(mid.subrange(0, hi - lo - 1) == mid.subrange(0, (hi - 1 - lo) as int));
        }
        hi = hi - 1;
    }
    assert(mid.subrange(0, hi - lo) == v@.subrange(lo as int, hi as int));
    string_of(&v, lo, hi)
}

/// `str::trim_matches(c)` for a single character.
pub fn trim_char_str(s: &str, c: char) -> (res: String)
    ensures
        res@ == trim_char(s@, c),
{
    let v = chars_of(s);
    let n = v.len();
    let mut lo: usize = 0;
    assert(v@.subrange(0, n as int) == v@);
    while lo < n && v[lo] == c
        invariant
            lo <= n == v.len(),
            v@ == s@,
            strip_start(v@, char_pred(c)) == strip_start(v@.subrange(lo as int, n as int), char_pred(c)),
        decreases n - lo,
    {
        proof {
            lemma_strip_start_step(v@, lo as int, char_pred(c));
        }
        lo = lo + 1;
    }
    let ghost mid = v@.subrange(lo as int, n as int);
    assert(strip_start(mid, char_pred(c)) == mid);
    let mut hi: usize = n;
    assert(mid.subrange(0, (hi - lo) as int) == mid);
    while hi > lo && v[hi - 1] == c
        invariant
            lo <= hi <= n == v.len(),
            mid == v@.subrange(lo as int, n as int),
            strip_end(mid, char_pred(c)) == strip_end(mid.subrange(0, hi - lo), char_pred(c)),
        decreases hi - lo,
    {
        proof {
            lemma_strip_end_step(mid, hi - lo, char_pred(c));
            assert(mid.subrange(0, hi - lo - 1) == mid.subrange(0, (hi - 1 - lo) as int));
        }
        hi = hi - 1;
    }
    assert(mid.subrange(0, hi - lo) == v@.subrange(lo as int, hi as int));
    string_of(&v, lo, hi)
}


/// Whether `t` occurs at position `i` of `v`.
fn occurs_at(v: &Vec<char>, i: usize, t: &Vec<char>) -> (b: bool)
    requires
        i + t.len() <= v.len(),
    ensures
        b == (v@.subrange(i as int, i + t.len()) == t@),
{
    let mut k: usize = 0;
    while k < t.len()
        invariant
            k <= t.len(),
            i + t.len() <= v.len(),
            forall|m: int| 0 <= m < k ==> v@[i + m] == t@[m],
        decreases t.len() - k,
    {
        if v[i + k] != t[k] {
            assert(v@.subrange(i as int, i + t.len())[k as int] != t@[k as int]);
            return false;
        }
        k = k + 1;
    }
    assert(v@.subrange(i as int, i + t.len()) =~= t@);
    true
}

/// `str::contains` with a string pattern.
pub fn contains_str(s: &str, t: &str) -> (b: bool)
    ensures
        b == has_infix(s@, t@),
{
    let v = chars_of(s);
    let w = chars_of(t);
    if w.len() > v.len() {
        return false;
    }
    let count = v.len() - w.len();
    let mut i: usize = 0;
    loop
        invariant
            v@ == s@,
            w@ == t@,
            w.len() <= v.len(),
            count == v.len() - w.len(),
            i <= count,
            forall|k: int| 0 <= k < i ==> #[trigger] v@.subrange(k, k + w.len()) != w@,
        decreases count - i,
    {
        if occurs_at(&v, i, &w) {
            return true;
        }
        if i == count {
            return false;
        }
        i = i + 1;
    }
}

/// `str::starts_with` with a string pattern.
pub fn starts_with_str(s: &str, t: &str) -> (b: bool)
    ensures
        b == starts_with(s@, t@),
{
    let v = chars_of(s);
    let w = chars_of(t);
    if w.len() > v.len() {
        return false;
    }
    occurs_at(&v, 0, &w)
}

/// Equality of the characters of two strings.
pub fn str_eq(a: &str, b: &str) -> (r: bool)
    ensures
        r == (a@ == b@),
{
    let v = chars_of(a);
    let w = chars_of(b);
    if v.len() != w.len() {
        return false;
    }
    let r = occurs_at(&v, 0, &w);
    assert(v@.subrange(0, w.len() as int) == v@);
    r
}

/// `str::trim_end_matches(t)` for a non-empty string pattern.
pub fn strip_suffixes_str(s: &str, t: &str) -> (res: String)
    requires
        t@.len() > 0,
    ensures
        res@ == strip_suffixes(s@, t@),
{
    let v = chars_of(s);
    let w = chars_of(t);
    let mut hi: usize = v.len();
    assert(v@.subrange(0, hi as int) == v@);
    while hi >= w.len() && occurs_at(&v, hi - w.len(), &w)
        invariant
            hi <= v.len(),
            v@ == s@,
            w@ == t@,
            w.len() > 0,
            strip_suffixes(s@, t@) == strip_suffixes(v@.subrange(0, hi as int), t@),
        decreases hi,
    {
        proof {
            let cur = v@.subrange(0, hi as int);
            assert(cur.subrange(cur.len() - w@.len(), cur.len() as int) == v@.subrange(
                hi - w.len(),
                hi as int,
            ));
            assert(cur.subrange(0, cur.len() - w@.len()) == v@.subrange(0, hi - w.len()));
        }
        hi = hi - w.len();
    }
    proof {
        let cur = v@.subrange(0, hi as int);
        if hi >= w.len() {
            assert(cur.subrange(cur.len() - w@.len(), cur.len() as int) == v@.subrange(
                hi - w.len(),
                hi as int,
            ));
        }
    }
    string_of(&v, 0, hi)
}

/// Strict lexicographic order of the characters of two strings.
pub fn str_lt(a: &str, b: &str) -> (r: bool)
    ensures
        r == seq_lt(a@, b@),
{
    let v = chars_of(a);
    let w = chars_of(b);
    let mut i: usize = 0;
    assert(v@.subrange(0, v.len() as int) == v@);
    assert(w@.subrange(0, w.len() as int) == w@);
    while i < v.len() && i < w.len() && v[i] == w[i]
        invariant
            i <= v.len(),
            i <= w.len(),
            v@ == a@,
            w@ == b@,
            seq_lt(a@, b@) == seq_lt(v@.subrange(i as int, v.len() as int), w@.subrange(i as int, w.len() as int)),
        decreases v.len() - i,
    {
        proof {
            let x = v@.subrange(i as int, v.len() as int);
            let y = w@.subrange(i as int, w.len() as int);
            assert(x.drop_first() == v@.subrange(i + 1, v.len() as int));
            assert(y.drop_first() == w@.subrange(i + 1, w.len() as int));
        }
        i = i + 1;
    }
    if i == v.len() {
        i < w.len()
    } else if i == w.len() {
        false
    } else {
        v[i] < w[i]
    }
}

/// `s.split(c)`, each piece as a `String`.
pub fn split_str(s: &str, c: char) -> (res: Vec<String>)
    ensures
        res@.map_values(|p: String| p@) == split(s@, c),
{
    let v = chars_of(s);
    let mut pieces: Vec<String> = Vec::new();
    let mut cur = String::new();
    let mut i: usize = 0;
    assert(v@.take(0) =~= Seq::<char>::empty());
    assert(pieces@.map_values(|p: String| p@).push(cur@) =~= split(v@.take(0), c));
    while i < v.len()
        invariant
            i <= v.len(),
            v@ == s@,
            pieces@.map_values(|p: String| p@).push(cur@) == split(v@.take(i as int), c),
        decreases v.len() - i,
    {
        let ghost before = pieces@.map_values(|p: String| p@).push(cur@);
        assert(v@.take(i + 1).drop_last() == v@.take(i as int));
        assert(v@.take(i + 1).last() == v@[i as int]);
        if v[i] == c {
            pieces.push(cur);
            cur = String::new();
            assert(pieces@.map_values(|p: String| p@).push(cur@) =~= before.push(Seq::empty()));
        } else {
            push_char(&mut cur, v[i]);
            assert(pieces@.map_values(|p: String| p@).push(cur@) =~= before.update(
                before.len() - 1,
                before.last().push(v@[i as int]),
            ));
        }
        i = i + 1;
    }
    assert(v@.take(v.len() as int) == v@);
    pieces.push(cur);
    pieces
}

/// The pieces of `parts` joined with `sep`.
pub fn join_strs(parts: &Vec<String>, sep: &str) -> (res: String)
    ensures
        res@ == join(parts@.map_values(|p: String| p@), sep@),
{
    let ghost views = parts@.map_values(|p: String| p@);
    let mut out = String::new();
    let mut i: usize = 0;
    while i < parts.len()
        invariant
            i <= parts.len(),
            views == parts@.map_values(|p: String| p@),
            out@ == join(views.take(i as int), sep@),
        decreases parts.len() - i,
    {
        assert(views.take(i + 1).drop_last() == views.take(i as int));
        if i > 0 {
            push_str(&mut out, sep);
        }
        push_str(&mut out, parts[i].as_str());
        i = i + 1;
        assert(views.take(i as int).last() == parts@[i - 1]@);
    }
    assert(views.take(parts.len() as int) == views);
    out
}


/// The position of the last `c` in `s`, or -1.
pub open spec fn last_index(s: Seq<char>, c: char) -> int
    decreases s.len(),
{
    if s.len() == 0 {
        -1
    } else if s.last() == c {
        s.len() - 1
    } else {
        last_index(s.drop_last(), c)
    }
}

pub proof fn lemma_last_index(s: Seq<char>, c: char)
    ensures
        -1 <= last_index(s, c) < s.len(),
        last_index(s, c) >= 0 ==> s[last_index(s, c)] == c,
        forall|j: int| last_index(s, c) < j < s.len() ==> s[j] != c,
        (last_index(s, c) >= 0) == s.contains(c),
    decreases s.len(),
{
    if s.len() > 0 {
        lemma_last_index(s.drop_last(), c);
        if s.last() != c {
            if s.drop_last().contains(c) {
                let k = choose|k: int| 0 <= k < s.drop_last().len() && s.drop_last()[k] == c;
                assert(s[k] == c);
            }
            if s.contains(c) {
                let k = choose|k: int| 0 <= k < s.len() && s[k] == c;
                assert(k < s.len() - 1);
                assert(s.drop_last()[k] == c);
            }
        } else {
            assert(s[s.len() - 1] == c);
        }
        assert forall|j: int| last_index(s, c) < j < s.len() implies s[j] != c by {
            if j < s.len() - 1 {
                assert(s.drop_last()[j] == s[j]);
            }
        }
    }
}

/// The position of the last `c` in `v`.
pub fn find_last(v: &Vec<char>, c: char) -> (r: Option<usize>)
    ensures
        match r {
            Some(i) => i == last_index(v@, c),
            None => last_index(v@, c) == -1,
        },
{
    let mut j: usize = v.len();
    assert(v@.subrange(0, j as int) == v@);
    while j > 0
        invariant
            j <= v.len(),
            last_index(v@, c) == last_index(v@.subrange(0, j as int), c),
        decreases j,
    {
        assert(v@.subrange(0, j as int).last() == v@[j - 1]);
        if v[j - 1] == c {
            return Some(j - 1);
        }
        assert(v@.subrange(0, j as int).drop_last() == v@.subrange(0, j - 1));
        j = j - 1;
    }
    None
}

pub proof fn lemma_seq_lt_irreflexive(a: Seq<char>)
    ensures
        !seq_lt(a, a),
    decreases a.len(),
{
    if a.len() > 0 {
        lemma_seq_lt_irreflexive(a.drop_first());
    }
}

pub proof fn lemma_seq_lt_transitive(a: Seq<char>, b: Seq<char>, c: Seq<char>)
    requires
        seq_lt(a, b),
        seq_lt(b, c),
    ensures
        seq_lt(a, c),
    decreases a.len(),
{
    if a.len() > 0 && b.len() > 0 && c.len() > 0 && a[0] == b[0] && b[0] == c[0] {
        lemma_seq_lt_transitive(a.drop_first(), b.drop_first(), c.drop_first());
    }
}

pub proof fn lemma_seq_lt_total(a: Seq<char>, b: Seq<char>)
    ensures
        a == b || seq_lt(a, b) || seq_lt(b, a),
    decreases a.len(),
{
    if a.len() > 0 && b.len() > 0 {
        if a[0] == b[0] {
            lemma_seq_lt_total(a.drop_first(), b.drop_first());
            if a.drop_first() == b.drop_first() {
                assert(a =~= seq![a[0]] + a.drop_first());
                assert(b =~= seq![b[0]] + b.drop_first());
            }
        }
    } else if a.len() == 0 && b.len() == 0 {
        assert(a =~= b);
    }
}

pub proof fn lemma_seq_lt_asymmetric(a: Seq<char>, b: Seq<char>)
    requires
        seq_lt(a, b),
    ensures
        !seq_lt(b, a),
{
    if seq_lt(b, a) {
        lemma_seq_lt_transitive(a, b, a);
        lemma_seq_lt_irreflexive(a);
    }
}

/// Each string of `v` is not greater than the next ones.
pub open spec fn sorted_views(v: Seq<Seq<char>>) -> bool {
    forall|i: int, j: int| 0 <= i < j < v.len() ==> !seq_lt(#[trigger] v[j], #[trigger] v[i])
}

/// Each string of `v` is less than the next ones.
pub open spec fn strictly_sorted(v: Seq<Seq<char>>) -> bool {
    forall|i: int, j: int| 0 <= i < j < v.len() ==> seq_lt(#[trigger] v[i], #[trigger] v[j])
}

proof fn lemma_insert_multiset<A>(s: Seq<A>, p: int, x: A)
    requires
        0 <= p <= s.len(),
    ensures
        s.insert(p, x).to_multiset() == s.to_multiset().insert(x),
{
    broadcast use vstd::seq_lib::group_to_multiset_ensures;
    let t = s.insert(p, x);
    assert(t.remove(p) =~= s);
    assert(t[p] == x);
    assert(t.to_multiset().remove(x) == s.to_multiset());
    assert(t.contains(x));
    assert(t.to_multiset().count(x) > 0);
    assert(t.to_multiset() =~= s.to_multiset().insert(x));
}

/// The strings of `v`, ordered by their characters.
pub fn sort_strings(v: &Vec<String>) -> (r: Vec<String>)
    ensures
        sorted_views(seq_view_of(r@)),
        seq_view_of(r@).to_multiset() == seq_view_of(v@).to_multiset(),
        r.len() == v.len(),
{
    broadcast use vstd::seq_lib::group_to_multiset_ensures;
    let mut r: Vec<String> = Vec::new();
    let mut i: usize = 0;
    while i < v.len()
        invariant
            i <= v.len(),
            r.len() == i,
            sorted_views(seq_view_of(r@)),
            seq_view_of(r@).to_multiset() == seq_view_of(v@.take(i as int)).to_multiset(),
        decreases v.len() - i,
    {
        let x = v[i].clone();
        let mut p: usize = 0;
        while p < r.len() && !str_lt(x.as_str(), r[p].as_str())
            invariant
                p <= r.len(),
                forall|k: int| 0 <= k < p ==> !seq_lt(x@, #[trigger] r@[k]@),
            decreases r.len() - p,
        {
            p = p + 1;
        }
        let ghost old_views = seq_view_of(r@);
        proof {
            assert forall|k: int| p <= k < old_views.len() implies !seq_lt(#[trigger] old_views[k], x@) by {
                if seq_lt(old_views[k], x@) {
                    if k > p {
                        lemma_seq_lt_transitive(old_views[k], x@, old_views[p as int]);
                    } else {
                        lemma_seq_lt_asymmetric(old_views[k], x@);
                    }
                }
            }
        }
        r.insert(p, x);
        proof {
            assert(seq_view_of(r@) =~= old_views.insert(p as int, x@));
            lemma_insert_multiset(old_views, p as int, x@);
            assert(seq_view_of(v@.take(i + 1)) =~= seq_view_of(v@.take(i as int)).push(v@[i as int]@));
            seq_view_of(v@.take(i as int)).to_multiset_ensures();
            assert(seq_view_of(v@.take(i as int)).push(v@[i as int]@).to_multiset()
                == seq_view_of(v@.take(i as int)).to_multiset().insert(v@[i as int]@));
            let nv = seq_view_of(r@);
            assert forall|a: int, b: int| 0 <= a < b < nv.len() implies !seq_lt(#[trigger] nv[b], #[trigger] nv[a]) by {
                if a < p && b > p {
                    assert(nv[a] == old_views[a]);
                    assert(nv[b] == old_views[b - 1]);
                } else if a == p {
                    assert(nv[b] == old_views[b - 1]);
                } else if b == p {
                    assert(nv[a] == old_views[a]);
                } else if b < p {
                    assert(nv[a] == old_views[a]);
                    assert(nv[b] == old_views[b]);
                } else {
                    assert(nv[a] == old_views[a - 1]);
                    assert(nv[b] == old_views[b - 1]);
                }
            }
        }
        i = i + 1;
    }
    assert(v@.take(v.len() as int) == v@);
    r
}

/// The distinct strings of `v`, in increasing order.
pub fn sorted_distinct(v: &Vec<String>) -> (r: Vec<String>)
    ensures
        strictly_sorted(seq_view_of(r@)),
        forall|x: Seq<char>| seq_view_of(r@).contains(x) <==> seq_view_of(v@).contains(x),
{
    let mut r: Vec<String> = Vec::new();
    let mut i: usize = 0;
    while i < v.len()
        invariant
            i <= v.len(),
            strictly_sorted(seq_view_of(r@)),
            forall|x: Seq<char>| seq_view_of(r@).contains(x) <==> seq_view_of(v@.take(i as int)).contains(x),
        decreases v.len() - i,
    {
        let x = v[i].clone();
        let mut p: usize = 0;
        while p < r.len() && str_lt(r[p].as_str(), x.as_str())
            invariant
                p <= r.len(),
                forall|k: int| 0 <= k < p ==> seq_lt(#[trigger] r@[k]@, x@),
            decreases r.len() - p,
        {
            p = p + 1;
        }
        let ghost old_views = seq_view_of(r@);
        let ghost pre = seq_view_of(v@.take(i as int));
        let ghost cur = seq_view_of(v@.take(i + 1));
        assert(cur =~= pre.push(x@));
        let dup = p < r.len() && str_eq(r[p].as_str(), x.as_str());
        if dup {
            assert(old_views[p as int] == x@);
            assert forall|y: Seq<char>| seq_view_of(r@).contains(y) <==> cur.contains(y) by {
                if y == x@ {
                    assert(old_views[p as int] == y);
                    assert(old_views.contains(y));
                    assert(cur[i as int] == y);
                } else {
                    if cur.contains(y) {
                        let k = choose|k: int| 0 <= k < cur.len() && cur[k] == y;
                        assert(pre[k] == y);
                        assert(pre.contains(y));
                    }
                    if pre.contains(y) {
                        let k = choose|k: int| 0 <= k < pre.len() && pre[k] == y;
                        assert(cur[k] == y);
                    }
                }
            }
        } else {
            proof {
                if p < r.len() {
                    lemma_seq_lt_total(old_views[p as int], x@);
                }
                assert forall|k: int| p <= k < old_views.len() implies seq_lt(x@, #[trigger] old_views[k]) by {
                    if k > p {
                        lemma_seq_lt_transitive(x@, old_views[p as int], old_views[k]);
                    }
                }
            }
            r.insert(p, x);
            proof {
                let nv = seq_view_of(r@);
                assert(nv =~= old_views.insert(p as int, x@));
                assert forall|a: int, b: int| 0 <= a < b < nv.len() implies seq_lt(#[trigger] nv[a], #[trigger] nv[b]) by {
                    if a < p && b > p {
                        assert(nv[a] == old_views[a]);
                        assert(nv[b] == old_views[b - 1]);
                        lemma_seq_lt_transitive(nv[a], x@, nv[b]);
                    } else if a == p {
                        assert(nv[b] == old_views[b - 1]);
                    } else if b == p {
                        assert(nv[a] == old_views[a]);
                    } else if b < p {
                        assert(nv[a] == old_views[a]);
                        assert(nv[b] == old_views[b]);
                    } else {
                        assert(nv[a] == old_views[a - 1]);
                        assert(nv[b] == old_views[b - 1]);
                    }
                }
                assert forall|y: Seq<char>| nv.contains(y) <==> cur.contains(y) by {
                    if y == x@ {
                        assert(nv[p as int] == y);
                        assert(cur[i as int] == y);
                    } else {
                        if nv.contains(y) {
                            let k = choose|k: int| 0 <= k < nv.len() && nv[k] == y;
                            if k < p {
                                assert(old_views[k] == y);
                            } else {
                                assert(old_views[k - 1] == y);
                            }
                            assert(old_views.contains(y));
                            let m = choose|m: int| 0 <= m < i && pre[m] == y;
                            assert(cur[m] == y);
                        }
                        if cur.contains(y) {
                            let k = choose|k: int| 0 <= k < i + 1 && cur[k] == y;
                            assert(pre[k] == y);
                            assert(old_views.contains(y));
                            let m = choose|m: int| 0 <= m < old_views.len() && old_views[m] == y;
                            if m < p {
                                assert(nv[m] == y);
                            } else {
                                assert(nv[m + 1] == y);
                            }
                        }
                    }
                }
            }
        }
        i = i + 1;
    }
    assert(v@.take(v.len() as int) == v@);
    r
}

} // verus!
