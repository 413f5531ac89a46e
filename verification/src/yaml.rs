//! The flat YAML dialect of skill frontmatter: `key: value` scalars, single-
//! and double-quoted scalars, block lists (`- item`) and folded multi-line
//! scalars. Nested maps, anchors, flow style and multi-document streams are
//! not part of it.
use vstd::prelude::*;
use crate::text::{
    is_ws, lemma_double_undouble, lemma_lines_single, lemma_lines_append, lemma_lines_cons, lemma_unlines_append, strip_cr,
    unlines, lemma_find_sub, lemma_replace_keeps_absent, lemma_trim_len,
    lemma_trim_plain, lemma_trimmed_ends, matches_at, lemma_trim_end_after, lemma_trim_start_after, lemma_trim_end_prefix,
    lemma_trim_end_keeps_first,
    chars_eq, chars_of, contains_sub, debug_quote, debug_str, decimal, decimal_exec, extend_chars,
    find_sub, find_sub_exec, lines, lines_of, replace, replace_exec, slice_vec, string_of, trim,
    trim_chars, trim_end, trim_end_chars, trim_start, trim_start_chars,
};

verus! {

/// A value of the dialect: a scalar or a list of scalars.
#[derive(Debug, Clone, PartialEq)]
pub enum YamlValue {
    Scalar(String),
    List(Vec<String>),
}

/// The mathematical form of a `YamlValue`.
pub enum YamlVal {
    Scalar(Seq<char>),
    List(Seq<Seq<char>>),
}

impl View for YamlValue {
    type V = YamlVal;

    open spec fn view(&self) -> YamlVal {
        match self {
            YamlValue::Scalar(s) => YamlVal::Scalar(s@),
            YamlValue::List(items) => YamlVal::List(items.deep_view()),
        }
    }
}

/// Key/value entries in the order they were written; a later entry for a key
/// hides the earlier ones.
pub type Entries = Seq<(Seq<char>, YamlVal)>;

/// The value that the entries give `key`: that of its last entry.
pub open spec fn lookup(es: Entries, key: Seq<char>) -> Option<YamlVal>
    decreases es.len(),
{
    if es.len() == 0 {
        None
    } else if es.last().0 == key {
        Some(es.last().1)
    } else {
        lookup(es.drop_last(), key)
    }
}

/// The map that the entries describe.
pub open spec fn entries_map(es: Entries) -> Map<Seq<char>, YamlVal> {
    Map::new(|k: Seq<char>| lookup(es, k) is Some, |k: Seq<char>| lookup(es, k)->0)
}

pub open spec fn entries_of(v: Seq<(String, YamlValue)>) -> Entries {
    v.map_values(|e: (String, YamlValue)| (e.0@, e.1@))
}

/// A parsed frontmatter document: a map from keys to values.
#[derive(Debug)]
pub struct YamlMap {
    entries: Vec<(String, YamlValue)>,
}

impl View for YamlMap {
    type V = Map<Seq<char>, YamlVal>;

    closed spec fn view(&self) -> Map<Seq<char>, YamlVal> {
        entries_map(entries_of(self.entries@))
    }
}

impl YamlMap {
    /// The value stored under `key`, if any.
    pub fn get(&self, key: &str) -> (r: Option<&YamlValue>)
        ensures
            r matches Some(v) ==> self@.contains_key(key@) && self@[key@] == v@,
            r is None ==> !self@.contains_key(key@),
    {
        let k = chars_of(key);
        let ghost es = entries_of(self.entries@);
        let mut i = self.entries.len();
        assert(es.take(i as int) == es);
        while i > 0
            invariant
                i <= self.entries.len(),
                k@ == key@,
                es == entries_of(self.entries@),
                lookup(es, key@) == lookup(es.take(i as int), key@),
            decreases i,
        {
            let ks = self.entries[i - 1].0.as_str();
            assert(ks@ == self.entries@[i - 1].0@);
            let ek = chars_of(ks);
            assert(ek@ == self.entries@[i - 1].0@);
            assert(es.take(i as int).last() == es[i - 1]);
            assert(es[i - 1] == (self.entries@[i - 1].0@, self.entries@[i - 1].1@));
            if chars_eq(&ek, &k) {
                return Some(&self.entries[i - 1].1);
            }
            assert(es.take(i as int).drop_last() == es.take(i - 1));
            i = i - 1;
        }
        None
    }
}

// ---------------------------------------------------------------------------
// Scalars
// ---------------------------------------------------------------------------

/// The first index at or after `i` of a `':'` that ends the line or is
/// followed by a space.
pub open spec fn key_colon_from(s: Seq<char>, i: int) -> Option<int>
    decreases s.len() - i,
{
    if i < 0 || i >= s.len() {
        None
    } else if s[i] == ':' && (i + 1 == s.len() || s[i + 1] == ' ') {
        Some(i)
    } else {
        key_colon_from(s, i + 1)
    }
}

/// `key: value` split at the first colon that is followed by a space or ends
/// the line.
pub open spec fn split_key(s: Seq<char>) -> Option<(Seq<char>, Seq<char>)> {
    match key_colon_from(s, 0) {
        Some(i) => Some((s.take(i), s.skip(i + 1))),
        None => None,
    }
}

pub open spec fn two_quotes() -> Seq<char> {
    seq!['\'', '\'']
}

pub open spec fn one_quote() -> Seq<char> {
    seq!['\'']
}

/// A written scalar as read back: surrounding single quotes are stripped and
/// `''` inside them stands for `'`; surrounding double quotes are stripped;
/// an unquoted value loses a ` #` comment.
pub open spec fn unquote(raw: Seq<char>) -> Seq<char> {
    let s = trim(raw);
    if s.len() >= 2 && s[0] == '\'' && s.last() == '\'' {
        replace(s.subrange(1, s.len() - 1), two_quotes(), one_quote(), None)
    } else if s.len() >= 2 && s[0] == '"' && s.last() == '"' {
        s.subrange(1, s.len() - 1)
    } else {
        match find_sub(s, seq![' ', '#']) {
            Some(i) => trim_end(s.take(i)),
            None => s,
        }
    }
}

/// Characters that start a YAML indicator when they open a scalar.
pub open spec fn is_indicator(c: char) -> bool {
    c == '-' || c == '&' || c == '*' || c == '!' || c == '%' || c == '@' || c == '`' || c == '"'
        || c == '{' || c == '[' || c == '|' || c == '>' || c == ','
}

/// A scalar must be quoted when it could be misread: it is empty, has
/// white space around it, holds `:`, `#` or `'`, or opens with an indicator.
pub open spec fn needs_quote(s: Seq<char>) -> bool {
    ||| s.len() == 0
    ||| trim(s) != s
    ||| s.contains(':')
    ||| s.contains('#')
    ||| s.contains('\'')
    ||| is_indicator(s[0])
}

/// A scalar as written: single-quoted with `'` doubled where needed, else as is.
pub open spec fn quote(s: Seq<char>) -> Seq<char> {
    if needs_quote(s) {
        one_quote() + replace(s, one_quote(), two_quotes(), None) + one_quote()
    } else {
        s
    }
}

fn index_of_key_colon(s: &[char]) -> (r: Option<usize>)
    ensures
        r matches Some(i) ==> i < s.len(),
        r matches Some(i) ==> key_colon_from(s@, 0) == Some(i as int),
        r is None ==> key_colon_from(s@, 0) is None,
{
    let mut i: usize = 0;
    while i < s.len()
        invariant
            i <= s.len(),
            key_colon_from(s@, 0) == key_colon_from(s@, i as int),
        decreases s.len() - i,
    {
        if s[i] == ':' && (i + 1 == s.len() || s[i + 1] == ' ') {
            return Some(i);
        }
        i = i + 1;
    }
    None
}

fn has_char(s: &[char], c: char) -> (r: bool)
    ensures
        r == s@.contains(c),
{
    let mut i: usize = 0;
    while i < s.len()
        invariant
            i <= s.len(),
            forall|j: int| 0 <= j < i ==> s@[j] != c,
        decreases s.len() - i,
    {
        if s[i] == c {
            assert(s@[i as int] == c);
            return true;
        }
        i = i + 1;
    }
    false
}

/// Reads a written scalar back (see `unquote`).
pub fn unquote_chars(raw: &[char]) -> (r: Vec<char>)
    ensures
        r@ == unquote(raw@),
{
    let s = trim_chars(raw);
    let n = s.len();
    if n >= 2 && s[0] == '\'' && s[n - 1] == '\'' {
        let inner = slice_vec(&s, 1, n - 1);
        let from = vec!['\'', '\''];
        let to = vec!['\''];
        assert(from@ == two_quotes());
        assert(to@ == one_quote());
        replace_exec(&inner, &from, &to, None)
    } else if n >= 2 && s[0] == '"' && s[n - 1] == '"' {
        slice_vec(&s, 1, n - 1)
    } else {
        let pat = vec![' ', '#'];
        assert(pat@ == seq![' ', '#']);
        proof {
            crate::text::lemma_find_sub(s@, pat@);
        }
        match find_sub_exec(&s, &pat) {
            Some(i) => {
                let head = slice_vec(&s, 0, i);
                trim_end_chars(&head)
            },
            None => s,
        }
    }
}

fn starts_with_indicator(s: &[char]) -> (r: bool)
    requires
        s.len() > 0,
    ensures
        r == is_indicator(s@[0]),
{
    let c = s[0];
    c == '-' || c == '&' || c == '*' || c == '!' || c == '%' || c == '@' || c == '`' || c == '"'
        || c == '{' || c == '[' || c == '|' || c == '>' || c == ','
}

/// Writes a scalar so that it reads back as itself (see `quote`).
pub fn quote_chars(s: &[char]) -> (r: Vec<char>)
    ensures
        r@ == quote(s@),
{
    let trimmed = trim_chars(s);
    let needs = s.len() == 0 || !chars_eq(&trimmed, s) || has_char(s, ':') || has_char(s, '#')
        || has_char(s, '\'') || starts_with_indicator(s);
    if needs {
        let from = vec!['\''];
        let to = vec!['\'', '\''];
        assert(from@ == one_quote());
        assert(to@ == two_quotes());
        let mid = replace_exec(s, &from, &to, None);
        let mut out = vec!['\''];
        extend_chars(&mut out, &mid);
        out.push('\'');
        out
    } else {
        let mut out: Vec<char> = Vec::new();
        extend_chars(&mut out, s);
        assert(out@ == s@);
        out
    }
}

/// Quote a scalar for writing: single-quote it if it could be misparsed
/// (colon, `#`, quote char, leading YAML indicator, surrounding space).
pub fn yaml_quote(s: &str) -> (r: String)
    ensures
        r@ == quote(s@),
{
    let c = chars_of(s);
    string_of(&quote_chars(&c))
}

/// A written scalar: non-empty, no line break, no white space at its ends.
pub open spec fn clean_scalar(q: Seq<char>) -> bool {
    &&& q.len() > 0
    &&& !q.contains('\n')
    &&& !is_ws(q[0])
    &&& !is_ws(q.last())
}

/// A scalar without line breaks is written as a clean scalar that reads
/// back as itself.
pub proof fn lemma_quote_unquote(v: Seq<char>)
    requires
        !v.contains('\n'),
    ensures
        clean_scalar(quote(v)),
        unquote(quote(v)) == v,
{
    let q = quote(v);
    if needs_quote(v) {
        let r = replace(v, one_quote(), two_quotes(), None);
        lemma_replace_keeps_absent(v, one_quote(), two_quotes(), None, '\n');
        assert(q == one_quote() + r + one_quote());
        assert(q[0] == '\'');
        assert(q.last() == '\'');
        assert(!q.contains('\n')) by {
            if q.contains('\n') {
                let j = choose|j: int| 0 <= j < q.len() && q[j] == '\n';
                assert(r[j - 1] == '\n');
            }
        }
        lemma_trim_plain(q);
        assert(q.subrange(1, q.len() - 1) == r);
        lemma_double_undouble(v, '\'');
    } else {
        assert(q == v);
        lemma_trimmed_ends(v);
        lemma_trim_plain(v);
        assert(!(v.len() >= 2 && v[0] == '\'')) by {
            if v.len() >= 2 && v[0] == '\'' {
                assert(v.contains('\''));
            }
        }
        lemma_find_sub(v, seq![' ', '#']);
        if find_sub(v, seq![' ', '#']) is Some {
            let k = find_sub(v, seq![' ', '#'])->0;
            assert(v.subrange(k, k + 2)[1] == v[k + 1]);
            assert(v.contains('#'));
        }
    }
}

/// A key that reads back as itself before `": "`.
pub open spec fn simple_key(k: Seq<char>) -> bool {
    &&& k.len() > 0
    &&& !k.contains(':')
    &&& !k.contains('\n')
    &&& !is_ws(k[0])
    &&& !is_ws(k.last())
    &&& k[0] != '#'
    &&& k[0] != '-'
}

/// The line `key: value`, for a simple key and a clean value, adds the key
/// with the value read back.
pub proof fn lemma_key_value_line(es: Entries, no: nat, key: Seq<char>, q: Seq<char>)
    requires
        simple_key(key),
        clean_scalar(q),
    ensures
        yaml_line(es, no, key + seq![':', ' '] + q) == Ok::<Entries, Seq<char>>(
            es.push((key, YamlVal::Scalar(unquote(q)))),
        ),
{
    let raw = key + seq![':', ' '] + q;
    assert(raw[0] == key[0]);
    assert(raw.last() == q.last());
    lemma_trim_plain(raw);
    assert(raw.take(key.len() as int) =~= key);
    lemma_key_colon(raw, key);
    assert(raw.take(key.len() as int) == key);
    assert(raw.skip(key.len() as int + 1) == seq![' '] + q);
    lemma_trim_plain(key);
    assert(trim_start(seq![' '] + q) == trim_start(q)) by {
        assert((seq![' '] + q).drop_first() == q);
    }
    lemma_trim_plain(q);
}

/// The line `key:` opens an empty list under the key.
pub proof fn lemma_list_key_line(es: Entries, no: nat, key: Seq<char>)
    requires
        simple_key(key),
    ensures
        yaml_line(es, no, key + seq![':']) == Ok::<Entries, Seq<char>>(
            es.push((key, YamlVal::List(seq![]))),
        ),
{
    let raw = key + seq![':'];
    assert(raw[0] == key[0]);
    lemma_trim_plain(raw);
    assert(raw.take(key.len() as int) =~= key);
    lemma_key_colon(raw, key);
    assert(raw.take(key.len() as int) == key);
    assert(raw.skip(key.len() as int + 1) == Seq::<char>::empty());
    lemma_trim_plain(key);
    lemma_trim_plain(Seq::<char>::empty());
}

/// In `key` followed by `:`, the key ends at that colon.
proof fn lemma_key_colon(raw: Seq<char>, key: Seq<char>)
    requires
        !key.contains(':'),
        raw.len() > key.len(),
        raw.take(key.len() as int) == key,
        raw[key.len() as int] == ':',
        key.len() + 1 == raw.len() || raw[key.len() as int + 1] == ' ',
    ensures
        key_colon_from(raw, 0) == Some(key.len() as int),
{
    lemma_key_colon_from(raw, key, 0);
}

proof fn lemma_key_colon_from(raw: Seq<char>, key: Seq<char>, i: int)
    requires
        0 <= i <= key.len(),
        !key.contains(':'),
        raw.len() > key.len(),
        raw.take(key.len() as int) == key,
        raw[key.len() as int] == ':',
        key.len() + 1 == raw.len() || raw[key.len() as int + 1] == ' ',
    ensures
        key_colon_from(raw, i) == Some(key.len() as int),
    decreases key.len() - i,
{
    if i < key.len() {
        assert(raw[i] == key[i]);
        assert(raw[i] != ':') by {
            if raw[i] == ':' {
                assert(key.contains(':'));
            }
        }
        lemma_key_colon_from(raw, key, i + 1);
    }
}

/// The line `- item`, under a list, adds the item read back to the list.
pub proof fn lemma_item_line(es: Entries, no: nat, q: Seq<char>)
    requires
        last_is_list(es),
        clean_scalar(q),
    ensures
        yaml_line(es, no, seq!['-', ' '] + q) == Ok::<Entries, Seq<char>>(
            es.update(
                es.len() - 1,
                (es.last().0, YamlVal::List(es.last().1->List_0.push(unquote(q)))),
            ),
        ),
{
    let raw = seq!['-', ' '] + q;
    assert(raw.last() == q.last());
    lemma_trim_plain(raw);
    assert(raw.drop_first() == seq![' '] + q);
    assert(trim_start(seq![' '] + q) == trim_start(q)) by {
        assert((seq![' '] + q).drop_first() == q);
    }
    lemma_trim_plain(q);
    assert(unquote(trim(q)) == unquote(q));
}

/// A value written with `quote` after `key: ` reads back as that value.
pub proof fn lemma_quoted_value_reads_back(key: Seq<char>, v: Seq<char>)
    requires
        simple_key(key),
        !v.contains('\n'),
    ensures
        parse_yaml_spec(key + seq![':', ' '] + quote(v)) == Ok::<Entries, Seq<char>>(
            seq![(key, YamlVal::Scalar(v))],
        ),
        entries_map(seq![(key, YamlVal::Scalar(v))]) == Map::<Seq<char>, YamlVal>::empty().insert(
            key,
            YamlVal::Scalar(v),
        ),
{
    lemma_quote_unquote(v);
    let q = quote(v);
    let raw = key + seq![':', ' '] + q;
    assert(!raw.contains('\n')) by {
        if raw.contains('\n') {
            let j = choose|j: int| 0 <= j < raw.len() && raw[j] == '\n';
            if j < key.len() {
                assert(raw[j] == key[j]);
            } else if j >= key.len() + 2 {
                assert(q[j - key.len() - 2] == '\n');
            }
        }
    }
    lemma_lines_single(raw);
    lemma_key_value_line(seq![], 1, key, q);
    let es = seq![(key, YamlVal::Scalar(v))];
    assert(Seq::<(Seq<char>, YamlVal)>::empty().push((key, YamlVal::Scalar(unquote(q)))) == es);
    assert(seq![raw].drop_first() =~= Seq::<Seq<char>>::empty());
    assert(yaml_lines(es, Seq::<Seq<char>>::empty(), 2) == Ok::<Entries, Seq<char>>(es));
    assert(es.drop_last() =~= Seq::<(Seq<char>, YamlVal)>::empty());
    assert forall|k: Seq<char>| #[trigger] lookup(es, k) == (if k == key {
        Some(YamlVal::Scalar(v))
    } else {
        None
    }) by {
        assert(lookup(es.drop_last(), k) is None);
    }
    assert(entries_map(es) =~= Map::<Seq<char>, YamlVal>::empty().insert(key, YamlVal::Scalar(v)));
}

// ---------------------------------------------------------------------------
// Documents
// ---------------------------------------------------------------------------

/// A line that continues a block list.
pub open spec fn is_list_item(t: Seq<char>) -> bool {
    t.len() > 0 && t[0] == '-' && (t.len() == 1 || t[1] == ' ')
}

pub open spec fn last_is_list(es: Entries) -> bool {
    es.len() > 0 && es.last().1 is List
}

pub open spec fn last_is_scalar(es: Entries) -> bool {
    es.len() > 0 && es.last().1 is Scalar
}

/// `"line <no>: <msg>"`.
pub open spec fn line_error(no: nat, msg: Seq<char>) -> Seq<char> {
    "line "@ + decimal(no) + ": "@ + msg
}

/// The effect of line number `no`, written `raw`, on the entries read so far.
pub open spec fn yaml_line(es: Entries, no: nat, raw: Seq<char>) -> Result<Entries, Seq<char>> {
    let line = trim_end(raw);
    let t = trim_start(line);
    let indented = t.len() < line.len();
    if t.len() == 0 || t[0] == '#' {
        Ok(es)
    } else if is_list_item(t) && last_is_list(es) {
        let k = es.last().0;
        let items = es.last().1->List_0;
        Ok(es.update(es.len() - 1, (k, YamlVal::List(items.push(unquote(trim(t.drop_first())))))))
    } else if indented && last_is_scalar(es) {
        let k = es.last().0;
        let v = es.last().1->Scalar_0;
        Ok(es.update(es.len() - 1, (k, YamlVal::Scalar(v + seq![' '] + t))))
    } else if is_list_item(t) {
        Err(line_error(no, "list item outside of a list"@))
    } else if indented {
        Err(line_error(no, "unexpected indented line"@))
    } else {
        match split_key(t) {
            Some((k, v)) => {
                let key = trim(k);
                let value = trim(v);
                if value.len() == 0 {
                    Ok(es.push((key, YamlVal::List(seq![]))))
                } else {
                    Ok(es.push((key, YamlVal::Scalar(unquote(value)))))
                }
            },
            None => Err(line_error(no, "cannot parse "@ + debug_str(raw))),
        }
    }
}

/// The entries after the lines `ls`, the first of which has number `no`.
pub open spec fn yaml_lines(es: Entries, ls: Seq<Seq<char>>, no: nat) -> Result<
    Entries,
    Seq<char>,
>
    decreases ls.len(),
{
    if ls.len() == 0 {
        Ok(es)
    } else {
        match yaml_line(es, no, ls[0]) {
            Ok(next) => yaml_lines(next, ls.drop_first(), no + 1),
            Err(e) => Err(e),
        }
    }
}

/// The entries of a document, or the message of its first bad line.
pub open spec fn parse_yaml_spec(input: Seq<char>) -> Result<Entries, Seq<char>> {
    yaml_lines(seq![], lines(input), 1)
}

fn line_error_exec(no: usize, msg: &[char]) -> (r: String)
    ensures
        r@ == line_error(no as nat, msg@),
{
    let mut out = chars_of("line ");
    let d = decimal_exec(no);
    extend_chars(&mut out, &d);
    let sep = chars_of(": ");
    extend_chars(&mut out, &sep);
    extend_chars(&mut out, msg);
    string_of(&out)
}

fn strings_push(items: Vec<String>, s: String) -> (r: Vec<String>)
    ensures
        r.deep_view() == items.deep_view().push(s@),
{
    let mut items = items;
    let ghost before = items@;
    items.push(s);
    assert(items.deep_view() =~= before.map_values(|x: String| x@).push(s@));
    proof {
        assert(before.map_values(|x: String| x@) =~= Seq::new(before.len(), |i: int| before[i].deep_view()));
    }
    items
}

fn yaml_line_exec(es: Vec<(String, YamlValue)>, no: usize, raw: &[char]) -> (r: Result<
    Vec<(String, YamlValue)>,
    String,
>)
    ensures
        match yaml_line(entries_of(es@), no as nat, raw@) {
            Ok(next) => r matches Ok(v) && entries_of(v@) == next,
            Err(m) => r matches Err(e) && e@ == m,
        },
{
    let ghost ev = entries_of(es@);
    let line = trim_end_chars(raw);
    let t = trim_start_chars(&line);
    if t.len() == 0 || t[0] == '#' {
        return Ok(es);
    }
    let indented = t.len() < line.len();
    let list_item = t[0] == '-' && (t.len() == 1 || t[1] == ' ');
    let n = es.len();
    let last_list = n > 0 && match &es[n - 1].1 {
        YamlValue::List(_) => true,
        YamlValue::Scalar(_) => false,
    };
    let last_scalar = n > 0 && !last_list;
    proof {
        if n > 0 {
            assert(ev.last() == (es@[n - 1].0@, es@[n - 1].1@));
        }
        assert(last_list == last_is_list(ev));
        assert(last_scalar == last_is_scalar(ev));
    }
    let mut es = es;
    if list_item && last_list {
        let rest = slice_vec(&t, 1, t.len());
        assert(rest@ == t@.drop_first());
        let item = unquote_chars(&trim_chars(&rest));
        let ghost before = es@;
        match es.pop() {
            Some((k, YamlValue::List(items))) => {
                let items = strings_push(items, string_of(&item));
                es.push((k, YamlValue::List(items)));
                assert(entries_of(es@) =~= ev.update(ev.len() - 1, (ev.last().0, YamlVal::List(
                    ev.last().1->List_0.push(item@),
                ))));
            },
            Some((k, YamlValue::Scalar(v))) => {
                assert(false);
                es.push((k, YamlValue::Scalar(v)));
            },
            None => {
                assert(false);
            },
        }
        return Ok(es);
    }
    if indented && last_scalar {
        let ghost before = es@;
        match es.pop() {
            Some((k, YamlValue::Scalar(v))) => {
                let mut w = chars_of(v.as_str());
                w.push(' ');
                extend_chars(&mut w, &t);
                assert(w@ =~= v@ + seq![' '] + t@);
                es.push((k, YamlValue::Scalar(string_of(&w))));
                assert(entries_of(es@) =~= ev.update(ev.len() - 1, (ev.last().0, YamlVal::Scalar(
                    ev.last().1->Scalar_0 + seq![' '] + t@,
                ))));
            },
            Some((k, YamlValue::List(items))) => {
                assert(false);
                es.push((k, YamlValue::List(items)));
            },
            None => {
                assert(false);
            },
        }
        return Ok(es);
    }
    if list_item {
        let msg = chars_of("list item outside of a list");
        return Err(line_error_exec(no, &msg));
    }
    if indented {
        let msg = chars_of("unexpected indented line");
        return Err(line_error_exec(no, &msg));
    }
    match index_of_key_colon(&t) {
        Some(i) => {
            let k = trim_chars(&slice_vec(&t, 0, i));
            let v = trim_chars(&slice_vec(&t, i + 1, t.len()));
            let key = string_of(&k);
            if v.len() == 0 {
                let empty: Vec<String> = Vec::new();
                assert(empty.deep_view() =~= Seq::<Seq<char>>::empty());
                es.push((key, YamlValue::List(empty)));
            } else {
                let value = unquote_chars(&v);
                es.push((key, YamlValue::Scalar(string_of(&value))));
            }
            assert(entries_of(es@) =~= ev.push(entries_of(es@).last()));
            Ok(es)
        },
        None => {
            let mut msg = chars_of("cannot parse ");
            let shown = debug_quote(string_of(raw).as_str());
            let shown_chars = chars_of(shown.as_str());
            extend_chars(&mut msg, &shown_chars);
            Err(line_error_exec(no, &msg))
        },
    }
}

/// Parse a flat YAML document into a key → value map.
pub fn parse_yaml(input: &str) -> (r: Result<YamlMap, String>)
    ensures
        match parse_yaml_spec(input@) {
            Ok(es) => r matches Ok(m) && m@ == entries_map(es),
            Err(msg) => r matches Err(e) && e@ == msg,
        },
{
    let chars = chars_of(input);
    let ls = lines_of(&chars);
    let ghost lsv = ls@.map_values(|l: Vec<char>| l@);
    let mut es: Vec<(String, YamlValue)> = Vec::new();
    let mut i: usize = 0;
    assert(lsv.skip(0) == lsv);
    assert(entries_of(es@) =~= Seq::<(Seq<char>, YamlVal)>::empty());
    while i < ls.len()
        invariant
            i <= ls.len(),
            lsv == ls@.map_values(|l: Vec<char>| l@),
            lsv == lines(input@),
            yaml_lines(entries_of(es@), lsv.skip(i as int), (i + 1) as nat) == parse_yaml_spec(
                input@,
            ),
        decreases ls.len() - i,
    {
        assert(lsv.skip(i as int)[0] == ls@[i as int]@);
        assert(lsv.skip(i as int).drop_first() == lsv.skip(i + 1));
        match yaml_line_exec(es, i + 1, &ls[i]) {
            Ok(next) => {
                es = next;
            },
            Err(e) => {
                return Err(e);
            },
        }
        i = i + 1;
    }
    Ok(YamlMap { entries: es })
}

/// A line that the parser passes over: blank, or a comment.
pub open spec fn ignored_line(raw: Seq<char>) -> bool {
    let t = trim_start(trim_end(raw));
    t.len() == 0 || t[0] == '#'
}

/// The number of a line shows only in the message of an error.
proof fn lemma_yaml_lines_no(es: Entries, ls: Seq<Seq<char>>, a: nat, b: nat)
    ensures
        (yaml_lines(es, ls, a) is Ok) == (yaml_lines(es, ls, b) is Ok),
        yaml_lines(es, ls, a) is Ok ==> yaml_lines(es, ls, a) == yaml_lines(es, ls, b),
    decreases ls.len(),
{
    if ls.len() > 0 {
        assert((yaml_line(es, a, ls[0]) is Ok) == (yaml_line(es, b, ls[0]) is Ok));
        if yaml_line(es, a, ls[0]) is Ok {
            assert(yaml_line(es, a, ls[0]) == yaml_line(es, b, ls[0]));
            lemma_yaml_lines_no(yaml_line(es, a, ls[0])->Ok_0, ls.drop_first(), a + 1, b + 1);
        }
    }
}

/// A blank or comment line put among the lines changes nothing but the
/// numbers of the lines after it.
proof fn lemma_yaml_lines_insert(es: Entries, ls: Seq<Seq<char>>, k: int, c: Seq<char>, no: nat)
    requires
        0 <= k <= ls.len(),
        ignored_line(c),
    ensures
        ({
            let ls2 = ls.take(k) + seq![c] + ls.skip(k);
            &&& (yaml_lines(es, ls2, no) is Ok) == (yaml_lines(es, ls, no) is Ok)
            &&& yaml_lines(es, ls, no) is Ok ==> yaml_lines(es, ls2, no) == yaml_lines(es, ls, no)
        }),
    decreases k,
{
    let ls2 = ls.take(k) + seq![c] + ls.skip(k);
    if k == 0 {
        assert(ls2[0] == c);
        assert(ls2.drop_first() =~= ls);
        lemma_yaml_lines_no(es, ls, no + 1, no);
    } else {
        assert(ls2[0] == ls[0]);
        let rest = ls.drop_first();
        assert(ls2.drop_first() =~= rest.take(k - 1) + seq![c] + rest.skip(k - 1));
        if yaml_line(es, no, ls[0]) is Ok {
            lemma_yaml_lines_insert(yaml_line(es, no, ls[0])->Ok_0, rest, k - 1, c, no + 1);
        }
    }
}

/// A line that `lines` gives for a line without `'\n'` is passed over when
/// the line is.
proof fn lemma_ignored_strip_cr(c: Seq<char>)
    requires
        ignored_line(c),
    ensures
        ignored_line(strip_cr(c)),
{
    if c.len() > 0 && c.last() == '\r' {
        assert(trim_end(c) == trim_end(c.drop_last()));
    }
}

/// One blank or comment line `c` put after a text of whole lines `a`
/// changes nothing but line numbers.
proof fn lemma_ignored_line_once(a: Seq<char>, c: Seq<char>, b: Seq<char>)
    requires
        a.len() == 0 || a.last() == '\n',
        !c.contains('\n'),
        ignored_line(c),
    ensures
        ({
            let doc = a + b;
            let doc2 = a + c + seq!['\n'] + b;
            &&& (parse_yaml_spec(doc2) is Ok) == (parse_yaml_spec(doc) is Ok)
            &&& parse_yaml_spec(doc) is Ok ==> parse_yaml_spec(doc2) == parse_yaml_spec(doc)
        }),
{
    lemma_lines_append(a, b);
    lemma_lines_append(a, c + seq!['\n'] + b);
    assert(a + c + seq!['\n'] + b =~= a + (c + seq!['\n'] + b));
    lemma_lines_cons(c, b);
    lemma_ignored_strip_cr(c);
    let ls = lines(a) + lines(b);
    let k = lines(a).len() as int;
    assert(lines(a) + (seq![strip_cr(c)] + lines(b)) =~= ls.take(k) + seq![strip_cr(c)] + ls.skip(k));
    lemma_yaml_lines_insert(seq![], ls, k, strip_cr(c), 1);
}

/// Blank lines and comments do not change what a document reads as: a
/// document of whole lines `a` (any line endings), then `b`, reads the same
/// (up to the line numbers in an error message) with the blank or comment
/// lines `cs` put between them.
pub proof fn lemma_ignored_lines(a: Seq<char>, cs: Seq<Seq<char>>, b: Seq<char>)
    requires
        a.len() == 0 || a.last() == '\n',
        forall|i: int| 0 <= i < cs.len() ==> !(#[trigger] cs[i]).contains('\n') && ignored_line(cs[i]),
    ensures
        ({
            let doc = a + b;
            let doc2 = a + unlines(cs) + b;
            &&& (parse_yaml_spec(doc2) is Ok) == (parse_yaml_spec(doc) is Ok)
            &&& parse_yaml_spec(doc) is Ok ==> parse_yaml_spec(doc2) == parse_yaml_spec(doc)
        }),
    decreases cs.len(),
{
    if cs.len() == 0 {
        assert(unlines(cs) == Seq::<char>::empty());
        assert(a + unlines(cs) =~= a);
    } else {
        let c = cs[0];
        let rest = cs.drop_first();
        assert(!c.contains('\n') && ignored_line(c));
        let a2 = a + c + seq!['\n'];
        assert forall|i: int| 0 <= i < rest.len() implies !(#[trigger] rest[i]).contains('\n') && ignored_line(rest[i]) by {
            assert(rest[i] == cs[i + 1]);
        }
        lemma_ignored_lines(a2, rest, b);
        lemma_ignored_line_once(a, c, b);
        lemma_unlines_append(seq![c], rest);
        assert(seq![c] + rest =~= cs);
        assert(unlines(seq![c]) == c + seq!['\n']) by {
            assert(seq![c].drop_last() =~= Seq::<Seq<char>>::empty());
            assert(unlines(Seq::<Seq<char>>::empty()) == Seq::<char>::empty());
            assert(Seq::<char>::empty() + c + seq!['\n'] =~= c + seq!['\n']);
        }
        assert(a + unlines(cs) + b =~= a2 + unlines(rest) + b);
    }
}

/// Indentation does not matter for an item of an open list: a line `- item`
/// under a key whose value is a list adds the item to that list, and the
/// same line indented by any white space reads the same.
pub proof fn lemma_list_item_indent(es: Entries, no: nat, pad: Seq<char>, l: Seq<char>)
    requires
        forall|i: int| 0 <= i < pad.len() ==> is_ws(#[trigger] pad[i]),
        l.len() > 0,
        l[0] == '-',
        l.len() == 1 || l[1] == ' ',
        es.len() > 0,
        es.last().1 is List,
    ensures
        yaml_line(es, no, pad + l) == yaml_line(es, no, l),
        yaml_line(es, no, l) == Ok::<Entries, Seq<char>>(
            es.update(es.len() - 1, (es.last().0, YamlVal::List(es.last().1->List_0.push(unquote(trim(trim_end(l).drop_first())))))),
        ),
{
    lemma_trim_end_after(pad, l);
    lemma_trim_end_keeps_first(l);
    let te = trim_end(l);
    lemma_trim_start_after(pad, te);
    lemma_trim_start_after(Seq::<char>::empty(), te);
    assert(Seq::<char>::empty() + te =~= te);
    lemma_trim_len(l);
    if te.len() > 1 {
        assert(te[1] == l[1]) by {
            lemma_trim_end_prefix(l);
        }
    }
    assert(is_list_item(te));
}

} // verus!

