//! Skill storage: `skills/<kebab-case-name>/SKILL.md`, YAML frontmatter
//! (name, description, tags, created_at) followed by a markdown body.
use vstd::prelude::*;
use crate::text::{
    chars_eq, chars_of, debug_quote, matches_at, debug_str, decimal, decimal_exec, extend_chars, is_ascii_alnum,
    is_ascii_alphanumeric, is_ascii_digit, is_ascii_lower, ascii_lower, join, join_exec, lines,
    lines_of, join_range_exec, replace, replace_exec, slice_vec, string_of, to_ascii_lowercase, trim, trim_chars,
};
use crate::order::{chars_lt, lemma_seq_lt_strict, lemma_sort_by_sorted, seq_lt, sort_by, sorted_by, strict_order};
use crate::security::{components, comps_from, piece_comp, starts_cur, Comp};
use crate::yaml::{entries_map, parse_yaml, parse_yaml_spec, quote, quote_chars, YamlVal, YamlValue};

verus! {

/// The directory of the store, inside the data directory.
pub const SKILLS_DIR: &'static str = "skills";

/// The file that holds a skill, inside its directory.
pub const SKILL_FILE: &'static str = "SKILL.md";

/// A stored skill.
#[derive(Debug, Clone)]
pub struct Skill {
    /// snake_case identifier (directory name with `-` → `_`)
    pub name: String,
    pub description: String,
    pub tags: Vec<String>,
    /// ISO 8601 timestamp with timezone offset; set once at creation
    pub created_at: String,
    /// markdown body
    pub body: String,
}

/// The mathematical form of a skill.
pub struct SkillView {
    pub name: Seq<char>,
    pub description: Seq<char>,
    pub tags: Seq<Seq<char>>,
    pub created_at: Seq<char>,
    pub body: Seq<char>,
}

impl View for Skill {
    type V = SkillView;

    open spec fn view(&self) -> SkillView {
        SkillView {
            name: self.name@,
            description: self.description@,
            tags: self.tags.deep_view(),
            created_at: self.created_at@,
            body: self.body@,
        }
    }
}

/// Appends the characters of `s`.
pub fn push_str(out: &mut Vec<char>, s: &str)
    ensures
        final(out)@ == old(out)@ + s@,
{
    let c = chars_of(s);
    extend_chars(out, &c);
}

/// A copy of a list of strings.
pub fn clone_strings(v: &Vec<String>) -> (r: Vec<String>)
    ensures
        r.deep_view() == v.deep_view(),
{
    let mut r: Vec<String> = Vec::new();
    let mut i: usize = 0;
    while i < v.len()
        invariant
            i <= v.len(),
            r.deep_view() == v.deep_view().take(i as int),
        decreases v.len() - i,
    {
        let ghost before = r.deep_view();
        r.push(v[i].clone());
        assert(r.deep_view() =~= before.push(v[i as int]@));
        assert(v.deep_view().take(i + 1) =~= v.deep_view().take(i as int).push(v[i as int]@));
        i = i + 1;
    }
    assert(v.deep_view().take(v.len() as int) =~= v.deep_view());
    r
}

// ---------------------------------------------------------------------------
// Serialization
// ---------------------------------------------------------------------------

/// The tag lines of the frontmatter: `- <tag>` each.
pub open spec fn tag_lines(tags: Seq<Seq<char>>) -> Seq<char>
    decreases tags.len(),
{
    if tags.len() == 0 {
        seq![]
    } else {
        tag_lines(tags.drop_last()) + "- "@ + quote(tags.last()) + "\n"@
    }
}

/// `s` with each newline folded to a space.
pub open spec fn fold_newlines(s: Seq<char>) -> Seq<char> {
    replace(s, seq!['\n'], seq![' '], None)
}

/// The SKILL.md text of a skill.
pub open spec fn markdown(s: SkillView) -> Seq<char> {
    "---\n"@ + "name: "@ + s.name + "\n"@ + "description: "@ + quote(fold_newlines(s.description))
        + "\n"@ + "tags:\n"@ + tag_lines(s.tags) + "created_at: '"@ + s.created_at
        + "'\n---\n\n"@ + s.body + "\n"@
}

impl Skill {
    /// Serialize to SKILL.md format (frontmatter + body). Newlines in the
    /// description are folded to spaces, matching the parser.
    pub fn to_markdown(&self) -> (r: String)
        ensures
            r@ == markdown(self@),
    {
        let mut out: Vec<char> = Vec::new();
        push_str(&mut out, "---\n");
        push_str(&mut out, "name: ");
        push_str(&mut out, self.name.as_str());
        push_str(&mut out, "\n");
        push_str(&mut out, "description: ");
        let d = chars_of(self.description.as_str());
        let nl = vec!['\n'];
        let sp = vec![' '];
        assert(nl@ == seq!['\n']);
        assert(sp@ == seq![' ']);
        let folded = replace_exec(&d, &nl, &sp, None);
        let q = quote_chars(&folded);
        extend_chars(&mut out, &q);
        push_str(&mut out, "\n");
        push_str(&mut out, "tags:\n");
        let ghost head = out@;
        let ghost tv = self.tags.deep_view();
        let mut i: usize = 0;
        while i < self.tags.len()
            invariant
                i <= self.tags.len(),
                tv == self.tags.deep_view(),
                out@ == head + tag_lines(tv.take(i as int)),
            decreases self.tags.len() - i,
        {
            assert(tv.take(i + 1).drop_last() == tv.take(i as int));
            assert(tv.take(i + 1).last() == self.tags[i as int]@);
            push_str(&mut out, "- ");
            let t = chars_of(self.tags[i].as_str());
            let qt = quote_chars(&t);
            extend_chars(&mut out, &qt);
            push_str(&mut out, "\n");
            i = i + 1;
        }
        assert(tv.take(self.tags.len() as int) == tv);
        push_str(&mut out, "created_at: '");
        push_str(&mut out, self.created_at.as_str());
        push_str(&mut out, "'\n---\n\n");
        push_str(&mut out, self.body.as_str());
        push_str(&mut out, "\n");
        string_of(&out)
    }
}

// ---------------------------------------------------------------------------
// Name sanitization
// ---------------------------------------------------------------------------

/// The rest of `s` sanitized onto `out`; `pending` says a separator is due
/// before the next letter or digit.
pub open spec fn sanitize_from(s: Seq<char>, sep: char, out: Seq<char>, pending: bool) -> Seq<
    char,
>
    decreases s.len(),
{
    if s.len() == 0 {
        out
    } else if is_ascii_alnum(s[0]) {
        let with_sep = if pending && out.len() > 0 {
            out.push(sep)
        } else {
            out
        };
        sanitize_from(s.drop_first(), sep, with_sep.push(ascii_lower(s[0])), false)
    } else if out.len() > 0 {
        sanitize_from(s.drop_first(), sep, out, true)
    } else {
        sanitize_from(s.drop_first(), sep, out, pending)
    }
}

/// ASCII letters and digits in lower case; each run of other characters
/// between two of them becomes one `sep`; nothing else is kept.
pub open spec fn sanitize(s: Seq<char>, sep: char) -> Seq<char> {
    sanitize_from(s, sep, seq![], false)
}

/// `s` is made of lower-case letters, digits and single separators, with
/// no separator at either end.
pub open spec fn is_sanitized(s: Seq<char>, sep: char) -> bool {
    &&& forall|i: int| 0 <= i < s.len() ==> is_ascii_lower(#[trigger] s[i]) || is_ascii_digit(s[i]) || s[i] == sep
    &&& s.len() > 0 ==> s[0] != sep && s.last() != sep
    &&& forall|i: int| 0 <= i < s.len() - 1 && #[trigger] s[i] == sep ==> s[i + 1] != sep
}

pub open spec fn snake(s: Seq<char>) -> Seq<char> {
    sanitize(s, '_')
}

pub open spec fn kebab(s: Seq<char>) -> Seq<char> {
    sanitize(s, '-')
}

proof fn lemma_sanitize_from_shape(s: Seq<char>, sep: char, out: Seq<char>, pending: bool)
    requires
        !is_ascii_alnum(sep),
        is_sanitized(out, sep),
        out.len() == 0 ==> !pending,
    ensures
        is_sanitized(sanitize_from(s, sep, out, pending), sep),
        out.len() <= sanitize_from(s, sep, out, pending).len(),
        sanitize_from(s, sep, out, pending).take(out.len() as int) == out,
    decreases s.len(),
{
    if s.len() > 0 {
        if is_ascii_alnum(s[0]) {
            let with_sep = if pending && out.len() > 0 {
                out.push(sep)
            } else {
                out
            };
            let next = with_sep.push(ascii_lower(s[0]));
            assert(is_ascii_lower(ascii_lower(s[0])) || is_ascii_digit(ascii_lower(s[0]))) by {
                if 'A' <= s[0] && s[0] <= 'Z' {
                    assert(((s[0] as u32) + 32) as char == ascii_lower(s[0]));
                }
            }
            assert(is_sanitized(next, sep)) by {
                assert forall|i: int| 0 <= i < next.len() - 1 && #[trigger] next[i] == sep implies next[
                    i + 1] != sep by {
                    if i < out.len() - 1 {
                        assert(next[i] == out[i] && next[i + 1] == out[i + 1]);
                    }
                }
            }
            lemma_sanitize_from_shape(s.drop_first(), sep, next, false);
            let r = sanitize_from(s.drop_first(), sep, next, false);
            assert(r.take(out.len() as int) == r.take(next.len() as int).take(out.len() as int));
            assert(next.take(out.len() as int) == out);
        } else if out.len() > 0 {
            lemma_sanitize_from_shape(s.drop_first(), sep, out, true);
        } else {
            lemma_sanitize_from_shape(s.drop_first(), sep, out, pending);
        }
    } else {
        assert(out.take(out.len() as int) == out);
    }
}

/// What `sanitize` yields is sanitized.
pub proof fn lemma_sanitize_shape(s: Seq<char>, sep: char)
    requires
        !is_ascii_alnum(sep),
    ensures
        is_sanitized(sanitize(s, sep), sep),
{
    lemma_sanitize_from_shape(s, sep, seq![], false);
}

/// `s` with each `a` changed to `b`, character by character.
pub open spec fn map_char(s: Seq<char>, a: char, b: char) -> Seq<char> {
    Seq::new(s.len(), |i: int| if s[i] == a { b } else { s[i] })
}

/// Changing one character into another is what `replace` does with them.
pub proof fn lemma_replace_is_map(s: Seq<char>, a: char, b: char)
    ensures
        swap_char(s, a, b) == map_char(s, a, b),
    decreases s.len(),
{
    if s.len() > 0 {
        lemma_replace_is_map(s.drop_first(), a, b);
        if s[0] == a {
            assert(matches_at(s, 0, seq![a])) by {
                assert(s.subrange(0, 1) =~= seq![a]);
            }
            assert(s.skip(1) == s.drop_first());
        } else {
            assert(!matches_at(s, 0, seq![a])) by {
                if matches_at(s, 0, seq![a]) {
                    assert(s.subrange(0, 1)[0] == s[0]);
                }
            }
        }
        assert(swap_char(s, a, b) =~= map_char(s, a, b));
    } else {
        assert(swap_char(s, a, b) =~= map_char(s, a, b));
    }
}

/// Sanitizing with another separator changes only the separators.
proof fn lemma_sanitize_from_seps(x: Seq<char>, out: Seq<char>, pending: bool, a: char, b: char)
    requires
        !is_ascii_alnum(a),
    ensures
        sanitize_from(x, b, map_char(out, a, b), pending) == map_char(sanitize_from(x, a, out, pending), a, b),
    decreases x.len(),
{
    if x.len() > 0 {
        let m = map_char(out, a, b);
        if is_ascii_alnum(x[0]) {
            let c = ascii_lower(x[0]);
            assert(c != a) by {
                if 'A' <= x[0] && x[0] <= 'Z' {
                    assert(((x[0] as u32) + 32) as char == c);
                }
            }
            let w1 = if pending && out.len() > 0 {
                out.push(a)
            } else {
                out
            };
            let w2 = if pending && m.len() > 0 {
                m.push(b)
            } else {
                m
            };
            assert(w2.push(c) =~= map_char(w1.push(c), a, b));
            lemma_sanitize_from_seps(x.drop_first(), w1.push(c), false, a, b);
        } else if out.len() > 0 {
            lemma_sanitize_from_seps(x.drop_first(), out, true, a, b);
        } else {
            lemma_sanitize_from_seps(x.drop_first(), out, pending, a, b);
        }
    }
}

/// Sanitizing an already sanitized text with separator `a` only changes
/// each `a` to `b`.
proof fn lemma_sanitize_from_sanitized(t: Seq<char>, a: char, b: char, out: Seq<char>)
    requires
        !is_ascii_alnum(a),
        !is_ascii_alnum(b),
        forall|i: int| 0 <= i < t.len() ==> is_ascii_lower(#[trigger] t[i]) || is_ascii_digit(t[i]) || t[i] == a,
        forall|i: int| 0 <= i < t.len() - 1 && #[trigger] t[i] == a ==> t[i + 1] != a,
        t.len() > 0 ==> t.last() != a,
        out.len() == 0 && t.len() > 0 ==> t[0] != a,
    ensures
        sanitize_from(t, b, out, false) == out + map_char(t, a, b),
    decreases t.len(),
{
    if t.len() == 0 {
        assert(out + map_char(t, a, b) =~= out);
    } else if t[0] != a {
        let c = t[0];
        assert(is_ascii_alnum(c));
        assert(ascii_lower(c) == c);
        let rest = t.drop_first();
        assert forall|i: int| 0 <= i < rest.len() - 1 && #[trigger] rest[i] == a implies rest[i + 1] != a by {
            assert(t[i + 1] == a);
        }
        assert forall|i: int| 0 <= i < rest.len() implies is_ascii_lower(#[trigger] rest[i]) || is_ascii_digit(rest[i]) || rest[i] == a by {
            assert(rest[i] == t[i + 1]);
        }
        if rest.len() > 0 {
            assert(rest.last() == t.last());
        }
        assert(sanitize_from(t, b, out, false) == sanitize_from(rest, b, out.push(c), false));
        lemma_sanitize_from_sanitized(rest, a, b, out.push(c));
        assert(out.push(c) + map_char(rest, a, b) =~= out + map_char(t, a, b));
    } else {
        assert(out.len() > 0);
        assert(t.len() >= 2) by {
            if t.len() == 1 {
                assert(t.last() == t[0]);
            }
        }
        let c = t[1];
        assert(c != a);
        assert(is_ascii_alnum(c));
        assert(ascii_lower(c) == c);
        let rest = t.drop_first();
        let rest2 = rest.drop_first();
        assert(rest[0] == c);
        assert forall|i: int| 0 <= i < rest2.len() - 1 && #[trigger] rest2[i] == a implies rest2[i + 1] != a by {
            assert(t[i + 2] == a);
        }
        assert forall|i: int| 0 <= i < rest2.len() implies is_ascii_lower(#[trigger] rest2[i]) || is_ascii_digit(rest2[i]) || rest2[i] == a by {
            assert(rest2[i] == t[i + 2]);
        }
        if rest2.len() > 0 {
            assert(rest2.last() == t.last());
        }
        assert(sanitize_from(t, b, out, false) == sanitize_from(rest, b, out, true));
        assert(sanitize_from(rest, b, out, true) == sanitize_from(rest2, b, out.push(b).push(c), false));
        lemma_sanitize_from_sanitized(rest2, a, b, out.push(b).push(c));
        assert(out.push(b).push(c) + map_char(rest2, a, b) =~= out + map_char(t, a, b));
    }
}

/// The directory name of a sanitized snake_case name is the name with `-`
/// for `_`.
pub proof fn lemma_kebab_of_snake(n: Seq<char>)
    requires
        is_sanitized(n, '_'),
    ensures
        kebab(n) == swap_char(n, '_', '-'),
{
    lemma_sanitize_from_sanitized(n, '_', '-', seq![]);
    assert(Seq::<char>::empty() + map_char(n, '_', '-') =~= map_char(n, '_', '-'));
    lemma_replace_is_map(n, '_', '-');
}

/// A name and its snake_case form select the same directory.
pub proof fn lemma_kebab_snake(x: Seq<char>)
    ensures
        kebab(snake(x)) == kebab(x),
{
    lemma_sanitize_shape(x, '_');
    lemma_sanitize_from_sanitized(snake(x), '_', '-', seq![]);
    assert(Seq::<char>::empty() + map_char(snake(x), '_', '-') =~= map_char(snake(x), '_', '-'));
    lemma_sanitize_from_seps(x, seq![], false, '_', '-');
    assert(map_char(Seq::<char>::empty(), '_', '-') =~= Seq::<char>::empty());
}

/// A name and its kebab-case form have the same snake_case identifier.
pub proof fn lemma_snake_kebab(x: Seq<char>)
    ensures
        snake(kebab(x)) == snake(x),
{
    lemma_sanitize_shape(x, '-');
    lemma_sanitize_from_sanitized(kebab(x), '-', '_', seq![]);
    assert(Seq::<char>::empty() + map_char(kebab(x), '-', '_') =~= map_char(kebab(x), '-', '_'));
    lemma_sanitize_from_seps(x, seq![], false, '-', '_');
    assert(map_char(Seq::<char>::empty(), '-', '_') =~= Seq::<char>::empty());
}

/// Sanitizing twice is sanitizing once.
pub proof fn lemma_sanitize_idempotent(x: Seq<char>, sep: char)
    requires
        !is_ascii_alnum(sep),
    ensures
        sanitize(sanitize(x, sep), sep) == sanitize(x, sep),
{
    lemma_sanitize_shape(x, sep);
    let s = sanitize(x, sep);
    lemma_sanitize_from_sanitized(s, sep, sep, seq![]);
    assert(Seq::<char>::empty() + map_char(s, sep, sep) =~= s);
}

/// Lowercase alphanumerics; runs of other characters collapse into `sep`;
/// no leading/trailing separator.
fn sanitize_exec(name: &str, sep: char) -> (r: Vec<char>)
    ensures
        r@ == sanitize(name@, sep),
{
    let s = chars_of(name);
    let mut out: Vec<char> = Vec::new();
    let mut pending = false;
    let mut i: usize = 0;
    assert(s@.skip(0) == s@);
    while i < s.len()
        invariant
            i <= s.len(),
            s@ == name@,
            sanitize(name@, sep) == sanitize_from(s@.skip(i as int), sep, out@, pending),
        decreases s.len() - i,
    {
        let c = s[i];
        assert(s@.skip(i as int)[0] == c);
        assert(s@.skip(i as int).drop_first() == s@.skip(i + 1));
        if is_ascii_alphanumeric(c) {
            if pending && out.len() > 0 {
                out.push(sep);
            }
            pending = false;
            out.push(to_ascii_lowercase(c));
        } else if out.len() > 0 {
            pending = true;
        }
        i = i + 1;
    }
    out
}

/// snake_case identifier for the frontmatter `name`.
pub fn to_snake(name: &str) -> (r: String)
    ensures
        r@ == snake(name@),
        is_sanitized(r@, '_'),
{
    proof {
        lemma_sanitize_shape(name@, '_');
    }
    string_of(&sanitize_exec(name, '_'))
}

/// kebab-case directory name.
pub fn to_kebab(name: &str) -> (r: String)
    ensures
        r@ == kebab(name@),
        is_sanitized(r@, '-'),
{
    proof {
        lemma_sanitize_shape(name@, '-');
    }
    string_of(&sanitize_exec(name, '-'))
}

/// A snake_case identifier: non-empty, lower-case letters, digits and `_`.
pub open spec fn is_snake_spec(s: Seq<char>) -> bool {
    s.len() > 0 && forall|i: int|
        0 <= i < s.len() ==> is_ascii_lower(#[trigger] s[i]) || is_ascii_digit(s[i]) || s[i] == '_'
}

fn is_snake(name: &[char]) -> (r: bool)
    ensures
        r == is_snake_spec(name@),
{
    if name.len() == 0 {
        return false;
    }
    let mut i: usize = 0;
    while i < name.len()
        invariant
            i <= name.len(),
            forall|j: int|
                0 <= j < i ==> is_ascii_lower(#[trigger] name@[j]) || is_ascii_digit(name@[j])
                    || name@[j] == '_',
        decreases name.len() - i,
    {
        let c = name[i];
        if !(('a' <= c && c <= 'z') || ('0' <= c && c <= '9') || c == '_') {
            return false;
        }
        i = i + 1;
    }
    true
}

// ---------------------------------------------------------------------------
// Paths
// ---------------------------------------------------------------------------

/// The data directory with a leading `~` expanded to the home directory.
pub open spec fn expand_home(data_dir: Seq<char>, home: Seq<char>) -> Seq<char> {
    if data_dir.len() > 0 && data_dir[0] == '~' {
        home + data_dir.skip(1)
    } else {
        data_dir
    }
}

/// The root of the skill store: `<data_dir>/skills`.
pub open spec fn skills_root_path(data_dir: Seq<char>, home: Seq<char>) -> Seq<char> {
    expand_home(data_dir, home) + seq!['/'] + SKILLS_DIR@
}

/// The directory of the skill named `name` in the store at `root`.
pub open spec fn skill_dir_path(root: Seq<char>, name: Seq<char>) -> Seq<char> {
    root + seq!['/'] + kebab(name)
}

/// The SKILL.md file of the skill named `name` in the store at `root`.
pub open spec fn skill_file_path(root: Seq<char>, name: Seq<char>) -> Seq<char> {
    skill_dir_path(root, name) + seq!['/'] + SKILL_FILE@
}

/// A piece without `/` after a separator adds its own component.
proof fn lemma_comps_append(a: Seq<char>, k: Seq<char>, start: int, i: int)
    requires
        0 <= start <= i <= a.len(),
        !k.contains('/'),
    ensures
        comps_from(a + seq!['/'] + k, start, i) == comps_from(a, start, i) + piece_comp(k),
    decreases a.len() - i,
{
    let s = a + seq!['/'] + k;
    if i == a.len() {
        assert(s[i] == '/');
        assert(s.subrange(start, i) =~= a.subrange(start, a.len() as int));
        lemma_comps_piece(s, i + 1, i + 1);
        assert(s.subrange(i + 1, s.len() as int) =~= k);
    } else {
        assert(s[i] == a[i]);
        if a[i] == '/' {
            assert(s.subrange(start, i) =~= a.subrange(start, i));
            lemma_comps_append(a, k, i + 1, i + 1);
        } else {
            lemma_comps_append(a, k, start, i + 1);
        }
    }
}

/// Without a `/` from `i` on, the rest is one piece.
proof fn lemma_comps_piece(s: Seq<char>, start: int, i: int)
    requires
        0 <= start <= i <= s.len(),
        forall|j: int| i <= j < s.len() ==> s[j] != '/',
    ensures
        comps_from(s, start, i) == piece_comp(s.subrange(start, s.len() as int)),
    decreases s.len() - i,
{
    if i < s.len() {
        lemma_comps_piece(s, start, i + 1);
    }
}

/// Skill paths cannot leave the store: the directory of a skill whose name
/// sanitizes to something is the store root and one more ordinary
/// component, never `.`, `..` or several components.
pub proof fn lemma_skill_dir_in_store(root: Seq<char>, name: Seq<char>)
    requires
        root.len() > 0,
        kebab(name).len() > 0,
    ensures
        components(skill_dir_path(root, name)) == components(root) + seq![Comp::Normal(kebab(name))],
{
    let k = kebab(name);
    lemma_sanitize_shape(name, '-');
    assert(!k.contains('/')) by {
        if k.contains('/') {
            let j = choose|j: int| 0 <= j < k.len() && k[j] == '/';
            assert(is_ascii_lower(k[j]) || is_ascii_digit(k[j]) || k[j] == '-');
        }
    }
    assert(piece_comp(k) == seq![Comp::Normal(k)]) by {
        assert(k[0] != '.');
        assert(k != seq!['.']);
        assert(k != seq!['.', '.']);
    }
    let s = skill_dir_path(root, name);
    assert(s == root + seq!['/'] + k);
    assert(s[0] == root[0]);
    if root[0] == '/' {
        lemma_comps_append(root, k, 1, 1);
    } else {
        assert(starts_cur(s) == starts_cur(root)) by {
            if root.len() > 1 {
                assert(s[1] == root[1]);
            } else {
                assert(s[1] == '/');
            }
        }
        lemma_comps_append(root, k, 0, 0);
    }
}

/// The root of the skill store for the data directory `data_dir`, a leading
/// `~` standing for the home directory `home`.
pub fn skills_root(data_dir: &str, home: &str) -> (r: String)
    ensures
        r@ == skills_root_path(data_dir@, home@),
{
    let d = chars_of(data_dir);
    let mut out: Vec<char> = Vec::new();
    if d.len() > 0 && d[0] == '~' {
        push_str(&mut out, home);
        let rest = slice_vec(&d, 1, d.len());
        extend_chars(&mut out, &rest);
        assert(rest@ == data_dir@.skip(1));
    } else {
        extend_chars(&mut out, &d);
    }
    out.push('/');
    push_str(&mut out, SKILLS_DIR);
    string_of(&out)
}

/// Directory of a skill in the store at `root`; accepts snake_case or
/// kebab-case input.
pub fn skill_dir(root: &str, name: &str) -> (r: String)
    ensures
        r@ == skill_dir_path(root@, name@),
{
    let mut out = chars_of(root);
    out.push('/');
    let k = sanitize_exec(name, '-');
    extend_chars(&mut out, &k);
    string_of(&out)
}

/// The SKILL.md file of a skill in the store at `root`.
pub fn skill_file(root: &str, name: &str) -> (r: String)
    ensures
        r@ == skill_file_path(root@, name@),
{
    let d = skill_dir(root, name);
    let mut out = chars_of(d.as_str());
    out.push('/');
    push_str(&mut out, SKILL_FILE);
    string_of(&out)
}

/// The message for a name that sanitizes to nothing.
pub open spec fn invalid_name_error(name: Seq<char>) -> Seq<char> {
    "invalid skill name "@ + debug_str(name)
}

/// The directory name of a skill, or the error for a name that has none.
pub open spec fn skill_key_spec(name: Seq<char>) -> Result<Seq<char>, Seq<char>> {
    if kebab(name).len() == 0 {
        Err(invalid_name_error(name))
    } else {
        Ok(kebab(name))
    }
}

/// The kebab-case directory name that `name` selects; names that sanitize to
/// nothing are refused.
pub fn skill_key(name: &str) -> (r: Result<String, String>)
    ensures
        match skill_key_spec(name@) {
            Ok(k) => r matches Ok(x) && x@ == k,
            Err(e) => r matches Err(x) && x@ == e,
        },
{
    let k = to_kebab(name);
    if k.as_str().is_empty() {
        let mut out = chars_of("invalid skill name ");
        let q = debug_quote(name);
        push_str(&mut out, q.as_str());
        return Err(string_of(&out));
    }
    Ok(k)
}


// ---------------------------------------------------------------------------
// Parsing
// ---------------------------------------------------------------------------

/// A `---` line, white space aside.
pub open spec fn is_fence(l: Seq<char>) -> bool {
    trim(l) == "---"@
}

/// The first fence among the lines from index `i` on.
pub open spec fn fence_from(ls: Seq<Seq<char>>, i: int) -> Option<int>
    decreases ls.len() - i,
{
    if i < 0 || i >= ls.len() {
        None
    } else if is_fence(ls[i]) {
        Some(i)
    } else {
        fence_from(ls, i + 1)
    }
}

/// `s` without its leading newlines.
pub open spec fn strip_leading_newlines(s: Seq<char>) -> Seq<char>
    decreases s.len(),
{
    if s.len() > 0 && s[0] == '\n' {
        strip_leading_newlines(s.drop_first())
    } else {
        s
    }
}

/// Frontmatter and body of a SKILL.md text: the lines between the first two
/// fences, and the lines after the second, joined, without leading newlines.
pub open spec fn split_frontmatter_spec(content: Seq<char>) -> Result<
    (Seq<char>, Seq<char>),
    Seq<char>,
> {
    let ls = lines(content);
    if ls.len() == 0 || !is_fence(ls[0]) {
        Err("file must start with a '---' line"@)
    } else {
        match fence_from(ls, 1) {
            None => Err("missing closing '---' line"@),
            Some(c) => Ok(
                (
                    join(ls.subrange(1, c), seq!['\n']),
                    strip_leading_newlines(join(ls.skip(c + 1), seq!['\n'])),
                ),
            ),
        }
    }
}

fn is_fence_exec(l: &[char]) -> (r: bool)
    ensures
        r == is_fence(l@),
{
    let t = trim_chars(l);
    let f = chars_of("---");
    chars_eq(&t, &f)
}

/// Split a SKILL.md file into (frontmatter, body) at the first two `---`
/// lines.
pub fn split_frontmatter(content: &str) -> (r: Result<(String, String), String>)
    ensures
        match split_frontmatter_spec(content@) {
            Ok((f, b)) => r matches Ok((x, y)) && x@ == f && y@ == b,
            Err(e) => r matches Err(x) && x@ == e,
        },
{
    let c = chars_of(content);
    let ls = lines_of(&c);
    let ghost lsv = ls@.map_values(|l: Vec<char>| l@);
    if ls.len() == 0 || !is_fence_exec(&ls[0]) {
        return Err(string_of(&chars_of("file must start with a '---' line")));
    }
    let mut close: usize = 1;
    while close < ls.len() && !is_fence_exec(&ls[close])
        invariant
            1 <= close <= ls.len(),
            lsv == ls@.map_values(|l: Vec<char>| l@),
            fence_from(lsv, 1) == fence_from(lsv, close as int),
        decreases ls.len() - close,
    {
        close = close + 1;
    }
    if close == ls.len() {
        return Err(string_of(&chars_of("missing closing '---' line")));
    }
    let nl = vec!['\n'];
    assert(nl@ == seq!['\n']);
    let front = join_range_exec(&ls, 1, close, &nl);
    let rest = join_range_exec(&ls, close + 1, ls.len(), &nl);
    assert(lsv.subrange(close + 1, lsv.len() as int) == lsv.skip(close + 1));
    let mut k: usize = 0;
    assert(rest@.skip(0) == rest@);
    while k < rest.len() && rest[k] == '\n'
        invariant
            k <= rest.len(),
            strip_leading_newlines(rest@) == strip_leading_newlines(rest@.skip(k as int)),
        decreases rest.len() - k,
    {
        assert(rest@.skip(k as int).drop_first() == rest@.skip(k + 1));
        k = k + 1;
    }
    let body = slice_vec(&rest, k, rest.len());
    assert(body@ == rest@.skip(k as int));
    Ok((string_of(&front), string_of(&body)))
}

/// The scalar stored under `key`, if any.
pub open spec fn scalar_field(m: Map<Seq<char>, YamlVal>, key: Seq<char>) -> Option<Seq<char>> {
    if m.contains_key(key) && m[key] is Scalar {
        Some(m[key]->Scalar_0)
    } else {
        None
    }
}

/// `s` with every `a` changed to `b`.
pub open spec fn swap_char(s: Seq<char>, a: char, b: char) -> Seq<char> {
    replace(s, seq![a], seq![b], None)
}

/// The skill that the frontmatter fields and body describe, as found in
/// directory `dir`.
pub open spec fn skill_from_fields(m: Map<Seq<char>, YamlVal>, body: Seq<char>, dir: Seq<char>) -> Result<
    SkillView,
    Seq<char>,
> {
    if scalar_field(m, "name"@) is None {
        Err("frontmatter: missing 'name'"@)
    } else if scalar_field(m, "description"@) is None {
        Err("frontmatter: missing 'description'"@)
    } else if scalar_field(m, "created_at"@) is None {
        Err("frontmatter: missing 'created_at'"@)
    } else if !m.contains_key("tags"@) {
        Err("frontmatter: missing 'tags'"@)
    } else if m["tags"@] is Scalar {
        Err("frontmatter: 'tags' must be a list"@)
    } else {
        let name = scalar_field(m, "name"@)->0;
        let description = scalar_field(m, "description"@)->0;
        if !is_snake_spec(name) {
            Err("frontmatter: 'name' must be snake_case, got "@ + debug_str(name))
        } else if name != swap_char(dir, '-', '_') {
            Err("frontmatter: 'name' ("@ + name + ") does not match directory name ("@ + dir + ")"@)
        } else if trim(description).len() == 0 {
            Err("frontmatter: 'description' is empty"@)
        } else {
            Ok(
                SkillView {
                    name,
                    description,
                    tags: m["tags"@]->List_0,
                    created_at: scalar_field(m, "created_at"@)->0,
                    body,
                },
            )
        }
    }
}

/// The skill that a SKILL.md text in directory `dir` holds, or why it holds none.
pub open spec fn parse_skill_spec(content: Seq<char>, dir: Seq<char>) -> Result<SkillView, Seq<char>> {
    match split_frontmatter_spec(content) {
        Err(e) => Err(e),
        Ok((front, body)) => match parse_yaml_spec(front) {
            Err(e) => Err(e),
            Ok(es) => skill_from_fields(entries_map(es), body, dir),
        },
    }
}

fn scalar_of(v: Option<&YamlValue>) -> (r: Option<String>)
    ensures
        match v {
            Some(YamlValue::Scalar(s)) => r == Some(*s),
            _ => r is None,
        },
{
    match v {
        Some(YamlValue::Scalar(s)) => Some(s.clone()),
        _ => None,
    }
}

/// Parse SKILL.md content. `dir` is the skill's directory name
/// (kebab-case); the frontmatter `name` must match it.
pub fn parse_skill(content: &str, dir: &str) -> (r: Result<Skill, String>)
    ensures
        match parse_skill_spec(content@, dir@) {
            Ok(s) => r matches Ok(x) && x@ == s,
            Err(e) => r matches Err(x) && x@ == e,
        },
{
    let (front, body) = match split_frontmatter(content) {
        Ok(p) => p,
        Err(e) => return Err(e),
    };
    let map = match parse_yaml(front.as_str()) {
        Ok(m) => m,
        Err(e) => return Err(e),
    };
    let name = match scalar_of(map.get("name")) {
        Some(s) => s,
        None => return Err(string_of(&chars_of("frontmatter: missing 'name'"))),
    };
    let description = match scalar_of(map.get("description")) {
        Some(s) => s,
        None => return Err(string_of(&chars_of("frontmatter: missing 'description'"))),
    };
    let created_at = match scalar_of(map.get("created_at")) {
        Some(s) => s,
        None => return Err(string_of(&chars_of("frontmatter: missing 'created_at'"))),
    };
    let tags = match map.get("tags") {
        Some(YamlValue::List(tags)) => clone_strings(tags),
        Some(YamlValue::Scalar(_)) => return Err(
            string_of(&chars_of("frontmatter: 'tags' must be a list")),
        ),
        None => return Err(string_of(&chars_of("frontmatter: missing 'tags'"))),
    };
    let name_chars = chars_of(name.as_str());
    if !is_snake(&name_chars) {
        let mut out = chars_of("frontmatter: 'name' must be snake_case, got ");
        let q = debug_quote(name.as_str());
        push_str(&mut out, q.as_str());
        return Err(string_of(&out));
    }
    let dir_chars = chars_of(dir);
    let from = vec!['-'];
    let to = vec!['_'];
    assert(from@ == seq!['-']);
    assert(to@ == seq!['_']);
    let expected = replace_exec(&dir_chars, &from, &to, None);
    if !chars_eq(&name_chars, &expected) {
        let mut out = chars_of("frontmatter: 'name' (");
        extend_chars(&mut out, &name_chars);
        push_str(&mut out, ") does not match directory name (");
        extend_chars(&mut out, &dir_chars);
        push_str(&mut out, ")");
        return Err(string_of(&out));
    }
    let d = trim_chars(&chars_of(description.as_str()));
    if d.len() == 0 {
        return Err(string_of(&chars_of("frontmatter: 'description' is empty")));
    }
    Ok(Skill { name, description, tags, created_at, body })
}


/// The skill named `name`, read from the SKILL.md text `content` of its
/// directory, or why it cannot be had.
pub open spec fn load_skill_spec(name: Seq<char>, content: Seq<char>) -> Result<SkillView, Seq<char>> {
    match skill_key_spec(name) {
        Err(e) => Err(e),
        Ok(dir) => parse_skill_spec(content, dir),
    }
}

/// Load and validate one skill by name (snake_case or kebab-case), given
/// the SKILL.md text of its directory.
pub fn load_skill(name: &str, content: &str) -> (r: Result<Skill, String>)
    ensures
        match load_skill_spec(name@, content@) {
            Ok(s) => r matches Ok(x) && x@ == s,
            Err(e) => r matches Err(x) && x@ == e,
        },
{
    let dir = match skill_key(name) {
        Ok(k) => k,
        Err(e) => return Err(e),
    };
    parse_skill(content, dir.as_str())
}

// ---------------------------------------------------------------------------
// Loading the store
// ---------------------------------------------------------------------------

/// Skills are listed by name.
pub open spec fn name_before() -> spec_fn(SkillView, SkillView) -> bool {
    |a: SkillView, b: SkillView| seq_lt(a.name, b.name)
}

/// Listing by name is a strict order.
pub proof fn lemma_name_before_strict()
    ensures
        strict_order(name_before()),
{
    lemma_seq_lt_strict();
    assert forall|a: SkillView, b: SkillView| #[trigger] (name_before())(a, b) implies !(name_before())(b, a) by {
        assert(seq_lt(a.name, b.name));
    }
    assert forall|a: SkillView, b: SkillView, c: SkillView|
        #[trigger] (name_before())(a, b) && #[trigger] (name_before())(b, c) implies (name_before())(a, c) by {
        assert(seq_lt(a.name, b.name) && seq_lt(b.name, c.name));
    }
}

/// `"<dir>: <error>"`.
pub open spec fn entry_error(dir: Seq<char>, e: Seq<char>) -> Seq<char> {
    dir + ": "@ + e
}

/// The skills (in the order found) and the errors of the store entries
/// found: each is a directory name with its SKILL.md text or the error of
/// reading it.
pub open spec fn gather(found: Seq<(Seq<char>, Result<Seq<char>, Seq<char>>)>) -> (
    Seq<SkillView>,
    Seq<Seq<char>>,
)
    decreases found.len(),
{
    if found.len() == 0 {
        (seq![], seq![])
    } else {
        let (skills, errors) = gather(found.drop_last());
        let (dir, read) = found.last();
        match read {
            Ok(content) => match parse_skill_spec(content, dir) {
                Ok(s) => (skills.push(s), errors),
                Err(e) => (skills, errors.push(entry_error(dir, e))),
            },
            Err(e) => (skills, errors.push(entry_error(dir, e))),
        }
    }
}

pub open spec fn found_view(found: Seq<(String, Result<String, String>)>) -> Seq<
    (Seq<char>, Result<Seq<char>, Seq<char>>),
> {
    found.map_values(
        |e: (String, Result<String, String>)|
            (
                e.0@,
                match e.1 {
                    Ok(c) => Ok(c@),
                    Err(x) => Err(x@),
                },
            ),
    )
}

pub open spec fn skills_view(v: Seq<Skill>) -> Seq<SkillView> {
    v.map_values(|s: Skill| s@)
}

fn entry_error_exec(dir: &str, e: &str) -> (r: String)
    ensures
        r@ == entry_error(dir@, e@),
{
    let mut out = chars_of(dir);
    push_str(&mut out, ": ");
    push_str(&mut out, e);
    string_of(&out)
}

/// Sorts skills stably by name.
pub fn sort_skills_by_name(v: Vec<Skill>) -> (r: Vec<Skill>)
    ensures
        skills_view(r@) == sort_by(skills_view(v@), name_before()),
{
    let ghost sv = skills_view(v@);
    let mut rest = v;
    let mut out: Vec<Skill> = Vec::new();
    let mut i: usize = 0;
    let n = rest.len();
    assert(sv.take(0) =~= Seq::<SkillView>::empty());
    while rest.len() > 0
        invariant
            n == sv.len(),
            i + rest.len() == n,
            skills_view(rest@) == sv.skip(i as int),
            skills_view(out@) == sort_by(sv.take(i as int), name_before()),
        decreases rest.len(),
    {
        let ghost before = rest@;
        let x = rest.remove(0);
        assert(skills_view(before)[0] == before[0]@);
        assert(sv.skip(i as int)[0] == sv[i as int]);
        assert(x@ == sv[i as int]);
        assert(skills_view(rest@) =~= skills_view(before).drop_first());
        assert(sv.skip(i as int).drop_first() =~= sv.skip(i + 1));
        let xn = chars_of(x.name.as_str());
        let ghost ov = skills_view(out@);
        let mut p: usize = 0;
        assert(ov.skip(0) == ov);
        while p < out.len() && !chars_lt(&xn, &chars_of(out[p].name.as_str()))
            invariant
                p <= out.len(),
                xn@ == x.name@,
                ov == skills_view(out@),
                crate::order::insert_pos(ov, x@, name_before()) == p + crate::order::insert_pos(
                    ov.skip(p as int),
                    x@,
                    name_before(),
                ),
            decreases out.len() - p,
        {
            assert(ov.skip(p as int)[0] == out@[p as int]@);
            assert(ov.skip(p as int).drop_first() == ov.skip(p + 1));
            p = p + 1;
        }
        proof {
            if p < out.len() {
                assert(ov.skip(p as int)[0] == out@[p as int]@);
            }
        }
        assert(crate::order::insert_pos(ov, x@, name_before()) == p);
        out.insert(p, x);
        assert(sv.take(i + 1).drop_last() == sv.take(i as int));
        assert(skills_view(out@) =~= ov.take(p as int) + seq![x@] + ov.skip(p as int));
        i = i + 1;
    }
    assert(sv.take(n as int) == sv);
    out
}

/// Load every valid skill among the store entries found. Broken skills are
/// reported as errors instead of aborting the whole listing; the skills come
/// sorted by name.
pub fn collect_skills(found: Vec<(String, Result<String, String>)>) -> (r: (Vec<Skill>, Vec<String>))
    ensures
        skills_view(r.0@) == sort_by(gather(found_view(found@)).0, name_before()),
        sorted_by(skills_view(r.0@), name_before()),
        r.1.deep_view() == gather(found_view(found@)).1,
{
    proof {
        lemma_name_before_strict();
        lemma_sort_by_sorted(gather(found_view(found@)).0, name_before());
    }
    let ghost fv = found_view(found@);
    let mut skills: Vec<Skill> = Vec::new();
    let mut errors: Vec<String> = Vec::new();
    let mut i: usize = 0;
    assert(fv.take(0) =~= Seq::<(Seq<char>, Result<Seq<char>, Seq<char>>)>::empty());
    while i < found.len()
        invariant
            i <= found.len(),
            fv == found_view(found@),
            (skills_view(skills@), errors.deep_view()) == gather(fv.take(i as int)),
        decreases found.len() - i,
    {
        assert(fv.take(i + 1).drop_last() == fv.take(i as int));
        assert(fv.take(i + 1).last() == fv[i as int]);
        let ghost sb = skills_view(skills@);
        let ghost eb = errors.deep_view();
        let dir = found[i].0.as_str();
        match &found[i].1 {
            Ok(content) => match parse_skill(content.as_str(), dir) {
                Ok(skill) => {
                    skills.push(skill);
                    assert(skills_view(skills@) =~= sb.push(skills@.last()@));
                },
                Err(e) => {
                    errors.push(entry_error_exec(dir, e.as_str()));
                    assert(errors.deep_view() =~= eb.push(errors@.last()@));
                },
            },
            Err(e) => {
                errors.push(entry_error_exec(dir, e.as_str()));
                assert(errors.deep_view() =~= eb.push(errors@.last()@));
            },
        }
        i = i + 1;
    }
    assert(fv.take(found.len() as int) == fv);
    (sort_skills_by_name(skills), errors)
}


// ---------------------------------------------------------------------------
// Mutations
// ---------------------------------------------------------------------------

/// The tags sanitized to kebab case, empty ones and repeats dropped, in
/// the order of first appearance.
pub open spec fn dedup_tags(tags: Seq<Seq<char>>) -> Seq<Seq<char>>
    decreases tags.len(),
{
    if tags.len() == 0 {
        seq![]
    } else {
        let d = dedup_tags(tags.drop_last());
        let k = kebab(tags.last());
        if k.len() > 0 && !d.contains(k) {
            d.push(k)
        } else {
            d
        }
    }
}

/// Sanitized tags, or the error for a count outside 3–8.
pub open spec fn tags_spec(tags: Seq<Seq<char>>) -> Result<Seq<Seq<char>>, Seq<char>> {
    let d = dedup_tags(tags);
    if 3 <= d.len() && d.len() <= 8 {
        Ok(d)
    } else {
        Err("expected 3-8 tags after sanitization, got "@ + decimal(d.len()))
    }
}

/// The sanitized tags are distinct, non-empty kebab-case keywords.
pub proof fn lemma_dedup_tags(tags: Seq<Seq<char>>)
    ensures
        dedup_tags(tags).len() <= tags.len(),
        forall|i: int|
            0 <= i < dedup_tags(tags).len() ==> (#[trigger] dedup_tags(tags)[i]).len() > 0
                && is_sanitized(dedup_tags(tags)[i], '-'),
        forall|i: int, j: int|
            0 <= i < j < dedup_tags(tags).len() ==> dedup_tags(tags)[i] != dedup_tags(tags)[j],
    decreases tags.len(),
{
    if tags.len() > 0 {
        lemma_dedup_tags(tags.drop_last());
        lemma_sanitize_shape(tags.last(), '-');
        let d = dedup_tags(tags.drop_last());
        let k = kebab(tags.last());
        if k.len() > 0 && !d.contains(k) {
            assert forall|i: int, j: int|
                0 <= i < j < d.push(k).len() implies d.push(k)[i] != d.push(k)[j] by {
                if j == d.len() {
                    assert(d.push(k)[i] == d[i]);
                }
            }
        }
    }
}

fn contains_string(v: &Vec<String>, s: &String) -> (r: bool)
    ensures
        r == v.deep_view().contains(s@),
{
    let mut i: usize = 0;
    while i < v.len()
        invariant
            i <= v.len(),
            forall|j: int| 0 <= j < i ==> v.deep_view()[j] != s@,
        decreases v.len() - i,
    {
        if v[i] == *s {
            assert(v.deep_view()[i as int] == s@);
            return true;
        }
        i = i + 1;
    }
    false
}

/// Sanitize tags to lowercase hyphenated keywords, deduplicated, and
/// enforce the 3–8 range.
pub fn sanitize_tags(tags: &[String]) -> (r: Result<Vec<String>, String>)
    ensures
        match tags_spec(strings_view(tags@)) {
            Ok(d) => r matches Ok(v) && v.deep_view() == d,
            Err(e) => r matches Err(x) && x@ == e,
        },
        r matches Ok(v) ==> 3 <= v.len() <= 8,
        r matches Ok(v) ==> forall|i: int|
            0 <= i < v.len() ==> (#[trigger] v.deep_view()[i]).len() > 0 && is_sanitized(v.deep_view()[i], '-'),
        r matches Ok(v) ==> forall|i: int, j: int|
            0 <= i < j < v.len() ==> v.deep_view()[i] != v.deep_view()[j],
{
    proof {
        lemma_dedup_tags(strings_view(tags@));
    }
    let ghost tv = strings_view(tags@);
    let mut out: Vec<String> = Vec::new();
    let mut i: usize = 0;
    assert(tv.take(0) =~= Seq::<Seq<char>>::empty());
    while i < tags.len()
        invariant
            i <= tags.len(),
            tv == strings_view(tags@),
            out.deep_view() == dedup_tags(tv.take(i as int)),
        decreases tags.len() - i,
    {
        assert(tv.take(i + 1).drop_last() == tv.take(i as int));
        assert(tv.take(i + 1).last() == tags@[i as int]@);
        let tag = to_kebab(tags[i].as_str());
        if !tag.as_str().is_empty() && !contains_string(&out, &tag) {
            let ghost before = out.deep_view();
            out.push(tag);
            assert(out.deep_view() =~= before.push(out@.last()@));
        }
        i = i + 1;
    }
    assert(tv.take(tags.len() as int) == tv);
    if out.len() < 3 || out.len() > 8 {
        let mut msg = chars_of("expected 3-8 tags after sanitization, got ");
        let d = decimal_exec(out.len());
        extend_chars(&mut msg, &d);
        return Err(string_of(&msg));
    }
    Ok(out)
}

/// The skill that a creation request makes, stamped `created_at`, given
/// the names already taken; or why it is refused.
pub open spec fn new_skill_spec(
    name: Seq<char>,
    description: Seq<char>,
    tags: Seq<Seq<char>>,
    body: Seq<char>,
    taken: Seq<Seq<char>>,
    created_at: Seq<char>,
) -> Result<SkillView, Seq<char>> {
    let n = snake(name);
    let d = trim(description);
    if n.len() == 0 {
        Err("skill name is empty after sanitization"@)
    } else if d.len() == 0 {
        Err("description must not be empty"@)
    } else {
        match tags_spec(tags) {
            Err(e) => Err(e),
            Ok(ts) => if taken.contains(n) {
                Err("skill '"@ + n + "' already exists — use the update tool"@)
            } else {
                Ok(SkillView { name: n, description: d, tags: ts, created_at, body: trim(body) })
            },
        }
    }
}

/// The characters of each string.
pub open spec fn strings_view(v: Seq<String>) -> Seq<Seq<char>> {
    v.map_values(|t: String| t@)
}

pub open spec fn names_of(skills: Seq<Skill>) -> Seq<Seq<char>> {
    skills.map_values(|s: Skill| s.name@)
}

/// Create a new skill stamped `created_at`. The name is sanitized to a
/// snake_case identifier; fails on a name already taken by `existing`.
pub fn new_skill(
    name: &str,
    description: &str,
    tags: &[String],
    body: &str,
    existing: &[Skill],
    created_at: &str,
) -> (r: Result<Skill, String>)
    ensures
        match new_skill_spec(
            name@,
            description@,
            strings_view(tags@),
            body@,
            names_of(existing@),
            created_at@,
        ) {
            Ok(s) => r matches Ok(x) && x@ == s,
            Err(e) => r matches Err(x) && x@ == e,
        },
{
    let n = to_snake(name);
    if n.as_str().is_empty() {
        return Err(string_of(&chars_of("skill name is empty after sanitization")));
    }
    let d = trim_chars(&chars_of(description));
    if d.len() == 0 {
        return Err(string_of(&chars_of("description must not be empty")));
    }
    let ts = match sanitize_tags(tags) {
        Ok(t) => t,
        Err(e) => return Err(e),
    };
    let mut i: usize = 0;
    while i < existing.len()
        invariant
            i <= existing.len(),
            forall|j: int| 0 <= j < i ==> names_of(existing@)[j] != n@,
            n@ == snake(name@),
            n@.len() > 0,
            d@ == trim(description@),
            d@.len() > 0,
            tags_spec(strings_view(tags@)) == Ok::<Seq<Seq<char>>, Seq<char>>(ts.deep_view()),
        decreases existing.len() - i,
    {
        if existing[i].name == n {
            assert(names_of(existing@)[i as int] == n@);
            assert(names_of(existing@).contains(n@));
            let mut msg = chars_of("skill '");
            push_str(&mut msg, n.as_str());
            push_str(&mut msg, "' already exists — use the update tool");
            return Err(string_of(&msg));
        }
        i = i + 1;
    }
    let b = trim_chars(&chars_of(body));
    Ok(
        Skill {
            name: n,
            description: string_of(&d),
            tags: ts,
            created_at: string_of(&chars_of(created_at)),
            body: string_of(&b),
        },
    )
}

/// Text in the shape of an RFC 3339 date and time, as chrono writes it
/// (`2026-07-12T18:59:41.009310+02:00`): not empty, and made of digits and
/// the separators `-`, `+`, `:`, `.` and `T` alone.
pub open spec fn rfc3339_text(s: Seq<char>) -> bool {
    &&& s.len() > 0
    &&& forall|i: int|
        0 <= i < s.len() ==> is_ascii_digit(#[trigger] s[i]) || s[i] == '-' || s[i] == '+' || s[i] == ':'
            || s[i] == '.' || s[i] == 'T'
}

/// `Local::now().to_rfc3339()`: the local date and time in RFC 3339 form.
/// Which date and time is not stated, as it depends on the clock and the
/// time zone; what every outcome has is its shape: chrono writes the year
/// (with a sign when outside 0..=9999), month, day, `T`, hours, minutes,
/// seconds, a fraction only when not zero, and the offset as `+HH:MM` or
/// `-HH:MM`.
#[verifier::external_body]
fn local_now_rfc3339() -> (r: String)
    ensures
        rfc3339_text(r@),
{
    chrono::Local::now().to_rfc3339()
}

/// A creation request is granted.
pub open spec fn new_skill_ok(
    name: Seq<char>,
    description: Seq<char>,
    tags: Seq<Seq<char>>,
    taken: Seq<Seq<char>>,
) -> bool {
    &&& snake(name).len() > 0
    &&& trim(description).len() > 0
    &&& tags_spec(tags) is Ok
    &&& !taken.contains(snake(name))
}

/// Create a new skill, stamped with the current local time. The name is
/// sanitized to a snake_case identifier; fails on a name already taken by
/// `existing`.
pub fn add_skill(name: &str, description: &str, tags: &[String], body: &str, existing: &[Skill]) -> (r: Result<
    Skill,
    String,
>)
    ensures
        r is Ok <==> new_skill_ok(
            name@,
            description@,
            strings_view(tags@),
            names_of(existing@),
        ),
        r matches Ok(s) ==> new_skill_spec(
            name@,
            description@,
            strings_view(tags@),
            body@,
            names_of(existing@),
            s.created_at@,
        ) == Ok::<SkillView, Seq<char>>(s@),
        r matches Ok(s) ==> s.name@.len() > 0 && is_sanitized(s.name@, '_') && !names_of(
            existing@,
        ).contains(s.name@),
        r matches Ok(s) ==> rfc3339_text(s.created_at@),
        r matches Err(e) ==> forall|stamp: Seq<char>|
            #[trigger] new_skill_spec(
                name@,
                description@,
                strings_view(tags@),
                body@,
                names_of(existing@),
                stamp,
            ) == Err::<SkillView, Seq<char>>(e@),
{
    proof {
        lemma_sanitize_shape(name@, '_');
    }
    let stamp = local_now_rfc3339();
    new_skill(name, description, tags, body, existing, stamp.as_str())
}

/// The skill after an update of the given fields, or why it is refused.
/// `loaded` is the stored skill, or the error of loading it.
pub open spec fn update_skill_spec(
    loaded: Result<SkillView, Seq<char>>,
    description: Option<Seq<char>>,
    tags: Option<Seq<Seq<char>>>,
    body: Option<Seq<char>>,
) -> Result<SkillView, Seq<char>> {
    if description is None && tags is None && body is None {
        Err("nothing to update: provide description, tags and/or content"@)
    } else {
        match loaded {
            Err(e) => Err(e),
            Ok(s) => {
                if description matches Some(d) && trim(d).len() == 0 {
                    Err("description must not be empty"@)
                } else if tags matches Some(t) && tags_spec(t) is Err {
                    Err(tags_spec(tags->0)->Err_0)
                } else {
                    Ok(
                        SkillView {
                            name: s.name,
                            description: match description {
                                Some(d) => trim(d),
                                None => s.description,
                            },
                            tags: match tags {
                                Some(t) => tags_spec(t)->Ok_0,
                                None => s.tags,
                            },
                            created_at: s.created_at,
                            body: match body {
                                Some(b) => trim(b),
                                None => s.body,
                            },
                        },
                    )
                }
            },
        }
    }
}

pub open spec fn opt_str(o: Option<&str>) -> Option<Seq<char>> {
    match o {
        Some(s) => Some(s@),
        None => None,
    }
}

pub open spec fn opt_strings(o: Option<&[String]>) -> Option<Seq<Seq<char>>> {
    match o {
        Some(t) => Some(strings_view(t@)),
        None => None,
    }
}

pub open spec fn loaded_view(l: Result<Skill, String>) -> Result<SkillView, Seq<char>> {
    match l {
        Ok(s) => Ok(s@),
        Err(e) => Err(e@),
    }
}

/// Update fields of an existing skill. `created_at` and the name are
/// preserved (the directory name is the identifier).
pub fn update_skill(
    loaded: Result<Skill, String>,
    description: Option<&str>,
    tags: Option<&[String]>,
    body: Option<&str>,
) -> (r: Result<Skill, String>)
    ensures
        match update_skill_spec(loaded_view(loaded), opt_str(description), opt_strings(tags), opt_str(body)) {
            Ok(s) => r matches Ok(x) && x@ == s,
            Err(e) => r matches Err(x) && x@ == e,
        },
        r matches Ok(x) ==> loaded matches Ok(s) && x.name@ == s.name@ && x.created_at@
            == s.created_at@,
{
    if description.is_none() && tags.is_none() && body.is_none() {
        return Err(string_of(&chars_of("nothing to update: provide description, tags and/or content")));
    }
    let mut skill = match loaded {
        Ok(s) => s,
        Err(e) => return Err(e),
    };
    if let Some(d) = description {
        let t = trim_chars(&chars_of(d));
        if t.len() == 0 {
            return Err(string_of(&chars_of("description must not be empty")));
        }
        skill.description = string_of(&t);
    }
    if let Some(ts) = tags {
        match sanitize_tags(ts) {
            Ok(v) => {
                skill.tags = v;
            },
            Err(e) => return Err(e),
        }
    }
    if let Some(b) = body {
        skill.body = string_of(&trim_chars(&chars_of(b)));
    }
    Ok(skill)
}

/// The report of a removed skill: `removed skill '<kebab>' (<dir>)`.
pub open spec fn removed_message_spec(root: Seq<char>, name: Seq<char>) -> Seq<char> {
    "removed skill '"@ + kebab(name) + "' ("@ + skill_dir_path(root, name) + ")"@
}

/// The report of a skill removed from the store at `root`.
pub fn removed_message(root: &str, name: &str) -> (r: String)
    ensures
        r@ == removed_message_spec(root@, name@),
{
    let mut out = chars_of("removed skill '");
    let k = to_kebab(name);
    push_str(&mut out, k.as_str());
    push_str(&mut out, "' (");
    let d = skill_dir(root, name);
    push_str(&mut out, d.as_str());
    push_str(&mut out, ")");
    string_of(&out)
}

/// An update changes only the fields it is given. When it succeeds, the
/// name and the creation date are the stored skill's; a description, tags
/// or body that is not given is kept as stored, and one that is given
/// replaces the stored one (trimmed, the tags sanitized). It succeeds
/// exactly when the skill was loaded, some field is given, a given
/// description is not blank and given tags sanitize to 3 to 8.
pub proof fn lemma_update_frame(
    loaded: Result<SkillView, Seq<char>>,
    description: Option<Seq<char>>,
    tags: Option<Seq<Seq<char>>>,
    body: Option<Seq<char>>,
)
    ensures
        update_skill_spec(loaded, description, tags, body) is Ok <==> (loaded is Ok && !(description is None
            && tags is None && body is None) && !(description matches Some(d) && trim(d).len() == 0)
            && !(tags matches Some(t) && !(tags_spec(t) is Ok))),
        update_skill_spec(loaded, description, tags, body) matches Ok(r) ==> ({
            let s = loaded->Ok_0;
            &&& r.name == s.name
            &&& r.created_at == s.created_at
            &&& (description is None ==> r.description == s.description)
            &&& (description matches Some(d) ==> r.description == trim(d))
            &&& (tags is None ==> r.tags == s.tags)
            &&& (tags matches Some(t) ==> tags_spec(t) == Ok::<Seq<Seq<char>>, Seq<char>>(r.tags))
            &&& (body is None ==> r.body == s.body)
            &&& (body matches Some(b) ==> r.body == trim(b))
        }),
{
}

/// Sanitizing tags keeps every tag that has letters or digits, in its
/// kebab-case form, and adds nothing else.
pub proof fn lemma_dedup_tags_members(tags: Seq<Seq<char>>)
    ensures
        forall|i: int| 0 <= i < tags.len() && kebab(#[trigger] tags[i]).len() > 0 ==> dedup_tags(tags).contains(
            kebab(tags[i]),
        ),
        forall|k: int|
            #![trigger dedup_tags(tags)[k]]
            0 <= k < dedup_tags(tags).len() ==> exists|i: int|
                0 <= i < tags.len() && #[trigger] kebab(tags[i]) == dedup_tags(tags)[k],
    decreases tags.len(),
{
    if tags.len() > 0 {
        let prev = tags.drop_last();
        lemma_dedup_tags_members(prev);
        let d = dedup_tags(prev);
        let k0 = kebab(tags.last());
        let r = dedup_tags(tags);
        assert forall|i: int| 0 <= i < tags.len() && kebab(#[trigger] tags[i]).len() > 0 implies r.contains(
            kebab(tags[i]),
        ) by {
            if i < prev.len() {
                assert(prev[i] == tags[i]);
                let j = choose|j: int| 0 <= j < d.len() && d[j] == kebab(prev[i]);
                if k0.len() > 0 && !d.contains(k0) {
                    assert(r[j] == d[j]);
                }
            } else {
                if !(k0.len() > 0 && !d.contains(k0)) {
                    assert(d.contains(k0));
                } else {
                    assert(r[d.len() as int] == k0);
                }
            }
        }
        assert forall|k: int| #![trigger r[k]] 0 <= k < r.len() implies exists|i: int|
            0 <= i < tags.len() && #[trigger] kebab(tags[i]) == r[k] by {
            if k < d.len() {
                if k0.len() > 0 && !d.contains(k0) {
                    assert(r[k] == d[k]);
                }
                let i = choose|i: int| 0 <= i < prev.len() && #[trigger] kebab(prev[i]) == d[k];
                assert(prev[i] == tags[i]);
                assert(kebab(tags[i]) == r[k]);
            } else {
                assert(kebab(tags[tags.len() - 1]) == r[k]);
            }
        }
    }
}

} // verus!
