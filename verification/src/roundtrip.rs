//! A skill written to SKILL.md reads back as itself, its description with
//! newlines folded to spaces.
use vstd::prelude::*;
use crate::skills::{
    is_sanitized, kebab, lemma_kebab_of_snake, lemma_kebab_snake, lemma_sanitize_shape, lemma_dedup_tags,
    lemma_replace_is_map, load_skill_spec, new_skill_spec, rfc3339_text, snake, dedup_tags, gather,
    name_before, tags_spec,
    fence_from, fold_newlines, is_fence, is_snake_spec, markdown, parse_skill_spec, scalar_field,
    skill_from_fields, split_frontmatter_spec, strip_leading_newlines, swap_char, tag_lines, SkillView,
};
use crate::order::{lemma_sort_by_permutes, sort_by};
use crate::text::{
    contains_sub, is_ws, join, lines_from, lemma_lines_ended, lemma_lines_unended, lemma_trim_ends, lemma_trim_nonempty, lemma_replace_absent, matches_at,
    lemma_join_cons, lemma_join_lines, lemma_lines_join, lemma_replace_char_gone,
    lemma_lines_unlines, lemma_replace_keeps_absent, lemma_swap_back, lemma_trim_plain, lemma_unlines_append,
    lines, plain_line, replace, trim, unlines,
};
use crate::yaml::{
    clean_scalar, entries_map, last_is_list, lemma_item_line, lemma_key_value_line,
    lemma_list_key_line, lemma_quote_unquote, lookup, parse_yaml_spec, quote, simple_key, unquote,
    yaml_line, yaml_lines, Entries, YamlVal,
};

verus! {

/// The fields that SKILL.md holds above the body as they are: a snake_case
/// name, a description with something besides white space once folded, and
/// tags and a timestamp without line breaks (the timestamp also without
/// `''`).
pub open spec fn writable_head(s: SkillView) -> bool {
    &&& is_snake_spec(s.name)
    &&& trim(fold_newlines(s.description)).len() > 0
    &&& forall|i: int| 0 <= i < s.tags.len() ==> !(#[trigger] s.tags[i]).contains('\n')
    &&& !s.created_at.contains('\n')
    &&& !contains_sub(s.created_at, seq!['\'', '\''])
}

/// A skill that SKILL.md can hold: its head fields as `writable_head` asks,
/// and a body that neither starts with a newline nor holds a `'\r'` before
/// a newline or at its end.
pub open spec fn writable(s: SkillView) -> bool {
    &&& writable_head(s)
    &&& !contains_sub(s.body, seq!['\r', '\n'])
    &&& !(s.body.len() > 0 && s.body.last() == '\r')
    &&& !(s.body.len() > 0 && s.body[0] == '\n')
}

/// The body that SKILL.md gives back for the body `b`: its lines, joined
/// again, without leading newlines.
pub open spec fn body_read(b: Seq<char>) -> Seq<char> {
    strip_leading_newlines(join(lines(b + seq!['\n']), seq!['\n']))
}

/// What a written skill reads back as.
pub open spec fn as_read(s: SkillView) -> SkillView {
    SkillView { description: fold_newlines(s.description), ..s }
}

pub open spec fn colon_space() -> Seq<char> {
    seq![':', ' ']
}

pub open spec fn name_line(s: SkillView) -> Seq<char> {
    "name"@ + colon_space() + s.name
}

pub open spec fn description_line(s: SkillView) -> Seq<char> {
    "description"@ + colon_space() + quote(fold_newlines(s.description))
}

pub open spec fn tags_line() -> Seq<char> {
    "tags"@ + seq![':']
}

pub open spec fn quoted_stamp(s: SkillView) -> Seq<char> {
    seq!['\''] + s.created_at + seq!['\'']
}

pub open spec fn created_line(s: SkillView) -> Seq<char> {
    "created_at"@ + colon_space() + quoted_stamp(s)
}

pub open spec fn tag_line_seq(tags: Seq<Seq<char>>) -> Seq<Seq<char>> {
    Seq::new(tags.len(), |i: int| seq!['-', ' '] + quote(tags[i]))
}

/// The frontmatter lines of a skill.
pub open spec fn front_lines(s: SkillView) -> Seq<Seq<char>> {
    seq![name_line(s), description_line(s), tags_line()] + tag_line_seq(s.tags) + seq![
        created_line(s),
    ]
}

/// The lines of SKILL.md before the body.
pub open spec fn head_lines(s: SkillView) -> Seq<Seq<char>> {
    seq!["---"@] + front_lines(s) + seq!["---"@, seq![]]
}

proof fn lemma_literals()
    ensures
        "---"@ == seq!['-', '-', '-'],
        "---\n"@ == seq!['-', '-', '-', '\n'],
        "\n"@ == seq!['\n'],
        "name"@ == seq!['n', 'a', 'm', 'e'],
        "name: "@ == seq!['n', 'a', 'm', 'e', ':', ' '],
        "description"@ == seq!['d', 'e', 's', 'c', 'r', 'i', 'p', 't', 'i', 'o', 'n'],
        "description: "@ == seq!['d', 'e', 's', 'c', 'r', 'i', 'p', 't', 'i', 'o', 'n', ':', ' '],
        "tags"@ == seq!['t', 'a', 'g', 's'],
        "tags:\n"@ == seq!['t', 'a', 'g', 's', ':', '\n'],
        "- "@ == seq!['-', ' '],
        "created_at"@ == seq!['c', 'r', 'e', 'a', 't', 'e', 'd', '_', 'a', 't'],
        "created_at: '"@ == seq!['c', 'r', 'e', 'a', 't', 'e', 'd', '_', 'a', 't', ':', ' ', '\''],
        "'\n---\n\n"@ == seq!['\'', '\n', '-', '-', '-', '\n', '\n'],
{
    reveal_strlit("---");
    reveal_strlit("---\n");
    reveal_strlit("\n");
    reveal_strlit("name");
    reveal_strlit("name: ");
    reveal_strlit("description");
    reveal_strlit("description: ");
    reveal_strlit("tags");
    reveal_strlit("tags:\n");
    reveal_strlit("- ");
    reveal_strlit("created_at");
    reveal_strlit("created_at: '");
    reveal_strlit("'\n---\n\n");
    assert("---"@ =~= seq!['-', '-', '-']);
    assert("---\n"@ =~= seq!['-', '-', '-', '\n']);
    assert("\n"@ =~= seq!['\n']);
    assert("name"@ =~= seq!['n', 'a', 'm', 'e']);
    assert("name: "@ =~= seq!['n', 'a', 'm', 'e', ':', ' ']);
    assert("description"@ =~= seq!['d', 'e', 's', 'c', 'r', 'i', 'p', 't', 'i', 'o', 'n']);
    assert("description: "@ =~= seq![
        'd',
        'e',
        's',
        'c',
        'r',
        'i',
        'p',
        't',
        'i',
        'o',
        'n',
        ':',
        ' ',
    ]);
    assert("tags"@ =~= seq!['t', 'a', 'g', 's']);
    assert("tags:\n"@ =~= seq!['t', 'a', 'g', 's', ':', '\n']);
    assert("- "@ =~= seq!['-', ' ']);
    assert("created_at"@ =~= seq!['c', 'r', 'e', 'a', 't', 'e', 'd', '_', 'a', 't']);
    assert("created_at: '"@ =~= seq![
        'c',
        'r',
        'e',
        'a',
        't',
        'e',
        'd',
        '_',
        'a',
        't',
        ':',
        ' ',
        '\'',
    ]);
    assert("'\n---\n\n"@ =~= seq!['\'', '\n', '-', '-', '-', '\n', '\n']);
}

/// Neither part holds `x`, so neither does their concatenation.
proof fn lemma_concat_lacks(a: Seq<char>, b: Seq<char>, x: char)
    requires
        !a.contains(x),
        !b.contains(x),
    ensures
        !(a + b).contains(x),
{
    if (a + b).contains(x) {
        let j = choose|j: int| 0 <= j < (a + b).len() && (a + b)[j] == x;
        if j < a.len() {
            assert(a[j] == x);
        } else {
            assert(b[j - a.len()] == x);
        }
    }
}

/// The tag lines of the frontmatter are the written tag lines, each ended.
proof fn lemma_tag_lines(tags: Seq<Seq<char>>)
    ensures
        tag_lines(tags) == unlines(tag_line_seq(tags)),
    decreases tags.len(),
{
    lemma_literals();
    if tags.len() > 0 {
        lemma_tag_lines(tags.drop_last());
        assert(tag_line_seq(tags).drop_last() =~= tag_line_seq(tags.drop_last()));
        assert(tag_line_seq(tags).last() == seq!['-', ' '] + quote(tags.last()));
        assert(tag_lines(tags) =~= unlines(tag_line_seq(tags)));
    } else {
        assert(tag_line_seq(tags) =~= Seq::<Seq<char>>::empty());
    }
}

proof fn lemma_unlines_first(s: SkillView)
    ensures
        unlines(seq!["---"@, name_line(s), description_line(s), tags_line()]) == "---\n"@ + "name: "@
            + s.name + "\n"@ + "description: "@ + quote(fold_newlines(s.description)) + "\n"@
            + "tags:\n"@,
{
    lemma_literals();
    let first = seq!["---"@, name_line(s), description_line(s), tags_line()];
    let l1 = seq!["---"@];
    let l2 = seq!["---"@, name_line(s)];
    let l3 = seq!["---"@, name_line(s), description_line(s)];
    assert(first.drop_last() =~= l3);
    assert(l3.drop_last() =~= l2);
    assert(l2.drop_last() =~= l1);
    assert(l1.drop_last() =~= Seq::<Seq<char>>::empty());
    assert(unlines(Seq::<Seq<char>>::empty()) == Seq::<char>::empty());
    assert(unlines(l1) == unlines(l1.drop_last()) + l1.last() + seq!['\n']);
    assert(unlines(l1) =~= "---\n"@);
    assert(unlines(l2) =~= "---\n"@ + "name: "@ + s.name + "\n"@);
    assert(unlines(l3) =~= "---\n"@ + "name: "@ + s.name + "\n"@ + "description: "@ + quote(
        fold_newlines(s.description),
    ) + "\n"@);
    assert(unlines(first) =~= "---\n"@ + "name: "@ + s.name + "\n"@ + "description: "@ + quote(
        fold_newlines(s.description),
    ) + "\n"@ + "tags:\n"@);
}

proof fn lemma_unlines_last(s: SkillView)
    ensures
        unlines(seq![created_line(s), "---"@, seq![]]) == "created_at: '"@ + s.created_at
            + "'\n---\n\n"@,
{
    lemma_literals();
    let last = seq![created_line(s), "---"@, seq![]];
    let l1 = seq![created_line(s)];
    let l2 = seq![created_line(s), "---"@];
    assert(last.drop_last() =~= l2);
    assert(l2.drop_last() =~= l1);
    assert(l1.drop_last() =~= Seq::<Seq<char>>::empty());
    assert(unlines(Seq::<Seq<char>>::empty()) == Seq::<char>::empty());
    assert(unlines(l1) == unlines(l1.drop_last()) + l1.last() + seq!['\n']);
    assert(unlines(l1) =~= created_line(s) + seq!['\n']);
    assert(unlines(l2) =~= created_line(s) + seq!['\n'] + "---"@ + seq!['\n']);
    assert(unlines(last) =~= "created_at: '"@ + s.created_at + "'\n---\n\n"@);
}

/// SKILL.md is its head lines, each ended, then the body and a newline.
proof fn lemma_markdown_lines(s: SkillView)
    ensures
        markdown(s) == unlines(head_lines(s)) + (s.body + seq!['\n']),
{
    lemma_tag_lines(s.tags);
    let first = seq!["---"@, name_line(s), description_line(s), tags_line()];
    let last = seq![created_line(s), "---"@, seq![]];
    assert(head_lines(s) =~= first + tag_line_seq(s.tags) + last);
    lemma_unlines_append(first + tag_line_seq(s.tags), last);
    lemma_unlines_append(first, tag_line_seq(s.tags));
    lemma_unlines_first(s);
    lemma_unlines_last(s);
    let a = unlines(first);
    let b = unlines(tag_line_seq(s.tags));
    let c = unlines(last);
    assert(unlines(head_lines(s)) == a + b + c);
    lemma_literals();
    assert(b == tag_lines(s.tags));
    assert(markdown(s) == a + tag_lines(s.tags) + "created_at: '"@ + s.created_at + "'\n---\n\n"@
        + s.body + "\n"@);
    assert(markdown(s) =~= a + b + c + (s.body + seq!['\n']));
}

/// Every line of the head is one that `lines` gives back.
proof fn lemma_head_plain(s: SkillView)
    requires
        writable_head(s),
    ensures
        forall|i: int| 0 <= i < head_lines(s).len() ==> plain_line(#[trigger] head_lines(s)[i]),
        forall|i: int| 0 <= i < front_lines(s).len() ==> plain_line(#[trigger] front_lines(s)[i]),
        forall|i: int| 0 <= i < front_lines(s).len() ==> (#[trigger] front_lines(s)[i]).len() > 0,
{
    lemma_literals();
    let h = head_lines(s);
    let f = front_lines(s);
    lemma_replace_char_gone(s.description, '\n', seq![' ']);
    lemma_quote_unquote(fold_newlines(s.description));
    assert(!colon_space().contains('\n'));
    assert(!s.name.contains('\n')) by {
        if s.name.contains('\n') {
            let j = choose|j: int| 0 <= j < s.name.len() && s.name[j] == '\n';
            assert(s.name[j] == '\n');
        }
    }
    assert(!"name"@.contains('\n'));
    assert(!"description"@.contains('\n'));
    assert(!"created_at"@.contains('\n'));
    assert(!seq!['\''].contains('\n'));
    lemma_concat_lacks("name"@, colon_space(), '\n');
    lemma_concat_lacks("name"@ + colon_space(), s.name, '\n');
    lemma_concat_lacks("description"@, colon_space(), '\n');
    lemma_concat_lacks("description"@ + colon_space(), quote(fold_newlines(s.description)), '\n');
    lemma_concat_lacks(seq!['\''], s.created_at, '\n');
    lemma_concat_lacks(seq!['\''] + s.created_at, seq!['\''], '\n');
    lemma_concat_lacks("created_at"@, colon_space(), '\n');
    lemma_concat_lacks("created_at"@ + colon_space(), quoted_stamp(s), '\n');
    assert(plain_line(name_line(s))) by {
        assert(name_line(s).last() == s.name.last());
        assert(s.name.last() == s.name[s.name.len() - 1]);
    }
    assert(plain_line(description_line(s)));
    assert(plain_line(tags_line()));
    assert(plain_line(created_line(s)));
    assert forall|i: int| 0 <= i < s.tags.len() implies plain_line(#[trigger] tag_line_seq(s.tags)[i])
        && tag_line_seq(s.tags)[i].len() > 0 by {
        assert(!s.tags[i].contains('\n'));
        lemma_quote_unquote(s.tags[i]);
        assert(!seq!['-', ' '].contains('\n'));
        lemma_concat_lacks(seq!['-', ' '], quote(s.tags[i]), '\n');
    }
    assert forall|i: int| 0 <= i < f.len() implies plain_line(#[trigger] f[i]) && f[i].len() > 0 by {
        if 3 <= i < 3 + s.tags.len() {
            assert(f[i] == tag_line_seq(s.tags)[i - 3]);
        }
    }
    assert forall|i: int| 0 <= i < h.len() implies plain_line(#[trigger] h[i]) by {
        if 1 <= i < 1 + f.len() {
            assert(h[i] == f[i - 1]);
        }
    }
}

/// No line of the frontmatter is a fence.
proof fn lemma_front_not_fence(s: SkillView)
    requires
        writable_head(s),
    ensures
        forall|i: int| 0 <= i < front_lines(s).len() ==> !is_fence(#[trigger] front_lines(s)[i]),
{
    lemma_literals();
    lemma_head_plain(s);
    let f = front_lines(s);
    assert forall|i: int| 0 <= i < f.len() implies !is_fence(#[trigger] f[i]) by {
        let l = f[i];
        assert(plain_line(l));
        if 3 <= i < 3 + s.tags.len() {
            assert(l == seq!['-', ' '] + quote(s.tags[i - 3]));
            assert(!s.tags[i - 3].contains('\n'));
            lemma_quote_unquote(s.tags[i - 3]);
            assert(l[0] == '-' && l[1] == ' ');
            assert(!is_ws(l.last()));
            lemma_trim_plain(l);
            assert(l[1] != "---"@[1]);
        } else {
            assert(l[0] != '-');
            if i == 0 {
                assert(l.last() == s.name.last());
                assert(s.name.last() == s.name[s.name.len() - 1]);
            } else if i == 1 {
                lemma_replace_char_gone(s.description, '\n', seq![' ']);
                lemma_quote_unquote(fold_newlines(s.description));
            }
            assert(!is_ws(l[0]) && !is_ws(l.last()));
            lemma_trim_plain(l);
            assert(l[0] != "---"@[0]);
        }
    }
}

/// The head's first fence after the opening one closes the frontmatter.
proof fn lemma_fence_scan(ls: Seq<Seq<char>>, f: Seq<Seq<char>>, i: int)
    requires
        1 <= i <= f.len() + 1,
        ls.len() > f.len() + 1,
        forall|j: int| 0 <= j < f.len() ==> ls[j + 1] == f[j],
        forall|j: int| 0 <= j < f.len() ==> !is_fence(#[trigger] f[j]),
        is_fence(ls[f.len() as int + 1]),
    ensures
        fence_from(ls, i) == Some(f.len() as int + 1),
    decreases f.len() + 1 - i,
{
    if i < f.len() + 1 {
        assert(ls[i] == f[i - 1]);
        assert(!is_fence(f[i - 1]));
        lemma_fence_scan(ls, f, i + 1);
    }
}

/// `yaml_lines` takes the first line, then the rest.
proof fn lemma_yaml_lines_cons(es: Entries, l: Seq<char>, rest: Seq<Seq<char>>, no: nat)
    ensures
        yaml_lines(es, seq![l] + rest, no) == match yaml_line(es, no, l) {
            Ok(next) => yaml_lines(next, rest, no + 1),
            Err(e) => Err(e),
        },
{
    assert((seq![l] + rest).drop_first() == rest);
    assert((seq![l] + rest)[0] == l);
}

/// Tag lines under the `tags:` list add their tags to it.
proof fn lemma_tag_lines_read(es: Entries, tags: Seq<Seq<char>>, rest: Seq<Seq<char>>, no: nat)
    requires
        last_is_list(es),
        forall|i: int| 0 <= i < tags.len() ==> !(#[trigger] tags[i]).contains('\n'),
    ensures
        yaml_lines(es, tag_line_seq(tags) + rest, no) == yaml_lines(
            es.update(es.len() - 1, (es.last().0, YamlVal::List(es.last().1->List_0 + tags))),
            rest,
            no + tags.len(),
        ),
    decreases tags.len(),
{
    if tags.len() == 0 {
        assert(tag_line_seq(tags) + rest =~= rest);
        assert(es.last().1->List_0 + tags =~= es.last().1->List_0);
        assert(es.update(es.len() - 1, (es.last().0, YamlVal::List(es.last().1->List_0))) =~= es);
    } else {
        let t = tags[0];
        assert(!t.contains('\n'));
        lemma_quote_unquote(t);
        lemma_item_line(es, no, quote(t));
        let next = es.update(es.len() - 1, (es.last().0, YamlVal::List(es.last().1->List_0.push(t))));
        assert(tag_line_seq(tags) + rest =~= seq![seq!['-', ' '] + quote(t)] + (tag_line_seq(
            tags.drop_first(),
        ) + rest));
        lemma_yaml_lines_cons(es, seq!['-', ' '] + quote(t), tag_line_seq(tags.drop_first()) + rest, no);
        assert forall|i: int| 0 <= i < tags.drop_first().len() implies !(#[trigger] tags.drop_first()[i]).contains('\n') by {
            assert(tags.drop_first()[i] == tags[i + 1]);
        }
        lemma_tag_lines_read(next, tags.drop_first(), rest, no + 1);
        assert(next.last().1->List_0 + tags.drop_first() =~= es.last().1->List_0 + tags);
        assert(next.update(next.len() - 1, (next.last().0, YamlVal::List(next.last().1->List_0 + tags.drop_first())))
            =~= es.update(es.len() - 1, (es.last().0, YamlVal::List(es.last().1->List_0 + tags))));
    }
}

/// The entries that the frontmatter of a writable skill reads as.
pub open spec fn front_entries(s: SkillView) -> Entries {
    seq![
        ("name"@, YamlVal::Scalar(s.name)),
        ("description"@, YamlVal::Scalar(fold_newlines(s.description))),
        ("tags"@, YamlVal::List(s.tags)),
        ("created_at"@, YamlVal::Scalar(s.created_at)),
    ]
}

/// The frontmatter lines read as the skill's fields.
proof fn lemma_front_read(s: SkillView)
    requires
        writable_head(s),
    ensures
        yaml_lines(seq![], front_lines(s), 1) == Ok::<Entries, Seq<char>>(front_entries(s)),
{
    lemma_literals();
    let fd = fold_newlines(s.description);
    lemma_replace_char_gone(s.description, '\n', seq![' ']);
    lemma_quote_unquote(fd);
    assert(simple_key("name"@));
    assert(simple_key("description"@));
    assert(simple_key("tags"@));
    assert(simple_key("created_at"@));
    // name
    let n = s.name;
    assert(clean_scalar(n)) by {
        assert(!n.contains('\n')) by {
            if n.contains('\n') {
                let j = choose|j: int| 0 <= j < n.len() && n[j] == '\n';
                assert(n[j] == '\n');
            }
        }
        assert(n.last() == n[n.len() - 1]);
    }
    assert(unquote(n) == n) by {
        lemma_trim_plain(n);
        assert(!(n.len() >= 2 && n[0] == '\'') && !(n.len() >= 2 && n[0] == '"'));
        crate::text::lemma_find_sub(n, seq![' ', '#']);
        if crate::text::find_sub(n, seq![' ', '#']) is Some {
            let k = crate::text::find_sub(n, seq![' ', '#'])->0;
            assert(n.subrange(k, k + 2)[0] == n[k]);
        }
    }
    let e0: Entries = seq![];
    lemma_key_value_line(e0, 1, "name"@, n);
    let e1 = e0.push(("name"@, YamlVal::Scalar(n)));
    lemma_key_value_line(e1, 2, "description"@, quote(fd));
    let e2 = e1.push(("description"@, YamlVal::Scalar(fd)));
    lemma_list_key_line(e2, 3, "tags"@);
    let e3 = e2.push(("tags"@, YamlVal::List(seq![])));
    // created_at
    let q = quoted_stamp(s);
    assert(clean_scalar(q)) by {
        lemma_concat_lacks(seq!['\''], s.created_at, '\n');
        lemma_concat_lacks(seq!['\''] + s.created_at, seq!['\''], '\n');
    }
    assert(unquote(q) == s.created_at) by {
        lemma_trim_plain(q);
        assert(q.subrange(1, q.len() - 1) == s.created_at);
        crate::text::lemma_replace_absent(s.created_at, seq!['\'', '\''], seq!['\''], None);
    }
    let e4 = e3.update(e3.len() - 1, (e3.last().0, YamlVal::List(e3.last().1->List_0 + s.tags)));
    assert(e4 =~= e2.push(("tags"@, YamlVal::List(s.tags))));
    lemma_key_value_line(e4, 4 + s.tags.len(), "created_at"@, q);
    let e5 = e4.push(("created_at"@, YamlVal::Scalar(s.created_at)));
    assert(e5 =~= front_entries(s));
    // the walk through the lines
    let f = front_lines(s);
    let tl = tag_line_seq(s.tags);
    let after = seq![created_line(s)];
    assert(f =~= seq![name_line(s)] + (seq![description_line(s)] + (seq![tags_line()] + (tl + after))));
    lemma_yaml_lines_cons(e0, name_line(s), seq![description_line(s)] + (seq![tags_line()] + (tl + after)), 1);
    lemma_yaml_lines_cons(e1, description_line(s), seq![tags_line()] + (tl + after), 2);
    lemma_yaml_lines_cons(e2, tags_line(), tl + after, 3);
    lemma_tag_lines_read(e3, s.tags, after, 4);
    lemma_yaml_lines_cons(e4, created_line(s), seq![], 4 + s.tags.len());
    assert(after =~= seq![created_line(s)] + Seq::<Seq<char>>::empty());
}

/// The fields of a writable skill's frontmatter, looked up by key.
proof fn lemma_front_fields(s: SkillView)
    ensures
        scalar_field(entries_map(front_entries(s)), "name"@) == Some(s.name),
        scalar_field(entries_map(front_entries(s)), "description"@) == Some(fold_newlines(s.description)),
        scalar_field(entries_map(front_entries(s)), "created_at"@) == Some(s.created_at),
        entries_map(front_entries(s)).contains_key("tags"@),
        entries_map(front_entries(s))["tags"@] == YamlVal::List(s.tags),
{
    lemma_literals();
    let es = front_entries(s);
    reveal_with_fuel(lookup, 5);
    assert("name"@ != "description"@);
    assert("name"@ != "created_at"@);
    assert("name"@ != "tags"@) by {
        assert("name"@[0] != "tags"@[0]);
    }
    assert("description"@ != "created_at"@);
    assert("description"@ != "tags"@);
    assert("tags"@ != "created_at"@);
    assert(es.drop_last() =~= seq![
        ("name"@, YamlVal::Scalar(s.name)),
        ("description"@, YamlVal::Scalar(fold_newlines(s.description))),
        ("tags"@, YamlVal::List(s.tags)),
    ]);
    assert(es.drop_last().drop_last() =~= seq![
        ("name"@, YamlVal::Scalar(s.name)),
        ("description"@, YamlVal::Scalar(fold_newlines(s.description))),
    ]);
    assert(es.drop_last().drop_last().drop_last() =~= seq![("name"@, YamlVal::Scalar(s.name))]);
    assert(lookup(es, "name"@) == Some(YamlVal::Scalar(s.name)));
    assert(lookup(es, "description"@) == Some(YamlVal::Scalar(fold_newlines(s.description))));
    assert(lookup(es, "tags"@) == Some(YamlVal::List(s.tags)));
    assert(lookup(es, "created_at"@) == Some(YamlVal::Scalar(s.created_at)));
}

/// A text ended by a newline has a line.
proof fn lemma_lines_ended_nonempty(t: Seq<char>, start: int, i: int)
    requires
        0 <= start <= i < t.len(),
        t.last() == '\n',
    ensures
        lines_from(t, start, i).len() > 0,
    decreases t.len() - i,
{
    if t[i] != '\n' {
        assert(i + 1 < t.len());
        lemma_lines_ended_nonempty(t, start, i + 1);
    }
}

/// A skill whose head SKILL.md can hold, written and read back from the
/// directory named after it, is the skill with its description's newlines
/// folded to spaces and its body as SKILL.md gives it back, whatever the body.
pub proof fn lemma_markdown_reads(s: SkillView)
    requires
        writable_head(s),
    ensures
        parse_skill_spec(markdown(s), swap_char(s.name, '_', '-')) == Ok::<SkillView, Seq<char>>(
            SkillView { body: body_read(s.body), ..as_read(s) },
        ),
{
    lemma_literals();
    lemma_markdown_lines(s);
    lemma_head_plain(s);
    let h = head_lines(s);
    let f = front_lines(s);
    let body_nl = s.body + seq!['\n'];
    lemma_lines_unlines(h, body_nl);
    lemma_lines_ended_nonempty(body_nl, 0, 0);
    let bl = lines(body_nl);
    let ls = h + bl;
    assert(lines(markdown(s)) == ls);
    // the fences
    assert(ls[0] == "---"@);
    lemma_trim_plain("---"@);
    assert(is_fence(ls[0]));
    assert(ls[f.len() as int + 1] == "---"@);
    lemma_front_not_fence(s);
    assert forall|j: int| 0 <= j < f.len() implies ls[j + 1] == f[j] by {
        assert(h[j + 1] == f[j]);
    }
    lemma_fence_scan(ls, f, 1);
    let close = f.len() as int + 1;
    // frontmatter and body
    assert(ls.subrange(1, close) =~= f);
    assert(ls.skip(close + 1) =~= seq![Seq::<char>::empty()] + bl);
    lemma_join_cons(Seq::<char>::empty(), bl, seq!['\n']);
    let jb = join(bl, seq!['\n']);
    assert(Seq::<char>::empty() + seq!['\n'] + jb =~= seq!['\n'] + jb);
    assert(strip_leading_newlines(seq!['\n'] + jb) == strip_leading_newlines(jb)) by {
        assert((seq!['\n'] + jb).drop_first() =~= jb);
    }
    assert(split_frontmatter_spec(markdown(s)) == Ok::<(Seq<char>, Seq<char>), Seq<char>>(
        (join(f, seq!['\n']), body_read(s.body)),
    ));
    // the frontmatter
    assert(f.last() == created_line(s));
    lemma_lines_join(f);
    lemma_front_read(s);
    assert(parse_yaml_spec(join(f, seq!['\n'])) == Ok::<Entries, Seq<char>>(front_entries(s)));
    lemma_front_fields(s);
    // the name matches the directory
    assert(!s.name.contains('-')) by {
        if s.name.contains('-') {
            let j = choose|j: int| 0 <= j < s.name.len() && s.name[j] == '-';
            assert(s.name[j] == '-');
        }
    }
    lemma_swap_back(s.name, '_', '-');
}

/// A writable skill written to SKILL.md and read back, from the directory
/// named after it, is the skill itself with its description's newlines
/// folded to spaces.
pub proof fn lemma_markdown_round_trip(s: SkillView)
    requires
        writable(s),
    ensures
        parse_skill_spec(markdown(s), swap_char(s.name, '_', '-')) == Ok::<SkillView, Seq<char>>(
            as_read(s),
        ),
{
    lemma_markdown_reads(s);
    lemma_join_lines(s.body);
    assert(strip_leading_newlines(s.body) == s.body);
    assert(SkillView { body: body_read(s.body), ..as_read(s) } == as_read(s));
}

/// A writable skill with a sanitized name, written to SKILL.md in its store
/// directory and read back from there, is the skill itself with its
/// description's newlines folded to spaces.
pub proof fn lemma_store_round_trip(s: SkillView)
    requires
        writable(s),
        is_sanitized(s.name, '_'),
    ensures
        parse_skill_spec(markdown(s), kebab(s.name)) == Ok::<SkillView, Seq<char>>(as_read(s)),
{
    lemma_kebab_of_snake(s.name);
    lemma_markdown_round_trip(s);
}

/// A character that a text lacks does not start any occurrence in it.
proof fn lemma_lacks_pair(s: Seq<char>, a: char, b: char)
    requires
        !s.contains(a),
    ensures
        !contains_sub(s, seq![a, b]),
{
    if contains_sub(s, seq![a, b]) {
        let i = choose|i: int| matches_at(s, i, seq![a, b]);
        assert(s.subrange(i, i + 2)[0] == s[i]);
    }
}

/// What a creation request makes is a skill that SKILL.md can hold, when
/// its stamp is an RFC 3339 date and time and its body holds no `'\r'`
/// right before a `'\n'`.
pub proof fn lemma_created_writable(
    name: Seq<char>,
    description: Seq<char>,
    tags: Seq<Seq<char>>,
    body: Seq<char>,
    taken: Seq<Seq<char>>,
    stamp: Seq<char>,
    s: SkillView,
)
    requires
        new_skill_spec(name, description, tags, body, taken, stamp) == Ok::<SkillView, Seq<char>>(s),
        rfc3339_text(stamp),
        !contains_sub(s.body, seq!['\r', '\n']),
    ensures
        writable(s),
        is_sanitized(s.name, '_'),
        s.name == snake(name),
{
    lemma_created_head(name, description, tags, body, taken, stamp, s);
    lemma_trim_ends(body);
}

/// What a creation request makes has a head that SKILL.md can hold, when its
/// stamp is an RFC 3339 date and time; its name is the request's, sanitized.
proof fn lemma_created_head(
    name: Seq<char>,
    description: Seq<char>,
    tags: Seq<Seq<char>>,
    body: Seq<char>,
    taken: Seq<Seq<char>>,
    stamp: Seq<char>,
    s: SkillView,
)
    requires
        new_skill_spec(name, description, tags, body, taken, stamp) == Ok::<SkillView, Seq<char>>(s),
        rfc3339_text(stamp),
    ensures
        writable_head(s),
        is_sanitized(s.name, '_'),
        s.name == snake(name),
        s.name.len() > 0,
{
    lemma_sanitize_shape(name, '_');
    // the name
    assert(is_snake_spec(s.name));
    // the description
    let d = s.description;
    assert(d == trim(description));
    lemma_trim_ends(description);
    lemma_replace_is_map(d, '\n', ' ');
    let f = fold_newlines(d);
    assert(f[0] == d[0]);
    lemma_trim_nonempty(f);
    // the tags
    lemma_dedup_tags(tags);
    assert(s.tags == dedup_tags(tags));
    assert forall|i: int| 0 <= i < s.tags.len() implies !(#[trigger] s.tags[i]).contains('\n') by {
        if s.tags[i].contains('\n') {
            let j = choose|j: int| 0 <= j < s.tags[i].len() && s.tags[i][j] == '\n';
            assert(is_sanitized(s.tags[i], '-'));
            assert(s.tags[i][j] == '\n');
        }
    }
    // the stamp
    assert(!stamp.contains('\n')) by {
        if stamp.contains('\n') {
            let j = choose|j: int| 0 <= j < stamp.len() && stamp[j] == '\n';
            assert(stamp[j] == '\n');
        }
    }
    assert(!stamp.contains('\'')) by {
        if stamp.contains('\'') {
            let j = choose|j: int| 0 <= j < stamp.len() && stamp[j] == '\'';
            assert(stamp[j] == '\'');
        }
    }
    lemma_lacks_pair(stamp, '\'', '\'');
}

/// What a creation request stores reads back: loading the skill by the name
/// it was requested under, from the SKILL.md text written for it, gives the
/// skill with its description's newlines folded to spaces, which is the skill
/// itself when its description has none. Requires an RFC 3339 stamp (what
/// `add_skill` uses) and a body without `'\r'` right before a `'\n'`.
pub proof fn lemma_created_reads_back(
    name: Seq<char>,
    description: Seq<char>,
    tags: Seq<Seq<char>>,
    body: Seq<char>,
    taken: Seq<Seq<char>>,
    stamp: Seq<char>,
    s: SkillView,
)
    requires
        new_skill_spec(name, description, tags, body, taken, stamp) == Ok::<SkillView, Seq<char>>(s),
        rfc3339_text(stamp),
        !contains_sub(s.body, seq!['\r', '\n']),
    ensures
        load_skill_spec(name, markdown(s)) == Ok::<SkillView, Seq<char>>(as_read(s)),
        !s.description.contains('\n') ==> as_read(s) == s,
{
    lemma_created_writable(name, description, tags, body, taken, stamp, s);
    lemma_kebab_snake(name);
    lemma_kebab_of_snake(s.name);
    lemma_store_round_trip(s);
    assert(kebab(name).len() > 0) by {
        assert(swap_char(s.name, '_', '-').len() == s.name.len()) by {
            lemma_replace_is_map(s.name, '_', '-');
        }
    }
    if !s.description.contains('\n') {
        assert(!contains_sub(s.description, seq!['\n'])) by {
            if contains_sub(s.description, seq!['\n']) {
                let i = choose|i: int| matches_at(s.description, i, seq!['\n']);
                assert(s.description.subrange(i, i + 1)[0] == s.description[i]);
            }
        }
        lemma_replace_absent(s.description, seq!['\n'], seq![' '], None);
        assert(as_read(s) == s);
    }
}

/// A frontmatter block written between two fences and followed by a body
/// splits back into that frontmatter and that body, when neither holds a
/// `'\r'`, no line of the frontmatter is a fence, and the body neither
/// starts nor ends with a newline.
pub proof fn lemma_split_frontmatter_round_trip(fm: Seq<char>, body: Seq<char>)
    requires
        !fm.contains('\r'),
        !body.contains('\r'),
        forall|i: int|
            0 <= i < lines(fm + seq!['\n']).len() ==> !is_fence(#[trigger] lines(fm + seq!['\n'])[i]),
        body.len() > 0 ==> body[0] != '\n' && body.last() != '\n',
    ensures
        split_frontmatter_spec("---\n"@ + fm + "\n---\n"@ + body) == Ok::<(Seq<char>, Seq<char>), Seq<char>>(
            (fm, body),
        ),
{
    lemma_literals();
    reveal_strlit("\n---\n");
    let fence: Seq<char> = seq!['-', '-', '-'];
    let f = lines(fm + seq!['\n']);
    lemma_lines_ended(fm);
    let h = seq![fence] + f + seq![fence];
    assert(plain_line(fence)) by {
        assert(!fence.contains('\n')) by {
            if fence.contains('\n') {
                let j = choose|j: int| 0 <= j < fence.len() && fence[j] == '\n';
                assert(fence[j] == '-');
            }
        }
    }
    assert forall|i: int| 0 <= i < h.len() implies plain_line(#[trigger] h[i]) by {
        if 1 <= i < h.len() - 1 {
            assert(h[i] == f[i - 1]);
        }
    }
    // the text is the head's lines, each ended, then the body
    lemma_unlines_append(seq![fence] + f, seq![fence]);
    lemma_unlines_append(seq![fence], f);
    assert(unlines(seq![fence]) == fence + seq!['\n']) by {
        assert(seq![fence].drop_last() =~= Seq::<Seq<char>>::empty());
        assert(unlines(Seq::<Seq<char>>::empty()) == Seq::<char>::empty());
        assert(Seq::<char>::empty() + fence + seq!['\n'] =~= fence + seq!['\n']);
    }
    let content = "---\n"@ + fm + "\n---\n"@ + body;
    assert(content =~= unlines(h) + body);
    lemma_lines_unlines(h, body);
    let bl = lines(body);
    let ls = h + bl;
    assert(lines(content) == ls);
    // the fences
    lemma_trim_plain(fence);
    assert(is_fence(ls[0]));
    assert(ls[f.len() as int + 1] == fence);
    assert forall|j: int| 0 <= j < f.len() implies ls[j + 1] == f[j] by {
        assert(h[j + 1] == f[j]);
    }
    lemma_fence_scan(ls, f, 1);
    let close = f.len() as int + 1;
    assert(ls.subrange(1, close) =~= f);
    // the frontmatter
    lemma_join_lines(fm);
    assert(!contains_sub(fm, seq!['\r', '\n'])) by {
        if contains_sub(fm, seq!['\r', '\n']) {
            let i = choose|i: int| matches_at(fm, i, seq!['\r', '\n']);
            assert(fm.subrange(i, i + 2)[0] == fm[i]);
        }
    }
    // the body
    assert(ls.skip(close + 1) =~= bl);
    if body.len() > 0 {
        lemma_lines_unended(body);
        assert(!contains_sub(body, seq!['\r', '\n'])) by {
            if contains_sub(body, seq!['\r', '\n']) {
                let i = choose|i: int| matches_at(body, i, seq!['\r', '\n']);
                assert(body.subrange(i, i + 2)[0] == body[i]);
            }
        }
        lemma_join_lines(body);
        assert(body.contains(body.last()));
    } else {
        assert(bl == Seq::<Seq<char>>::empty());
    }
    assert(join(bl, seq!['\n']) == body);
    assert(strip_leading_newlines(body) == body);
}

/// The store lists a skill found in it: a directory whose SKILL.md parses
/// yields its skill among those gathered.
proof fn lemma_gather_lists(found: Seq<(Seq<char>, Result<Seq<char>, Seq<char>>)>, k: int, p: SkillView)
    requires
        0 <= k < found.len(),
        found[k].1 matches Ok(c) && parse_skill_spec(c, found[k].0) == Ok::<SkillView, Seq<char>>(p),
    ensures
        gather(found).0.contains(p),
    decreases found.len(),
{
    let prev = gather(found.drop_last()).0;
    if k < found.len() - 1 {
        assert(found.drop_last()[k] == found[k]);
        lemma_gather_lists(found.drop_last(), k, p);
        let i = choose|i: int| 0 <= i < prev.len() && prev[i] == p;
        let (dir, read) = found.last();
        match read {
            Ok(content) => match parse_skill_spec(content, dir) {
                Ok(x) => {
                    assert(prev.push(x)[i] == p);
                },
                Err(e) => {},
            },
            Err(e) => {},
        }
    } else {
        assert(gather(found).0 == prev.push(p));
        assert(prev.push(p)[prev.len() as int] == p);
    }
}

/// Adding fails on duplicates. Once a creation request made the skill `s`
/// and its SKILL.md stands in its directory among the store entries
/// `found`, the store lists it, whatever its body; a later request whose
/// name sanitizes to the same identifier, with a description and tags that
/// pass, is refused as a duplicate.
pub proof fn lemma_second_add_refused(
    name: Seq<char>,
    description: Seq<char>,
    tags: Seq<Seq<char>>,
    body: Seq<char>,
    taken: Seq<Seq<char>>,
    stamp: Seq<char>,
    s: SkillView,
    found: Seq<(Seq<char>, Result<Seq<char>, Seq<char>>)>,
    k: int,
    name2: Seq<char>,
    description2: Seq<char>,
    tags2: Seq<Seq<char>>,
    body2: Seq<char>,
    stamp2: Seq<char>,
)
    requires
        new_skill_spec(name, description, tags, body, taken, stamp) == Ok::<SkillView, Seq<char>>(s),
        rfc3339_text(stamp),
        0 <= k < found.len(),
        found[k] == (kebab(s.name), Ok::<Seq<char>, Seq<char>>(markdown(s))),
        snake(name2) == s.name,
        trim(description2).len() > 0,
        tags_spec(tags2) is Ok,
    ensures
        new_skill_spec(
            name2,
            description2,
            tags2,
            body2,
            sort_by(gather(found).0, name_before()).map_values(|v: SkillView| v.name),
            stamp2,
        ) == Err::<SkillView, Seq<char>>("skill '"@ + s.name + "' already exists — use the update tool"@),
{
    broadcast use vstd::seq_lib::group_to_multiset_ensures;

    lemma_created_head(name, description, tags, body, taken, stamp, s);
    lemma_kebab_of_snake(s.name);
    lemma_markdown_reads(s);
    let p = SkillView { body: body_read(s.body), ..as_read(s) };
    lemma_gather_lists(found, k, p);
    let g = gather(found).0;
    let sorted = sort_by(g, name_before());
    lemma_sort_by_permutes(g, name_before());
    assert(g.to_multiset().count(p) > 0);
    assert(sorted.contains(p));
    let i = choose|i: int| 0 <= i < sorted.len() && sorted[i] == p;
    let names = sorted.map_values(|v: SkillView| v.name);
    assert(names[i] == s.name);
    assert(names.contains(s.name));
}

} // verus!
