//! Keyword search over skills. The query is split on non-alphanumerics;
//! tokens are matched as substrings against tags (weight 4), name (3),
//! description (2) and body (1).
use vstd::prelude::*;
use crate::order::{
    chars_lt, insert_pos, lemma_seq_lt_strict, lemma_sort_by_all, lemma_sort_by_sorted, lemma_sorted_take,
    seq_lt, sort_by, sorted_by, strict_order,
};
use crate::skills::{clone_strings, push_str, skills_view, strings_view, Skill, SkillView};
use crate::text::{chars_eq, chars_of, contains_exec, contains_sub, replace, replace_exec, string_of};

verus! {

/// What `str::to_lowercase` yields for a string: its Unicode lower-case mapping.
pub uninterp spec fn lowercase(s: Seq<char>) -> Seq<char>;

/// `str::to_lowercase`. Trusted to depend on the characters of `s` alone.
#[verifier::external_body]
fn to_lowercase(s: &str) -> (r: String)
    ensures
        r@ == lowercase(s@),
{
    s.to_lowercase()
}

/// What `char::is_alphanumeric` says of a character: Unicode `Alphabetic`
/// or `Numeric`.
pub uninterp spec fn is_alphanumeric(c: char) -> bool;

/// `char::is_alphanumeric`. Trusted to depend on `c` alone.
#[verifier::external_body]
fn char_is_alphanumeric(c: char) -> (r: bool)
    ensures
        r == is_alphanumeric(c),
{
    c.is_alphanumeric()
}

/// The maximal runs of alphanumeric characters of `s`, onto `acc`; `cur`
/// is the run in progress.
pub open spec fn words_from(s: Seq<char>, cur: Seq<char>, acc: Seq<Seq<char>>) -> Seq<Seq<char>>
    decreases s.len(),
{
    if s.len() == 0 {
        if cur.len() > 0 {
            acc.push(cur)
        } else {
            acc
        }
    } else if is_alphanumeric(s[0]) {
        words_from(s.drop_first(), cur.push(s[0]), acc)
    } else {
        words_from(
            s.drop_first(),
            seq![],
            if cur.len() > 0 {
                acc.push(cur)
            } else {
                acc
            },
        )
    }
}

/// The search tokens of a query: the non-empty alphanumeric runs of its
/// lower-case form.
pub open spec fn tokens_spec(query: Seq<char>) -> Seq<Seq<char>> {
    words_from(lowercase(query), seq![], seq![])
}

/// The search tokens of a query.
pub fn query_tokens(query: &str) -> (r: Vec<String>)
    ensures
        strings_view(r@) == tokens_spec(query@),
{
    let low = to_lowercase(query);
    let s = chars_of(low.as_str());
    let mut acc: Vec<String> = Vec::new();
    let mut cur: Vec<char> = Vec::new();
    let mut i: usize = 0;
    assert(s@.skip(0) == s@);
    assert(strings_view(acc@) =~= Seq::<Seq<char>>::empty());
    assert(cur@ =~= Seq::<char>::empty());
    while i < s.len()
        invariant
            i <= s.len(),
            s@ == lowercase(query@),
            words_from(s@.skip(i as int), cur@, strings_view(acc@)) == tokens_spec(query@),
        decreases s.len() - i,
    {
        assert(s@.skip(i as int)[0] == s@[i as int]);
        assert(s@.skip(i as int).drop_first() == s@.skip(i + 1));
        if char_is_alphanumeric(s[i]) {
            cur.push(s[i]);
        } else {
            if cur.len() > 0 {
                let ghost before = strings_view(acc@);
                acc.push(string_of(&cur));
                assert(strings_view(acc@) =~= before.push(cur@));
            }
            cur = Vec::new();
        }
        i = i + 1;
    }
    if cur.len() > 0 {
        let ghost before = strings_view(acc@);
        acc.push(string_of(&cur));
        assert(strings_view(acc@) =~= before.push(cur@));
    }
    acc
}

/// One search result.
pub struct SearchHit {
    pub name: String,
    pub description: String,
    pub tags: Vec<String>,
    pub score: u32,
    /// which fields matched: subset of name, description, tags, body
    pub matched: Vec<String>,
}

/// The mathematical form of a search result.
pub struct HitView {
    pub name: Seq<char>,
    pub description: Seq<char>,
    pub tags: Seq<Seq<char>>,
    pub score: nat,
    pub matched: Seq<Seq<char>>,
}

impl View for SearchHit {
    type V = HitView;

    open spec fn view(&self) -> HitView {
        HitView {
            name: self.name@,
            description: self.description@,
            tags: self.tags.deep_view(),
            score: self.score as nat,
            matched: self.matched.deep_view(),
        }
    }
}

/// `m` with field `f` noted, once.
pub open spec fn mark(m: Seq<Seq<char>>, f: Seq<char>) -> Seq<Seq<char>> {
    if m.contains(f) {
        m
    } else {
        m.push(f)
    }
}

/// Some tag holds `tok`.
pub open spec fn some_tag_has(tags: Seq<Seq<char>>, tok: Seq<char>) -> bool {
    exists|i: int| 0 <= i < tags.len() && contains_sub(#[trigger] tags[i], tok)
}

/// The texts a skill is searched in: tags, name with `-` for `_`, and the
/// lower-case description and body.
pub struct Fields {
    pub tags: Seq<Seq<char>>,
    pub name: Seq<char>,
    pub description: Seq<char>,
    pub body: Seq<char>,
}

pub open spec fn fields_of(s: SkillView) -> Fields {
    Fields {
        tags: s.tags,
        name: replace(s.name, seq!['_'], seq!['-'], None),
        description: lowercase(s.description),
        body: lowercase(s.body),
    }
}

/// Score and matched fields after one more token.
pub open spec fn token_step(st: (nat, Seq<Seq<char>>), f: Fields, tok: Seq<char>) -> (
    nat,
    Seq<Seq<char>>,
) {
    let a = if some_tag_has(f.tags, tok) {
        (st.0 + 4, mark(st.1, "tags"@))
    } else {
        st
    };
    let b = if contains_sub(f.name, tok) {
        (a.0 + 3, mark(a.1, "name"@))
    } else {
        a
    };
    let c = if contains_sub(f.description, tok) {
        (b.0 + 2, mark(b.1, "description"@))
    } else {
        b
    };
    if contains_sub(f.body, tok) {
        (c.0 + 1, mark(c.1, "body"@))
    } else {
        c
    }
}

/// Score and matched fields of a skill for the tokens.
pub open spec fn score_spec(f: Fields, tokens: Seq<Seq<char>>) -> (nat, Seq<Seq<char>>)
    decreases tokens.len(),
{
    if tokens.len() == 0 {
        (0, seq![])
    } else {
        token_step(score_spec(f, tokens.drop_last()), f, tokens.last())
    }
}

/// The hits among the skills, in their order: those with a positive score.
pub open spec fn hits_spec(skills: Seq<SkillView>, tokens: Seq<Seq<char>>) -> Seq<HitView>
    decreases skills.len(),
{
    if skills.len() == 0 {
        seq![]
    } else {
        let rest = hits_spec(skills.drop_last(), tokens);
        let s = skills.last();
        let (score, matched) = score_spec(fields_of(s), tokens);
        if score == 0 {
            rest
        } else {
            rest.push(
                HitView {
                    name: s.name,
                    description: s.description,
                    tags: s.tags,
                    score,
                    matched,
                },
            )
        }
    }
}

/// Hits rank by score, highest first, then by name.
pub open spec fn hit_before() -> spec_fn(HitView, HitView) -> bool {
    |a: HitView, b: HitView| a.score > b.score || (a.score == b.score && seq_lt(a.name, b.name))
}

/// Ranking hits is a strict order.
pub proof fn lemma_hit_before_strict()
    ensures
        strict_order(hit_before()),
{
    lemma_seq_lt_strict();
    assert forall|a: HitView, b: HitView| #[trigger] (hit_before())(a, b) implies !(hit_before())(b, a) by {
        if a.score == b.score {
            assert(seq_lt(a.name, b.name));
        }
    }
    assert forall|a: HitView, b: HitView, c: HitView|
        #[trigger] (hit_before())(a, b) && #[trigger] (hit_before())(b, c) implies (hit_before())(a, c) by {
        if a.score == b.score && b.score == c.score {
            assert(seq_lt(a.name, b.name) && seq_lt(b.name, c.name));
        }
    }
}

/// Every hit has a positive score.
pub proof fn lemma_hits_positive(skills: Seq<SkillView>, tokens: Seq<Seq<char>>)
    ensures
        forall|i: int| 0 <= i < hits_spec(skills, tokens).len() ==> (#[trigger] hits_spec(skills, tokens)[i]).score > 0,
    decreases skills.len(),
{
    if skills.len() > 0 {
        lemma_hits_positive(skills.drop_last(), tokens);
        let rest = hits_spec(skills.drop_last(), tokens);
        let all = hits_spec(skills, tokens);
        assert forall|i: int| 0 <= i < all.len() implies (#[trigger] all[i]).score > 0 by {
            if i < rest.len() {
                assert(all[i] == rest[i]);
            }
        }
    }
}

/// The result of a search: the best `limit` hits, ranked.
pub open spec fn search_spec(query: Seq<char>, limit: nat, skills: Seq<SkillView>) -> Seq<HitView> {
    let ranked = sort_by(hits_spec(skills, tokens_spec(query)), hit_before());
    if limit < ranked.len() {
        ranked.take(limit as int)
    } else {
        ranked
    }
}

/// The most tokens a query may have: every token adds at most 10 to a
/// score, which must fit in a `u32`.
pub const MAX_TOKENS: usize = 429_496_729;

proof fn lemma_score_bound(f: Fields, tokens: Seq<Seq<char>>)
    ensures
        score_spec(f, tokens).0 <= 10 * tokens.len(),
    decreases tokens.len(),
{
    if tokens.len() > 0 {
        lemma_score_bound(f, tokens.drop_last());
    }
}

fn mark_exec(m: &mut Vec<String>, f: &str)
    ensures
        final(m).deep_view() == mark(old(m).deep_view(), f@),
{
    let mut i: usize = 0;
    while i < m.len()
        invariant
            i <= m.len(),
            forall|j: int| 0 <= j < i ==> m.deep_view()[j] != f@,
        decreases m.len() - i,
    {
        if chars_eq(&chars_of(m[i].as_str()), &chars_of(f)) {
            assert(m.deep_view()[i as int] == f@);
            assert(m.deep_view().contains(f@));
            return;
        }
        i = i + 1;
    }
    let ghost before = m.deep_view();
    m.push(string_of(&chars_of(f)));
    assert(m.deep_view() =~= before.push(f@));
}

fn some_tag_has_exec(tags: &Vec<String>, tok: &[char]) -> (r: bool)
    ensures
        r == some_tag_has(tags.deep_view(), tok@),
{
    let mut i: usize = 0;
    while i < tags.len()
        invariant
            i <= tags.len(),
            forall|j: int| 0 <= j < i ==> !contains_sub(#[trigger] tags.deep_view()[j], tok@),
        decreases tags.len() - i,
    {
        let t = chars_of(tags[i].as_str());
        if contains_exec(&t, tok) {
            assert(contains_sub(tags.deep_view()[i as int], tok@));
            return true;
        }
        i = i + 1;
    }
    false
}

/// Score and matched fields of one skill.
fn score_skill(tokens: &Vec<String>, skill: &Skill) -> (r: (u32, Vec<String>))
    requires
        tokens.len() <= MAX_TOKENS,
    ensures
        (r.0 as nat, r.1.deep_view()) == score_spec(fields_of(skill@), strings_view(tokens@)),
{
    let ghost f = fields_of(skill@);
    let ghost tv = strings_view(tokens@);
    let us = vec!['_'];
    let dash = vec!['-'];
    assert(us@ == seq!['_']);
    assert(dash@ == seq!['-']);
    let name = replace_exec(&chars_of(skill.name.as_str()), &us, &dash, None);
    let description = chars_of(to_lowercase(skill.description.as_str()).as_str());
    let body = chars_of(to_lowercase(skill.body.as_str()).as_str());
    let mut score: u32 = 0;
    let mut matched: Vec<String> = Vec::new();
    let mut i: usize = 0;
    assert(tv.take(0) =~= Seq::<Seq<char>>::empty());
    assert(matched.deep_view() =~= Seq::<Seq<char>>::empty());
    while i < tokens.len()
        invariant
            i <= tokens.len() <= MAX_TOKENS,
            tv == strings_view(tokens@),
            f == fields_of(skill@),
            name@ == f.name,
            description@ == f.description,
            body@ == f.body,
            (score as nat, matched.deep_view()) == score_spec(f, tv.take(i as int)),
        decreases tokens.len() - i,
    {
        proof {
            lemma_score_bound(f, tv.take(i as int));
        }
        assert(tv.take(i + 1).drop_last() == tv.take(i as int));
        assert(tv.take(i + 1).last() == tokens@[i as int]@);
        let tok = chars_of(tokens[i].as_str());
        if some_tag_has_exec(&skill.tags, &tok) {
            score = score + 4;
            mark_exec(&mut matched, "tags");
        }
        if contains_exec(&name, &tok) {
            score = score + 3;
            mark_exec(&mut matched, "name");
        }
        if contains_exec(&description, &tok) {
            score = score + 2;
            mark_exec(&mut matched, "description");
        }
        if contains_exec(&body, &tok) {
            score = score + 1;
            mark_exec(&mut matched, "body");
        }
        i = i + 1;
    }
    assert(tv.take(tokens.len() as int) == tv);
    (score, matched)
}

pub open spec fn hits_view(v: Seq<SearchHit>) -> Seq<HitView> {
    v.map_values(|h: SearchHit| h@)
}

fn hit_lt(a: &SearchHit, b: &SearchHit) -> (r: bool)
    ensures
        r == (hit_before())(a@, b@),
{
    a.score > b.score || (a.score == b.score && chars_lt(
        &chars_of(a.name.as_str()),
        &chars_of(b.name.as_str()),
    ))
}

/// Ranks hits stably: by score, highest first, then by name.
fn sort_hits(v: Vec<SearchHit>) -> (r: Vec<SearchHit>)
    ensures
        hits_view(r@) == sort_by(hits_view(v@), hit_before()),
{
    let ghost sv = hits_view(v@);
    let mut rest = v;
    let mut out: Vec<SearchHit> = Vec::new();
    let mut i: usize = 0;
    let n = rest.len();
    assert(sv.take(0) =~= Seq::<HitView>::empty());
    while rest.len() > 0
        invariant
            n == sv.len(),
            i + rest.len() == n,
            hits_view(rest@) == sv.skip(i as int),
            hits_view(out@) == sort_by(sv.take(i as int), hit_before()),
        decreases rest.len(),
    {
        let ghost before = rest@;
        let x = rest.remove(0);
        assert(hits_view(before)[0] == before[0]@);
        assert(sv.skip(i as int)[0] == sv[i as int]);
        assert(hits_view(rest@) =~= hits_view(before).drop_first());
        assert(sv.skip(i as int).drop_first() =~= sv.skip(i + 1));
        let ghost ov = hits_view(out@);
        let mut p: usize = 0;
        assert(ov.skip(0) == ov);
        while p < out.len() && !hit_lt(&x, &out[p])
            invariant
                p <= out.len(),
                ov == hits_view(out@),
                insert_pos(ov, x@, hit_before()) == p + insert_pos(ov.skip(p as int), x@, hit_before()),
            decreases out.len() - p,
        {
            assert(ov.skip(p as int)[0] == out@[p as int]@);
            assert(ov.skip(p as int).drop_first() == ov.skip(p + 1));
            p = p + 1;
        }
        proof {
            if p < out.len() {
                assert(ov.skip(p as int)[0] == out@[p as int]@);
            }
        }
        assert(insert_pos(ov, x@, hit_before()) == p);
        out.insert(p, x);
        assert(sv.take(i + 1).drop_last() == sv.take(i as int));
        assert(hits_view(out@) =~= ov.take(p as int) + seq![x@] + ov.skip(p as int));
        i = i + 1;
    }
    assert(sv.take(n as int) == sv);
    out
}

/// Keyword search over the skills. Returns at most `limit` hits, best first.
pub fn search_skills(query: &str, limit: usize, skills: Vec<Skill>) -> (r: Vec<SearchHit>)
    requires
        tokens_spec(query@).len() <= MAX_TOKENS,
    ensures
        hits_view(r@) == search_spec(query@, limit as nat, skills_view(skills@)),
        r@.len() <= limit,
        sorted_by(hits_view(r@), hit_before()),
        forall|i: int| 0 <= i < r@.len() ==> (#[trigger] r@[i]).score > 0,
{
    let tokens = query_tokens(query);
    let ghost tv = strings_view(tokens@);
    let ghost sv = skills_view(skills@);
    let mut hits: Vec<SearchHit> = Vec::new();
    let mut i: usize = 0;
    assert(sv.take(0) =~= Seq::<SkillView>::empty());
    while i < skills.len()
        invariant
            i <= skills.len(),
            tokens.len() <= MAX_TOKENS,
            tv == strings_view(tokens@),
            tv == tokens_spec(query@),
            sv == skills_view(skills@),
            hits_view(hits@) == hits_spec(sv.take(i as int), tv),
        decreases skills.len() - i,
    {
        assert(sv.take(i + 1).drop_last() == sv.take(i as int));
        assert(sv.take(i + 1).last() == skills@[i as int]@);
        let skill = &skills[i];
        let (score, matched) = score_skill(&tokens, skill);
        if score != 0 {
            let ghost before = hits_view(hits@);
            hits.push(
                SearchHit {
                    name: skill.name.clone(),
                    description: skill.description.clone(),
                    tags: clone_strings(&skill.tags),
                    score,
                    matched,
                },
            );
            assert(hits_view(hits@) =~= before.push(hits@.last()@));
        }
        i = i + 1;
    }
    assert(sv.take(skills.len() as int) == sv);
    let mut ranked = sort_hits(hits);
    proof {
        crate::order::lemma_sort_by_permutes(hits_spec(sv, tv), hit_before());
    }
    let ghost all = hits_view(ranked@);
    ranked.truncate(limit);
    assert(limit < all.len() ==> hits_view(ranked@) =~= all.take(limit as int));
    assert(limit >= all.len() ==> hits_view(ranked@) =~= all);
    proof {
        lemma_hit_before_strict();
        lemma_sort_by_sorted(hits_spec(sv, tv), hit_before());
        lemma_sorted_take(all, if limit < all.len() { limit as int } else { all.len() as int }, hit_before());
        assert(all.take(all.len() as int) =~= all);
        lemma_hits_positive(sv, tv);
        lemma_sort_by_all(hits_spec(sv, tv), hit_before(), |h: HitView| h.score > 0);
        assert forall|i: int| 0 <= i < ranked@.len() implies (#[trigger] ranked@[i]).score > 0 by {
            assert(hits_view(ranked@)[i] == ranked@[i]@);
            assert(hits_view(ranked@)[i] == all[i]);
        }
    }
    ranked
}

/// Keyword search over the skills; `None` when the query has more tokens
/// than a score can count.
pub fn try_search_skills(query: &str, limit: usize, skills: Vec<Skill>) -> (r: Option<Vec<SearchHit>>)
    ensures
        r is Some <==> tokens_spec(query@).len() <= MAX_TOKENS,
        r matches Some(v) ==> hits_view(v@) == search_spec(query@, limit as nat, skills_view(skills@)),
{
    let tokens = query_tokens(query);
    if tokens.len() > MAX_TOKENS {
        return None;
    }
    Some(search_skills(query, limit, skills))
}

// ---------------------------------------------------------------------------
// What a search finds
// ---------------------------------------------------------------------------

/// What the fields of a skill hold, as the search reads them.
pub open spec fn tag_holds(s: SkillView, t: Seq<char>) -> bool {
    exists|k: int| 0 <= k < s.tags.len() && contains_sub(#[trigger] s.tags[k], t)
}

pub open spec fn name_holds(s: SkillView, t: Seq<char>) -> bool {
    contains_sub(replace(s.name, seq!['_'], seq!['-'], None), t)
}

pub open spec fn description_holds(s: SkillView, t: Seq<char>) -> bool {
    contains_sub(lowercase(s.description), t)
}

pub open spec fn body_holds(s: SkillView, t: Seq<char>) -> bool {
    contains_sub(lowercase(s.body), t)
}

/// A field is noted as matched exactly when some token occurs in it: in a
/// tag, in the name (with `-` for `_`), or in the lower-cased description
/// or body, so that matching the description and body ignores case. A skill
/// scores exactly when some field is matched.
pub proof fn lemma_matched_fields(s: SkillView, tokens: Seq<Seq<char>>)
    ensures
        score_spec(fields_of(s), tokens).1.contains("tags"@) <==> exists|j: int|
            0 <= j < tokens.len() && #[trigger] tag_holds(s, tokens[j]),
        score_spec(fields_of(s), tokens).1.contains("name"@) <==> exists|j: int|
            0 <= j < tokens.len() && #[trigger] name_holds(s, tokens[j]),
        score_spec(fields_of(s), tokens).1.contains("description"@) <==> exists|j: int|
            0 <= j < tokens.len() && #[trigger] description_holds(s, tokens[j]),
        score_spec(fields_of(s), tokens).1.contains("body"@) <==> exists|j: int|
            0 <= j < tokens.len() && #[trigger] body_holds(s, tokens[j]),
        score_spec(fields_of(s), tokens).0 > 0 <==> score_spec(fields_of(s), tokens).1.len() > 0,
    decreases tokens.len(),
{
    reveal_strlit("tags");
    reveal_strlit("name");
    reveal_strlit("description");
    reveal_strlit("body");
    let f = fields_of(s);
    if tokens.len() > 0 {
        let tl = tokens.drop_last();
        let t = tokens.last();
        lemma_matched_fields(s, tl);
        assert((exists|j: int| 0 <= j < tokens.len() && #[trigger] tag_holds(s, tokens[j])) <==> ((exists|j: int|
            0 <= j < tl.len() && #[trigger] tag_holds(s, tl[j])) || tag_holds(s, t))) by {
            if exists|j: int| 0 <= j < tokens.len() && #[trigger] tag_holds(s, tokens[j]) {
                let j = choose|j: int| 0 <= j < tokens.len() && #[trigger] tag_holds(s, tokens[j]);
                if j < tl.len() {
                    assert(tl[j] == tokens[j]);
                }
            }
            if exists|j: int| 0 <= j < tl.len() && #[trigger] tag_holds(s, tl[j]) {
                let j = choose|j: int| 0 <= j < tl.len() && #[trigger] tag_holds(s, tl[j]);
                assert(tl[j] == tokens[j]);
            }
            if tag_holds(s, t) {
                assert(tokens[tokens.len() - 1] == t);
            }
        }
        assert((exists|j: int| 0 <= j < tokens.len() && #[trigger] name_holds(s, tokens[j])) <==> ((exists|j: int|
            0 <= j < tl.len() && #[trigger] name_holds(s, tl[j])) || name_holds(s, t))) by {
            if exists|j: int| 0 <= j < tokens.len() && #[trigger] name_holds(s, tokens[j]) {
                let j = choose|j: int| 0 <= j < tokens.len() && #[trigger] name_holds(s, tokens[j]);
                if j < tl.len() {
                    assert(tl[j] == tokens[j]);
                }
            }
            if exists|j: int| 0 <= j < tl.len() && #[trigger] name_holds(s, tl[j]) {
                let j = choose|j: int| 0 <= j < tl.len() && #[trigger] name_holds(s, tl[j]);
                assert(tl[j] == tokens[j]);
            }
            if name_holds(s, t) {
                assert(tokens[tokens.len() - 1] == t);
            }
        }
        assert((exists|j: int| 0 <= j < tokens.len() && #[trigger] description_holds(s, tokens[j])) <==> ((exists|j: int|
            0 <= j < tl.len() && #[trigger] description_holds(s, tl[j])) || description_holds(s, t))) by {
            if exists|j: int| 0 <= j < tokens.len() && #[trigger] description_holds(s, tokens[j]) {
                let j = choose|j: int| 0 <= j < tokens.len() && #[trigger] description_holds(s, tokens[j]);
                if j < tl.len() {
                    assert(tl[j] == tokens[j]);
                }
            }
            if exists|j: int| 0 <= j < tl.len() && #[trigger] description_holds(s, tl[j]) {
                let j = choose|j: int| 0 <= j < tl.len() && #[trigger] description_holds(s, tl[j]);
                assert(tl[j] == tokens[j]);
            }
            if description_holds(s, t) {
                assert(tokens[tokens.len() - 1] == t);
            }
        }
        assert((exists|j: int| 0 <= j < tokens.len() && #[trigger] body_holds(s, tokens[j])) <==> ((exists|j: int|
            0 <= j < tl.len() && #[trigger] body_holds(s, tl[j])) || body_holds(s, t))) by {
            if exists|j: int| 0 <= j < tokens.len() && #[trigger] body_holds(s, tokens[j]) {
                let j = choose|j: int| 0 <= j < tokens.len() && #[trigger] body_holds(s, tokens[j]);
                if j < tl.len() {
                    assert(tl[j] == tokens[j]);
                }
            }
            if exists|j: int| 0 <= j < tl.len() && #[trigger] body_holds(s, tl[j]) {
                let j = choose|j: int| 0 <= j < tl.len() && #[trigger] body_holds(s, tl[j]);
                assert(tl[j] == tokens[j]);
            }
            if body_holds(s, t) {
                assert(tokens[tokens.len() - 1] == t);
            }
        }
        assert(some_tag_has(f.tags, t) == tag_holds(s, t));
        let prev = score_spec(f, tl);
        assert("tags"@[0] == 't' && "name"@[0] == 'n' && "body"@[0] == 'b');
        assert("tags"@.len() == 4 && "name"@.len() == 4 && "body"@.len() == 4 && "description"@.len() == 11);
        assert("tags"@ != "name"@ && "tags"@ != "description"@ && "tags"@ != "body"@);
        assert("name"@ != "description"@ && "name"@ != "body"@ && "description"@ != "body"@);
        assert(forall|m: Seq<Seq<char>>, x: Seq<char>, y: Seq<char>|
            #[trigger] mark(m, x).contains(y) <==> (m.contains(y) || y == x)) by {
            assert forall|m: Seq<Seq<char>>, x: Seq<char>, y: Seq<char>|
                #[trigger] mark(m, x).contains(y) <==> (m.contains(y) || y == x) by {
                if !m.contains(x) {
                    if m.push(x).contains(y) && y != x {
                        let i = choose|i: int| 0 <= i < m.push(x).len() && m.push(x)[i] == y;
                        assert(m[i] == y);
                    }
                    if m.contains(y) {
                        let i = choose|i: int| 0 <= i < m.len() && m[i] == y;
                        assert(m.push(x)[i] == y);
                    }
                    if y == x {
                        assert(m.push(x)[m.len() as int] == y);
                    }
                }
            }
        }
        assert(forall|m: Seq<Seq<char>>, x: Seq<char>| #[trigger] mark(m, x).len() >= m.len() && mark(m, x).len() > 0);
    }
}

/// A hit for the skill `s`, if it scores.
pub open spec fn hit_of(s: SkillView, tokens: Seq<Seq<char>>) -> HitView {
    HitView {
        name: s.name,
        description: s.description,
        tags: s.tags,
        score: score_spec(fields_of(s), tokens).0,
        matched: score_spec(fields_of(s), tokens).1,
    }
}

proof fn lemma_hits_listed(skills: Seq<SkillView>, tokens: Seq<Seq<char>>, i: int)
    requires
        0 <= i < skills.len(),
        score_spec(fields_of(skills[i]), tokens).0 > 0,
    ensures
        hits_spec(skills, tokens).contains(hit_of(skills[i], tokens)),
    decreases skills.len(),
{
    let rest = hits_spec(skills.drop_last(), tokens);
    if i < skills.len() - 1 {
        assert(skills.drop_last()[i] == skills[i]);
        lemma_hits_listed(skills.drop_last(), tokens, i);
        let k = choose|k: int| 0 <= k < rest.len() && rest[k] == hit_of(skills[i], tokens);
        let (score, matched) = score_spec(fields_of(skills.last()), tokens);
        if score != 0 {
            assert(hits_spec(skills, tokens)[k] == rest[k]);
        }
    } else {
        assert(hits_spec(skills, tokens).last() == hit_of(skills[i], tokens));
        assert(hits_spec(skills, tokens)[hits_spec(skills, tokens).len() - 1] == hit_of(skills[i], tokens));
    }
}

proof fn lemma_hits_len(skills: Seq<SkillView>, tokens: Seq<Seq<char>>)
    ensures
        hits_spec(skills, tokens).len() <= skills.len(),
    decreases skills.len(),
{
    if skills.len() > 0 {
        lemma_hits_len(skills.drop_last(), tokens);
    }
}

/// A search without a binding limit finds every skill that scores, with its
/// score and matched fields.
proof fn lemma_search_lists(query: Seq<char>, limit: nat, skills: Seq<SkillView>, i: int)
    requires
        0 <= i < skills.len(),
        skills.len() <= limit,
        score_spec(fields_of(skills[i]), tokens_spec(query)).0 > 0,
    ensures
        search_spec(query, limit, skills).contains(hit_of(skills[i], tokens_spec(query))),
{
    broadcast use vstd::seq_lib::group_to_multiset_ensures;

    let toks = tokens_spec(query);
    let hits = hits_spec(skills, toks);
    lemma_hits_listed(skills, toks, i);
    lemma_hits_len(skills, toks);
    crate::order::lemma_sort_by_permutes(hits, hit_before());
    let h = hit_of(skills[i], toks);
    assert(hits.to_multiset().count(h) > 0);
}

/// Matching the body ignores case: when a token of the query occurs in the
/// lower-cased body of a skill, a search whose limit leaves room for every
/// skill returns a hit for that skill, with a positive score and `body`
/// among its matched fields. The same holds of the description.
pub proof fn lemma_search_finds_text(query: Seq<char>, limit: nat, skills: Seq<SkillView>, i: int, j: int)
    requires
        0 <= i < skills.len(),
        skills.len() <= limit,
        0 <= j < tokens_spec(query).len(),
    ensures
        contains_sub(lowercase(skills[i].body), tokens_spec(query)[j]) ==> exists|k: int|
            0 <= k < search_spec(query, limit, skills).len() && #[trigger] search_spec(query, limit, skills)[k].name
                == skills[i].name && search_spec(query, limit, skills)[k].score > 0 && search_spec(
                query,
                limit,
                skills,
            )[k].matched.contains("body"@),
        contains_sub(lowercase(skills[i].description), tokens_spec(query)[j]) ==> exists|k: int|
            0 <= k < search_spec(query, limit, skills).len() && #[trigger] search_spec(query, limit, skills)[k].name
                == skills[i].name && search_spec(query, limit, skills)[k].score > 0 && search_spec(
                query,
                limit,
                skills,
            )[k].matched.contains("description"@),
{
    let toks = tokens_spec(query);
    let s = skills[i];
    lemma_matched_fields(s, toks);
    let r = search_spec(query, limit, skills);
    if contains_sub(lowercase(s.body), toks[j]) || contains_sub(lowercase(s.description), toks[j]) {
        assert(body_holds(s, toks[j]) || description_holds(s, toks[j]));
        let m = score_spec(fields_of(s), toks).1;
        if body_holds(s, toks[j]) {
            assert(m.contains("body"@));
        } else {
            assert(m.contains("description"@));
        }
        assert(m.len() > 0);
        lemma_search_lists(query, limit, skills, i);
        let k = choose|k: int| 0 <= k < r.len() && r[k] == hit_of(s, toks);
        assert(r[k].name == s.name);
    }
}

/// What one token adds to a skill's score: 4 when it occurs in a tag, 3 in
/// the name, 2 in the lower-cased description and 1 in the lower-cased body.
pub open spec fn token_points(s: SkillView, t: Seq<char>) -> nat {
    (if tag_holds(s, t) {
        4nat
    } else {
        0nat
    }) + (if name_holds(s, t) {
        3nat
    } else {
        0nat
    }) + (if description_holds(s, t) {
        2nat
    } else {
        0nat
    }) + (if body_holds(s, t) {
        1nat
    } else {
        0nat
    })
}

/// The points of all the tokens.
pub open spec fn points_sum(s: SkillView, tokens: Seq<Seq<char>>) -> nat
    decreases tokens.len(),
{
    if tokens.len() == 0 {
        0
    } else {
        points_sum(s, tokens.drop_last()) + token_points(s, tokens.last())
    }
}

/// A skill's score is the sum, over the tokens of the query, of the weights
/// of the fields each token occurs in.
pub proof fn lemma_score_points(s: SkillView, tokens: Seq<Seq<char>>)
    ensures
        score_spec(fields_of(s), tokens).0 == points_sum(s, tokens),
    decreases tokens.len(),
{
    if tokens.len() > 0 {
        lemma_score_points(s, tokens.drop_last());
        assert(some_tag_has(fields_of(s).tags, tokens.last()) == tag_holds(s, tokens.last()));
    }
}

} // verus!
