//! What the tools compute around their file and process work: which lines
//! a read returns, what a search-and-replace writes, the parameters they
//! take, their errors, and the reports of the skill tools.
use vstd::prelude::*;
use crate::search::{hits_view, HitView, SearchHit};
use crate::security::SecurityError;
use crate::skills::{push_str, skill_file, skill_file_path, skills_view, strings_view, Skill, SkillView};
use crate::text::{
    chars_of, debug_quote, debug_str, decimal, decimal_exec, extend_chars, join, join_exec, replace,
    replace_exec, opt_nat, string_of,
};

verus! {

// ---------------------------------------------------------------------------
// Reading a window of lines
// ---------------------------------------------------------------------------

/// The first line to read: the offset when it is positive, else 0.
pub open spec fn window_start(offset: Option<u64>) -> nat {
    match offset {
        Some(n) => if n > 0 {
            n as nat
        } else {
            0
        },
        None => 0,
    }
}

/// The line to stop before: `num_lines` lines after the start, when
/// `num_lines` is positive; else none (the whole file).
pub open spec fn window_end(offset: Option<u64>, num_lines: Option<u64>) -> Option<nat> {
    match num_lines {
        Some(n) => if n > 0 {
            Some((n + window_start(offset)) as nat)
        } else {
            None
        },
        None => None,
    }
}

/// The lines that a read with `offset` and `num_lines` covers.
pub fn read_window(offset: Option<u64>, num_lines: Option<u64>) -> (r: (usize, Option<usize>))
    requires
        window_start(offset) <= usize::MAX,
        window_end(offset, num_lines) matches Some(e) ==> e <= usize::MAX,
    ensures
        r.0 == window_start(offset),
        opt_nat(r.1) == window_end(offset, num_lines),
{
    let start: usize = match offset {
        Some(n) => if n > 0 {
            n as usize
        } else {
            0
        },
        None => 0,
    };
    let end: Option<usize> = match num_lines {
        Some(n) => if n > 0 {
            Some((n as usize) + start)
        } else {
            None
        },
        None => None,
    };
    (start, end)
}

/// What a read does with the line at an index.
#[derive(Debug, Clone, Copy, PartialEq, Eq)]
pub enum LineAction {
    /// before the window: pass over it
    Skip,
    /// in the window: return it
    Take,
    /// past the window: stop reading
    Stop,
}

pub open spec fn line_action_spec(idx: nat, start: nat, end: Option<nat>) -> LineAction {
    if idx < start {
        LineAction::Skip
    } else if end matches Some(e) && idx >= e {
        LineAction::Stop
    } else {
        LineAction::Take
    }
}

/// What a read does with line number `idx` (from 0) of the window.
pub fn line_action(idx: usize, start: usize, end: Option<usize>) -> (r: LineAction)
    ensures
        r == line_action_spec(idx as nat, start as nat, opt_nat(end)),
{
    if idx < start {
        LineAction::Skip
    } else {
        match end {
            Some(e) => if idx >= e {
                LineAction::Stop
            } else {
                LineAction::Take
            },
            None => LineAction::Take,
        }
    }
}

// ---------------------------------------------------------------------------
// Editing
// ---------------------------------------------------------------------------

/// The parameters of the tool that replaces a whole file.
pub struct ReplaceFileToolParams {
    /// file path
    pub path: String,
    /// new content which will replace all contents of the file
    pub newcontent: String,
}

/// The new content of a search-and-replace: the first `n` occurrences of
/// `old` replaced by `new`, or all of them without `n`.
pub fn replace_content(content: &str, old: &str, new: &str, n: Option<usize>) -> (r: String)
    ensures
        r@ == replace(content@, old@, new@, opt_nat(n)),
{
    let c = chars_of(content);
    let o = chars_of(old);
    let w = chars_of(new);
    string_of(&replace_exec(&c, &o, &w, n))
}

/// The report of an edited file.
pub fn replaced_message(path: &str) -> (r: String)
    ensures
        r@ == "File "@ + path@ + " replaced successfully"@,
{
    let mut out = chars_of("File ");
    push_str(&mut out, path);
    push_str(&mut out, " replaced successfully");
    string_of(&out)
}

/// Why a tool failed.
#[derive(Debug)]
pub enum ToolError {
    SecurityError(SecurityError),
    InvalidParameters(String),
    MissingParameter(String),
    FromUtf8Error(String),
    Io(String),
}

impl ToolError {
    /// The text that describes the error.
    pub fn message(&self) -> (r: String)
        ensures
            match self {
                ToolError::SecurityError(_) => true,
                ToolError::InvalidParameters(p) => r@ == "Invalid parameter: "@ + p@,
                ToolError::MissingParameter(p) => r@ == "Missing parameter: "@ + p@,
                ToolError::FromUtf8Error(m) => r@ == m@,
                ToolError::Io(m) => r@ == m@,
            },
            self matches ToolError::SecurityError(e) ==> r@ == match e {
                SecurityError::Unauthorized => "The request was not authorized"@,
                SecurityError::EmptyPath => "The given Path was an empty String"@,
                SecurityError::NormalizationError => "parent reference `..` points outside of base directory"@,
                SecurityError::Io(m) => m@,
            },
    {
        match self {
            ToolError::SecurityError(e) => e.message(),
            ToolError::InvalidParameters(p) => {
                let mut out = chars_of("Invalid parameter: ");
                push_str(&mut out, p.as_str());
                string_of(&out)
            },
            ToolError::MissingParameter(p) => {
                let mut out = chars_of("Missing parameter: ");
                push_str(&mut out, p.as_str());
                string_of(&out)
            },
            ToolError::FromUtf8Error(m) => string_of(&chars_of(m.as_str())),
            ToolError::Io(m) => string_of(&chars_of(m.as_str())),
        }
    }
}

// ---------------------------------------------------------------------------
// Reports of the skill tools
// ---------------------------------------------------------------------------

/// `", "`-separated.
pub open spec fn comma_list(items: Seq<Seq<char>>) -> Seq<char> {
    join(items, ", "@)
}

fn comma_list_exec(items: &Vec<String>) -> (r: Vec<char>)
    ensures
        r@ == comma_list(strings_view(items@)),
{
    let mut parts: Vec<Vec<char>> = Vec::new();
    let mut i: usize = 0;
    while i < items.len()
        invariant
            i <= items.len(),
            parts@.map_values(|l: Vec<char>| l@) == strings_view(items@).take(i as int),
        decreases items.len() - i,
    {
        let ghost before = parts@.map_values(|l: Vec<char>| l@);
        parts.push(chars_of(items[i].as_str()));
        assert(parts@.map_values(|l: Vec<char>| l@) =~= before.push(items@[i as int]@));
        assert(strings_view(items@).take(i + 1) =~= strings_view(items@).take(i as int).push(
            items@[i as int]@,
        ));
        i = i + 1;
    }
    assert(strings_view(items@).take(items.len() as int) =~= strings_view(items@));
    join_exec(&parts, &chars_of(", "))
}

/// The report of a created skill.
pub open spec fn created_message_spec(root: Seq<char>, s: SkillView) -> Seq<char> {
    "Created skill '"@ + s.name + "' at "@ + skill_file_path(root, s.name) + " with tags ["@
        + comma_list(s.tags) + "]."@
}

/// The report of a skill created in the store at `root`.
pub fn created_message(root: &str, skill: &Skill) -> (r: String)
    ensures
        r@ == created_message_spec(root@, skill@),
{
    let mut out = chars_of("Created skill '");
    push_str(&mut out, skill.name.as_str());
    push_str(&mut out, "' at ");
    let f = skill_file(root, skill.name.as_str());
    push_str(&mut out, f.as_str());
    push_str(&mut out, " with tags [");
    assert(strings_view(skill.tags@) =~= skill.tags.deep_view());
    let t = comma_list_exec(&skill.tags);
    extend_chars(&mut out, &t);
    push_str(&mut out, "].");
    string_of(&out)
}

/// The report of an updated skill.
pub open spec fn updated_message_spec(root: Seq<char>, s: SkillView) -> Seq<char> {
    "Updated skill '"@ + s.name + "' at "@ + skill_file_path(root, s.name) + "."@
}

/// The report of a skill updated in the store at `root`.
pub fn updated_message(root: &str, skill: &Skill) -> (r: String)
    ensures
        r@ == updated_message_spec(root@, skill@),
{
    let mut out = chars_of("Updated skill '");
    push_str(&mut out, skill.name.as_str());
    push_str(&mut out, "' at ");
    let f = skill_file(root, skill.name.as_str());
    push_str(&mut out, f.as_str());
    push_str(&mut out, ".");
    string_of(&out)
}

/// The listing entry of a skill.
pub open spec fn skill_entry(s: SkillView) -> Seq<char> {
    "- "@ + s.name + " — "@ + s.description + "\n  tags: ["@ + comma_list(s.tags) + "]\n"@
}

pub open spec fn skill_entries(skills: Seq<SkillView>) -> Seq<char>
    decreases skills.len(),
{
    if skills.len() == 0 {
        seq![]
    } else {
        skill_entries(skills.drop_last()) + skill_entry(skills.last())
    }
}

pub open spec fn error_entries(errors: Seq<Seq<char>>) -> Seq<char>
    decreases errors.len(),
{
    if errors.len() == 0 {
        seq![]
    } else {
        error_entries(errors.drop_last()) + "- "@ + errors.last() + "\n"@
    }
}

/// The listing of the skill store.
pub open spec fn listing_spec(skills: Seq<SkillView>, errors: Seq<Seq<char>>) -> Seq<char> {
    (if skills.len() == 0 {
        "No skills stored yet.\n"@
    } else {
        seq![]
    }) + skill_entries(skills) + if errors.len() == 0 {
        seq![]
    } else {
        "\nUnreadable skills:\n"@ + error_entries(errors)
    }
}

/// The listing of the skill store: each skill with its description and
/// tags, then the skills that could not be read.
pub fn list_skills_text(skills: &Vec<Skill>, errors: &Vec<String>) -> (r: String)
    ensures
        r@ == listing_spec(skills_view(skills@), strings_view(errors@)),
{
    let ghost sv = skills_view(skills@);
    let ghost ev = strings_view(errors@);
    let mut out: Vec<char> = Vec::new();
    if skills.len() == 0 {
        push_str(&mut out, "No skills stored yet.\n");
    }
    let ghost head = out@;
    let mut i: usize = 0;
    assert(sv.take(0) =~= Seq::<SkillView>::empty());
    while i < skills.len()
        invariant
            i <= skills.len(),
            sv == skills_view(skills@),
            out@ == head + skill_entries(sv.take(i as int)),
        decreases skills.len() - i,
    {
        assert(sv.take(i + 1).drop_last() =~= sv.take(i as int));
        assert(sv.take(i + 1).last() == skills@[i as int]@);
        let s = &skills[i];
        push_str(&mut out, "- ");
        push_str(&mut out, s.name.as_str());
        push_str(&mut out, " — ");
        push_str(&mut out, s.description.as_str());
        push_str(&mut out, "\n  tags: [");
        assert(strings_view(s.tags@) =~= s.tags.deep_view());
        let t = comma_list_exec(&s.tags);
        extend_chars(&mut out, &t);
        push_str(&mut out, "]\n");
        i = i + 1;
    }
    assert(sv.take(skills.len() as int) =~= sv);
    if errors.len() > 0 {
        push_str(&mut out, "\nUnreadable skills:\n");
        let ghost mid = out@;
        let mut j: usize = 0;
        assert(ev.take(0) =~= Seq::<Seq<char>>::empty());
        while j < errors.len()
            invariant
                j <= errors.len(),
                ev == strings_view(errors@),
                out@ == mid + error_entries(ev.take(j as int)),
            decreases errors.len() - j,
        {
            assert(ev.take(j + 1).drop_last() =~= ev.take(j as int));
            assert(ev.take(j + 1).last() == errors@[j as int]@);
            push_str(&mut out, "- ");
            push_str(&mut out, errors[j].as_str());
            push_str(&mut out, "\n");
            j = j + 1;
        }
        assert(ev.take(errors.len() as int) =~= ev);
    }
    string_of(&out)
}

/// The number of search results asked for: 5 by default, kept within 1–50.
pub open spec fn search_limit_spec(limit: Option<u64>) -> nat {
    let l = match limit {
        Some(n) => n as nat,
        None => 5,
    };
    if l < 1 {
        1
    } else if l > 50 {
        50
    } else {
        l
    }
}

/// The number of search results asked for.
pub fn search_limit(limit: Option<u64>) -> (r: usize)
    ensures
        r == search_limit_spec(limit),
{
    let l: u64 = match limit {
        Some(n) => n,
        None => 5,
    };
    if l < 1 {
        1
    } else if l > 50 {
        50
    } else {
        l as usize
    }
}

/// The entry of a search result.
pub open spec fn hit_entry(h: HitView) -> Seq<char> {
    "- "@ + h.name + " (score "@ + decimal(h.score) + ", matched: "@ + comma_list(h.matched) + ") — "@
        + h.description + "\n  tags: ["@ + comma_list(h.tags) + "]\n"@
}

pub open spec fn hit_entries(hits: Seq<HitView>) -> Seq<char>
    decreases hits.len(),
{
    if hits.len() == 0 {
        seq![]
    } else {
        hit_entries(hits.drop_last()) + hit_entry(hits.last())
    }
}

/// The report of a search.
pub open spec fn search_text_spec(query: Seq<char>, hits: Seq<HitView>) -> Seq<char> {
    if hits.len() == 0 {
        "No skills match "@ + debug_str(query) + "."@
    } else {
        hit_entries(hits)
    }
}

/// The report of a search: each hit with its score, the fields it matched,
/// its description and tags.
pub fn search_text(query: &str, hits: &Vec<SearchHit>) -> (r: String)
    ensures
        r@ == search_text_spec(query@, hits_view(hits@)),
{
    let mut out: Vec<char> = Vec::new();
    if hits.len() == 0 {
        push_str(&mut out, "No skills match ");
        let q = debug_quote(query);
        push_str(&mut out, q.as_str());
        push_str(&mut out, ".");
        return string_of(&out);
    }
    let ghost hv = hits_view(hits@);
    let mut i: usize = 0;
    assert(hv.take(0) =~= Seq::<HitView>::empty());
    while i < hits.len()
        invariant
            i <= hits.len(),
            hv == hits_view(hits@),
            out@ == hit_entries(hv.take(i as int)),
        decreases hits.len() - i,
    {
        assert(hv.take(i + 1).drop_last() =~= hv.take(i as int));
        assert(hv.take(i + 1).last() == hits@[i as int]@);
        let h = &hits[i];
        push_str(&mut out, "- ");
        push_str(&mut out, h.name.as_str());
        push_str(&mut out, " (score ");
        let d = decimal_exec(h.score as usize);
        extend_chars(&mut out, &d);
        push_str(&mut out, ", matched: ");
        assert(strings_view(h.matched@) =~= h.matched.deep_view());
        let m = comma_list_exec(&h.matched);
        extend_chars(&mut out, &m);
        push_str(&mut out, ") — ");
        push_str(&mut out, h.description.as_str());
        push_str(&mut out, "\n  tags: [");
        assert(strings_view(h.tags@) =~= h.tags.deep_view());
        let t = comma_list_exec(&h.tags);
        extend_chars(&mut out, &t);
        push_str(&mut out, "]\n");
        i = i + 1;
    }
    assert(hv.take(hits.len() as int) =~= hv);
    string_of(&out)
}

/// The lines of the listing that stand for the skill `s`.
pub open spec fn listed_entry(s: SkillView) -> Seq<char> {
    "- "@ + s.name + " — "@ + s.description + "\n  tags: ["@ + join(s.tags, ", "@) + "]\n"@
}

proof fn lemma_entries_flatten(skills: Seq<SkillView>)
    ensures
        skill_entries(skills) == Seq::new(skills.len(), |i: int| listed_entry(skills[i])).flatten(),
    decreases skills.len(),
{
    let es = Seq::new(skills.len(), |i: int| listed_entry(skills[i]));
    if skills.len() == 0 {
        assert(es =~= Seq::<Seq<char>>::empty());
    } else {
        lemma_entries_flatten(skills.drop_last());
        let prev = Seq::new(skills.drop_last().len(), |i: int| listed_entry(skills.drop_last()[i]));
        assert(es =~= prev.push(listed_entry(skills.last())));
        prev.lemma_flatten_push(listed_entry(skills.last()));
    }
}

proof fn lemma_errors_flatten(errors: Seq<Seq<char>>)
    ensures
        error_entries(errors) == Seq::new(errors.len(), |i: int| "- "@ + errors[i] + "\n"@).flatten(),
    decreases errors.len(),
{
    let es = Seq::new(errors.len(), |i: int| "- "@ + errors[i] + "\n"@);
    if errors.len() == 0 {
        assert(es =~= Seq::<Seq<char>>::empty());
    } else {
        lemma_errors_flatten(errors.drop_last());
        let prev = Seq::new(errors.drop_last().len(), |i: int| "- "@ + errors.drop_last()[i] + "\n"@);
        assert(es =~= prev.push("- "@ + errors.last() + "\n"@));
        prev.lemma_flatten_push("- "@ + errors.last() + "\n"@);
        assert(error_entries(errors) =~= error_entries(errors.drop_last()) + ("- "@ + errors.last() + "\n"@));
    }
}

/// The listing has one entry per skill, in order, and one line per
/// unreadable skill: a note when there are no skills, then for each skill
/// `- name — description` and its tags, then, when some could not be read,
/// a heading and `- error` for each.
pub proof fn lemma_listing_entries(skills: Seq<SkillView>, errors: Seq<Seq<char>>)
    ensures
        listing_spec(skills, errors) == (if skills.len() == 0 {
            "No skills stored yet.\n"@
        } else {
            seq![]
        }) + Seq::new(skills.len(), |i: int| listed_entry(skills[i])).flatten() + (if errors.len() == 0 {
            seq![]
        } else {
            "\nUnreadable skills:\n"@ + Seq::new(errors.len(), |i: int| "- "@ + errors[i] + "\n"@).flatten()
        }),
{
    lemma_entries_flatten(skills);
    lemma_errors_flatten(errors);
}

/// A read returns exactly the lines from the offset on, and, when a
/// positive number of lines is asked for, that many of them: line `idx` is
/// taken when `offset <= idx < offset + num_lines`, passed over before the
/// offset, and ends the read at `offset + num_lines`.
pub proof fn lemma_read_window_lines(offset: Option<u64>, num_lines: Option<u64>, idx: nat)
    ensures
        ({
            let o: nat = match offset {
                Some(n) => n as nat,
                None => 0,
            };
            let n: nat = match num_lines {
                Some(k) => k as nat,
                None => 0,
            };
            let action = line_action_spec(idx, window_start(offset), window_end(offset, num_lines));
            &&& (action == LineAction::Skip <==> idx < o)
            &&& (n > 0 ==> (action == LineAction::Take <==> o <= idx < o + n))
            &&& (n > 0 ==> (action == LineAction::Stop <==> idx >= o + n))
            &&& (n == 0 ==> (action == LineAction::Take <==> o <= idx))
        }),
{
}

} // verus!
