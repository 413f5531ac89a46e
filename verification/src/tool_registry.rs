//! The tools offered to the model, by name.
use vstd::prelude::*;
use crate::json::{items_view, Json, JsonView};
use crate::text::{chars_eq, chars_of, string_of};

verus! {

/// The tool registered under `name`, if any.
pub open spec fn find_tool<T>(es: Seq<(Seq<char>, T)>, name: Seq<char>) -> Option<T>
    decreases es.len(),
{
    if es.len() == 0 {
        None
    } else if es[0].0 == name {
        Some(es[0].1)
    } else {
        find_tool(es.drop_first(), name)
    }
}

/// No name is registered twice.
pub open spec fn names_unique<T>(es: Seq<(Seq<char>, T)>) -> bool {
    forall|i: int, j: int| 0 <= i < j < es.len() ==> es[i].0 != es[j].0
}

/// The tools offered to the model, in the order they were first
/// registered, each name once.
pub struct ToolRegistry<T> {
    tools: Vec<(String, T)>,
}

pub open spec fn entries_view<T>(v: Seq<(String, T)>) -> Seq<(Seq<char>, T)> {
    v.map_values(|e: (String, T)| (e.0@, e.1))
}

impl<T> View for ToolRegistry<T> {
    type V = Seq<(Seq<char>, T)>;

    closed spec fn view(&self) -> Seq<(Seq<char>, T)> {
        entries_view(self.tools@)
    }
}

/// The index of the entry named `name`, if any.
pub open spec fn index_of<T>(es: Seq<(Seq<char>, T)>, name: Seq<char>) -> Option<int> {
    if exists|i: int| 0 <= i < es.len() && es[i].0 == name {
        Some(choose|i: int| 0 <= i < es.len() && es[i].0 == name)
    } else {
        None
    }
}

/// With unique names, the entry found by name is the one at its index.
pub proof fn lemma_find_tool<T>(es: Seq<(Seq<char>, T)>, name: Seq<char>)
    requires
        names_unique(es),
    ensures
        match index_of(es, name) {
            Some(i) => find_tool(es, name) == Some(es[i].1),
            None => find_tool(es, name) is None,
        },
    decreases es.len(),
{
    if es.len() > 0 {
        let rest = es.drop_first();
        assert(names_unique(rest)) by {
            assert forall|i: int, j: int| 0 <= i < j < rest.len() implies rest[i].0 != rest[j].0 by {
                assert(rest[i] == es[i + 1] && rest[j] == es[j + 1]);
            }
        }
        lemma_find_tool(rest, name);
        if es[0].0 != name {
            if index_of(es, name) is Some {
                let i = index_of(es, name)->0;
                assert(rest[i - 1] == es[i]);
                assert(index_of(rest, name) is Some);
                let k = index_of(rest, name)->0;
                assert(rest[k] == es[k + 1]);
            } else {
                assert(index_of(rest, name) is None) by {
                    if exists|i: int| 0 <= i < rest.len() && rest[i].0 == name {
                        let i = choose|i: int| 0 <= i < rest.len() && rest[i].0 == name;
                        assert(es[i + 1] == rest[i]);
                    }
                }
            }
        } else {
            assert(es[0].0 == name);
            let i = index_of(es, name)->0;
            assert(i == 0);
        }
    }
}

impl<T> ToolRegistry<T> {
    /// The names are unique.
    pub closed spec fn wf(&self) -> bool {
        names_unique(self@)
    }

    /// No tools yet.
    pub fn new() -> (r: ToolRegistry<T>)
        ensures
            r@ == Seq::<(Seq<char>, T)>::empty(),
            r.wf(),
    {
        let r = ToolRegistry { tools: Vec::new() };
        assert(r@ =~= Seq::<(Seq<char>, T)>::empty());
        r
    }

    /// Offers `tool` under `name`, in place of a tool of that name.
    pub fn register(&mut self, name: String, tool: T)
        requires
            old(self).wf(),
        ensures
            final(self).wf(),
            match index_of(old(self)@, name@) {
                Some(i) => final(self)@ == old(self)@.update(i, (name@, tool)),
                None => final(self)@ == old(self)@.push((name@, tool)),
            },
            find_tool(final(self)@, name@) == Some(tool),
            forall|other: Seq<char>|
                other != name@ ==> #[trigger] find_tool(final(self)@, other) == find_tool(
                    old(self)@,
                    other,
                ),
    {
        let ghost es = self@;
        let n = chars_of(name.as_str());
        let mut i: usize = 0;
        while i < self.tools.len()
            invariant
                i <= self.tools.len(),
                es == entries_view(self.tools@),
                n@ == name@,
                names_unique(es),
                es == old(self)@,
                forall|j: int| 0 <= j < i ==> es[j].0 != name@,
            decreases self.tools.len() - i,
        {
            if chars_eq(&chars_of(self.tools[i].0.as_str()), &n) {
                assert(es[i as int].0 == name@);
                let ghost idx = index_of(es, name@)->0;
                assert(index_of(es, name@) is Some);
                assert(es[idx].0 == name@);
                assert(idx == i);
                self.tools.remove(i);
                self.tools.insert(i, (name, tool));
                proof {
                    assert(self@ =~= es.update(i as int, (name@, tool)));
                    assert(names_unique(self@)) by {
                        assert forall|a: int, b: int| 0 <= a < b < self@.len() implies self@[a].0 != self@[b].0 by {
                            assert(self@[a].0 == es[a].0 && self@[b].0 == es[b].0);
                        }
                    }
                    lemma_find_tool(es, name@);
                    lemma_find_tool(self@, name@);
                    assert(self@[i as int].0 == name@);
                    assert(index_of(self@, name@) is Some);
                    assert forall|other: Seq<char>| other != name@ implies #[trigger] find_tool(self@, other) == find_tool(es, other) by {
                        lemma_find_tool(es, other);
                        lemma_find_tool(self@, other);
                        if index_of(es, other) is Some {
                            let k = index_of(es, other)->0;
                            assert(self@[k].0 == other);
                            let k2 = index_of(self@, other)->0;
                            assert(es[k2].0 == other);
                        } else {
                            if index_of(self@, other) is Some {
                                let k2 = index_of(self@, other)->0;
                                assert(es[k2].0 == other);
                            }
                        }
                    }
                    let k = index_of(self@, name@)->0;
                    assert(k == i) by {
                        if k != i {
                            assert(es[k].0 == name@);
                        }
                    }
                }
                return;
            }
            i = i + 1;
        }
        assert(index_of(es, name@) is None);
        self.tools.push((name, tool));
        proof {
            assert(self@ =~= es.push((name@, tool)));
            assert(names_unique(self@));
            lemma_find_tool(es, name@);
            lemma_find_tool(self@, name@);
            assert(self@[es.len() as int].0 == name@);
            let k = index_of(self@, name@)->0;
            assert(k == es.len()) by {
                if k < es.len() {
                    assert(es[k].0 == name@);
                }
            }
            assert forall|other: Seq<char>| other != name@ implies #[trigger] find_tool(self@, other) == find_tool(es, other) by {
                lemma_find_tool(es, other);
                lemma_find_tool(self@, other);
                if index_of(es, other) is Some {
                    let k = index_of(es, other)->0;
                    assert(self@[k].0 == other);
                    let k2 = index_of(self@, other)->0;
                    assert(k2 < es.len());
                    assert(es[k2].0 == other);
                } else {
                    if index_of(self@, other) is Some {
                        let k2 = index_of(self@, other)->0;
                        assert(k2 < es.len());
                        assert(es[k2].0 == other);
                    }
                }
            }
        }
    }

    /// The tool registered under `name`.
    pub fn get_tool(&self, name: &str) -> (r: Option<&T>)
        ensures
            match find_tool(self@, name@) {
                Some(t) => r matches Some(x) && *x == t,
                None => r is None,
            },
    {
        let n = chars_of(name);
        let ghost es = self@;
        let mut i: usize = 0;
        assert(es.skip(0) == es);
        while i < self.tools.len()
            invariant
                i <= self.tools.len(),
                es == entries_view(self.tools@),
                n@ == name@,
                find_tool(es, name@) == find_tool(es.skip(i as int), name@),
            decreases self.tools.len() - i,
        {
            assert(es.skip(i as int)[0] == es[i as int]);
            assert(es.skip(i as int).drop_first() == es.skip(i + 1));
            if chars_eq(&chars_of(self.tools[i].0.as_str()), &n) {
                return Some(&self.tools[i].1);
            }
            i = i + 1;
        }
        None
    }

    /// The registered tools with their names, in order.
    pub fn tools(&self) -> (r: &Vec<(String, T)>)
        ensures
            entries_view(r@) == self@,
    {
        &self.tools
    }
}

// ---------------------------------------------------------------------------
// Tool definitions
// ---------------------------------------------------------------------------

/// The parameters of a tool that takes none: an object schema without
/// properties.
pub open spec fn default_parameters() -> JsonView {
    JsonView::Object(seq![("type"@, JsonView::Str("object"@)), ("properties"@, JsonView::Object(seq![]))])
}

/// The parameter schema offered for a tool: its own, or the empty one.
pub open spec fn parameters_or_default(params: Option<JsonView>) -> JsonView {
    match params {
        Some(p) => p,
        None => default_parameters(),
    }
}

/// The function part of a tool definition.
pub open spec fn function_spec(name: Seq<char>, desc: Seq<char>, params: Option<JsonView>) -> JsonView {
    JsonView::Object(
        seq![
            ("name"@, JsonView::Str(name)),
            ("description"@, JsonView::Str(desc)),
            ("parameters"@, parameters_or_default(params)),
        ],
    )
}

/// The definition of a tool as the model is offered it: a function with its
/// name, description and parameter schema.
pub open spec fn tool_definition_spec(name: Seq<char>, desc: Seq<char>, params: Option<JsonView>) -> JsonView {
    JsonView::Object(seq![("type"@, JsonView::Str("function"@)), ("function"@, function_spec(name, desc, params))])
}

pub open spec fn opt_json(p: Option<Json>) -> Option<JsonView> {
    match p {
        Some(j) => Some(j@),
        None => None,
    }
}

/// The definitions of the tools `(name, description, parameters)`, in order.
pub open spec fn definitions_spec(defs: Seq<(String, String, Option<Json>)>) -> Seq<JsonView> {
    Seq::new(defs.len(), |i: int| tool_definition_spec(defs[i].0@, defs[i].1@, opt_json(defs[i].2)))
}

fn text_json(s: &str) -> (r: Json)
    ensures
        r@ == JsonView::Str(s@),
{
    Json::Str(string_of(&chars_of(s)))
}

/// An object of the given entries.
fn object_of(entries: Vec<(String, Json)>) -> (r: Json)
    ensures
        r@ == JsonView::Object(entries@.map_values(|e: (String, Json)| (e.0@, e.1@))),
{
    proof {
        crate::json::lemma_entries_view(entries@);
        assert(crate::json::entries_view(entries@) =~= entries@.map_values(|e: (String, Json)| (e.0@, e.1@)));
    }
    Json::Object(entries)
}

fn entry(key: &str, value: Json) -> (r: (String, Json))
    ensures
        r.0@ == key@,
        r.1@ == value@,
{
    (string_of(&chars_of(key)), value)
}

fn default_parameters_exec() -> (r: Json)
    ensures
        r@ == default_parameters(),
{
    let mut es: Vec<(String, Json)> = Vec::new();
    es.push(entry("type", text_json("object")));
    es.push(entry("properties", object_of(Vec::new())));
    let r = object_of(es);
    assert(Seq::<(String, Json)>::empty().map_values(|e: (String, Json)| (e.0@, e.1@)) =~= Seq::<(Seq<char>, JsonView)>::empty());
    assert(es@.map_values(|e: (String, Json)| (e.0@, e.1@)) =~= seq![
        ("type"@, JsonView::Str("object"@)),
        ("properties"@, JsonView::Object(seq![])),
    ]);
    r
}

/// The definition of one tool.
pub fn tool_definition(name: &str, desc: &str, params: Option<Json>) -> (r: Json)
    ensures
        r@ == tool_definition_spec(name@, desc@, opt_json(params)),
{
    let ghost pv = parameters_or_default(opt_json(params));
    let p = match params {
        Some(j) => j,
        None => default_parameters_exec(),
    };
    assert(p@ == pv);
    let mut f: Vec<(String, Json)> = Vec::new();
    f.push(entry("name", text_json(name)));
    f.push(entry("description", text_json(desc)));
    f.push(entry("parameters", p));
    let fv = object_of(f);
    assert(f@.map_values(|e: (String, Json)| (e.0@, e.1@)) =~= seq![
        ("name"@, JsonView::Str(name@)),
        ("description"@, JsonView::Str(desc@)),
        ("parameters"@, pv),
    ]);
    assert(fv@ == function_spec(name@, desc@, opt_json(params)));
    let mut es: Vec<(String, Json)> = Vec::new();
    es.push(entry("type", text_json("function")));
    es.push(entry("function", fv));
    let r = object_of(es);
    assert(es@.map_values(|e: (String, Json)| (e.0@, e.1@)) =~= seq![
        ("type"@, JsonView::Str("function"@)),
        ("function"@, function_spec(name@, desc@, opt_json(params))),
    ]);
    r
}

/// The definitions of the tools offered to the model, as a JSON array, in
/// the order given (the registry's order).
pub fn tool_definitions(defs: &Vec<(String, String, Option<Json>)>) -> (r: Json)
    ensures
        r@ == JsonView::Array(definitions_spec(defs@)),
{
    let mut items: Vec<Json> = Vec::new();
    let mut i: usize = 0;
    while i < defs.len()
        invariant
            i <= defs.len(),
            items_view(items@) == definitions_spec(defs@).take(i as int),
        decreases defs.len() - i,
    {
        let params = match &defs[i].2 {
            Some(j) => Some(j.copy()),
            None => None,
        };
        let d = tool_definition(defs[i].0.as_str(), defs[i].1.as_str(), params);
        let ghost before = items@;
        items.push(d);
        assert(items@.drop_last() =~= before);
        assert(definitions_spec(defs@).take(i + 1) =~= definitions_spec(defs@).take(i as int).push(
            definitions_spec(defs@)[i as int],
        ));
        i = i + 1;
    }
    assert(definitions_spec(defs@).take(defs.len() as int) =~= definitions_spec(defs@));
    Json::Array(items)
}

} // verus!
