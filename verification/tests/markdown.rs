use sven::skills::{parse_skill, split_frontmatter, to_kebab, to_snake, Skill};
use sven::yaml::{parse_yaml, yaml_quote, YamlValue};

fn strings(v: &[&str]) -> Vec<String> {
    v.iter().map(|s| s.to_string()).collect()
}

#[test]
fn to_markdown_layout() {
    let skill = Skill {
        name: "x_y".to_string(),
        description: "line one\nline: two".to_string(),
        tags: strings(&["a", "#b"]),
        created_at: "2026-01-01T00:00:00+00:00".to_string(),
        body: "Body".to_string(),
    };
    assert_eq!(
        skill.to_markdown(),
        "---\nname: x_y\ndescription: 'line one line: two'\ntags:\n- a\n- '#b'\ncreated_at: '2026-01-01T00:00:00+00:00'\n---\n\nBody\n"
    );
}

#[test]
fn markdown_round_trip_with_quoted_fields() {
    let skill = Skill {
        name: "quoting_needed".to_string(),
        description: "it's: tricky # really".to_string(),
        tags: strings(&["it's", "-dash", "plain"]),
        created_at: "2026-02-03T04:05:06.7+01:00".to_string(),
        body: "# Title\n\n- item\n\n```\ncode\n```".to_string(),
    };
    let parsed = parse_skill(&skill.to_markdown(), "quoting-needed").unwrap();
    assert_eq!(parsed.name, skill.name);
    assert_eq!(parsed.description, skill.description);
    assert_eq!(parsed.tags, skill.tags);
    assert_eq!(parsed.created_at, skill.created_at);
    assert_eq!(parsed.body, skill.body);
}

#[test]
fn kebab_of_snake_is_kebab() {
    for name in ["Weather API (wttr)", "a__b", "--x--", "MiXeD 42 case", ""] {
        assert_eq!(to_kebab(&to_snake(name)), to_kebab(name));
        assert_eq!(to_snake(&to_snake(name)), to_snake(name));
        assert_eq!(to_kebab(&to_kebab(name)), to_kebab(name));
    }
    assert_eq!(to_snake("Ünïcode Name"), "n_code_name");
}

#[test]
fn quoted_values_read_back() {
    for value in ["", " lead", "trail ", "-x", "@at", "a'b''c", "x # y", "k: v", "\"q\"", "é"] {
        let text = format!("key: {}", yaml_quote(value));
        let map = parse_yaml(&text).unwrap();
        assert_eq!(map.get("key"), Some(&YamlValue::Scalar(value.to_string())), "{:?}", value);
    }
    assert_eq!(yaml_quote("plain"), "plain");
    assert_eq!(yaml_quote(""), "''");
    assert_eq!(yaml_quote("it's"), "'it''s'");
}

#[test]
fn yaml_lists_and_folded_scalars() {
    let map = parse_yaml("# c\na: b\n  c\nt:\n- x\n- 'y z'\n-\ne:\n").unwrap();
    assert_eq!(map.get("a"), Some(&YamlValue::Scalar("b c".to_string())));
    assert_eq!(map.get("t"), Some(&YamlValue::List(strings(&["x", "y z", ""]))));
    assert_eq!(map.get("e"), Some(&YamlValue::List(Vec::new())));
    assert_eq!(map.get("missing"), None);
    let map = parse_yaml("a: 1\na: 2\n").unwrap();
    assert_eq!(map.get("a"), Some(&YamlValue::Scalar("2".to_string())));
}

#[test]
fn yaml_line_errors() {
    assert_eq!(parse_yaml("- x").unwrap_err(), "line 1: list item outside of a list");
    assert_eq!(parse_yaml("a: b\n- x").unwrap_err(), "line 2: list item outside of a list");
    assert_eq!(parse_yaml("\n  x").unwrap_err(), "line 2: unexpected indented line");
    assert_eq!(parse_yaml("nocolon").unwrap_err(), "line 1: cannot parse \"nocolon\"");
    assert_eq!(parse_yaml("a:b").unwrap_err(), "line 1: cannot parse \"a:b\"");
}

#[test]
fn frontmatter_split() {
    assert_eq!(
        split_frontmatter("  ---  \na: 1\n---\n\n\nbody\nmore\n"),
        Ok(("a: 1".to_string(), "body\nmore".to_string()))
    );
    assert_eq!(split_frontmatter("---\n---"), Ok((String::new(), String::new())));
    assert_eq!(split_frontmatter("").unwrap_err(), "file must start with a '---' line");
    assert_eq!(split_frontmatter("---\nx").unwrap_err(), "missing closing '---' line");
}

const HEAD: &str = "---\nname: n\ndescription: d\ntags:\n- a\ncreated_at: t\n";

#[test]
fn parse_skill_field_errors() {
    let no_name = "---\ndescription: d\ntags:\n- a\ncreated_at: t\n---\n";
    assert_eq!(parse_skill(no_name, "n").unwrap_err(), "frontmatter: missing 'name'");
    let no_desc = "---\nname: n\ntags:\n- a\ncreated_at: t\n---\n";
    assert_eq!(parse_skill(no_desc, "n").unwrap_err(), "frontmatter: missing 'description'");
    let no_date = "---\nname: n\ndescription: d\ntags:\n- a\n---\n";
    assert_eq!(parse_skill(no_date, "n").unwrap_err(), "frontmatter: missing 'created_at'");
    let no_tags = "---\nname: n\ndescription: d\ncreated_at: t\n---\n";
    assert_eq!(parse_skill(no_tags, "n").unwrap_err(), "frontmatter: missing 'tags'");
    let scalar_tags = "---\nname: n\ndescription: d\ntags: a\ncreated_at: t\n---\n";
    assert_eq!(parse_skill(scalar_tags, "n").unwrap_err(), "frontmatter: 'tags' must be a list");
    let bad_name = "---\nname: Bad-Name\ndescription: d\ntags:\n- a\ncreated_at: t\n---\n";
    assert_eq!(
        parse_skill(bad_name, "bad-name").unwrap_err(),
        "frontmatter: 'name' must be snake_case, got \"Bad-Name\""
    );
    let empty_desc = "---\nname: n\ndescription: ' '\ntags:\n- a\ncreated_at: t\n---\n";
    assert_eq!(parse_skill(empty_desc, "n").unwrap_err(), "frontmatter: 'description' is empty");
    let bad_yaml = "---\n- x\n---\n";
    assert_eq!(parse_skill(bad_yaml, "n").unwrap_err(), "line 1: list item outside of a list");
    let ok = format!("{}---\n\n\nBody text\n", HEAD);
    let s = parse_skill(&ok, "n").unwrap();
    assert_eq!(s.tags, strings(&["a"]));
    assert_eq!(s.body, "Body text");
}

#[test]
fn snake_of_kebab_is_snake() {
    for name in ["Weather API (wttr)", "a--b", "x_y-z", "", "__"] {
        assert_eq!(to_snake(&to_kebab(name)), to_snake(name));
    }
}

#[test]
fn comments_and_blank_lines_change_nothing() {
    let doc = "a: 1\nt:\n- x\n- y\nb: long\n  folded\n";
    let with = "# head\na: 1\n\nt:\n  # note\n- x\n   \n- y\nb: long\n#c\n  folded\n";
    assert_eq!(parse_yaml(doc).unwrap().get("t"), parse_yaml(with).unwrap().get("t"));
    assert_eq!(parse_yaml(doc).unwrap().get("b"), Some(&YamlValue::Scalar("long folded".to_string())));
    assert_eq!(parse_yaml(with).unwrap().get("b"), Some(&YamlValue::Scalar("long folded".to_string())));
    assert_eq!(parse_yaml(with).unwrap().get("a"), Some(&YamlValue::Scalar("1".to_string())));
    assert!(parse_yaml("# c\n- x").is_err());
}

#[test]
fn frontmatter_splits_back() {
    for (fm, body) in [("a: 1\nb: 2", "Body\n\ntext"), ("", ""), ("x: y\n", "b"), ("k: v", "")] {
        let text = format!("---\n{}\n---\n{}", fm, body);
        assert_eq!(split_frontmatter(&text), Ok((fm.to_string(), body.to_string())), "{:?}", text);
    }
}

#[test]
fn comment_lines_change_nothing_in_crlf_documents() {
    let doc = "a: 1\r\nt:\r\n- x\r\n";
    let with = "a: 1\r\n# one\r\n  \r\n#two\nt:\r\n- x\r\n";
    assert_eq!(parse_yaml(doc).unwrap().get("a"), parse_yaml(with).unwrap().get("a"));
    assert_eq!(parse_yaml(doc).unwrap().get("t"), parse_yaml(with).unwrap().get("t"));
    assert_eq!(parse_yaml(with).unwrap().get("t"), Some(&YamlValue::List(strings(&["x"]))));
}
