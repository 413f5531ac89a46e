use sven::skills::{
    add_skill, collect_skills, load_skill, new_skill, removed_message, sanitize_tags, skill_dir, skill_file,
    skill_key, skills_root, sort_skills_by_name, update_skill, Skill,
};

fn strings(v: &[&str]) -> Vec<String> {
    v.iter().map(|s| s.to_string()).collect()
}

fn skill(name: &str) -> Skill {
    Skill {
        name: name.to_string(),
        description: format!("about {}", name),
        tags: strings(&["one", "two", "three"]),
        created_at: "2026-01-02T03:04:05+00:00".to_string(),
        body: "text".to_string(),
    }
}

const VALID: &str = "---\nname: a_skill\ndescription: A skill\ntags:\n- x\n- y\n- z\ncreated_at: '2026-01-01T00:00:00+00:00'\n---\n\nBody\n";

#[test]
fn store_paths() {
    assert_eq!(skills_root("~/.config/sven", "/home/ann"), "/home/ann/.config/sven/skills");
    assert_eq!(skills_root("/srv/data", "/home/ann"), "/srv/data/skills");
    assert_eq!(skills_root("", "/home/ann"), "/skills");
    let root = "/home/ann/.config/sven/skills";
    assert_eq!(skill_dir(root, "Weather API"), "/home/ann/.config/sven/skills/weather-api");
    assert_eq!(skill_file(root, "weather_api"), "/home/ann/.config/sven/skills/weather-api/SKILL.md");
}

#[test]
fn skill_paths_stay_in_the_store() {
    assert_eq!(skill_dir("/data/skills", "../../etc"), "/data/skills/etc");
    assert_eq!(skill_dir("/data/skills", "a/./b"), "/data/skills/a-b");
    assert_eq!(skill_file("rel", ".."), "rel//SKILL.md");
    assert_eq!(skill_key(".."), Err("invalid skill name \"..\"".to_string()));
}

#[test]
fn skill_key_refuses_names_without_letters() {
    assert_eq!(skill_key("Docs_RS"), Ok("docs-rs".to_string()));
    assert_eq!(skill_key("--"), Err("invalid skill name \"--\"".to_string()));
    assert_eq!(skill_key("a\"b"), Ok("a-b".to_string()));
}

#[test]
fn load_skill_checks_the_name_first() {
    assert_eq!(load_skill("--", VALID).unwrap_err(), "invalid skill name \"--\"");
    let s = load_skill("A Skill", VALID).unwrap();
    assert_eq!(s.name, "a_skill");
    assert_eq!(s.body, "Body");
    let err = load_skill("other", VALID).unwrap_err();
    assert_eq!(err, "frontmatter: 'name' (a_skill) does not match directory name (other)");
}

#[test]
fn sanitize_tags_counts_after_dedup() {
    assert_eq!(
        sanitize_tags(&strings(&["Rust", "rust", "Web API"])),
        Err("expected 3-8 tags after sanitization, got 2".to_string())
    );
    assert_eq!(
        sanitize_tags(&strings(&["Rust", "--", "Web API", "cli", "rust"])),
        Ok(strings(&["rust", "web-api", "cli"]))
    );
    let nine: Vec<String> = (0..9).map(|i| format!("t{}", i)).collect();
    assert_eq!(sanitize_tags(&nine), Err("expected 3-8 tags after sanitization, got 9".to_string()));
    let eight: Vec<String> = (0..8).map(|i| format!("t{}", i)).collect();
    assert_eq!(sanitize_tags(&eight).unwrap().len(), 8);
}

#[test]
fn new_skill_errors_in_order() {
    let tags = strings(&["a", "b", "c"]);
    assert_eq!(
        new_skill("--", "", &[], "", &[], "now").unwrap_err(),
        "skill name is empty after sanitization"
    );
    assert_eq!(new_skill("x", "  \n", &[], "", &[], "now").unwrap_err(), "description must not be empty");
    assert_eq!(
        new_skill("x", "d", &strings(&["a"]), "", &[], "now").unwrap_err(),
        "expected 3-8 tags after sanitization, got 1"
    );
    assert_eq!(
        new_skill("My Skill", "d", &tags, "", &[skill("my_skill")], "now").unwrap_err(),
        "skill 'my_skill' already exists — use the update tool"
    );
}

#[test]
fn new_skill_builds_the_skill() {
    let s = new_skill("My Skill!", "  A description \n", &strings(&["Rust", "CLI", "web api"]), "\n body \n", &[skill("other")], "2026-05-06T07:08:09+02:00").unwrap();
    assert_eq!(s.name, "my_skill");
    assert_eq!(s.description, "A description");
    assert_eq!(s.tags, strings(&["rust", "cli", "web-api"]));
    assert_eq!(s.created_at, "2026-05-06T07:08:09+02:00");
    assert_eq!(s.body, "body");
}

#[test]
fn add_skill_stamps_the_local_time() {
    let s = add_skill("Fresh", "desc", &strings(&["a", "b", "c"]), "b", &[]).unwrap();
    assert_eq!(s.name, "fresh");
    assert!(s.created_at.len() >= 20);
    assert!(s.created_at.contains('T'));
    assert!(add_skill("Fresh", "desc", &strings(&["a", "b", "c"]), "b", &[s.clone()]).is_err());
}

#[test]
fn update_skill_keeps_name_and_date() {
    let base = skill("kept");
    assert_eq!(
        update_skill(Ok(base.clone()), None, None, None).unwrap_err(),
        "nothing to update: provide description, tags and/or content"
    );
    assert_eq!(
        update_skill(Err("cannot read".to_string()), None, None, None).unwrap_err(),
        "nothing to update: provide description, tags and/or content"
    );
    assert_eq!(update_skill(Err("cannot read".to_string()), Some("d"), None, None).unwrap_err(), "cannot read");
    assert_eq!(update_skill(Ok(base.clone()), Some(" "), None, None).unwrap_err(), "description must not be empty");
    let tags = strings(&["x"]);
    assert_eq!(
        update_skill(Ok(base.clone()), None, Some(&tags), None).unwrap_err(),
        "expected 3-8 tags after sanitization, got 1"
    );
    let tags = strings(&["New Tag", "b", "c"]);
    let s = update_skill(Ok(base.clone()), Some(" new "), Some(&tags), Some(" body2 ")).unwrap();
    assert_eq!(s.name, "kept");
    assert_eq!(s.created_at, base.created_at);
    assert_eq!(s.description, "new");
    assert_eq!(s.tags, strings(&["new-tag", "b", "c"]));
    assert_eq!(s.body, "body2");
    let s = update_skill(Ok(base.clone()), None, None, Some("only body")).unwrap();
    assert_eq!(s.description, base.description);
    assert_eq!(s.tags, base.tags);
}

#[test]
fn removed_message_names_the_directory() {
    assert_eq!(removed_message("/data/skills", "Docs RS"), "removed skill 'docs-rs' (/data/skills/docs-rs)");
}

#[test]
fn sort_skills_by_name_orders_names() {
    let sorted = sort_skills_by_name(vec![skill("b"), skill("a_b"), skill("a")]);
    let names: Vec<&str> = sorted.iter().map(|s| s.name.as_str()).collect();
    assert_eq!(names, vec!["a", "a_b", "b"]);
}

#[test]
fn collect_skills_sorts_and_reports() {
    let b = VALID.replace("a_skill", "b_skill");
    let found = vec![
        ("b-skill".to_string(), Ok(b)),
        ("a-skill".to_string(), Ok(VALID.to_string())),
        ("c".to_string(), Err("boom".to_string())),
        ("d".to_string(), Ok("junk".to_string())),
    ];
    let (skills, errors) = collect_skills(found);
    let names: Vec<&str> = skills.iter().map(|s| s.name.as_str()).collect();
    assert_eq!(names, vec!["a_skill", "b_skill"]);
    assert_eq!(errors, strings(&["c: boom", "d: file must start with a '---' line"]));
}

#[test]
fn created_at_has_the_rfc3339_shape() {
    let s = add_skill("Stamped", "desc", &strings(&["a", "b", "c"]), "b", &[]).unwrap();
    assert!(!s.created_at.is_empty());
    assert!(s.created_at.chars().all(|c| c.is_ascii_digit() || "-+:.T".contains(c)), "{}", s.created_at);
}

#[test]
fn an_added_skill_reads_back() {
    let s = add_skill(
        "Docs RS lookup",
        "  How to look up Rust docs: docs.rs # and rustdoc ",
        &strings(&["Rust", "it's", "-x"]),
        "\n## Overview\n\nUse `docs.rs`.\n\n",
        &[],
    )
    .unwrap();
    let back = load_skill("Docs RS lookup", &s.to_markdown()).unwrap();
    assert_eq!(back.name, s.name);
    assert_eq!(back.description, s.description);
    assert_eq!(back.tags, s.tags);
    assert_eq!(back.created_at, s.created_at);
    assert_eq!(back.body, s.body);
}

#[test]
fn a_body_with_a_lone_cr_reads_back() {
    let s = add_skill("Lone", "desc", &strings(&["a", "b", "c"]), "line one\rstill one\nline two", &[]).unwrap();
    let back = load_skill("lone", &s.to_markdown()).unwrap();
    assert_eq!(back.body, s.body);
}

#[test]
fn a_second_add_of_a_listed_name_is_refused() {
    let s = add_skill("Twice Named", "desc", &strings(&["a", "b", "c"]), "crlf\r\nbody", &[]).unwrap();
    let (listed, errors) = collect_skills(vec![("twice-named".to_string(), Ok(s.to_markdown()))]);
    assert!(errors.is_empty());
    assert_eq!(listed[0].name, "twice_named");
    assert_eq!(
        add_skill("twice-named", "other", &strings(&["x", "y", "z"]), "", &listed).unwrap_err(),
        "skill 'twice_named' already exists — use the update tool"
    );
}
