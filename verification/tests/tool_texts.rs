use sven::security::SecurityError;
use sven::skills::Skill;
use sven::tools::{
    created_message, line_action, list_skills_text, read_window, replace_content, replaced_message, updated_message,
    LineAction, ReplaceFileToolParams, ToolError,
};

fn strings(v: &[&str]) -> Vec<String> {
    v.iter().map(|s| s.to_string()).collect()
}

fn skill() -> Skill {
    Skill {
        name: "docs_rs_lookup".to_string(),
        description: "Look up docs".to_string(),
        tags: strings(&["rust", "docs"]),
        created_at: "t".to_string(),
        body: "b".to_string(),
    }
}

#[test]
fn read_windows() {
    assert_eq!(read_window(Some(2), Some(3)), (2, Some(5)));
    assert_eq!(read_window(None, Some(0)), (0, None));
    assert_eq!(read_window(Some(0), None), (0, None));
    assert_eq!(read_window(None, Some(4)), (0, Some(4)));
}

#[test]
fn line_actions() {
    assert_eq!(line_action(0, 2, Some(5)), LineAction::Skip);
    assert_eq!(line_action(2, 2, Some(5)), LineAction::Take);
    assert_eq!(line_action(4, 2, Some(5)), LineAction::Take);
    assert_eq!(line_action(5, 2, Some(5)), LineAction::Stop);
    assert_eq!(line_action(100, 0, None), LineAction::Take);
}

#[test]
fn replacing_content() {
    assert_eq!(replace_content("a-b-c", "-", "+", None), "a+b+c");
    assert_eq!(replace_content("a-b-c", "-", "+", Some(1)), "a+b-c");
    assert_eq!(replace_content("a-b-c", "-", "+", Some(0)), "a-b-c");
    assert_eq!(replace_content("a-b-c", "x", "+", None), "a-b-c");
    assert_eq!(replace_content("aaa", "aa", "b", None), "ba");
    assert_eq!(replace_content("ab", "", "-", None), "-a-b-");
    assert_eq!(replace_content("ab", "", "-", Some(2)), "-a-b");
    assert_eq!(replace_content("héllo wörld", "ö", "o", None), "héllo world");
    assert_eq!(replaced_message("x.txt"), "File x.txt replaced successfully");
    let p = ReplaceFileToolParams { path: "f".to_string(), newcontent: "c".to_string() };
    assert_eq!(replaced_message(&p.path), "File f replaced successfully");
}

#[test]
fn tool_error_messages() {
    assert_eq!(ToolError::InvalidParameters("n".to_string()).message(), "Invalid parameter: n");
    assert_eq!(ToolError::MissingParameter("path".to_string()).message(), "Missing parameter: path");
    assert_eq!(ToolError::Io("gone".to_string()).message(), "gone");
    assert_eq!(ToolError::FromUtf8Error("bad".to_string()).message(), "bad");
    assert_eq!(
        ToolError::SecurityError(SecurityError::Unauthorized).message(),
        "The request was not authorized"
    );
}

#[test]
fn skill_reports() {
    assert_eq!(
        created_message("/home/ann/.config/sven/skills", &skill()),
        "Created skill 'docs_rs_lookup' at /home/ann/.config/sven/skills/docs-rs-lookup/SKILL.md with tags [rust, docs]."
    );
    assert_eq!(
        updated_message("/s", &skill()),
        "Updated skill 'docs_rs_lookup' at /s/docs-rs-lookup/SKILL.md."
    );
}

#[test]
fn skill_listing() {
    assert_eq!(list_skills_text(&Vec::new(), &Vec::new()), "No skills stored yet.\n");
    assert_eq!(
        list_skills_text(&vec![skill()], &strings(&["bad: broken"])),
        "- docs_rs_lookup — Look up docs\n  tags: [rust, docs]\n\nUnreadable skills:\n- bad: broken\n"
    );
    assert_eq!(
        list_skills_text(&Vec::new(), &strings(&["x"])),
        "No skills stored yet.\n\nUnreadable skills:\n- x\n"
    );
}
