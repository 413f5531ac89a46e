use sven::skills::{parse_skill, split_frontmatter, to_kebab, to_snake, Skill};
use sven::yaml::{parse_yaml, yaml_quote, YamlValue};

const EXAMPLE: &str = r#"---
name: weather_api_wttr
description: Free weather API using wttr.in — no API key required, supports JSON output
  with current conditions and 3-day forecasts.
tags:
- weather
- api
- wttr
created_at: '2026-07-12T18:59:41.009310+00:00'
---

# Weather API: wttr.in

**wttr.in** is free.
"#;

#[test]
fn parses_spec_example() {
    let skill = parse_skill(EXAMPLE, "weather-api-wttr").unwrap();
    assert_eq!(skill.name, "weather_api_wttr");
    assert_eq!(
        skill.description,
        "Free weather API using wttr.in — no API key required, supports JSON output with current conditions and 3-day forecasts."
    );
    assert_eq!(skill.tags, vec!["weather", "api", "wttr"]);
    assert_eq!(skill.created_at, "2026-07-12T18:59:41.009310+00:00");
    assert!(skill.body.starts_with("# Weather API: wttr.in"));
}

#[test]
fn round_trips_through_markdown() {
    let skill = Skill {
        name: "docs_rs_lookup".to_string(),
        description: "How to look up Rust docs: docs.rs and rustdoc".to_string(),
        tags: vec!["rust".to_string(), "docs".to_string(), "rustdoc".to_string()],
        created_at: "2026-07-12T18:59:41.009310+00:00".to_string(),
        body: "## Overview\n\nUse `docs.rs`.".to_string(),
    };
    let parsed = parse_skill(&skill.to_markdown(), "docs-rs-lookup").unwrap();
    assert_eq!(parsed.name, skill.name);
    assert_eq!(parsed.description, skill.description);
    assert_eq!(parsed.tags, skill.tags);
    assert_eq!(parsed.created_at, skill.created_at);
    assert_eq!(parsed.body, skill.body);
}

#[test]
fn rejects_name_directory_mismatch() {
    let err = parse_skill(EXAMPLE, "weather-api").unwrap_err();
    assert!(err.contains("does not match"));
}

#[test]
fn sanitizes_names() {
    assert_eq!(to_snake("Weather API (wttr)"), "weather_api_wttr");
    assert_eq!(to_kebab("weather_api_wttr"), "weather-api-wttr");
    assert_eq!(to_snake("--"), "");
}

#[test]
fn yaml_quoting_round_trip() {
    for value in ["plain", "with: colon", "it's quoted", "has # hash", ""] {
        let quoted = yaml_quote(value);
        let map = parse_yaml(&format!("k: {}", quoted)).unwrap();
        assert_eq!(
            map.get("k"),
            Some(&YamlValue::Scalar(value.to_string())),
            "round trip failed for {:?} (written as {:?})",
            value,
            quoted
        );
    }
}

#[test]
fn parses_quoted_scalars_and_comments() {
    let map = parse_yaml("a: 'x: y'\nb: \"z\"\nc: plain # comment\n").unwrap();
    assert_eq!(map.get("a"), Some(&YamlValue::Scalar("x: y".to_string())));
    assert_eq!(map.get("b"), Some(&YamlValue::Scalar("z".to_string())));
    assert_eq!(map.get("c"), Some(&YamlValue::Scalar("plain".to_string())));
}

#[test]
fn frontmatter_requires_delimiters() {
    assert!(split_frontmatter("no frontmatter").is_err());
    assert!(split_frontmatter("---\nname: x\n").is_err()); // no closing ---
}
