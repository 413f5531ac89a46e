use sven::search::{query_tokens, search_skills, try_search_skills};
use sven::skills::Skill;
use sven::tools::{search_limit, search_text};

fn strings(v: &[&str]) -> Vec<String> {
    v.iter().map(|s| s.to_string()).collect()
}

fn corpus() -> Vec<Skill> {
    vec![
        Skill {
            name: "rust_docs".to_string(),
            description: "Rust documentation lookup".to_string(),
            tags: strings(&["rust", "docs", "api"]),
            created_at: "t".to_string(),
            body: "use docs.rs for weather? no".to_string(),
        },
        Skill {
            name: "weather_api".to_string(),
            description: "Weather forecasts".to_string(),
            tags: strings(&["weather", "api", "http"]),
            created_at: "t".to_string(),
            body: "curl wttr.in".to_string(),
        },
        Skill {
            name: "cooking".to_string(),
            description: "Recipes".to_string(),
            tags: strings(&["food", "kitchen", "home"]),
            created_at: "t".to_string(),
            body: "pasta".to_string(),
        },
    ]
}

#[test]
fn query_tokens_split_on_non_alphanumerics() {
    assert_eq!(query_tokens("Hello, World-42!"), strings(&["hello", "world", "42"]));
    assert_eq!(query_tokens("  "), Vec::<String>::new());
    assert_eq!(query_tokens("ÄPFEL über"), strings(&["äpfel", "über"]));
}

#[test]
fn search_scores_and_ranks() {
    let hits = search_skills("WEATHER api", 10, corpus());
    assert_eq!(hits.len(), 2);
    assert_eq!(hits[0].name, "weather_api");
    assert_eq!(hits[0].score, 16);
    assert_eq!(hits[0].matched, strings(&["tags", "name", "description"]));
    assert_eq!(hits[1].name, "rust_docs");
    assert_eq!(hits[1].score, 5);
    assert_eq!(hits[1].matched, strings(&["body", "tags"]));
    assert_eq!(hits[1].tags, strings(&["rust", "docs", "api"]));
}

#[test]
fn search_truncates_and_breaks_ties_by_name() {
    let hits = search_skills("api", 1, corpus());
    assert_eq!(hits.len(), 1);
    assert_eq!(hits[0].name, "weather_api");
    let hits = search_skills("docs", 5, corpus());
    assert_eq!(hits[0].name, "rust_docs");
    let mut tied = corpus();
    tied[0].tags = strings(&["x", "y", "z"]);
    tied[0].body = String::new();
    tied[0].description = "same".to_string();
    tied[1].tags = strings(&["x", "y", "z"]);
    tied[1].body = String::new();
    tied[1].description = "same".to_string();
    let hits = search_skills("same", 5, tied);
    let names: Vec<&str> = hits.iter().map(|h| h.name.as_str()).collect();
    assert_eq!(names, vec!["rust_docs", "weather_api"]);
    assert!(search_skills("nothing-matches-here", 5, corpus()).is_empty());
    assert!(search_skills("", 5, corpus()).is_empty());
}

#[test]
fn try_search_agrees_with_search() {
    let a = try_search_skills("weather", 3, corpus()).unwrap();
    let b = search_skills("weather", 3, corpus());
    assert_eq!(a.len(), b.len());
    for (x, y) in a.iter().zip(b.iter()) {
        assert_eq!(x.name, y.name);
        assert_eq!(x.score, y.score);
    }
}

#[test]
fn search_limits() {
    assert_eq!(search_limit(None), 5);
    assert_eq!(search_limit(Some(0)), 1);
    assert_eq!(search_limit(Some(7)), 7);
    assert_eq!(search_limit(Some(500)), 50);
}

#[test]
fn search_report() {
    assert_eq!(search_text("q\"x", &Vec::new()), "No skills match \"q\\\"x\".");
    let hits = search_skills("weather", 5, corpus());
    assert_eq!(
        search_text("weather", &hits),
        "- weather_api (score 9, matched: tags, name, description) — Weather forecasts\n  tags: [weather, api, http]\n- rust_docs (score 1, matched: body) — Rust documentation lookup\n  tags: [rust, docs, api]\n"
    );
}
