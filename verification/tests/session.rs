use sven::chat_history::{ChatHistory, MessageResponse, Role};
use sven::json::Json;
use sven::tool_registry::{tool_definitions, ToolRegistry};

fn roles(h: &ChatHistory) -> Vec<(Role, String)> {
    h.get().into_iter().map(|m| (m.role, m.content)).collect()
}

#[test]
fn history_turns_and_tool_exchanges() {
    let mut h = ChatHistory::new("sys");
    assert_eq!(roles(&h), vec![(Role::System, "sys".to_string())]);
    h.user("hi");
    h.assistant(&MessageResponse { content: "calling".to_string(), tool_calls: vec![Json::Null] });
    h.tool("12:00", "TimeTool", None);
    let all = h.get();
    assert_eq!(all.len(), 4);
    assert_eq!(all[2].role, Role::Assistant);
    assert_eq!(all[2].tool_calls.as_ref().map(|c| c.len()), Some(1));
    assert_eq!(all[3].role, Role::Tool);
    assert_eq!(all[3].tool_name.as_deref(), Some("TimeTool"));
    h.assistant(&MessageResponse { content: "done".to_string(), tool_calls: Vec::new() });
    h.user("again");
    assert_eq!(
        roles(&h),
        vec![
            (Role::System, "sys".to_string()),
            (Role::User, "hi".to_string()),
            (Role::Assistant, "done".to_string()),
            (Role::User, "again".to_string()),
        ]
    );
    h.clear();
    assert_eq!(roles(&h), roles(&ChatHistory::new("sys")));
    assert_eq!(Role::Tool.name(), "tool");
    assert_eq!(Role::System.name(), "system");
}

#[test]
fn registry_gives_back_what_was_registered() {
    let mut r: ToolRegistry<u32> = ToolRegistry::new();
    assert!(r.get_tool("a").is_none());
    r.register("a".to_string(), 1);
    r.register("b".to_string(), 2);
    r.register("a".to_string(), 3);
    assert_eq!(r.get_tool("a"), Some(&3));
    assert_eq!(r.get_tool("b"), Some(&2));
    assert_eq!(r.get_tool("c"), None);
    assert_eq!(r.tools().len(), 2);
}

#[test]
fn record_answer_keeps_the_reply_and_lists_the_runs() {
    let mut h = ChatHistory::new("sys");
    h.user("hi");
    let none = h.record_answer(&MessageResponse { content: "final".to_string(), tool_calls: Vec::new() });
    assert!(none.is_none());
    assert_eq!(roles(&h).last(), Some(&(Role::Assistant, "final".to_string())));
    let call = Json::Object(vec![(
        "function".to_string(),
        Json::Object(vec![("name".to_string(), Json::Str("TimeTool".to_string()))]),
    )]);
    let runs = h.record_answer(&MessageResponse { content: "calling".to_string(), tool_calls: vec![call] }).unwrap();
    assert_eq!(runs.len(), 1);
    assert_eq!(runs[0].name.as_deref(), Some("TimeTool"));
    assert!(matches!(runs[0].arguments, Json::Null));
    let all = h.get();
    assert_eq!(all.len(), 4);
    assert_eq!(all[3].role, Role::Assistant);
    assert_eq!(all[3].content, "calling");
}

fn field<'a>(j: &'a Json, key: &str) -> &'a Json {
    j.member(key).expect("member present")
}

#[test]
fn tool_definitions_in_order_with_default_parameters() {
    let schema = Json::Object(vec![("type".to_string(), Json::Str("object".to_string()))]);
    let defs = vec![
        ("ReadTool".to_string(), "Read a file".to_string(), Some(schema)),
        ("TimeTool".to_string(), "get local date time.".to_string(), None),
    ];
    let all = tool_definitions(&defs);
    let items = all.array_items().expect("an array");
    assert_eq!(items.len(), 2);
    assert_eq!(field(&items[0], "type").as_string(), Some("function".to_string()));
    let f0 = field(&items[0], "function");
    assert_eq!(field(f0, "name").as_string(), Some("ReadTool".to_string()));
    assert_eq!(field(f0, "description").as_string(), Some("Read a file".to_string()));
    assert_eq!(field(field(f0, "parameters"), "type").as_string(), Some("object".to_string()));
    let f1 = field(&items[1], "function");
    assert_eq!(field(f1, "name").as_string(), Some("TimeTool".to_string()));
    let p1 = field(f1, "parameters");
    assert_eq!(field(p1, "type").as_string(), Some("object".to_string()));
    assert!(matches!(field(p1, "properties"), Json::Object(e) if e.is_empty()));
    assert!(matches!(tool_definitions(&Vec::new()), Json::Array(v) if v.is_empty()));
}
