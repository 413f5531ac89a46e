use sven::agent::{
    line_text, parse_json, tool_call_arguments, tool_call_name, tool_not_found, tool_requests, LineBuffer,
    StreamState,
};
use sven::chat_history::MessageResponse;
use sven::json::Json;

fn obj(entries: Vec<(&str, Json)>) -> Json {
    Json::Object(entries.into_iter().map(|(k, v)| (k.to_string(), v)).collect())
}

fn s(x: &str) -> Json {
    Json::Str(x.to_string())
}

fn message(entries: Vec<(&str, Json)>) -> Json {
    obj(vec![("message", obj(entries))])
}

#[test]
fn chunks_split_anywhere_give_the_same_lines() {
    let whole: &[u8] = b"{\"a\":1}\n\n{\"b\":2}\r\npartial";
    let mut one = LineBuffer::new();
    let all = one.push(whole);
    for cut in 0..=whole.len() {
        let mut two = LineBuffer::new();
        let mut lines = two.push(&whole[..cut]);
        lines.extend(two.push(&whole[cut..]));
        assert_eq!(lines, all);
        assert_eq!(two.remainder(), one.remainder());
    }
    assert_eq!(all, vec![b"{\"a\":1}".to_vec(), Vec::new(), b"{\"b\":2}\r".to_vec()]);
    assert_eq!(one.remainder(), b"partial".to_vec());
}

#[test]
fn line_text_decodes_and_trims() {
    assert_eq!(line_text(b"  {\"x\":1}\r"), "{\"x\":1}");
    assert_eq!(line_text(&[0xff, b'a', b' ']), "\u{FFFD}a");
    assert_eq!(line_text(b" \t "), "");
}

#[test]
fn thinking_then_answer() {
    let mut st = StreamState::new();
    let out = st.process_json(&message(vec![("thinking", s("hm")), ("content", s(""))]));
    assert_eq!(out, "\x1b[38;2;10;140;75mhm");
    assert!(st.is_thinking);
    let out = st.process_json(&message(vec![("thinking", s(" ok"))]));
    assert_eq!(out, " ok");
    let out = st.process_json(&message(vec![("content", s("Hi"))]));
    assert_eq!(out, "\x1b[0m\n\nHi");
    assert!(!st.is_thinking);
    assert!(st.is_answering);
    let out = st.process_json(&obj(vec![("message", obj(vec![("content", s(""))])), ("done", Json::Bool(true))]));
    assert_eq!(out, "\n");
    let out = st.process_json(&obj(vec![("done", Json::Bool(true))]));
    assert_eq!(out, "\n\n");
    assert!(!st.is_answering);
    assert_eq!(st.thinking, "hm ok");
    let r = st.into_response();
    assert_eq!(r.content, "Hi");
    assert!(r.tool_calls.is_empty());
}

#[test]
fn tool_calls_are_collected() {
    let call = obj(vec![(
        "function",
        obj(vec![("name", s("TimeTool")), ("arguments", obj(vec![("x", Json::Number("1".to_string()))]))]),
    )]);
    let mut st = StreamState::new();
    let out = st.process_json(&message(vec![("tool_calls", Json::Array(vec![call]))]));
    assert_eq!(out, "");
    let out = st.process_json(&message(vec![("tool_calls", s("not a list"))]));
    assert_eq!(out, "");
    let r = st.into_response();
    assert_eq!(r.tool_calls.len(), 1);
    assert_eq!(tool_call_name(&r.tool_calls[0]), Some("TimeTool".to_string()));
    match tool_call_arguments(&r.tool_calls[0]) {
        Json::Object(entries) => {
            assert_eq!(entries.len(), 1);
            assert_eq!(entries[0].0, "x");
            assert!(matches!(&entries[0].1, Json::Number(n) if n == "1"));
        }
        other => panic!("unexpected arguments {:?}", other),
    }
    assert_eq!(tool_call_name(&obj(vec![])), None);
    assert!(matches!(tool_call_arguments(&obj(vec![])), Json::Null));
    assert_eq!(tool_call_name(&obj(vec![("function", obj(vec![("name", Json::Bool(true))]))])), None);
}

#[test]
fn unknown_tool_answer() {
    assert_eq!(tool_not_found("Nope"), "Error: Tool 'Nope' not found in registry");
}

#[test]
fn json_accessors() {
    let v = obj(vec![("a", s("x")), ("b", Json::Bool(false)), ("c", Json::Array(vec![Json::Null, s("y")]))]);
    assert_eq!(v.member("a").and_then(|j| j.as_string()), Some("x".to_string()));
    assert_eq!(v.member("b").and_then(|j| j.as_bool()), Some(false));
    assert_eq!(v.member("a").and_then(|j| j.as_bool()), None);
    assert!(v.member("zzz").is_none());
    assert_eq!(v.member("c").and_then(|j| j.array_items()).map(|items| items.len()), Some(2));
    assert!(matches!(v.copy(), Json::Object(e) if e.len() == 3));
}

#[test]
fn tool_requests_follow_the_calls() {
    let none = MessageResponse { content: "answer".to_string(), tool_calls: Vec::new() };
    assert!(tool_requests(&none).is_none());
    let calls = vec![
        obj(vec![("function", obj(vec![("name", s("ReadTool")), ("arguments", obj(vec![("path", s("a"))]))]))]),
        obj(vec![("function", obj(vec![("arguments", Json::Null)]))]),
    ];
    let reqs = tool_requests(&MessageResponse { content: String::new(), tool_calls: calls }).unwrap();
    assert_eq!(reqs.len(), 2);
    assert_eq!(reqs[0].name.as_deref(), Some("ReadTool"));
    assert!(matches!(&reqs[0].arguments, Json::Object(e) if e.len() == 1 && e[0].0 == "path"));
    assert_eq!(reqs[1].name, None);
    assert!(matches!(reqs[1].arguments, Json::Null));
}

fn answer(chunks: &[&[u8]]) -> (String, String, usize, String) {
    let mut st = StreamState::new();
    let mut buf = LineBuffer::new();
    let mut shown = String::new();
    for c in chunks {
        shown.push_str(&st.feed(&mut buf, c));
    }
    let thinking = st.thinking.clone();
    let (r, last) = st.finish(&buf);
    shown.push_str(&last);
    (r.content, thinking, r.tool_calls.len(), shown)
}

#[test]
fn the_answer_does_not_depend_on_chunking() {
    let all = "{\"message\":{\"thinking\":\"h\u{e9}\"}}\n{\"message\":{\"content\":\"Gr\u{fc}\u{df} \"}}\nnot json\n\n{\"message\":{\"content\":\"dich\",\"tool_calls\":[{\"function\":{\"name\":\"T\"}}]},\"done\":true}"
        .as_bytes();
    let whole = answer(&[all]);
    assert_eq!((whole.0.as_str(), whole.1.as_str(), whole.2), ("Grüß dich", "hé", 1));
    assert!(whole.3.contains("... couldn't decode JSON: "));
    assert!(whole.3.contains("... skipping line \"not json\"\n"));
    for cut in 0..=all.len() {
        assert_eq!(answer(&[&all[..cut], &all[cut..]]), whole, "cut at {}", cut);
    }
    let bytes: Vec<&[u8]> = all.chunks(3).collect();
    assert_eq!(answer(&bytes), whole);
}

#[test]
fn finish_reports_a_bad_last_line_without_the_skip_note() {
    let (content, _, _, shown) = answer(&[b"{\"message\":{\"content\":\"ok\"}}\nbroken"]);
    assert_eq!(content, "ok");
    assert!(shown.starts_with("ok... couldn't decode JSON: "));
    assert!(!shown.contains("skipping line"));
    let (content, _, calls, shown) = answer(&[]);
    assert_eq!((content.as_str(), calls, shown.as_str()), ("", 0, ""));
}

#[test]
fn parse_json_reads_values_and_reports_errors() {
    match parse_json("{\"a\": [1, true, null, \"x\"], \"b\": {}}").unwrap() {
        Json::Object(entries) => {
            assert_eq!(entries.len(), 2);
            assert_eq!(entries[0].0, "a");
            assert!(matches!(&entries[0].1, Json::Array(items) if items.len() == 4
                && matches!(&items[0], Json::Number(n) if n == "1")
                && matches!(items[1], Json::Bool(true))
                && matches!(items[2], Json::Null)
                && matches!(&items[3], Json::Str(x) if x == "x")));
            assert!(matches!(&entries[1].1, Json::Object(e) if e.is_empty()));
        }
        other => panic!("unexpected {:?}", other),
    }
    let err = parse_json("not json").unwrap_err();
    assert!(err.contains("line 1"), "{}", err);
}
