use loki_core::handler::{SseHandler, ToolCall};
use loki_core::stream::JsonStreamParser;

fn feed(chunks: &[&str]) -> Vec<String> {
    let mut parser = JsonStreamParser::new();
    let mut out = Vec::new();
    for chunk in chunks {
        out.extend(parser.process(chunk));
    }
    out
}

fn all_splits(text: &str) -> Vec<Vec<String>> {
    let cuts: Vec<usize> = text.char_indices().map(|(i, _)| i).chain([text.len()]).collect();
    let mut results = Vec::new();
    for a in 1..cuts.len() - 1 {
        for b in a + 1..cuts.len() {
            let (x, y, z) = (&text[..cuts[a]], &text[cuts[a]..cuts[b]], &text[cuts[b]..]);
            results.push(feed(&[x, y, z]));
        }
    }
    results
}

#[test]
fn test_json_stream_ndjson() {
    let data = "{\"key\": \"value\"}\n{\"key\": \"value2\"}\n{\"key\": \"value3\"}";
    for output in all_splits(data) {
        assert_eq!(data.replace("\r\n", "\n"), output.join("\n"));
    }
}

#[test]
fn test_json_stream_array() {
    let input = "[\n{\"key\": \"value\"},\n{\"key\": \"value2\"},\n{\"key\": \"value3\"},";
    let output = "{\"key\": \"value\"}\n{\"key\": \"value2\"}\n{\"key\": \"value3\"}";
    for got in all_splits(input) {
        assert_eq!(output.replace("\r\n", "\n"), got.join("\n"));
    }
}

#[test]
fn json_stream_three_objects_in_array() {
    let input = "[{\"k\":\"v\"},\n{\"k\":\"v2\"},\n{\"k\":\"v3\"}]";
    for got in all_splits(input) {
        assert_eq!(got, vec!["{\"k\":\"v\"}", "{\"k\":\"v2\"}", "{\"k\":\"v3\"}"]);
    }
}

#[test]
fn json_stream_braces_in_strings() {
    let input = "{\"a\": \"}{\\\"\", \"b\": [1, {\"c\": \"\\\\\"}]} {\"d\": 2}";
    let got = feed(&[input]);
    assert_eq!(got, vec!["{\"a\": \"}{\\\"\", \"b\": [1, {\"c\": \"\\\\\"}]}", "{\"d\": 2}"]);
}

#[test]
fn json_stream_non_ascii() {
    let got = feed(&["{\"k\": \"é", "✓\"}"]);
    assert_eq!(got, vec!["{\"k\": \"é✓\"}"]);
}

fn call(name: &str, arguments: &str) -> ToolCall {
    ToolCall::new(name.to_string(), arguments.to_string(), None)
}

#[test]
fn test_last_tool_calls_ring_buffer() {
    let mut handler = SseHandler::new();
    for i in 0..15 {
        let c = call(&format!("test_function_{}", i), &format!("{{\"param\":{}}}", i));
        handler.tool_call(c).unwrap();
    }
    let lt_len = 3 * 2;
    assert_eq!(handler.last_tool_calls().len(), lt_len);
    assert_eq!(handler.last_tool_calls()[lt_len - 1].name, "test_function_14");
    assert_eq!(
        handler.last_tool_calls()[0].name,
        format!("test_function_{}", 14 - lt_len + 1)
    );
}

#[test]
fn test_call_loop_detection() {
    let mut handler = SseHandler::with_limits(2, 3);
    let c = call("test_function_loop", "{\"param\":1}");
    for _ in 0..3 {
        handler.tool_call(c.clone()).unwrap();
    }
    let result = handler.tool_call(c.clone());
    assert!(result.is_err());
    let error_message = result.unwrap_err();
    assert!(error_message.contains("Call loop detected!"));
    assert!(error_message.contains("test_function_loop"));
}

#[test]
fn loop_message_lists_chain() {
    let mut handler = SseHandler::new();
    let c = call("f", "{\"x\":1}");
    for _ in 0..3 {
        handler.tool_call(c.clone()).unwrap();
    }
    let message = handler.tool_call(c).unwrap_err();
    assert!(message.contains("Call loop detected"));
    assert!(message.contains("The call 'f' with arguments '{\"x\":1}' is repeating.\n"));
    assert!(message.contains("  1. f with arguments {\"x\":1}\n  2. f with arguments {\"x\":1}\n  3. f with arguments {\"x\":1}\n"));
    let (_, calls) = handler.take();
    assert_eq!(calls.len(), 3);
}

#[test]
fn alternating_calls_never_refused() {
    let mut handler = SseHandler::new();
    for i in 0..50 {
        let name = if i % 2 == 0 { "a" } else { "b" };
        assert!(handler.tool_call(call(name, "{}")).is_ok());
    }
    let (_, calls) = handler.take();
    assert_eq!(calls.len(), 50);
}

#[test]
fn same_name_other_arguments_accepted() {
    let mut handler = SseHandler::new();
    for i in 0..10 {
        assert!(handler.tool_call(call("f", &format!("{{\"x\":{}}}", i))).is_ok());
    }
}

#[test]
fn text_accumulates() {
    let mut handler = SseHandler::new();
    handler.text("Hello, ");
    handler.text("");
    handler.text("world");
    let (text, calls) = handler.take();
    assert_eq!(text, "Hello, world");
    assert!(calls.is_empty());
}
