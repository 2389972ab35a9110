use promptmeter::json::Json;
use promptmeter::messages::{Message, SystemMessage, Tool};
use promptmeter::token::{
    count_all_tokens_local, count_tokens, estimate_output_tokens, is_non_western_char,
};

fn text(s: &str) -> Json {
    Json::Text(s.to_string())
}

fn object(members: Vec<(&str, Json)>) -> Json {
    Json::Object(members.into_iter().map(|(k, v)| (k.to_string(), v)).collect())
}

fn message(role: &str, content: Json) -> Message {
    Message { role: role.to_string(), content }
}

fn system(s: &str) -> SystemMessage {
    SystemMessage { text: s.to_string() }
}

#[test]
fn test_count_tokens_hello_world() {
    // 10 letters and 1 space: 10/4.5 + 1/1.5 = 2.889, rounded up 3
    assert_eq!(count_tokens("Hello world"), 3);
}

#[test]
fn test_count_tokens_400_letters() {
    let text = "a".repeat(400);
    assert_eq!(count_tokens(&text), 89);
}

#[test]
fn test_count_tokens_4000_letters() {
    let text = "a".repeat(4000);
    assert_eq!(count_tokens(&text), 889);
}

#[test]
fn test_count_tokens_chinese() {
    assert_eq!(count_tokens("你好世界"), 3);
}

#[test]
fn test_count_tokens_1000_letters_range() {
    let text = "a".repeat(1000);
    let result = count_tokens(&text);
    assert!((200..=240).contains(&result), "got {}", result);
}

#[test]
fn test_count_tokens_1000_digits_range() {
    let text = "1".repeat(1000);
    let result = count_tokens(&text);
    assert!((480..=520).contains(&result), "got {}", result);
}

#[test]
fn test_count_tokens_100_symbols_range() {
    let text = "!".repeat(100);
    let result = count_tokens(&text);
    assert!((60..=80).contains(&result), "got {}", result);
}

#[test]
fn test_count_tokens_1000_cjk_range() {
    let text = "中".repeat(1000);
    let result = count_tokens(&text);
    assert!((660..=700).contains(&result), "got {}", result);
}

#[test]
fn test_count_tokens_empty_string_min_1() {
    assert_eq!(count_tokens(""), 1);
}

#[test]
fn test_count_tokens_single_char_min_1() {
    assert_eq!(count_tokens("a"), 1);
}

#[test]
fn test_count_tokens_mixed() {
    // 10 letters, 5 digits, 3 symbols, 2 CJK:
    // 10/4.5 + 5/2.0 + 3/1.5 + 2/1.5 = 8.056, rounded up 9
    let text = "abcdefghij12345!@#中文";
    assert_eq!(count_tokens(text), 9);
}

#[test]
fn counts_are_exact() {
    assert_eq!(count_tokens(&"a".repeat(1000)), 223);
    assert_eq!(count_tokens(&"1".repeat(1000)), 500);
    assert_eq!(count_tokens(&"!".repeat(100)), 67);
    assert_eq!(count_tokens(&"中".repeat(1000)), 667);
    // whole sums stay as they are
    assert_eq!(count_tokens("abcdefghi"), 2);
    assert_eq!(count_tokens("12"), 1);
    assert_eq!(count_tokens("!!!"), 2);
    assert_eq!(count_tokens("12!!!!!é"), 5);
}

#[test]
fn class_borders() {
    // 18 of one kind: letters 4, digits 9, others 12
    for (c, n) in [
        ('@', 12),
        ('A', 4),
        ('Z', 4),
        ('[', 12),
        ('`', 12),
        ('a', 4),
        ('z', 4),
        ('{', 12),
        ('/', 12),
        ('0', 9),
        ('9', 9),
        (':', 12),
        ('\u{7f}', 12),
        ('\u{80}', 12),
        ('\u{10ffff}', 12),
    ] {
        assert_eq!(count_tokens(&c.to_string().repeat(18)), n, "{:?}", c);
    }
}

#[test]
fn concatenation_costs_no_less_than_a_part_and_no_more_than_both() {
    let parts = ["", "a", "Hello world", "123", "中文!", "x y z 1 2 3"];
    for a in parts {
        for b in parts {
            let both = count_tokens(&format!("{}{}", a, b));
            assert!(both >= count_tokens(a) && both >= count_tokens(b));
            assert!(both <= count_tokens(a) + count_tokens(b));
        }
    }
}

#[test]
fn order_of_characters_does_not_count() {
    let s = "abc 123 中文";
    let reversed: String = s.chars().rev().collect();
    assert_eq!(count_tokens(s), count_tokens(&reversed));
}

#[test]
fn non_western_characters() {
    for c in ['a', '\u{7f}', '\u{80}', '\u{ff}', '\u{100}', '\u{24f}', '\u{1e00}', '\u{1eff}',
        '\u{2c60}', '\u{2c7f}', '\u{a720}', '\u{a7ff}', '\u{ab30}', '\u{ab6f}'] {
        assert!(!is_non_western_char(c), "{:?}", c);
    }
    for c in ['\u{250}', '\u{1dff}', '\u{1f00}', '\u{2c5f}', '\u{2c80}', '\u{a71f}', '\u{a800}',
        '\u{ab2f}', '\u{ab70}', '中', '\u{10ffff}'] {
        assert!(is_non_western_char(c), "{:?}", c);
    }
}

#[test]
fn request_sums_its_parts() {
    // 3 + 1
    let systems = [system("Hello world"), system("a")];
    let blocks = Json::Array(vec![
        object(vec![("type", text("text")), ("text", text("Hello world"))]),
        object(vec![("type", text("image"))]),
        object(vec![("text", Json::Number("7".to_string()))]),
        text("not a block"),
    ]);
    // 3 + 3 + 0
    let messages =
        [message("user", text("你好世界")), message("user", blocks), message("user", Json::Null)];
    // name 1, description 3, schema {"a":1}: 1 letter, 1 digit, 5 symbols = 73/18, rounded up 5
    let tools = [Tool {
        name: "f".to_string(),
        description: "Hello world".to_string(),
        input_schema: object(vec![("a", Json::Number("1".to_string()))]),
    }];
    assert_eq!(count_all_tokens_local(Some(&systems), &messages, Some(&tools)), 4 + 6 + 9);
    assert_eq!(count_all_tokens_local(None, &messages, Some(&tools)), 6 + 9);
    assert_eq!(count_all_tokens_local(Some(&systems), &[], None), 4);
}

#[test]
fn request_costs_at_least_one() {
    assert_eq!(count_all_tokens_local(None, &[], None), 1);
    assert_eq!(count_all_tokens_local(Some(&[]), &[message("user", Json::Null)], Some(&[])), 1);
}

#[test]
fn reply_sums_texts_and_call_inputs() {
    let input = object(vec![("a", Json::Number("1".to_string()))]);
    let call = object(vec![("type", text("tool_use")), ("name", text("f")), ("input", input)]);
    let plain = object(vec![("type", text("text")), ("text", text("Hello world"))]);
    assert_eq!(estimate_output_tokens(&[plain, call]), 3 + 5);
    assert_eq!(estimate_output_tokens(&[]), 1);
    // an input counts only in a tool call
    let other = object(vec![("type", text("other")), ("input", text("Hello world"))]);
    assert_eq!(estimate_output_tokens(&[other]), 1);
    // a call may carry a text too
    let both = object(vec![
        ("type", text("tool_use")),
        ("text", text("Hello world")),
        ("input", Json::Null),
    ]);
    assert_eq!(estimate_output_tokens(&[both]), 3 + 1);
    let bare = object(vec![("type", text("tool_use"))]);
    assert_eq!(estimate_output_tokens(&[bare]), 1);
}
