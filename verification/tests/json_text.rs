use promptmeter::canonical::{canonicalize_content_block, canonicalize_message_content};
use promptmeter::digest::hex_short;
use promptmeter::json::{canonical_json, compact_json, Json};
use promptmeter::text;

fn string(s: &str) -> Json {
    Json::Text(s.to_string())
}

fn number(s: &str) -> Json {
    Json::Number(s.to_string())
}

fn object(members: Vec<(&str, Json)>) -> Json {
    Json::Object(members.into_iter().map(|(k, v)| (k.to_string(), v)).collect())
}

fn from_value(v: &serde_json::Value) -> Json {
    match v {
        serde_json::Value::Null => Json::Null,
        serde_json::Value::Bool(b) => Json::Bool(*b),
        serde_json::Value::Number(n) => Json::Number(n.to_string()),
        serde_json::Value::String(s) => Json::Text(s.clone()),
        serde_json::Value::Array(a) => Json::Array(a.iter().map(from_value).collect()),
        serde_json::Value::Object(m) => {
            Json::Object(m.iter().map(|(k, v)| (k.clone(), from_value(v))).collect())
        }
    }
}

#[test]
fn strings_are_escaped_as_serde_json_does() {
    let mut all = String::new();
    for n in 0..0x300u32 {
        all.push(char::from_u32(n).unwrap());
    }
    all.push_str("中文\u{2028}\u{10ffff}");
    for c in all.chars() {
        let s = c.to_string();
        assert_eq!(compact_json(&string(&s)), serde_json::to_string(&s).unwrap(), "{:?}", c);
    }
    assert_eq!(compact_json(&string(&all)), serde_json::to_string(&all).unwrap());
    assert_eq!(compact_json(&string("a\"b\\c\n\u{1}/")), "\"a\\\"b\\\\c\\n\\u0001/\"");
}

#[test]
fn compact_text_is_that_of_serde_json() {
    let sources = [
        "null",
        "true",
        "false",
        "-1.5e10",
        "[]",
        "{}",
        "[1,[2,3],{\"a\":null}]",
        "{\"b\":{\"x\":[true,false]},\"a\":\"q\\\"\",\"\":0}",
    ];
    for source in sources {
        let value: serde_json::Value = serde_json::from_str(source).unwrap();
        assert_eq!(compact_json(&from_value(&value)), value.to_string());
    }
}

#[test]
fn canonical_text_sorts_keys() {
    let a = object(vec![
        ("b", number("1")),
        ("a", object(vec![("z", Json::Null), ("y", Json::Bool(true))])),
    ]);
    let b = object(vec![
        ("a", object(vec![("y", Json::Bool(true)), ("z", Json::Null)])),
        ("b", number("1")),
    ]);
    assert_eq!(canonical_json(&a), "{a:{y:true,z:null},b:1}");
    assert_eq!(canonical_json(&a), canonical_json(&b));
    assert_eq!(canonical_json(&Json::Array(vec![number("2"), string("x\"")])), "[2,\"x\\\"\"]");
    assert_eq!(canonical_json(&object(vec![])), "{}");
    assert_eq!(canonical_json(&Json::Array(vec![])), "[]");
    // keys are ordered by code point
    let c = object(vec![("é", number("3")), ("ab", number("2")), ("B", number("1"))]);
    assert_eq!(canonical_json(&c), "{B:1,ab:2,é:3}");
}

#[test]
fn later_member_counts() {
    let v = object(vec![("a", number("1")), ("a", number("2"))]);
    assert!(matches!(v.get("a"), Some(Json::Number(n)) if n == "2"));
    assert_eq!(canonical_json(&v), "{a:2}");
}

#[test]
fn members_are_found() {
    let v = object(vec![("a", string("x")), ("b", number("1"))]);
    assert_eq!(v.get_str("a"), Some("x"));
    assert_eq!(v.get_str("b"), None);
    assert_eq!(v.get_str("c"), None);
    assert_eq!(string("t").as_str(), Some("t"));
    assert!(string("t").get("a").is_none());
    assert_eq!(v.str_or_empty("a"), "x");
    assert_eq!(v.str_or_empty("b"), "");
}

#[test]
fn message_content_forms() {
    assert_eq!(canonicalize_message_content(&string("  hi \n")), "hi");
    assert_eq!(canonicalize_message_content(&Json::Null), "null");
    assert_eq!(
        canonicalize_message_content(&object(vec![("b", number("1")), ("a", number("2"))])),
        "{\"b\":1,\"a\":2}"
    );
    let blocks = Json::Array(vec![
        object(vec![("type", string("text")), ("text", string(" a "))]),
        object(vec![("type", string("text"))]),
        object(vec![("type", string("thinking"))]),
        number("1"),
    ]);
    assert_eq!(canonicalize_message_content(&blocks), "a\u{1f}\u{1f}thinking\u{1f}");
}

#[test]
fn tool_blocks() {
    let call = object(vec![
        ("type", string("tool_use")),
        ("name", string("f")),
        ("input", object(vec![("b", number("2")), ("a", number("1"))])),
    ]);
    assert_eq!(canonicalize_content_block(&call), "tool_use:f:{a:1,b:2}");
    assert_eq!(
        canonicalize_content_block(&object(vec![("type", string("tool_use"))])),
        "tool_use::null"
    );
    let result = object(vec![
        ("type", string("tool_result")),
        ("tool_use_id", string("id1")),
        (
            "content",
            Json::Array(vec![object(vec![("type", string("text")), ("text", string(" r "))])]),
        ),
    ]);
    assert_eq!(canonicalize_content_block(&result), "tool_result:id1:r");
    assert_eq!(
        canonicalize_content_block(&object(vec![("type", string("tool_result"))])),
        "tool_result::null"
    );
}

#[test]
fn sources_are_digested() {
    // the SHA-256 digest of "abc" begins with ba7816bf8f01cfea
    let source = object(vec![("media_type", string("image/png")), ("data", string("abc"))]);
    let image = object(vec![("type", string("image")), ("source", source)]);
    assert_eq!(canonicalize_content_block(&image), "image:image/png:ba7816bf8f01cfea");
    // and that of nothing with e3b0c44298fc1c14
    let document = object(vec![("type", string("document"))]);
    assert_eq!(canonicalize_content_block(&document), "document::e3b0c44298fc1c14");
}

#[test]
fn short_hex_takes_eight_bytes() {
    assert_eq!(hex_short(&[0x00, 0x0f, 0xa5, 0xff]), "000fa5ff");
    assert_eq!(hex_short(&[]), "");
    assert_eq!(hex_short(&[1, 2, 3, 4, 5, 6, 7, 8, 9]), "0102030405060708");
}

#[test]
fn white_space_is_that_of_std() {
    for n in 0..=0x10ffffu32 {
        if let Some(c) = char::from_u32(n) {
            assert_eq!(text::is_white(c), c.is_whitespace(), "{:?}", c);
        }
    }
}

#[test]
fn trimming_is_that_of_std() {
    for s in ["", " ", " a", "a ", "\u{3000} a b \u{85}\n", "中\t", "\u{200b}x\u{200b}"] {
        assert_eq!(text::trim(s), s.trim(), "{:?}", s);
    }
}

#[test]
fn search_and_order_are_those_of_std() {
    let list = ["", "a", "ab", "b", "é", "中", "\u{ffff}", "\u{10000}", "opus-4-8", "4-8"];
    for a in list {
        for b in list {
            assert_eq!(text::contains(a, b), a.contains(b), "{:?} {:?}", a, b);
            assert_eq!(text::less(a, b), a < b, "{:?} {:?}", a, b);
            assert_eq!(text::same(a, b), a == b, "{:?} {:?}", a, b);
        }
    }
}

#[test]
fn joining_is_that_of_std() {
    for parts in [vec![], vec!["a"], vec!["a", "", "b"]] {
        let owned: Vec<String> = parts.iter().map(|s| s.to_string()).collect();
        assert_eq!(text::join(&owned, "--"), parts.join("--"));
    }
}
