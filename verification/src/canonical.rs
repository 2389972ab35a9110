//! Canonical texts of message contents: equal texts for contents that count as
//! the same prompt.

use crate::digest;
use crate::json;
use crate::json::Json;
use crate::text;
use vstd::prelude::*;

verus! {

/// What stands between the blocks of one content.
pub open spec fn block_separator() -> Seq<char> {
    seq!['\u{1F}']
}

proof fn lookup_smaller(members: Seq<(String, Json)>, key: Seq<char>)
    ensures
        json::lookup(members, key) matches Some(v) ==> decreases_to!(members => v),
    decreases members.len(),
{
    if members.len() > 0 {
        if members.last().0@ == key {
            assert(decreases_to!(members => members[members.len() - 1]));
            assert(decreases_to!(members => members[members.len() - 1].1));
        } else {
            lookup_smaller(members.drop_last(), key);
        }
    }
}

/// A member of an object is smaller than the object.
pub proof fn member_smaller(v: Json, key: Seq<char>)
    ensures
        json::member(v, key) matches Some(w) ==> decreases_to!(v => w),
{
    if let Json::Object(members) = v {
        lookup_smaller(members@, key);
        assert(decreases_to!(v => v->Object_0@));
    }
}

/// The canonical text of a message's content: a string trimmed, an array as its
/// blocks, anything else as compact JSON.
pub open spec fn content_text(content: Json) -> Seq<char>
    decreases content,
{
    match content {
        Json::Text(s) => text::trimmed(s@),
        Json::Array(items) => text::joined(block_texts(items@), block_separator()),
        _ => json::compact_text(content),
    }
}

/// The canonical texts of content blocks.
pub open spec fn block_texts(blocks: Seq<Json>) -> Seq<Seq<char>>
    decreases blocks,
{
    if blocks.len() == 0 {
        Seq::empty()
    } else {
        block_texts(blocks.drop_last()).push(block_text(blocks.last()))
    }
}

/// The kind of a block: its member `type`.
pub open spec fn block_kind(block: Json) -> Seq<char> {
    json::text_or_empty(json::member(block, "type"@))
}

/// A member of the member `source` of a block, as a string.
pub open spec fn source_part(block: Json, key: Seq<char>) -> Seq<char> {
    match json::member(block, "source"@) {
        Some(source) => json::text_or_empty(json::member(source, key)),
        None => Seq::empty(),
    }
}

/// The canonical text of one content block, by its kind.
pub open spec fn block_text(block: Json) -> Seq<char>
    decreases block,
{
    let kind = block_kind(block);
    if kind == "text"@ {
        text::trimmed(json::text_or_empty(json::member(block, "text"@)))
    } else if kind == "tool_use"@ {
        "tool_use:"@ + json::text_or_empty(json::member(block, "name"@)) + ":"@ + (
        match json::member(block, "input"@) {
            Some(input) => json::canonical_text(input),
            None => "null"@,
        })
    } else if kind == "tool_result"@ {
        proof {
            member_smaller(block, "content"@);
        }
        "tool_result:"@ + json::text_or_empty(json::member(block, "tool_use_id"@)) + ":"@ + (
        match json::member(block, "content"@) {
            Some(inner) => content_text(inner),
            None => "null"@,
        })
    } else if kind == "image"@ || kind == "document"@ {
        kind + ":"@ + source_part(block, "media_type"@) + ":"@ + digest::short_hex(
            digest::sha256(vstd::utf8::encode_utf8(source_part(block, "data"@))),
        )
    } else {
        kind
    }
}

/// A member of the member `source` of a block, as a string.
fn source_str(block: &Json, key: &str) -> (r: String)
    ensures
        r@ == source_part(*block, key@),
{
    match block.get("source") {
        Some(source) => source.str_or_empty(key),
        None => String::new(),
    }
}

/// The canonical text of a message's content.
pub fn canonicalize_message_content(content: &Json) -> (r: String)
    ensures
        r@ == content_text(*content),
    decreases content,
{
    match content {
        Json::Text(s) => text::trim(s.as_str()),
        Json::Array(items) => {
            let mut parts: Vec<String> = Vec::new();
            let mut i: usize = 0;
            while i < items.len()
                invariant
                    *content == Json::Array(*items),
                    i <= items.len(),
                    text::views(parts@) == block_texts(items@.take(i as int)),
                decreases items.len() - i,
            {
                assert(decreases_to!(*content => content->Array_0@[i as int]));
                let t = canonicalize_content_block(&items[i]);
                parts.push(t);
                assert(items@.take(i + 1).drop_last() =~= items@.take(i as int));
                assert(text::views(parts@) =~= block_texts(items@.take(i + 1)));
                i += 1;
            }
            assert(items@.take(items.len() as int) =~= items@);
            proof {
                reveal_strlit("\u{1F}");
            }
            assert("\u{1F}"@ =~= block_separator());
            text::join(&parts, "\u{1F}")
        },
        _ => json::compact_json(content),
    }
}

/// The canonical text of one content block, by its kind. The data of an image
/// or a document enters through the digest of its characters.
pub fn canonicalize_content_block(block: &Json) -> (r: String)
    ensures
        r@ == block_text(*block),
    decreases block,
{
    let kind = block.str_or_empty("type");
    if text::same(kind.as_str(), "text") {
        let t = block.str_or_empty("text");
        text::trim(t.as_str())
    } else if text::same(kind.as_str(), "tool_use") {
        let mut r = "tool_use:".to_owned();
        let name = block.str_or_empty("name");
        r.append(name.as_str());
        r.append(":");
        match block.get("input") {
            Some(input) => {
                let t = json::canonical_json(input);
                r.append(t.as_str());
            },
            None => {
                r.append("null");
            },
        }
        r
    } else if text::same(kind.as_str(), "tool_result") {
        let mut r = "tool_result:".to_owned();
        let id = block.str_or_empty("tool_use_id");
        r.append(id.as_str());
        r.append(":");
        match block.get("content") {
            Some(inner) => {
                proof {
                    member_smaller(*block, "content"@);
                }
                let t = canonicalize_message_content(inner);
                r.append(t.as_str());
            },
            None => {
                r.append("null");
            },
        }
        r
    } else if text::same(kind.as_str(), "image") || text::same(kind.as_str(), "document") {
        let media_type = source_str(block, "media_type");
        let data = source_str(block, "data");
        let hash = digest::sha256_digest(data.as_str().as_bytes());
        let short = digest::hex_short(hash.as_slice());
        let mut r = kind;
        r.append(":");
        r.append(media_type.as_str());
        r.append(":");
        r.append(short.as_str());
        r
    } else {
        kind
    }
}

proof fn blocks_index(blocks: Seq<Json>)
    ensures
        block_texts(blocks) == Seq::new(blocks.len(), |i: int| block_text(blocks[i])),
    decreases blocks.len(),
{
    let all = Seq::new(blocks.len(), |i: int| block_text(blocks[i]));
    if blocks.len() > 0 {
        blocks_index(blocks.drop_last());
        assert(all.drop_last() =~= block_texts(blocks.drop_last()));
    }
    assert(block_texts(blocks) =~= all);
}

/// A content by its form: of a string the trimmed text, of an array every block in
/// its order with U+001F between them, of anything else the compact JSON text.
pub proof fn contents_by_form(s: String, items: Vec<Json>, other: Json)
    ensures
        content_text(Json::Text(s)) == text::trimmed(s@),
        content_text(Json::Array(items)) == text::joined(
            Seq::new(items@.len(), |i: int| block_text(items@[i])),
            "\u{1F}"@,
        ),
        other !is Text && other !is Array ==> content_text(other) == json::compact_text(other),
{
    blocks_index(items@);
    reveal_strlit("\u{1F}");
    assert("\u{1F}"@ =~= block_separator());
}

/// Whether the member `key` of `v` is a string with the given characters.
pub open spec fn holds_text(v: Json, key: Seq<char>, s: Seq<char>) -> bool {
    json::member(v, key) matches Some(Json::Text(t)) && t@ == s
}

/// Whether `v` has no string as its member `key`.
pub open spec fn holds_no_text(v: Json, key: Seq<char>) -> bool {
    !(json::member(v, key) matches Some(Json::Text(_)))
}

/// A text block is its trimmed text; nothing where it holds none.
pub proof fn text_block(block: Json, s: Seq<char>)
    requires
        holds_text(block, "type"@, "text"@),
    ensures
        holds_text(block, "text"@, s) ==> block_text(block) == text::trimmed(s),
        holds_no_text(block, "text"@) ==> block_text(block) == Seq::<char>::empty(),
{
    assert(text::trimmed(Seq::empty()) =~= Seq::empty());
}

/// A tool call shows its name and the canonical text of its input; `null` where it
/// has none.
pub proof fn tool_call_block(block: Json, name: Seq<char>)
    requires
        holds_text(block, "type"@, "tool_use"@),
        holds_text(block, "name"@, name) || (holds_no_text(block, "name"@) && name
            == Seq::<char>::empty()),
    ensures
        block_text(block) == "tool_use:"@ + name + ":"@ + (match json::member(block, "input"@) {
            Some(input) => json::canonical_text(input),
            None => "null"@,
        }),
{
    kinds_differ();
}

/// A tool result shows the call it answers and its content: the trimmed text of a
/// string, the blocks of an array, the JSON text of anything else, and `null`
/// where there is none.
pub proof fn tool_result_block(block: Json, id: Seq<char>)
    requires
        holds_text(block, "type"@, "tool_result"@),
        holds_text(block, "tool_use_id"@, id) || (holds_no_text(block, "tool_use_id"@) && id
            == Seq::<char>::empty()),
    ensures
        block_text(block) == "tool_result:"@ + id + ":"@ + (match json::member(
            block,
            "content"@,
        ) {
            Some(Json::Text(s)) => text::trimmed(s@),
            Some(Json::Array(items)) => text::joined(
                Seq::new(items@.len(), |i: int| block_text(items@[i])),
                "\u{1F}"@,
            ),
            Some(other) => json::compact_text(other),
            None => "null"@,
        }),
{
    kinds_differ();
    if let Some(Json::Array(items)) = json::member(block, "content"@) {
        blocks_index(items@);
        reveal_strlit("\u{1F}");
        assert("\u{1F}"@ =~= block_separator());
    }
}

/// Two results of one call with different trimmed texts have different canonical
/// texts.
pub proof fn different_results_differ(a: Json, b: Json, id: Seq<char>, s: Seq<char>, t: Seq<char>)
    requires
        holds_text(a, "type"@, "tool_result"@),
        holds_text(b, "type"@, "tool_result"@),
        holds_text(a, "tool_use_id"@, id),
        holds_text(b, "tool_use_id"@, id),
        holds_text(a, "content"@, s),
        holds_text(b, "content"@, t),
        text::trimmed(s) != text::trimmed(t),
    ensures
        block_text(a) != block_text(b),
{
    tool_result_block(a, id);
    tool_result_block(b, id);
    same_front(
        "tool_result:"@ + id + ":"@,
        text::trimmed(s),
        text::trimmed(t),
    );
}

/// Two calls of one tool whose inputs have different canonical texts have
/// different canonical texts themselves.
pub proof fn different_inputs_differ(a: Json, b: Json, name: Seq<char>, x: Json, y: Json)
    requires
        holds_text(a, "type"@, "tool_use"@),
        holds_text(b, "type"@, "tool_use"@),
        holds_text(a, "name"@, name),
        holds_text(b, "name"@, name),
        json::member(a, "input"@) == Some(x),
        json::member(b, "input"@) == Some(y),
        json::canonical_text(x) != json::canonical_text(y),
    ensures
        block_text(a) != block_text(b),
{
    tool_call_block(a, name);
    tool_call_block(b, name);
    same_front("tool_use:"@ + name + ":"@, json::canonical_text(x), json::canonical_text(y));
}

proof fn same_front(front: Seq<char>, x: Seq<char>, y: Seq<char>)
    requires
        x != y,
    ensures
        front + x != front + y,
{
    let n = front.len() as int;
    assert((front + x).skip(n) =~= x);
    assert((front + y).skip(n) =~= y);
}

/// An image or a document shows its kind, its media type and the first eight bytes
/// of the SHA-256 digest of its data; media type and data are empty where there is
/// no such string.
pub proof fn source_block(
    block: Json,
    kind: Seq<char>,
    source: Json,
    media_type: Seq<char>,
    data: Seq<char>,
)
    requires
        kind == "image"@ || kind == "document"@,
        holds_text(block, "type"@, kind),
        json::member(block, "source"@) == Some(source) || (json::member(block, "source"@) is None
            && source == Json::Null),
        holds_text(source, "media_type"@, media_type) || (holds_no_text(source, "media_type"@)
            && media_type == Seq::<char>::empty()),
        holds_text(source, "data"@, data) || (holds_no_text(source, "data"@) && data == Seq::<
            char,
        >::empty()),
    ensures
        block_text(block) == kind + ":"@ + media_type + ":"@ + digest::short_hex(
            digest::sha256(vstd::utf8::encode_utf8(data)),
        ),
{
    kinds_differ();
}

/// A block of any other kind is its kind alone, and nothing where it has none.
pub proof fn other_block(block: Json, kind: Seq<char>)
    requires
        holds_text(block, "type"@, kind) || (holds_no_text(block, "type"@) && kind == Seq::<
            char,
        >::empty()),
        kind != "text"@,
        kind != "tool_use"@,
        kind != "tool_result"@,
        kind != "image"@,
        kind != "document"@,
    ensures
        block_text(block) == kind,
{
}

proof fn kinds_differ()
    ensures
        "tool_use"@ != "text"@,
        "tool_result"@ != "text"@,
        "tool_result"@ != "tool_use"@,
        "image"@ != "text"@,
        "image"@ != "tool_use"@,
        "image"@ != "tool_result"@,
        "document"@ != "text"@,
        "document"@ != "tool_use"@,
        "document"@ != "tool_result"@,
{
    reveal_strlit("text");
    reveal_strlit("tool_use");
    reveal_strlit("tool_result");
    reveal_strlit("image");
    reveal_strlit("document");
    assert("text"@.len() == 4);
    assert("tool_use"@.len() == 8);
    assert("tool_result"@.len() == 11);
    assert("image"@.len() == 5);
    assert("document"@.len() == 8);
    assert("document"@[0] != "tool_use"@[0]);
}

} // verus!
