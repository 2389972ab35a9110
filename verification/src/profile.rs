//! The fingerprint profile of a request: its segments in order, and for each
//! the digest and the token count of everything up to it.

use crate::canonical;
use crate::digest;
use crate::json;
use crate::messages::{Message, SystemMessage, Tool};
use crate::text;
use crate::token;
use vstd::prelude::*;

verus! {

/// One segment of a request: the digest of all segments up to it and the tokens
/// in them.
#[derive(Debug, Clone, Copy)]
pub struct ContentSegment {
    pub hash: [u8; 32],
    pub cumulative_tokens: i32,
}

/// The system texts, trimmed.
pub open spec fn system_texts(system: Seq<SystemMessage>) -> Seq<Seq<char>> {
    Seq::new(system.len(), |i: int| text::trimmed(system[i].text@))
}

/// The segment of the system texts; none where they hold nothing.
pub open spec fn system_segments(system: Seq<SystemMessage>) -> Seq<Seq<char>> {
    let joined = text::joined(system_texts(system), "\n"@);
    if joined.len() == 0 {
        Seq::empty()
    } else {
        seq!["S:"@ + joined]
    }
}

/// One tool as text: name, description and canonical schema.
pub open spec fn tool_text(tool: Tool) -> Seq<char> {
    tool.name@ + ":"@ + tool.description@ + ":"@ + json::canonical_text(tool.input_schema)
}

/// The tools as texts.
pub open spec fn tool_texts(tools: Seq<Tool>) -> Seq<Seq<char>> {
    Seq::new(tools.len(), |i: int| tool_text(tools[i]))
}

/// The segment of the tools; none where there are none.
pub open spec fn tool_segments(tools: Seq<Tool>) -> Seq<Seq<char>> {
    if tools.len() == 0 {
        Seq::empty()
    } else {
        seq!["T:"@ + text::joined(tool_texts(tools), canonical::block_separator())]
    }
}

/// The segment of one message: role and canonical content.
pub open spec fn message_segment(message: Message) -> Seq<char> {
    "M:"@ + message.role@ + ":"@ + canonical::content_text(message.content)
}

/// The segments of messages.
pub open spec fn message_segments(messages: Seq<Message>) -> Seq<Seq<char>> {
    Seq::new(messages.len(), |i: int| message_segment(messages[i]))
}

/// All segments of a request: tools, system, messages. The tools come first, so
/// that another set of tools changes every prefix.
pub open spec fn request_segments(
    system: Seq<SystemMessage>,
    messages: Seq<Message>,
    tools: Seq<Tool>,
) -> Seq<Seq<char>> {
    tool_segments(tools) + system_segments(system) + message_segments(messages)
}

/// The parts one after the other.
pub open spec fn concat(parts: Seq<Seq<char>>) -> Seq<char>
    decreases parts.len(),
{
    if parts.len() == 0 {
        Seq::empty()
    } else {
        concat(parts.drop_last()) + parts.last()
    }
}

/// The tokens in all parts together, each rounded by itself.
pub open spec fn tokens_in(parts: Seq<Seq<char>>) -> nat
    decreases parts.len(),
{
    if parts.len() == 0 {
        0
    } else {
        tokens_in(parts.drop_last()) + token::tokens(parts.last())
    }
}

/// The digest of the segments up to and with the one at `k`.
pub open spec fn prefix_hash(segments: Seq<Seq<char>>, k: int) -> Seq<u8> {
    digest::sha256(vstd::utf8::encode_utf8(concat(segments.take(k + 1))))
}

/// The tokens in the segments up to and with the one at `k`, at most the largest `i32`.
pub open spec fn prefix_tokens(segments: Seq<Seq<char>>, k: int) -> int {
    let sum = tokens_in(segments.take(k + 1));
    if sum <= i32::MAX {
        sum as int
    } else {
        i32::MAX as int
    }
}

/// Whether `profile` is the profile of the given segments.
pub open spec fn is_profile(segments: Seq<Seq<char>>, profile: Seq<ContentSegment>) -> bool {
    &&& profile.len() == segments.len()
    &&& forall|k: int|
        0 <= k < profile.len() ==> (#[trigger] profile[k]).hash@ == prefix_hash(segments, k)
            && profile[k].cumulative_tokens == prefix_tokens(segments, k)
}

/// The segments of a request.
pub fn segments_of(
    system: Option<&[SystemMessage]>,
    messages: &[Message],
    tools: Option<&[Tool]>,
) -> (r: Vec<String>)
    ensures
        text::views(r@) == request_segments(token::items(system), messages@, token::items(tools)),
{
    let mut r: Vec<String> = Vec::new();
    let ghost sys = token::items(system);
    let ghost tool_list = token::items(tools);
    if let Some(list) = tools {
        if list.len() > 0 {
            let mut texts: Vec<String> = Vec::new();
            let mut i: usize = 0;
            while i < list.len()
                invariant
                    i <= list.len(),
                    text::views(texts@) == tool_texts(list@).take(i as int),
                decreases list.len() - i,
            {
                let schema = json::canonical_json(&list[i].input_schema);
                let mut t = list[i].name.clone();
                t.append(":");
                t.append(list[i].description.as_str());
                t.append(":");
                t.append(schema.as_str());
                let ghost done = text::views(texts@);
                texts.push(t);
                assert(text::views(texts@) =~= done.push(tool_texts(list@)[i as int]));
                assert(tool_texts(list@).take(i + 1) =~= done.push(tool_texts(list@)[i as int]));
                i += 1;
            }
            assert(tool_texts(list@).take(list.len() as int) =~= tool_texts(list@));
            proof {
                reveal_strlit("\u{1F}");
            }
            assert("\u{1F}"@ =~= canonical::block_separator());
            let joined = text::join(&texts, "\u{1F}");
            let mut segment = "T:".to_owned();
            segment.append(joined.as_str());
            r.push(segment);
        }
    }
    let ghost first = text::views(r@);
    assert(first =~= tool_segments(tool_list));
    if let Some(list) = system {
        let mut texts: Vec<String> = Vec::new();
        let mut i: usize = 0;
        while i < list.len()
            invariant
                i <= list.len(),
                text::views(texts@) == system_texts(list@).take(i as int),
            decreases list.len() - i,
        {
            let t = text::trim(list[i].text.as_str());
            let ghost done = text::views(texts@);
            texts.push(t);
            assert(text::views(texts@) =~= done.push(system_texts(list@)[i as int]));
            assert(system_texts(list@).take(i + 1) =~= done.push(system_texts(list@)[i as int]));
            i += 1;
        }
        assert(system_texts(list@).take(list.len() as int) =~= system_texts(list@));
        let joined = text::join(&texts, "\n");
        if !joined.as_str().is_empty() {
            let mut segment = "S:".to_owned();
            segment.append(joined.as_str());
            r.push(segment);
        }
    } else {
        assert(system_texts(sys) =~= Seq::empty());
    }
    let ghost second = text::views(r@);
    assert(second =~= first + system_segments(sys));
    let mut i: usize = 0;
    assert(second =~= second + message_segments(messages@).take(0));
    while i < messages.len()
        invariant
            i <= messages.len(),
            text::views(r@) == second + message_segments(messages@).take(i as int),
        decreases messages.len() - i,
    {
        let content = canonical::canonicalize_message_content(&messages[i].content);
        let mut segment = "M:".to_owned();
        segment.append(messages[i].role.as_str());
        segment.append(":");
        segment.append(content.as_str());
        let ghost done = text::views(r@);
        r.push(segment);
        let ghost all = message_segments(messages@);
        assert(text::views(r@) =~= done.push(all[i as int]));
        assert(second + all.take(i + 1) =~= (second + all.take(i as int)).push(all[i as int]));
        i += 1;
    }
    assert(message_segments(messages@).take(messages.len() as int) =~= message_segments(messages@));
    r
}

/// The profile of segments.
pub fn segment_profile(segments: &Vec<String>) -> (r: Vec<ContentSegment>)
    ensures
        is_profile(text::views(segments@), r@),
{
    let ghost all = text::views(segments@);
    let mut profile: Vec<ContentSegment> = Vec::new();
    let mut prefix = String::new();
    let mut sum: u64 = 0;
    let mut i: usize = 0;
    assert(all.take(0) =~= Seq::empty());
    while i < segments.len()
        invariant
            i <= segments.len(),
            all == text::views(segments@),
            prefix@ == concat(all.take(i as int)),
            sum == token::capped(tokens_in(all.take(i as int))),
            profile.len() == i,
            forall|k: int|
                0 <= k < i ==> (#[trigger] profile@[k]).hash@ == prefix_hash(all, k)
                    && profile@[k].cumulative_tokens == prefix_tokens(all, k),
        decreases segments.len() - i,
    {
        let segment = segments[i].as_str();
        assert(all.take(i + 1).drop_last() =~= all.take(i as int));
        prefix.append(segment);
        let hash = digest::sha256_digest(prefix.as_str().as_bytes());
        sum = sum.saturating_add(token::count_tokens(segment));
        let cumulative_tokens: i32 = if sum <= 0x7fff_ffff {
            sum as i32
        } else {
            i32::MAX
        };
        profile.push(ContentSegment { hash, cumulative_tokens });
        i += 1;
    }
    profile
}

/// The first part comes first.
pub proof fn concat_of_front(parts: Seq<Seq<char>>)
    requires
        parts.len() > 0,
    ensures
        concat(parts) == parts[0] + concat(parts.drop_first()),
    decreases parts.len(),
{
    let rest = parts.drop_first();
    if parts.len() == 1 {
        assert(parts.drop_last() =~= Seq::empty());
        assert(rest =~= Seq::empty());
        assert(concat(parts.drop_last()) =~= Seq::empty());
        assert(concat(parts) =~= parts[0] + concat(rest));
    } else {
        concat_of_front(parts.drop_last());
        assert(parts.drop_last().drop_first() =~= rest.drop_last());
        assert(concat(parts) =~= parts[0] + concat(rest));
    }
}

proof fn concat_is_flat(parts: Seq<Seq<char>>)
    ensures
        concat(parts) == parts.flatten(),
    decreases parts.len(),
{
    if parts.len() > 0 {
        concat_of_front(parts);
        concat_is_flat(parts.drop_first());
    }
}

/// A request is cut into its tools, its system texts and its messages, in this
/// order. The tools make one segment, the system texts one unless they are blank,
/// and each message one, behind a letter that tells them apart.
pub proof fn request_is_cut_in_order(
    system: Seq<SystemMessage>,
    messages: Seq<Message>,
    tools: Seq<Tool>,
)
    ensures
        ({
            let segments = request_segments(system, messages, tools);
            let tool_list = text::joined(
                Seq::new(
                    tools.len(),
                    |i: int|
                        tools[i].name@ + ":"@ + tools[i].description@ + ":"@ + json::canonical_text(
                            tools[i].input_schema,
                        ),
                ),
                "\u{1F}"@,
            );
            let lines = text::joined(
                Seq::new(system.len(), |i: int| text::trimmed(system[i].text@)),
                "\n"@,
            );
            let t: int = if tools.len() > 0 {
                1
            } else {
                0
            };
            let s: int = if lines.len() > 0 {
                1
            } else {
                0
            };
            &&& segments.len() == t + s + messages.len()
            &&& t == 1 ==> segments[0] == "T:"@ + tool_list
            &&& s == 1 ==> segments[t] == "S:"@ + lines
            &&& forall|i: int|
                0 <= i < messages.len() ==> #[trigger] segments[t + s + i] == "M:"@
                    + messages[i].role@ + ":"@ + canonical::content_text(messages[i].content)
        }),
{
    reveal_strlit("\u{1F}");
    assert("\u{1F}"@ =~= canonical::block_separator());
    assert(system_texts(system) =~= Seq::new(
        system.len(),
        |i: int| text::trimmed(system[i].text@),
    ));
    assert(tool_texts(tools) =~= Seq::new(
        tools.len(),
        |i: int|
            tools[i].name@ + ":"@ + tools[i].description@ + ":"@ + json::canonical_text(
                tools[i].input_schema,
            ),
    ));
    let segments = request_segments(system, messages, tools);
    let n = segments.len() - messages.len();
    assert forall|i: int| 0 <= i < messages.len() implies #[trigger] segments[n + i] == "M:"@
        + messages[i].role@ + ":"@ + canonical::content_text(messages[i].content) by {
        assert(segments[n + i] == message_segments(messages)[i]);
    }
}

/// A profile has one entry for each segment: the SHA-256 digest of all segments up
/// to it, one after the other, and the tokens in them, each segment counted by
/// itself, held at the largest `i32`.
pub proof fn profile_grows_by_segments(
    segments: Seq<Seq<char>>,
    p: Seq<ContentSegment>,
    k: int,
)
    requires
        is_profile(segments, p),
        0 <= k < segments.len(),
    ensures
        p.len() == segments.len(),
        p[k].hash@ == digest::sha256(
            vstd::utf8::encode_utf8(segments.take(k + 1).flatten()),
        ),
        ({
            let before: int = if k == 0 {
                0
            } else {
                p[k - 1].cumulative_tokens as int
            };
            let sum = before + token::tokens(segments[k]);
            p[k].cumulative_tokens == if sum > i32::MAX {
                i32::MAX as int
            } else {
                sum
            }
        }),
{
    concat_is_flat(segments.take(k + 1));
    assert(p[k].hash@ == prefix_hash(segments, k));
    assert(segments.take(k + 1).drop_last() =~= segments.take(k));
    assert(segments.take(k + 1).last() == segments[k]);
    assert(p[k].cumulative_tokens == prefix_tokens(segments, k));
    assert(tokens_in(segments.take(k + 1)) == tokens_in(segments.take(k)) + token::tokens(
        segments[k],
    ));
    assert(token::tokens(segments[k]) >= 1);
    if k > 0 {
        assert(segments.take(k - 1 + 1) =~= segments.take(k));
        assert(p[k - 1].cumulative_tokens == prefix_tokens(segments, k - 1));
    } else {
        assert(tokens_in(segments.take(k)) == 0);
    }
}

} // verus!
