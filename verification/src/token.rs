//! Token estimates for texts, requests and replies.
//!
//! A text costs, per character: a letter A-Z or a-z 1/4.5 token, a digit 0-9
//! 1/2 token, every other character 1/1.5 token; the sum is rounded up, and no
//! text costs less than one token.

use crate::json;
use crate::json::Json;
use crate::messages::{Message, SystemMessage, Tool};
use vstd::prelude::*;

verus! {

/// An ASCII letter.
pub open spec fn letter(c: char) -> bool {
    ('A' <= c && c <= 'Z') || ('a' <= c && c <= 'z')
}

/// An ASCII digit.
pub open spec fn digit(c: char) -> bool {
    '0' <= c && c <= '9'
}

/// What one character costs, in eighteenths of a token.
pub open spec fn weight(c: char) -> nat {
    if letter(c) {
        4
    } else if digit(c) {
        9
    } else {
        12
    }
}

/// What a text costs, in eighteenths of a token.
pub open spec fn units(s: Seq<char>) -> nat
    decreases s.len(),
{
    if s.len() == 0 {
        0
    } else {
        units(s.drop_last()) + weight(s.last())
    }
}

/// What a text costs in whole tokens: rounded up, at least one.
pub open spec fn tokens(s: Seq<char>) -> nat {
    if units(s) == 0 {
        1
    } else {
        (units(s) + 17) / 18
    }
}

proof fn units_bound(s: Seq<char>)
    ensures
        4 * s.len() <= units(s) <= 12 * s.len(),
    decreases s.len(),
{
    if s.len() > 0 {
        units_bound(s.drop_last());
    }
}

/// Whether `c` lies outside ASCII and the Latin blocks.
pub fn is_non_western_char(c: char) -> (r: bool)
    ensures
        r == !({
            let n = c as u32;
            ||| n <= 0x024f
            ||| 0x1e00 <= n <= 0x1eff
            ||| 0x2c60 <= n <= 0x2c7f
            ||| 0xa720 <= n <= 0xa7ff
            ||| 0xab30 <= n <= 0xab6f
        }),
{
    let n: u32 = c as u32;
    !(n <= 0x007f || (0x0080 <= n && n <= 0x00ff) || (0x0100 <= n && n <= 0x024f) || (0x1e00 <= n
        && n <= 0x1eff) || (0x2c60 <= n && n <= 0x2c7f) || (0xa720 <= n && n <= 0xa7ff) || (0xab30
        <= n && n <= 0xab6f))
}

/// The number of tokens in `text`.
pub fn count_tokens(text: &str) -> (r: u64)
    ensures
        r == tokens(text@),
{
    let n: usize = text.unicode_len();
    let mut letters: u64 = 0;
    let mut digits: u64 = 0;
    let mut others: u64 = 0;
    for c in it: text.chars()
        invariant
            it.seq() == text@,
            n == text@.len(),
            letters + digits + others == it.index(),
            units(text@.take(it.index() as int)) == 4 * letters + 9 * digits + 12 * others,
    {
        assert(text@.take(it.index() + 1).drop_last() =~= text@.take(it.index() as int));
        if ('A' <= c && c <= 'Z') || ('a' <= c && c <= 'z') {
            letters += 1;
        } else if '0' <= c && c <= '9' {
            digits += 1;
        } else {
            others += 1;
        }
    }
    assert(text@.take(text@.len() as int) =~= text@);
    proof {
        units_bound(text@);
    }
    let sum: u128 = 4 * letters as u128 + 9 * digits as u128 + 12 * others as u128;
    if sum == 0 {
        1
    } else {
        ((sum + 17) / 18) as u64
    }
}

/// `n`, held at the largest `u64`.
pub open spec fn capped(n: nat) -> nat {
    if n <= u64::MAX {
        n
    } else {
        u64::MAX as nat
    }
}

/// Tokens in system texts.
pub open spec fn system_tokens(system: Seq<SystemMessage>) -> nat
    decreases system.len(),
{
    if system.len() == 0 {
        0
    } else {
        system_tokens(system.drop_last()) + tokens(system.last().text@)
    }
}

/// Tokens in a text that may be missing.
pub open spec fn tokens_if_any(s: Option<Seq<char>>) -> nat {
    match s {
        Some(t) => tokens(t),
        None => 0,
    }
}

/// Tokens in the members `text` of content blocks.
pub open spec fn block_tokens(blocks: Seq<Json>) -> nat
    decreases blocks.len(),
{
    if blocks.len() == 0 {
        0
    } else {
        block_tokens(blocks.drop_last()) + tokens_if_any(
            json::text_in(json::member(blocks.last(), "text"@)),
        )
    }
}

/// Tokens in a message's content: a string, or the texts of its blocks.
pub open spec fn content_tokens(content: Json) -> nat {
    match content {
        Json::Text(s) => tokens(s@),
        Json::Array(blocks) => block_tokens(blocks@),
        _ => 0,
    }
}

/// Tokens in messages.
pub open spec fn message_tokens(messages: Seq<Message>) -> nat
    decreases messages.len(),
{
    if messages.len() == 0 {
        0
    } else {
        message_tokens(messages.drop_last()) + content_tokens(messages.last().content)
    }
}

/// Tokens in tool definitions: name, description and the schema's JSON text.
pub open spec fn tool_tokens(tools: Seq<Tool>) -> nat
    decreases tools.len(),
{
    if tools.len() == 0 {
        0
    } else {
        tool_tokens(tools.drop_last()) + tokens(tools.last().name@) + tokens(
            tools.last().description@,
        ) + tokens(json::compact_text(tools.last().input_schema))
    }
}

/// The items of a slice that may be missing.
pub open spec fn items<T>(slice: Option<&[T]>) -> Seq<T> {
    match slice {
        Some(s) => s@,
        None => Seq::empty(),
    }
}

/// Tokens in a whole request: at least one, at most the largest `u64`.
pub open spec fn request_tokens(
    system: Seq<SystemMessage>,
    messages: Seq<Message>,
    tools: Seq<Tool>,
) -> nat {
    let sum = system_tokens(system) + message_tokens(messages) + tool_tokens(tools);
    if sum == 0 {
        1
    } else {
        capped(sum)
    }
}

/// Adds the tokens in `text` to `total`.
fn plus(total: u64, text: &str, Ghost(sum): Ghost<nat>) -> (r: u64)
    requires
        total == capped(sum),
    ensures
        r == capped(sum + tokens(text@)),
{
    total.saturating_add(count_tokens(text))
}

/// The number of tokens in a request, counted here.
pub fn count_all_tokens_local(
    system: Option<&[SystemMessage]>,
    messages: &[Message],
    tools: Option<&[Tool]>,
) -> (r: u64)
    ensures
        r == request_tokens(items(system), messages@, items(tools)),
{
    let mut total: u64 = 0;
    let ghost mut sum: nat = 0;
    if let Some(list) = system {
        let mut i: usize = 0;
        while i < list.len()
            invariant
                i <= list.len(),
                sum == system_tokens(list@.take(i as int)),
                total == capped(sum),
            decreases list.len() - i,
        {
            total = plus(total, list[i].text.as_str(), Ghost(sum));
            proof {
                assert(list@.take(i + 1).drop_last() =~= list@.take(i as int));
                sum = sum + tokens(list@[i as int].text@);
            }
            i += 1;
        }
        assert(list@.take(list.len() as int) =~= list@);
    }
    let ghost first = system_tokens(items(system));
    assert(sum == first);
    let mut i: usize = 0;
    while i < messages.len()
        invariant
            i <= messages.len(),
            sum == first + message_tokens(messages@.take(i as int)),
            total == capped(sum),
        decreases messages.len() - i,
    {
        let ghost before = sum;
        match &messages[i].content {
            Json::Text(s) => {
                total = plus(total, s.as_str(), Ghost(sum));
                proof {
                    sum = sum + tokens(s@);
                }
            },
            Json::Array(blocks) => {
                let mut k: usize = 0;
                while k < blocks.len()
                    invariant
                        k <= blocks.len(),
                        sum == before + block_tokens(blocks@.take(k as int)),
                        total == capped(sum),
                    decreases blocks.len() - k,
                {
                    assert(blocks@.take(k + 1).drop_last() =~= blocks@.take(k as int));
                    if let Some(t) = blocks[k].get_str("text") {
                        total = plus(total, t, Ghost(sum));
                        proof {
                            sum = sum + tokens(t@);
                        }
                    }
                    k += 1;
                }
                assert(blocks@.take(blocks.len() as int) =~= blocks@);
            },
            _ => {},
        }
        assert(messages@.take(i + 1).drop_last() =~= messages@.take(i as int));
        assert(sum == before + content_tokens(messages@[i as int].content));
        i += 1;
    }
    assert(messages@.take(messages.len() as int) =~= messages@);
    let ghost second = sum;
    if let Some(list) = tools {
        let mut i: usize = 0;
        while i < list.len()
            invariant
                i <= list.len(),
                sum == second + tool_tokens(list@.take(i as int)),
                total == capped(sum),
            decreases list.len() - i,
        {
            let schema = json::compact_json(&list[i].input_schema);
            let ghost a = sum + tokens(list@[i as int].name@);
            let ghost b = a + tokens(list@[i as int].description@);
            total = plus(total, list[i].name.as_str(), Ghost(sum));
            total = plus(total, list[i].description.as_str(), Ghost(a));
            total = plus(total, schema.as_str(), Ghost(b));
            proof {
                assert(list@.take(i + 1).drop_last() =~= list@.take(i as int));
                sum = b + tokens(schema@);
            }
            i += 1;
        }
        assert(list@.take(list.len() as int) =~= list@);
    }
    if total == 0 {
        1
    } else {
        total
    }
}

/// `n` reduced to 32 bits and read as a signed number.
pub open spec fn as_i32(n: nat) -> int {
    let m = n as int % 0x1_0000_0000;
    if m < 0x8000_0000 {
        m
    } else {
        m - 0x1_0000_0000
    }
}

/// `n` held between the smallest and the largest `i32`.
pub open spec fn clamped(n: int) -> int {
    if n > i32::MAX {
        i32::MAX as int
    } else if n < i32::MIN {
        i32::MIN as int
    } else {
        n
    }
}

/// A running count with one more text.
pub open spec fn with_text(total: int, text: Option<Seq<char>>) -> int {
    match text {
        Some(t) => clamped(total + as_i32(tokens(t))),
        None => total,
    }
}

/// The JSON text of a tool call's input.
pub open spec fn call_input(block: Json) -> Option<Seq<char>> {
    if json::text_in(json::member(block, "type"@)) == Some("tool_use"@) {
        match json::member(block, "input"@) {
            Some(input) => Some(json::compact_text(input)),
            None => None,
        }
    } else {
        None
    }
}

/// The running count over reply blocks: the text of each, then its call input.
pub open spec fn output_total(blocks: Seq<Json>) -> int
    decreases blocks.len(),
{
    if blocks.len() == 0 {
        0
    } else {
        let block = blocks.last();
        with_text(
            with_text(
                output_total(blocks.drop_last()),
                json::text_in(json::member(block, "text"@)),
            ),
            call_input(block),
        )
    }
}

/// Adds the tokens in `text` to `total`, within `i32`.
fn plus_i32(total: i32, text: &str) -> (r: i32)
    ensures
        r == with_text(total as int, Some(text@)),
{
    let m: u64 = count_tokens(text) % 0x1_0000_0000;
    let piece: i64 = if m < 0x8000_0000 {
        m as i64
    } else {
        m as i64 - 0x1_0000_0000
    };
    let sum: i64 = total as i64 + piece;
    if sum > 0x7fff_ffff {
        i32::MAX
    } else if sum < -0x8000_0000 {
        i32::MIN
    } else {
        sum as i32
    }
}

/// The number of tokens in a reply: the texts of its blocks and the inputs of
/// its tool calls, at least one.
pub fn estimate_output_tokens(content: &[Json]) -> (r: i32)
    ensures
        r == if output_total(content@) < 1 {
            1
        } else {
            output_total(content@)
        },
{
    let mut total: i32 = 0;
    let mut i: usize = 0;
    while i < content.len()
        invariant
            i <= content.len(),
            total == output_total(content@.take(i as int)),
        decreases content.len() - i,
    {
        let block = &content[i];
        assert(content@.take(i + 1).drop_last() =~= content@.take(i as int));
        if let Some(t) = block.get_str("text") {
            total = plus_i32(total, t);
        }
        let is_call: bool = match block.get_str("type") {
            Some(kind) => crate::text::same(kind, "tool_use"),
            None => false,
        };
        if is_call {
            if let Some(input) = block.get("input") {
                let t = json::compact_json(input);
                total = plus_i32(total, t.as_str());
            }
        }
        i += 1;
    }
    assert(content@.take(content.len() as int) =~= content@);
    if total < 1 {
        1
    } else {
        total
    }
}

proof fn units_concat(a: Seq<char>, b: Seq<char>)
    ensures
        units(a + b) == units(a) + units(b),
    decreases b.len(),
{
    if b.len() == 0 {
        assert(a + b =~= a);
    } else {
        units_concat(a, b.drop_last());
        assert((a + b).drop_last() =~= a + b.drop_last());
    }
}

/// A longer text never costs less, and two texts apart never cost less than
/// together.
pub proof fn tokens_of_concatenation(a: Seq<char>, b: Seq<char>)
    ensures
        tokens(a) <= tokens(a + b),
        tokens(b) <= tokens(a + b),
        tokens(a + b) <= tokens(a) + tokens(b),
{
    units_concat(a, b);
}

/// Only which characters occur counts, not their order.
pub proof fn tokens_ignore_order(a: Seq<char>, b: Seq<char>)
    requires
        a.to_multiset() == b.to_multiset(),
    ensures
        tokens(a) == tokens(b),
{
    units_ignore_order(a, b);
}

proof fn units_ignore_order(a: Seq<char>, b: Seq<char>)
    requires
        a.to_multiset() == b.to_multiset(),
    ensures
        units(a) == units(b),
    decreases a.len(),
{
    a.to_multiset_ensures();
    b.to_multiset_ensures();
    if a.len() > 0 {
        let c = a.last();
        assert(a.to_multiset().count(c) > 0);
        assert(b.contains(c));
        let j = choose|j: int| 0 <= j < b.len() && b[j] == c;
        let left = b.take(j);
        let right = b.skip(j + 1);
        assert(b =~= left + (seq![c] + right));
        assert(b.remove(j) =~= left + right);
        units_concat(left, seq![c] + right);
        units_concat(seq![c], right);
        units_concat(left, right);
        assert(seq![c].drop_last() =~= Seq::empty());
        assert(units(seq![c]) == weight(c)) by {
            reveal_with_fuel(units, 2);
        }
        a.drop_last().to_multiset_ensures();
        b.remove(j).to_multiset_ensures();
        assert(a.remove(a.len() - 1) =~= a.drop_last());
        units_ignore_order(a.drop_last(), b.remove(j));
    }
}

/// Every part of a request counts: the estimate is never below what one of its
/// texts costs, short of the largest `u64`.
pub proof fn request_covers_its_parts(
    system: Seq<SystemMessage>,
    messages: Seq<Message>,
    tools: Seq<Tool>,
)
    ensures
        request_tokens(system, messages, tools) >= 1,
        request_tokens(system, messages, tools) >= capped(system_tokens(system)),
        request_tokens(system, messages, tools) >= capped(message_tokens(messages)),
        request_tokens(system, messages, tools) >= capped(tool_tokens(tools)),
{
}

/// Tokens in reply blocks without any limit.
pub open spec fn output_sum(blocks: Seq<Json>) -> nat
    decreases blocks.len(),
{
    if blocks.len() == 0 {
        0
    } else {
        output_sum(blocks.drop_last()) + tokens_if_any(
            json::text_in(json::member(blocks.last(), "text"@)),
        ) + tokens_if_any(call_input(blocks.last()))
    }
}

/// Where the tokens of a reply fit in an `i32`, its estimate is their sum.
pub proof fn output_total_is_sum(blocks: Seq<Json>)
    requires
        output_sum(blocks) <= i32::MAX,
    ensures
        output_total(blocks) == output_sum(blocks),
    decreases blocks.len(),
{
    if blocks.len() > 0 {
        output_total_is_sum(blocks.drop_last());
    }
}

proof fn units_by_class(s: Seq<char>)
    ensures
        units(s) == 4 * s.filter(
            |c: char| ('A' <= c && c <= 'Z') || ('a' <= c && c <= 'z'),
        ).len() + 9 * s.filter(|c: char| '0' <= c && c <= '9').len() + 12 * s.filter(
            |c: char|
                !(('A' <= c && c <= 'Z') || ('a' <= c && c <= 'z') || ('0' <= c && c <= '9')),
        ).len(),
    decreases s.len(),
{
    reveal(Seq::filter);
    if s.len() > 0 {
        units_by_class(s.drop_last());
    }
}

/// A text costs 1/4.5 token for each letter A-Z or a-z, 1/2 token for each digit
/// 0-9 and 1/1.5 token for each other character, white space among them: the count
/// is the least whole number from one on that covers the sum. Nine letters, four
/// digits or three others make two tokens, so the sum is counted in eighteenths.
pub proof fn tokens_cover_the_classes(s: Seq<char>, n: nat)
    ensures
        ({
            let letters = s.filter(
                |c: char| ('A' <= c && c <= 'Z') || ('a' <= c && c <= 'z'),
            ).len();
            let digits = s.filter(|c: char| '0' <= c && c <= '9').len();
            let others = s.filter(
                |c: char|
                    !(('A' <= c && c <= 'Z') || ('a' <= c && c <= 'z') || ('0' <= c && c <= '9')),
            ).len();
            let cost = 4 * letters + 9 * digits + 12 * others;
            &&& letters + digits + others == s.len()
            &&& tokens(s) >= 1
            &&& 18 * tokens(s) >= cost
            &&& n >= 1 && 18 * n >= cost ==> tokens(s) <= n
        }),
{
    units_by_class(s);
    classes_partition(s);
}

proof fn classes_partition(s: Seq<char>)
    ensures
        s.filter(|c: char| ('A' <= c && c <= 'Z') || ('a' <= c && c <= 'z')).len() + s.filter(
            |c: char| '0' <= c && c <= '9',
        ).len() + s.filter(
            |c: char|
                !(('A' <= c && c <= 'Z') || ('a' <= c && c <= 'z') || ('0' <= c && c <= '9')),
        ).len() == s.len(),
    decreases s.len(),
{
    reveal(Seq::filter);
    if s.len() > 0 {
        classes_partition(s.drop_last());
    }
}

/// System texts cost what they cost one by one.
pub proof fn system_texts_add_up(a: Seq<SystemMessage>, b: Seq<SystemMessage>, m: SystemMessage)
    ensures
        system_tokens(a + b) == system_tokens(a) + system_tokens(b),
        system_tokens(seq![m]) == tokens(m.text@),
    decreases b.len(),
{
    if b.len() == 0 {
        assert(a + b =~= a);
    } else {
        system_texts_add_up(a, b.drop_last(), m);
        assert((a + b).drop_last() =~= a + b.drop_last());
    }
    assert(seq![m].drop_last() =~= Seq::empty());
    reveal_with_fuel(system_tokens, 2);
}

/// Messages cost what they cost one by one: a string all of it, an array the
/// texts of its blocks, anything else nothing.
pub proof fn messages_add_up(a: Seq<Message>, b: Seq<Message>, m: Message)
    ensures
        message_tokens(a + b) == message_tokens(a) + message_tokens(b),
        message_tokens(seq![m]) == match m.content {
            Json::Text(s) => tokens(s@),
            Json::Array(blocks) => block_tokens(blocks@),
            _ => 0,
        },
    decreases b.len(),
{
    if b.len() == 0 {
        assert(a + b =~= a);
    } else {
        messages_add_up(a, b.drop_last(), m);
        assert((a + b).drop_last() =~= a + b.drop_last());
    }
    assert(seq![m].drop_last() =~= Seq::empty());
    reveal_with_fuel(message_tokens, 2);
}

/// Blocks cost what they cost one by one: the string in the member `text`, of
/// whatever type the block is, and nothing where there is no such string.
pub proof fn blocks_add_up(a: Seq<Json>, b: Seq<Json>, block: Json)
    ensures
        block_tokens(a + b) == block_tokens(a) + block_tokens(b),
        block_tokens(seq![block]) == match json::member(block, "text"@) {
            Some(Json::Text(s)) => tokens(s@),
            _ => 0,
        },
    decreases b.len(),
{
    if b.len() == 0 {
        assert(a + b =~= a);
    } else {
        blocks_add_up(a, b.drop_last(), block);
        assert((a + b).drop_last() =~= a + b.drop_last());
    }
    assert(seq![block].drop_last() =~= Seq::empty());
    reveal_with_fuel(block_tokens, 2);
}

/// Tools cost what they cost one by one: name, description and the schema's JSON
/// text, each rounded by itself.
pub proof fn tools_add_up(a: Seq<Tool>, b: Seq<Tool>, tool: Tool)
    ensures
        tool_tokens(a + b) == tool_tokens(a) + tool_tokens(b),
        tool_tokens(seq![tool]) == tokens(tool.name@) + tokens(tool.description@) + tokens(
            json::compact_text(tool.input_schema),
        ),
    decreases b.len(),
{
    if b.len() == 0 {
        assert(a + b =~= a);
    } else {
        tools_add_up(a, b.drop_last(), tool);
        assert((a + b).drop_last() =~= a + b.drop_last());
    }
    assert(seq![tool].drop_last() =~= Seq::empty());
    reveal_with_fuel(tool_tokens, 2);
}

/// A request costs its system texts, messages and tools together, but at least
/// one token and at most the largest `u64`.
pub proof fn request_is_its_parts(
    system: Seq<SystemMessage>,
    messages: Seq<Message>,
    tools: Seq<Tool>,
)
    ensures
        ({
            let sum = system_tokens(system) + message_tokens(messages) + tool_tokens(tools);
            &&& 1 <= sum <= u64::MAX ==> request_tokens(system, messages, tools) == sum
            &&& sum == 0 ==> request_tokens(system, messages, tools) == 1
            &&& sum > u64::MAX ==> request_tokens(system, messages, tools) == u64::MAX
        }),
{
}

/// Every text of every tool counts: a request costs at least what the texts of any
/// one of its tools cost together, short of the largest `u64`.
pub proof fn request_covers_each_tool(
    system: Seq<SystemMessage>,
    messages: Seq<Message>,
    tools: Seq<Tool>,
    i: int,
)
    requires
        0 <= i < tools.len(),
    ensures
        ({
            let cost = tokens(tools[i].name@) + tokens(tools[i].description@) + tokens(
                json::compact_text(tools[i].input_schema),
            );
            let count = request_tokens(system, messages, tools);
            count >= cost || count == u64::MAX
        }),
{
    let left = tools.take(i);
    let right = tools.skip(i + 1);
    assert(tools =~= left + (seq![tools[i]] + right));
    tools_add_up(left, seq![tools[i]] + right, tools[i]);
    tools_add_up(seq![tools[i]], right, tools[i]);
}

/// Where the tokens of a reply fit in an `i32`, its estimate is that of its blocks
/// one by one: the string in `text`, and of a tool call the JSON text of its input.
pub proof fn reply_blocks_add_up(a: Seq<Json>, b: Seq<Json>, block: Json)
    ensures
        output_sum(a + b) == output_sum(a) + output_sum(b),
        output_sum(seq![block]) == (match json::member(block, "text"@) {
            Some(Json::Text(s)) => tokens(s@),
            _ => 0,
        }) + (match json::member(block, "type"@) {
            Some(Json::Text(kind)) => if kind@ == "tool_use"@ && json::member(
                block,
                "input"@,
            ) is Some {
                tokens(json::compact_text(json::member(block, "input"@)->0))
            } else {
                0
            },
            _ => 0,
        }),
        output_sum(a) <= i32::MAX ==> output_total(a) == output_sum(a),
    decreases b.len(),
{
    if b.len() == 0 {
        assert(a + b =~= a);
    } else {
        reply_blocks_add_up(a, b.drop_last(), block);
        assert((a + b).drop_last() =~= a + b.drop_last());
    }
    assert(seq![block].drop_last() =~= Seq::empty());
    reveal_with_fuel(output_sum, 2);
    if output_sum(a) <= i32::MAX {
        output_total_is_sum(a);
    }
}

/// A running count of a reply never leaves `i32`: one more text is reduced to 32
/// bits, read as a signed number, added, and the sum held at the nearest end.
pub proof fn reply_count_is_held_in_range(total: int, text: Seq<char>)
    requires
        i32::MIN <= total <= i32::MAX,
    ensures
        ({
            let piece = as_i32(tokens(text));
            let next = with_text(total, Some(text));
            &&& i32::MIN <= piece <= i32::MAX
            &&& (tokens(text) - piece) % 0x1_0000_0000 == 0
            &&& i32::MIN <= next <= i32::MAX
            &&& next == total + piece || (next == i32::MAX && total + piece > i32::MAX) || (next
                == i32::MIN && total + piece < i32::MIN)
            &&& with_text(total, None) == total
        }),
{
}

/// A reply is counted block by block from nothing: the string in `text` first, then
/// of a tool call the JSON text of its input.
pub proof fn reply_is_counted_in_order(blocks: Seq<Json>, block: Json)
    ensures
        output_total(Seq::empty()) == 0,
        ({
            let before = output_total(blocks);
            let with = match json::member(block, "text"@) {
                Some(Json::Text(s)) => with_text(before, Some(s@)),
                _ => before,
            };
            let input = json::member(block, "input"@);
            let is_call = json::member(block, "type"@) matches Some(Json::Text(kind)) && kind@
                == "tool_use"@;
            output_total(blocks.push(block)) == if is_call && input is Some {
                with_text(with, Some(json::compact_text(input->0)))
            } else {
                with
            }
        }),
{
    assert(blocks.push(block).drop_last() =~= blocks);
}

/// A list that is there counts with every one of its items, one that is missing
/// with none.
pub proof fn missing_list_has_no_items<T>(list: &[T])
    ensures
        items(Some(list)).len() == list@.len(),
        forall|i: int| 0 <= i < list@.len() ==> #[trigger] items(Some(list))[i] == list@[i],
        items::<T>(None).len() == 0,
{
}

} // verus!
