//! JSON values, their compact text and a canonical text that does not depend
//! on the order of an object's members.

use crate::text;
use vstd::prelude::*;

verus! {

/// A JSON value. A number is held as its JSON text. An object lists its
/// members in order; of two members with one key the later one counts.
#[derive(Debug)]
pub enum Json {
    Null,
    Bool(bool),
    Number(String),
    Text(String),
    Array(Vec<Json>),
    Object(Vec<(String, Json)>),
}

/// The lower-case hexadecimal digit for `n`.
pub open spec fn hex_digit(n: int) -> char {
    if n < 10 {
        (48 + n) as char
    } else {
        (87 + n) as char
    }
}

/// How one character is written inside a JSON string.
pub open spec fn escape(c: char) -> Seq<char> {
    let n = c as u32;
    if c == '"' {
        seq!['\\', '"']
    } else if c == '\\' {
        seq!['\\', '\\']
    } else if n == 0x08 {
        seq!['\\', 'b']
    } else if n == 0x09 {
        seq!['\\', 't']
    } else if n == 0x0a {
        seq!['\\', 'n']
    } else if n == 0x0c {
        seq!['\\', 'f']
    } else if n == 0x0d {
        seq!['\\', 'r']
    } else if n < 0x20 {
        seq!['\\', 'u', '0', '0', hex_digit(n as int / 16), hex_digit(n as int % 16)]
    } else {
        seq![c]
    }
}

/// The characters of `s`, each escaped.
pub open spec fn escaped(s: Seq<char>) -> Seq<char>
    decreases s.len(),
{
    if s.len() == 0 {
        Seq::empty()
    } else {
        escaped(s.drop_last()) + escape(s.last())
    }
}

/// `s` as a JSON string, with its quotes.
pub open spec fn quoted(s: Seq<char>) -> Seq<char> {
    seq!['"'] + escaped(s) + seq!['"']
}

/// The JSON text of `v` without white space.
pub open spec fn compact_text(v: Json) -> Seq<char>
    decreases v,
{
    match v {
        Json::Null => "null"@,
        Json::Bool(b) => if b {
            "true"@
        } else {
            "false"@
        },
        Json::Number(n) => n@,
        Json::Text(s) => quoted(s@),
        Json::Array(items) => seq!['['] + text::joined(compact_items(items@), seq![','])
            + seq![']'],
        Json::Object(members) => seq!['{'] + text::joined(
            compact_members(members@),
            seq![','],
        ) + seq!['}'],
    }
}

/// The compact texts of `items`.
pub open spec fn compact_items(items: Seq<Json>) -> Seq<Seq<char>>
    decreases items,
{
    if items.len() == 0 {
        Seq::empty()
    } else {
        compact_items(items.drop_last()).push(compact_text(items.last()))
    }
}

/// The compact texts of an object's members: the quoted key, a colon, the value.
pub open spec fn compact_members(members: Seq<(String, Json)>) -> Seq<Seq<char>>
    decreases members,
{
    if members.len() == 0 {
        Seq::empty()
    } else {
        compact_members(members.drop_last()).push(
            quoted(members.last().0@) + seq![':'] + compact_text(members.last().1),
        )
    }
}

/// Canonical texts of `items`.
pub open spec fn canonical_items(items: Seq<Json>) -> Seq<Seq<char>>
    decreases items,
{
    if items.len() == 0 {
        Seq::empty()
    } else {
        canonical_items(items.drop_last()).push(canonical_text(items.last()))
    }
}

/// The keys of an object's members with the canonical texts of their values.
pub open spec fn canonical_members(members: Seq<(String, Json)>) -> Seq<(Seq<char>, Seq<char>)>
    decreases members,
{
    if members.len() == 0 {
        Seq::empty()
    } else {
        canonical_members(members.drop_last()).push(
            (members.last().0@, canonical_text(members.last().1)),
        )
    }
}

/// `entries`, ordered by key, with one more entry; an entry with the same key gives way.
pub open spec fn key_insert(
    entries: Seq<(Seq<char>, Seq<char>)>,
    key: Seq<char>,
    value: Seq<char>,
) -> Seq<(Seq<char>, Seq<char>)>
    decreases entries.len(),
{
    if entries.len() == 0 {
        seq![(key, value)]
    } else if text::precedes(entries.last().0, key) {
        entries.push((key, value))
    } else if entries.last().0 == key {
        entries.drop_last().push((key, value))
    } else {
        key_insert(entries.drop_last(), key, value).push(entries.last())
    }
}

/// `entries` ordered by key; of two with one key the later one stays.
pub open spec fn by_key(entries: Seq<(Seq<char>, Seq<char>)>) -> Seq<(Seq<char>, Seq<char>)>
    decreases entries.len(),
{
    if entries.len() == 0 {
        Seq::empty()
    } else {
        key_insert(by_key(entries.drop_last()), entries.last().0, entries.last().1)
    }
}

/// Each entry as its key, a colon and its value.
pub open spec fn entry_texts(entries: Seq<(Seq<char>, Seq<char>)>) -> Seq<Seq<char>> {
    Seq::new(entries.len(), |i: int| entries[i].0 + seq![':'] + entries[i].1)
}

/// The canonical text of `v`: members ordered by key with bare keys, everything
/// that is neither array nor object in its compact text.
pub open spec fn canonical_text(v: Json) -> Seq<char>
    decreases v,
{
    match v {
        Json::Object(members) => seq!['{'] + text::joined(
            entry_texts(by_key(canonical_members(members@))),
            seq![','],
        ) + seq!['}'],
        Json::Array(items) => seq!['['] + text::joined(canonical_items(items@), seq![','])
            + seq![']'],
        _ => compact_text(v),
    }
}

/// The value of the last member with the given key.
pub open spec fn lookup(members: Seq<(String, Json)>, key: Seq<char>) -> Option<Json>
    decreases members.len(),
{
    if members.len() == 0 {
        None
    } else if members.last().0@ == key {
        Some(members.last().1)
    } else {
        lookup(members.drop_last(), key)
    }
}

/// The member of `v` with the given key; nothing where `v` is no object.
pub open spec fn member(v: Json, key: Seq<char>) -> Option<Json> {
    match v {
        Json::Object(members) => lookup(members@, key),
        _ => None,
    }
}

/// The characters of `v` where it is a string.
pub open spec fn text_in(v: Option<Json>) -> Option<Seq<char>> {
    match v {
        Some(Json::Text(s)) => Some(s@),
        _ => None,
    }
}

/// The characters of `v` where it is a string, else nothing at all.
pub open spec fn text_or_empty(v: Option<Json>) -> Seq<char> {
    match text_in(v) {
        Some(s) => s,
        None => Seq::empty(),
    }
}

/// Calls `serde_json::Value::to_string` on a string value: the string between
/// quotes, with quote, backslash and the control characters below U+0020 escaped.
#[verifier::external_body]
fn quote(s: &str) -> (r: String)
    ensures
        r@ == quoted(s@),
{
    serde_json::Value::from(s).to_string()
}

impl Json {
    /// The member with the given key.
    pub fn get(&self, key: &str) -> (r: Option<&Json>)
        ensures
            match r {
                Some(v) => member(*self, key@) == Some(*v),
                None => member(*self, key@) is None,
            },
    {
        match self {
            Json::Object(members) => {
                let mut n: usize = members.len();
                assert(members@.take(n as int) =~= members@);
                while n > 0
                    invariant
                        *self == Json::Object(*members),
                        n <= members.len(),
                        lookup(members@, key@) == lookup(members@.take(n as int), key@),
                    decreases n,
                {
                    assert(members@.take(n as int).drop_last() =~= members@.take(n - 1));
                    if text::same(members[n - 1].0.as_str(), key) {
                        return Some(&members[n - 1].1);
                    }
                    n -= 1;
                }
                None
            },
            _ => None,
        }
    }

    /// The string held here.
    pub fn as_str(&self) -> (r: Option<&str>)
        ensures
            match r {
                Some(s) => text_in(Some(*self)) == Some(s@),
                None => text_in(Some(*self)) is None,
            },
    {
        match self {
            Json::Text(s) => Some(s.as_str()),
            _ => None,
        }
    }

    /// The string that the member with the given key holds.
    pub fn get_str(&self, key: &str) -> (r: Option<&str>)
        ensures
            match r {
                Some(s) => text_in(member(*self, key@)) == Some(s@),
                None => text_in(member(*self, key@)) is None,
            },
    {
        match self.get(key) {
            Some(v) => v.as_str(),
            None => None,
        }
    }

    /// The string that the member with the given key holds, or the empty string.
    pub fn str_or_empty(&self, key: &str) -> (r: String)
        ensures
            r@ == text_or_empty(member(*self, key@)),
    {
        match self.get_str(key) {
            Some(s) => s.to_owned(),
            None => String::new(),
        }
    }
}

/// `open`, then `parts` with commas between them, then `close`.
fn enclosed(open_with: char, parts: &Vec<String>, close_with: char) -> (r: String)
    ensures
        r@ == seq![open_with] + text::joined(text::views(parts@), seq![',']) + seq![close_with],
{
    proof {
        reveal_strlit(",");
    }
    assert(","@ =~= seq![',']);
    let inner = text::join(parts, ",");
    let mut r = String::new();
    r.push(open_with);
    r.append(inner.as_str());
    r.push(close_with);
    assert(r@ =~= seq![open_with] + text::joined(text::views(parts@), seq![','])
        + seq![close_with]);
    r
}

/// The JSON text of `v` without white space.
pub fn compact_json(v: &Json) -> (r: String)
    ensures
        r@ == compact_text(*v),
    decreases v,
{
    match v {
        Json::Null => "null".to_owned(),
        Json::Bool(b) => if *b {
            "true".to_owned()
        } else {
            "false".to_owned()
        },
        Json::Number(n) => n.clone(),
        Json::Text(s) => quote(s.as_str()),
        Json::Array(items) => {
            let mut parts: Vec<String> = Vec::new();
            let mut i: usize = 0;
            while i < items.len()
                invariant
                    *v == Json::Array(*items),
                    i <= items.len(),
                    text::views(parts@) == compact_items(items@.take(i as int)),
                decreases items.len() - i,
            {
                assert(decreases_to!(*v => v->Array_0@[i as int]));
                let t = compact_json(&items[i]);
                parts.push(t);
                assert(items@.take(i + 1).drop_last() =~= items@.take(i as int));
                assert(text::views(parts@) =~= compact_items(items@.take(i + 1)));
                i += 1;
            }
            assert(items@.take(items.len() as int) =~= items@);
            enclosed('[', &parts, ']')
        },
        Json::Object(members) => {
            let mut parts: Vec<String> = Vec::new();
            let mut i: usize = 0;
            while i < members.len()
                invariant
                    *v == Json::Object(*members),
                    i <= members.len(),
                    text::views(parts@) == compact_members(members@.take(i as int)),
                decreases members.len() - i,
            {
                let mut t = quote(members[i].0.as_str());
                assert(decreases_to!(*v => v->Object_0@[i as int].1));
                let value = compact_json(&members[i].1);
                t.push(':');
                t.append(value.as_str());
                assert(t@ =~= quoted(members@[i as int].0@) + seq![':'] + compact_text(
                    members@[i as int].1,
                ));
                parts.push(t);
                assert(members@.take(i + 1).drop_last() =~= members@.take(i as int));
                assert(text::views(parts@) =~= compact_members(members@.take(i + 1)));
                i += 1;
            }
            assert(members@.take(members.len() as int) =~= members@);
            enclosed('{', &parts, '}')
        },
    }
}

/// The character sequences of a sequence of pairs of strings.
pub open spec fn pair_views(pairs: Seq<(String, String)>) -> Seq<(Seq<char>, Seq<char>)> {
    Seq::new(pairs.len(), |i: int| (pairs[i].0@, pairs[i].1@))
}

/// Puts an entry in its place by key; an entry with the same key gives way.
fn insert_by_key(entries: &mut Vec<(String, String)>, key: String, value: String)
    ensures
        pair_views(final(entries)@) == key_insert(pair_views(old(entries)@), key@, value@),
{
    let ghost before = pair_views(entries@);
    let mut n: usize = entries.len();
    assert(before.take(n as int) =~= before);
    assert(before.skip(n as int) =~= Seq::empty());
    assert(key_insert(before, key@, value@) =~= key_insert(before, key@, value@) + before.skip(
        n as int,
    ));
    while n > 0
        invariant
            n <= entries.len(),
            entries@ == old(entries)@,
            before == pair_views(entries@),
            key_insert(before, key@, value@) == key_insert(before.take(n as int), key@, value@)
                + before.skip(n as int),
        decreases n,
    {
        assert(before.take(n as int).last() == before[n - 1]);
        assert(before.take(n as int).drop_last() =~= before.take(n - 1));
        if text::less(entries[n - 1].0.as_str(), key.as_str()) {
            let ghost place = n as int;
            let ghost added = (key@, value@);
            entries.insert(n, (key, value));
            assert(pair_views(entries@) =~= before.take(place).push(added) + before.skip(place));
            return;
        }
        if entries[n - 1].0 == key {
            let ghost place = n as int;
            let ghost added = (key@, value@);
            entries.set(n - 1, (key, value));
            assert(pair_views(entries@) =~= before.take(place - 1).push(added) + before.skip(place));
            return;
        }
        assert(key_insert(before.take(n - 1), key@, value@).push(before[n - 1]) + before.skip(
            n as int,
        ) =~= key_insert(before.take(n - 1), key@, value@) + before.skip(n - 1));
        n -= 1;
    }
    let ghost added = (key@, value@);
    entries.insert(0, (key, value));
    assert(before.take(0) =~= Seq::empty());
    assert(pair_views(entries@) =~= seq![added] + before.skip(0));
}

/// The canonical text of `v`.
pub fn canonical_json(v: &Json) -> (r: String)
    ensures
        r@ == canonical_text(*v),
    decreases v,
{
    match v {
        Json::Object(members) => {
            let mut sorted: Vec<(String, String)> = Vec::new();
            let mut i: usize = 0;
            assert(pair_views(sorted@) =~= Seq::empty());
            while i < members.len()
                invariant
                    *v == Json::Object(*members),
                    i <= members.len(),
                    pair_views(sorted@) == by_key(canonical_members(members@.take(i as int))),
                decreases members.len() - i,
            {
                assert(decreases_to!(*v => v->Object_0@[i as int].1));
                let value = canonical_json(&members[i].1);
                assert(members@.take(i + 1).drop_last() =~= members@.take(i as int));
                assert(canonical_members(members@.take(i + 1)).drop_last() =~= canonical_members(
                    members@.take(i as int),
                ));
                insert_by_key(&mut sorted, members[i].0.clone(), value);
                i += 1;
            }
            assert(members@.take(members.len() as int) =~= members@);
            let mut parts: Vec<String> = Vec::new();
            let mut k: usize = 0;
            while k < sorted.len()
                invariant
                    k <= sorted.len(),
                    text::views(parts@) == entry_texts(pair_views(sorted@)).take(k as int),
                decreases sorted.len() - k,
            {
                let mut t = sorted[k].0.clone();
                t.push(':');
                t.append(sorted[k].1.as_str());
                assert(t@ =~= sorted@[k as int].0@ + seq![':'] + sorted@[k as int].1@);
                let ghost done = text::views(parts@);
                let ghost all = entry_texts(pair_views(sorted@));
                assert(t@ == all[k as int]);
                parts.push(t);
                assert(text::views(parts@) =~= done.push(all[k as int]));
                assert(all.take(k + 1) =~= all.take(k as int).push(all[k as int]));
                k += 1;
            }
            assert(text::views(parts@) =~= entry_texts(pair_views(sorted@)));
            enclosed('{', &parts, '}')
        },
        Json::Array(items) => {
            let mut parts: Vec<String> = Vec::new();
            let mut i: usize = 0;
            while i < items.len()
                invariant
                    *v == Json::Array(*items),
                    i <= items.len(),
                    text::views(parts@) == canonical_items(items@.take(i as int)),
                decreases items.len() - i,
            {
                assert(decreases_to!(*v => v->Array_0@[i as int]));
                let t = canonical_json(&items[i]);
                parts.push(t);
                assert(items@.take(i + 1).drop_last() =~= items@.take(i as int));
                assert(text::views(parts@) =~= canonical_items(items@.take(i + 1)));
                i += 1;
            }
            assert(items@.take(items.len() as int) =~= items@);
            enclosed('[', &parts, ']')
        },
        _ => compact_json(v),
    }
}

/// Keys strictly ascending.
spec fn ordered(s: Seq<(Seq<char>, Seq<char>)>) -> bool {
    forall|i: int, j: int|
        0 <= i < j < s.len() ==> text::precedes((#[trigger] s[i]).0, (#[trigger] s[j]).0)
}

proof fn key_insert_ordered(s: Seq<(Seq<char>, Seq<char>)>, key: Seq<char>, value: Seq<char>)
    requires
        ordered(s),
    ensures
        ordered(key_insert(s, key, value)),
        forall|e: (Seq<char>, Seq<char>)| #[trigger]
            key_insert(s, key, value).contains(e) <==> (e == (key, value) || (s.contains(e) && e.0
                != key)),
    decreases s.len(),
{
    let r = key_insert(s, key, value);
    let added = (key, value);
    if s.len() == 0 {
        assert(r[0] == added);
    } else {
        let last = s.last();
        let front = s.drop_last();
        assert(forall|i: int| 0 <= i < front.len() ==> front[i] == s[i]);
        assert forall|i: int| 0 <= i < front.len() implies text::precedes(
            (#[trigger] front[i]).0,
            last.0,
        ) by {
            assert(text::precedes(s[i].0, s[s.len() - 1].0));
        }
        text::precedes_irreflexive(key);
        if text::precedes(last.0, key) {
            assert forall|i: int| 0 <= i < s.len() implies text::precedes((#[trigger] s[i]).0, key) by {
                if i < s.len() - 1 {
                    assert(text::precedes(front[i].0, last.0));
                    text::precedes_transitive(s[i].0, last.0, key);
                }
            }
            assert forall|e: (Seq<char>, Seq<char>)| #[trigger] r.contains(e) <==> (e == added || (
            s.contains(e) && e.0 != key)) by {
                assert(r[s.len() as int] == added);
                if s.contains(e) {
                    let i = choose|i: int| 0 <= i < s.len() && s[i] == e;
                    assert(r[i] == e);
                }
            }
        } else if last.0 == key {
            assert forall|e: (Seq<char>, Seq<char>)| #[trigger] r.contains(e) <==> (e == added || (
            s.contains(e) && e.0 != key)) by {
                assert(r[front.len() as int] == added);
                if s.contains(e) && e.0 != key {
                    let i = choose|i: int| 0 <= i < s.len() && s[i] == e;
                    assert(r[i] == e);
                }
                if r.contains(e) && e != added {
                    let i = choose|i: int| 0 <= i < r.len() && r[i] == e;
                    assert(s[i] == e);
                    assert(text::precedes(front[i].0, last.0));
                }
            }
        } else {
            text::precedes_total(last.0, key);
            key_insert_ordered(front, key, value);
            let inner = key_insert(front, key, value);
            assert forall|i: int| 0 <= i < inner.len() implies text::precedes(
                (#[trigger] inner[i]).0,
                last.0,
            ) by {
                assert(inner.contains(inner[i]));
                if inner[i] != added {
                    assert(front.contains(inner[i]));
                    let j = choose|j: int| 0 <= j < front.len() && front[j] == inner[i];
                    assert(text::precedes(front[j].0, last.0));
                }
            }
            assert forall|e: (Seq<char>, Seq<char>)| #[trigger] r.contains(e) <==> (e == added || (
            s.contains(e) && e.0 != key)) by {
                assert(r[inner.len() as int] == last);
                if inner.contains(e) {
                    let i = choose|i: int| 0 <= i < inner.len() && inner[i] == e;
                    assert(r[i] == e);
                    if front.contains(e) {
                        let j = choose|j: int| 0 <= j < front.len() && front[j] == e;
                        assert(s[j] == e);
                    }
                }
                if s.contains(e) && e != last {
                    let i = choose|i: int| 0 <= i < s.len() && s[i] == e;
                    assert(front[i] == e);
                    assert(front.contains(e));
                }
                if r.contains(e) && e != last {
                    let i = choose|i: int| 0 <= i < r.len() && r[i] == e;
                    assert(inner[i] == e);
                    assert(inner.contains(e));
                }
                assert(s[s.len() - 1] == last);
            }
        }
    }
}

/// No two entries with one key.
spec fn keys_distinct(s: Seq<(Seq<char>, Seq<char>)>) -> bool {
    forall|i: int, j: int| 0 <= i < j < s.len() ==> (#[trigger] s[i]).0 != (#[trigger] s[j]).0
}

proof fn by_key_ordered(s: Seq<(Seq<char>, Seq<char>)>)
    requires
        keys_distinct(s),
    ensures
        ordered(by_key(s)),
        forall|e: (Seq<char>, Seq<char>)| #[trigger] by_key(s).contains(e) <==> s.contains(e),
    decreases s.len(),
{
    if s.len() > 0 {
        let front = s.drop_last();
        let last = s.last();
        by_key_ordered(front);
        key_insert_ordered(by_key(front), last.0, last.1);
        assert forall|e: (Seq<char>, Seq<char>)| #[trigger]
            by_key(s).contains(e) <==> s.contains(e) by {
            assert(s[s.len() - 1] == last);
            if front.contains(e) {
                let i = choose|i: int| 0 <= i < front.len() && front[i] == e;
                assert(s[i] == e);
                assert(s[i].0 != s[s.len() - 1].0);
            }
            if s.contains(e) && e != last {
                let i = choose|i: int| 0 <= i < s.len() && s[i] == e;
                assert(front[i] == e);
            }
        }
    }
}

proof fn ordered_unique(s: Seq<(Seq<char>, Seq<char>)>, t: Seq<(Seq<char>, Seq<char>)>)
    requires
        ordered(s),
        ordered(t),
        forall|e: (Seq<char>, Seq<char>)| #[trigger] s.contains(e) <==> t.contains(e),
    ensures
        s == t,
    decreases s.len(),
{
    if s.len() == 0 {
        if t.len() > 0 {
            assert(t.contains(t[0]));
            assert(s.contains(t[0]));
        }
        assert(s =~= t);
    } else {
        assert(s.contains(s.last()));
        assert(t.contains(s.last()));
        let m = t.last();
        assert(t.contains(m));
        assert(s.contains(m));
        if s.last() != m {
            let i = choose|i: int| 0 <= i < s.len() && s[i] == m;
            let j = choose|j: int| 0 <= j < t.len() && t[j] == s.last();
            assert(text::precedes(s[i].0, s[s.len() - 1].0));
            assert(text::precedes(t[j].0, t[t.len() - 1].0));
            text::precedes_transitive(m.0, s.last().0, m.0);
            text::precedes_irreflexive(m.0);
        }
        let s1 = s.drop_last();
        let t1 = t.drop_last();
        assert forall|e: (Seq<char>, Seq<char>)| #[trigger] s1.contains(e) <==> t1.contains(e) by {
            text::precedes_irreflexive(m.0);
            if s1.contains(e) {
                let i = choose|i: int| 0 <= i < s1.len() && s1[i] == e;
                assert(s[i] == e);
                assert(text::precedes(s[i].0, s[s.len() - 1].0));
                assert(s.contains(e));
                assert(t.contains(e));
                let j = choose|j: int| 0 <= j < t.len() && t[j] == e;
                assert(t1[j] == e);
            }
            if t1.contains(e) {
                let i = choose|i: int| 0 <= i < t1.len() && t1[i] == e;
                assert(t[i] == e);
                assert(text::precedes(t[i].0, t[t.len() - 1].0));
                assert(s.contains(e));
                let j = choose|j: int| 0 <= j < s.len() && s[j] == e;
                assert(s1[j] == e);
            }
        }
        assert(ordered(s1)) by {
            assert forall|i: int, j: int| 0 <= i < j < s1.len() implies text::precedes(
                (#[trigger] s1[i]).0,
                (#[trigger] s1[j]).0,
            ) by {
                assert(text::precedes(s[i].0, s[j].0));
            }
        }
        assert(ordered(t1)) by {
            assert forall|i: int, j: int| 0 <= i < j < t1.len() implies text::precedes(
                (#[trigger] t1[i]).0,
                (#[trigger] t1[j]).0,
            ) by {
                assert(text::precedes(t[i].0, t[j].0));
            }
        }
        ordered_unique(s1, t1);
        assert(s =~= s1.push(s.last()));
        assert(t =~= t1.push(t.last()));
    }
}

proof fn canonical_members_index(members: Seq<(String, Json)>)
    ensures
        canonical_members(members).len() == members.len(),
        forall|i: int|
            0 <= i < members.len() ==> #[trigger] canonical_members(members)[i] == (
                members[i].0@,
                canonical_text(members[i].1),
            ),
    decreases members.len(),
{
    if members.len() > 0 {
        canonical_members_index(members.drop_last());
    }
}

/// No key occurs twice.
pub open spec fn distinct_keys(members: Seq<(String, Json)>) -> bool {
    forall|i: int, j: int|
        0 <= i < j < members.len() ==> (#[trigger] members[i]).0@ != (#[trigger] members[j]).0@
}

/// Every member of `a` has one in `b` with the same key and a value of the same
/// canonical text.
pub open spec fn members_within(a: Seq<(String, Json)>, b: Seq<(String, Json)>) -> bool {
    forall|i: int|
        0 <= i < a.len() ==> exists|j: int|
            0 <= j < b.len() && (#[trigger] a[i]).0@ == (#[trigger] b[j]).0@ && canonical_text(
                a[i].1,
            ) == canonical_text(b[j].1)
}

/// Two objects with the same members have the same canonical text, in whatever
/// order each lists them, and in whatever order the objects within them list
/// theirs.
pub proof fn canonical_ignores_member_order(a: Vec<(String, Json)>, b: Vec<(String, Json)>)
    requires
        distinct_keys(a@),
        distinct_keys(b@),
        members_within(a@, b@),
        members_within(b@, a@),
    ensures
        canonical_text(Json::Object(a)) == canonical_text(Json::Object(b)),
{
    let s = canonical_members(a@);
    let t = canonical_members(b@);
    canonical_members_index(a@);
    canonical_members_index(b@);
    assert(keys_distinct(s)) by {
        assert forall|i: int, j: int| 0 <= i < j < s.len() implies (#[trigger] s[i]).0 != (
        #[trigger] s[j]).0 by {
            assert(a@[i].0@ != a@[j].0@);
        }
    }
    assert(keys_distinct(t)) by {
        assert forall|i: int, j: int| 0 <= i < j < t.len() implies (#[trigger] t[i]).0 != (
        #[trigger] t[j]).0 by {
            assert(b@[i].0@ != b@[j].0@);
        }
    }
    by_key_ordered(s);
    by_key_ordered(t);
    assert forall|e: (Seq<char>, Seq<char>)| #[trigger]
        by_key(s).contains(e) <==> by_key(t).contains(e) by {
        if s.contains(e) {
            let i = choose|i: int| 0 <= i < s.len() && s[i] == e;
            assert(a@[i].0@ == e.0);
            let j = choose|j: int|
                0 <= j < b@.len() && a@[i].0@ == (#[trigger] b@[j]).0@ && canonical_text(a@[i].1)
                    == canonical_text(b@[j].1);
            assert(t[j] == e);
        }
        if t.contains(e) {
            let i = choose|i: int| 0 <= i < t.len() && t[i] == e;
            assert(b@[i].0@ == e.0);
            let j = choose|j: int|
                0 <= j < a@.len() && b@[i].0@ == (#[trigger] a@[j]).0@ && canonical_text(b@[i].1)
                    == canonical_text(a@[j].1);
            assert(s[j] == e);
        }
    }
    ordered_unique(by_key(s), by_key(t));
}

/// A member is looked up by its key: of those with the key the last one counts,
/// where none has it nothing is found, and nothing is found in what is no object.
pub proof fn last_of_a_key_counts(members: Vec<(String, Json)>, key: Seq<char>, other: Json)
    ensures
        match member(Json::Object(members), key) {
            Some(v) => exists|i: int|
                0 <= i < members@.len() && (#[trigger] members@[i]).0@ == key && members@[i].1 == v
                    && (forall|j: int| i < j < members@.len() ==> (#[trigger] members@[j]).0@ != key),
            None => forall|j: int| 0 <= j < members@.len() ==> (#[trigger] members@[j]).0@ != key,
        },
        other !is Object ==> member(other, key) is None,
{
    lookup_is_last(members@, key);
}

proof fn lookup_is_last(members: Seq<(String, Json)>, key: Seq<char>)
    ensures
        match lookup(members, key) {
            Some(v) => exists|i: int|
                0 <= i < members.len() && (#[trigger] members[i]).0@ == key && members[i].1 == v && (
                forall|j: int| i < j < members.len() ==> (#[trigger] members[j]).0@ != key),
            None => forall|j: int| 0 <= j < members.len() ==> (#[trigger] members[j]).0@ != key,
        },
    decreases members.len(),
{
    if members.len() > 0 {
        let n = members.len() - 1;
        if members.last().0@ == key {
            assert(members[n].0@ == key);
        } else {
            let front = members.drop_last();
            lookup_is_last(front, key);
            if let Some(v) = lookup(front, key) {
                let i = choose|i: int|
                    0 <= i < front.len() && (#[trigger] front[i]).0@ == key && front[i].1 == v && (
                    forall|j: int| i < j < front.len() ==> (#[trigger] front[j]).0@ != key);
                assert(members[i].0@ == key);
                assert forall|j: int| i < j < members.len() implies (
                #[trigger] members[j]).0@ != key by {
                    if j < n {
                        assert(front[j].0@ != key);
                    }
                }
            } else {
                assert forall|j: int| 0 <= j < members.len() implies (
                #[trigger] members[j]).0@ != key by {
                    if j < n {
                        assert(front[j].0@ != key);
                    }
                }
            }
        }
    }
}

proof fn items_index(items: Seq<Json>)
    ensures
        compact_items(items) == Seq::new(items.len(), |i: int| compact_text(items[i])),
        canonical_items(items) == Seq::new(items.len(), |i: int| canonical_text(items[i])),
    decreases items.len(),
{
    let compact = Seq::new(items.len(), |i: int| compact_text(items[i]));
    let canonical = Seq::new(items.len(), |i: int| canonical_text(items[i]));
    if items.len() > 0 {
        items_index(items.drop_last());
        assert(compact.drop_last() =~= compact_items(items.drop_last()));
        assert(canonical.drop_last() =~= canonical_items(items.drop_last()));
    }
    assert(compact_items(items) =~= compact);
    assert(canonical_items(items) =~= canonical);
}

proof fn members_index(members: Seq<(String, Json)>)
    ensures
        compact_members(members) == Seq::new(
            members.len(),
            |i: int| quoted(members[i].0@) + ":"@ + compact_text(members[i].1),
        ),
    decreases members.len(),
{
    reveal_strlit(":");
    assert(":"@ =~= seq![':']);
    let all = Seq::new(
        members.len(),
        |i: int| quoted(members[i].0@) + ":"@ + compact_text(members[i].1),
    );
    if members.len() > 0 {
        members_index(members.drop_last());
        assert(all.drop_last() =~= compact_members(members.drop_last()));
    }
    assert(compact_members(members) =~= all);
}

/// The compact text of what is neither array nor object: a word, the number's own
/// text, or the string between quotes. Its canonical text is the same.
pub proof fn scalars_as_text(b: bool, n: String, s: String)
    ensures
        compact_text(Json::Null) == "null"@,
        compact_text(Json::Bool(b)) == (if b {
            "true"@
        } else {
            "false"@
        }),
        compact_text(Json::Number(n)) == n@,
        compact_text(Json::Text(s)) == quoted(s@),
        canonical_text(Json::Null) == compact_text(Json::Null),
        canonical_text(Json::Bool(b)) == compact_text(Json::Bool(b)),
        canonical_text(Json::Number(n)) == compact_text(Json::Number(n)),
        canonical_text(Json::Text(s)) == compact_text(Json::Text(s)),
{
}

/// An array as text: every item in its order, with commas between them, in square
/// brackets.
pub proof fn arrays_as_text(items: Vec<Json>)
    ensures
        compact_text(Json::Array(items)) == "["@ + text::joined(
            Seq::new(items@.len(), |i: int| compact_text(items@[i])),
            ","@,
        ) + "]"@,
        canonical_text(Json::Array(items)) == "["@ + text::joined(
            Seq::new(items@.len(), |i: int| canonical_text(items@[i])),
            ","@,
        ) + "]"@,
{
    items_index(items@);
    reveal_strlit("[");
    reveal_strlit(",");
    reveal_strlit("]");
    assert("["@ =~= seq!['[']);
    assert(","@ =~= seq![',']);
    assert("]"@ =~= seq![']']);
}

/// An object as compact text: every member in its order, its key between quotes,
/// with commas between them, in braces.
pub proof fn objects_as_text(members: Vec<(String, Json)>)
    ensures
        compact_text(Json::Object(members)) == "{"@ + text::joined(
            Seq::new(
                members@.len(),
                |i: int| quoted(members@[i].0@) + ":"@ + compact_text(members@[i].1),
            ),
            ","@,
        ) + "}"@,
{
    members_index(members@);
    reveal_strlit("{");
    reveal_strlit(",");
    reveal_strlit("}");
    assert("{"@ =~= seq!['{']);
    assert(","@ =~= seq![',']);
    assert("}"@ =~= seq!['}']);
}

/// Whether `entries` lists each key of an object once, in ascending order, with
/// the canonical text of the member that counts for the key.
pub open spec fn lists_members(
    entries: Seq<(Seq<char>, Seq<char>)>,
    members: Vec<(String, Json)>,
) -> bool {
    &&& forall|i: int, j: int|
        0 <= i < j < entries.len() ==> text::precedes(
            (#[trigger] entries[i]).0,
            (#[trigger] entries[j]).0,
        )
    &&& forall|i: int|
        0 <= i < entries.len() ==> (member(
            Json::Object(members),
            (#[trigger] entries[i]).0,
        ) matches Some(v) && canonical_text(v) == entries[i].1)
    &&& forall|i: int|
        0 <= i < members@.len() ==> exists|j: int|
            0 <= j < entries.len() && (#[trigger] entries[j]).0 == (#[trigger] members@[i]).0@
}

/// An object as canonical text: its keys in ascending order, each bare and once,
/// with the canonical text of the member that counts, with commas between them, in
/// braces.
pub proof fn canonical_objects_as_text(members: Vec<(String, Json)>)
    ensures
        exists|entries: Seq<(Seq<char>, Seq<char>)>|
            #[trigger] lists_members(entries, members) && canonical_text(Json::Object(members))
                == "{"@ + text::joined(
                Seq::new(entries.len(), |i: int| entries[i].0 + ":"@ + entries[i].1),
                ","@,
            ) + "}"@,
{
    let s = canonical_members(members@);
    let entries = by_key(s);
    canonical_members_index(members@);
    by_key_lists(s);
    assert forall|i: int| 0 <= i < entries.len() implies (member(
        Json::Object(members),
        (#[trigger] entries[i]).0,
    ) matches Some(v) && canonical_text(v) == entries[i].1) by {
        assert(entries.contains(entries[i]));
        let k = choose|k: int| is_last(s, k) && s[k] == entries[i];
        lookup_is_last(members@, entries[i].0);
        assert(members@[k].0@ == s[k].0);
        if let Some(v) = lookup(members@, entries[i].0) {
            let m = choose|m: int|
                0 <= m < members@.len() && (#[trigger] members@[m]).0@ == entries[i].0
                    && members@[m].1 == v && (forall|j: int|
                    m < j < members@.len() ==> (#[trigger] members@[j]).0@ != entries[i].0);
            if m < k {
                assert(members@[k].0@ != entries[i].0);
            }
            if k < m {
                assert(s[m].0 != s[k].0);
            }
            assert(s[k] == (members@[k].0@, canonical_text(members@[k].1)));
        }
    }
    assert forall|i: int| 0 <= i < members@.len() implies exists|j: int|
        0 <= j < entries.len() && (#[trigger] entries[j]).0 == (#[trigger] members@[i]).0@ by {
        let k = last_with_key(s, i);
        assert(entries.contains(s[k]));
        let j = choose|j: int| 0 <= j < entries.len() && entries[j] == s[k];
        assert(entries[j].0 == s[i].0);
        assert(s[i] == (members@[i].0@, canonical_text(members@[i].1)));
    }
    assert(lists_members(entries, members));
    reveal_strlit("{");
    reveal_strlit(":");
    reveal_strlit(",");
    reveal_strlit("}");
    assert("{"@ =~= seq!['{']);
    assert(":"@ =~= seq![':']);
    assert(","@ =~= seq![',']);
    assert("}"@ =~= seq!['}']);
    assert(entry_texts(entries) =~= Seq::new(
        entries.len(),
        |i: int| entries[i].0 + ":"@ + entries[i].1,
    ));
}

/// Whether the entry at `k` is the last with its key.
spec fn is_last(s: Seq<(Seq<char>, Seq<char>)>, k: int) -> bool {
    0 <= k < s.len() && forall|j: int| k < j < s.len() ==> (#[trigger] s[j]).0 != s[k].0
}

proof fn last_with_key(s: Seq<(Seq<char>, Seq<char>)>, i: int) -> (k: int)
    requires
        0 <= i < s.len(),
    ensures
        is_last(s, k),
        s[k].0 == s[i].0,
    decreases s.len() - i,
{
    if exists|j: int| i < j < s.len() && (#[trigger] s[j]).0 == s[i].0 {
        let j = choose|j: int| i < j < s.len() && (#[trigger] s[j]).0 == s[i].0;
        last_with_key(s, j)
    } else {
        i
    }
}

proof fn by_key_lists(s: Seq<(Seq<char>, Seq<char>)>)
    ensures
        ordered(by_key(s)),
        forall|e: (Seq<char>, Seq<char>)| #[trigger]
            by_key(s).contains(e) <==> exists|k: int| #[trigger] is_last(s, k) && s[k] == e,
    decreases s.len(),
{
    if s.len() > 0 {
        let front = s.drop_last();
        let last = s.last();
        let n = s.len() - 1;
        by_key_lists(front);
        key_insert_ordered(by_key(front), last.0, last.1);
        assert forall|e: (Seq<char>, Seq<char>)| #[trigger]
            by_key(s).contains(e) <==> exists|k: int| #[trigger] is_last(s, k) && s[k] == e by {
            assert(is_last(s, n) && s[n] == last);
            if by_key(s).contains(e) && e != last {
                assert(by_key(front).contains(e) && e.0 != last.0);
                let k = choose|k: int| #[trigger] is_last(front, k) && front[k] == e;
                assert forall|j: int| k < j < s.len() implies (#[trigger] s[j]).0 != s[k].0 by {
                    if j < n {
                        assert(front[j].0 != front[k].0);
                    }
                }
                assert(is_last(s, k) && s[k] == e);
            }
            if exists|k: int| #[trigger] is_last(s, k) && s[k] == e {
                let k = choose|k: int| #[trigger] is_last(s, k) && s[k] == e;
                if k < n {
                    assert(s[n].0 != s[k].0);
                    assert forall|j: int| k < j < front.len() implies (#[trigger] front[j]).0
                        != front[k].0 by {
                        assert(s[j].0 != s[k].0);
                    }
                    assert(is_last(front, k) && front[k] == e);
                    assert(by_key(front).contains(e));
                }
            }
        }
    }
}

/// Pairs of strings are seen as their characters, one by one and in their order.
pub proof fn pairs_are_seen_whole(pairs: Seq<(String, String)>, i: int)
    requires
        0 <= i < pairs.len(),
    ensures
        pair_views(pairs).len() == pairs.len(),
        pair_views(pairs)[i].0 == pairs[i].0@,
        pair_views(pairs)[i].1 == pairs[i].1@,
{
}

} // verus!
