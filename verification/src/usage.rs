//! Usage by API key, account and day: what is kept, summed up and shown.

use crate::calendar;
use crate::pricing;
use crate::selection;
use crate::selection::{Amount, Charge, Timestamp, UsageRecord};
use crate::text;
use std::collections::HashMap;
use vstd::prelude::*;

verus! {

broadcast use vstd::std_specs::hash::group_hash_axioms;

/// The most records that one API key, or one account, keeps.
pub const MAX_RECORDS_PER_KEY: usize = 10_000;

/// The most records of one day that are shown.
pub const MAX_RECORDS_PER_DAY: usize = 2000;

/// The most records on one page of a day.
pub const MAX_DAY_PAGE_SIZE: usize = 500;

/// Whose records are meant.
#[derive(Debug, Clone, Copy, PartialEq, Eq, Structural)]
pub enum Owner {
    Key(u32),
    Credential(u64),
}

/// Whether a record is one of `owner`.
pub open spec fn owned(r: UsageRecord, owner: Owner) -> bool {
    match owner {
        Owner::Key(id) => r.api_key_id == id,
        Owner::Credential(id) => r.credential_id == Some(id),
    }
}

/// How many records are those of `owner`.
pub open spec fn owned_count(all: Seq<UsageRecord>, owner: Owner) -> nat
    decreases all.len(),
{
    if all.len() == 0 {
        0
    } else {
        owned_count(all.drop_last(), owner) + if owned(all.last(), owner) {
            1nat
        } else {
            0nat
        }
    }
}

/// The records without the first `n` of `owner`.
pub open spec fn without_oldest(all: Seq<UsageRecord>, owner: Owner, n: nat) -> Seq<UsageRecord>
    decreases all.len(),
{
    if n == 0 || all.len() == 0 {
        all
    } else if owned(all[0], owner) {
        without_oldest(all.drop_first(), owner, (n - 1) as nat)
    } else {
        seq![all[0]] + without_oldest(all.drop_first(), owner, n)
    }
}

/// The records with at most as many of `owner` as are kept, the oldest given up.
pub open spec fn retained(all: Seq<UsageRecord>, owner: Owner) -> Seq<UsageRecord> {
    let count = owned_count(all, owner);
    if count > MAX_RECORDS_PER_KEY {
        without_oldest(all, owner, (count - MAX_RECORDS_PER_KEY) as nat)
    } else {
        all
    }
}

/// The records after one more.
pub open spec fn recorded(all: Seq<UsageRecord>, r: UsageRecord) -> Seq<UsageRecord> {
    let by_key = retained(all.push(r), Owner::Key(r.api_key_id));
    match r.credential_id {
        Some(id) => retained(by_key, Owner::Credential(id)),
        None => by_key,
    }
}

/// The records of all keys but one.
pub open spec fn without_key(all: Seq<UsageRecord>, api_key_id: u32) -> Seq<UsageRecord> {
    all.filter(|r: UsageRecord| r.api_key_id != api_key_id)
}

/// Marks on the records of `owner`.
pub open spec fn owner_marks(all: Seq<UsageRecord>, owner: Owner) -> Seq<bool> {
    Seq::new(all.len(), |i: int| owned(all[i], owner))
}

/// Marks on those marked records that are of the given model.
pub open spec fn model_marks(
    all: Seq<UsageRecord>,
    marks: Seq<bool>,
    model: Seq<char>,
) -> Seq<bool> {
    Seq::new(all.len(), |i: int| marks[i] && all[i].model@ == model)
}

/// The characters of dates that may be missing.
pub open spec fn date_views(dates: Seq<Option<String>>) -> Seq<Option<Seq<char>>> {
    Seq::new(dates.len(), |i: int| calendar::view_of(dates[i]))
}

/// The dates of records in China Standard Time.
pub open spec fn record_dates(all: Seq<UsageRecord>) -> Seq<Option<Seq<char>>> {
    Seq::new(all.len(), |i: int| calendar::cst_date_of(all[i].created_at))
}

/// Whether every record is of a time that has a date.
pub open spec fn all_datable(all: Seq<UsageRecord>) -> bool {
    forall|i: int|
        0 <= i < all.len() ==> {
            let at = (#[trigger] all[i]).created_at;
            calendar::datable(at.secs, at.nanos, calendar::CST_OFFSET_SECS)
        }
}

/// Whether no date is missing.
pub open spec fn all_dated(dates: Seq<Option<Seq<char>>>) -> bool {
    forall|i: int| 0 <= i < dates.len() ==> (#[trigger] dates[i]) is Some
}

/// Marks on the given date.
pub open spec fn date_marks(dates: Seq<Option<Seq<char>>>, date: Seq<char>) -> Seq<bool> {
    Seq::new(dates.len(), |i: int| dates[i] == Some(date))
}

/// Whether a record is one of `owner`.
fn is_owned(r: &UsageRecord, owner: Owner) -> (b: bool)
    ensures
        b == owned(*r, owner),
{
    match owner {
        Owner::Key(id) => r.api_key_id == id,
        Owner::Credential(id) => match r.credential_id {
            Some(c) => c == id,
            None => false,
        },
    }
}

/// How many records are those of `owner`.
fn count_owned(all: &Vec<UsageRecord>, owner: Owner) -> (n: usize)
    ensures
        n == owned_count(all@, owner),
{
    let mut n: usize = 0;
    let mut i: usize = 0;
    while i < all.len()
        invariant
            i <= all.len(),
            n == owned_count(all@.take(i as int), owner),
            n <= i,
        decreases all.len() - i,
    {
        assert(all@.take(i + 1).drop_last() =~= all@.take(i as int));
        if is_owned(&all[i], owner) {
            n += 1;
        }
        i += 1;
    }
    assert(all@.take(all.len() as int) =~= all@);
    n
}

/// Gives up the oldest records of `owner` beyond what is kept.
fn retain_newest(all: Vec<UsageRecord>, owner: Owner) -> (r: Vec<UsageRecord>)
    ensures
        r@ == retained(all@, owner),
{
    let count: usize = count_owned(&all, owner);
    if count <= MAX_RECORDS_PER_KEY {
        return all;
    }
    let ghost before = all@;
    let mut excess: usize = count - MAX_RECORDS_PER_KEY;
    let ghost goal = without_oldest(before, owner, excess as nat);
    let mut kept: Vec<UsageRecord> = Vec::new();
    assert(before.skip(0) =~= before);
    assert(goal =~= kept@ + goal);
    for record in it: all
        invariant
            it.seq() == before,
            goal == kept@ + without_oldest(before.skip(it.index() as int), owner, excess as nat),
    {
        let ghost rest = before.skip(it.index() as int);
        assert(rest[0] == record);
        assert(rest.drop_first() =~= before.skip(it.index() + 1));
        if excess > 0 && is_owned(&record, owner) {
            excess -= 1;
        } else {
            let ghost done = kept@;
            let ghost tail = without_oldest(rest.drop_first(), owner, excess as nat);
            assert(rest =~= seq![record] + rest.drop_first());
            assert(excess == 0 ==> tail == rest.drop_first());
            kept.push(record);
            assert(done + (seq![record] + tail) =~= kept@ + tail);
        }
    }
    assert(before.skip(before.len() as int) =~= Seq::empty());
    assert(kept@ =~= goal);
    kept
}

/// Usage of one model.
#[derive(Debug, Clone)]
pub struct ModelUsage {
    pub model: String,
    pub requests: u64,
    pub input_tokens: i64,
    pub output_tokens: i64,
    /// The costs of its requests, in order, to be added up.
    pub costs: Vec<Amount>,
}

/// Usage of one API key.
#[derive(Debug, Clone)]
pub struct UsageSummary {
    pub api_key_id: u32,
    pub total_requests: u64,
    pub total_input_tokens: i64,
    pub total_output_tokens: i64,
    /// The charges of its requests, in order, to be added up.
    pub charges: Vec<Charge>,
    /// Its usage by model, in the order in which the models first occur.
    pub by_model: Vec<ModelUsage>,
}

/// Usage of one day.
#[derive(Debug, Clone)]
pub struct DailySummary {
    pub date: String,
    pub total_requests: u64,
    /// The charges of its requests, in order, to be added up.
    pub charges: Vec<Charge>,
}

/// One record as it is shown.
#[derive(Debug, Clone)]
pub struct UsageRecordItem {
    pub model: String,
    pub input_tokens: i32,
    pub output_tokens: i32,
    pub estimated_cost: Amount,
    pub credits_used: Option<Amount>,
    /// Credits for a dollar of this model, in hundredths.
    pub k_ref: u32,
    pub cache_read_input_tokens: Option<i32>,
    pub cache_creation_input_tokens: Option<i32>,
    pub created_at: Timestamp,
    pub credential_id: Option<u64>,
    /// The name under which the account is shown.
    pub credential_label: Option<String>,
    pub client_ip: Option<String>,
}

/// One page of records.
#[derive(Debug, Clone)]
pub struct UsageRecordsPage {
    pub records: Vec<UsageRecordItem>,
    pub total: usize,
    pub page: usize,
    pub page_size: usize,
    pub total_pages: usize,
}

/// The models of the marked records, in the order in which they first occur.
pub open spec fn models(all: Seq<UsageRecord>, marks: Seq<bool>) -> Seq<Seq<char>>
    decreases all.len(),
{
    if all.len() == 0 {
        Seq::empty()
    } else {
        let before = models(all.drop_last(), marks);
        if marks[all.len() - 1] && !before.contains(all.last().model@) {
            before.push(all.last().model@)
        } else {
            before
        }
    }
}

/// Whether `usage` sums up the given model among the marked records.
pub open spec fn is_model_usage(
    usage: ModelUsage,
    all: Seq<UsageRecord>,
    marks: Seq<bool>,
    model: Seq<char>,
) -> bool {
    let of_model = model_marks(all, marks, model);
    &&& usage.model@ == model
    &&& usage.requests == selection::marked(of_model)
    &&& usage.input_tokens == selection::clamped(selection::input_sum(all, of_model))
    &&& usage.output_tokens == selection::clamped(selection::output_sum(all, of_model))
    &&& usage.costs@ == selection::costs(all, of_model)
}

/// Whether `summary` sums up the records of an API key.
pub open spec fn is_summary(
    summary: UsageSummary,
    all: Seq<UsageRecord>,
    api_key_id: u32,
) -> bool {
    let marks = owner_marks(all, Owner::Key(api_key_id));
    &&& summary.api_key_id == api_key_id
    &&& summary.total_requests == selection::marked(marks)
    &&& summary.total_input_tokens == selection::clamped(selection::input_sum(all, marks))
    &&& summary.total_output_tokens == selection::clamped(selection::output_sum(all, marks))
    &&& summary.charges@ == selection::charges(all, marks)
    &&& summary.by_model@.len() == models(all, marks).len()
    &&& forall|j: int|
        0 <= j < summary.by_model@.len() ==> is_model_usage(
            #[trigger] summary.by_model@[j],
            all,
            marks,
            models(all, marks)[j],
        )
}

/// Ascending keys with one more in its place.
pub open spec fn key_added(keys: Seq<u32>, key: u32) -> Seq<u32>
    decreases keys.len(),
{
    if keys.len() == 0 || keys.last() < key {
        keys.push(key)
    } else if keys.last() == key {
        keys
    } else {
        key_added(keys.drop_last(), key).push(keys.last())
    }
}

/// The API keys of the records, ascending, each once.
pub open spec fn key_ids(all: Seq<UsageRecord>) -> Seq<u32>
    decreases all.len(),
{
    if all.len() == 0 {
        Seq::empty()
    } else {
        key_added(key_ids(all.drop_last()), all.last().api_key_id)
    }
}

/// Descending dates with one more in its place.
pub open spec fn day_added(days: Seq<Seq<char>>, day: Seq<char>) -> Seq<Seq<char>>
    decreases days.len(),
{
    if days.len() == 0 || text::precedes(day, days.last()) {
        days.push(day)
    } else if days.last() == day {
        days
    } else {
        day_added(days.drop_last(), day).push(days.last())
    }
}

/// The given dates, descending, each once.
pub open spec fn days(dates: Seq<Option<Seq<char>>>) -> Seq<Seq<char>>
    decreases dates.len(),
{
    if dates.len() == 0 {
        Seq::empty()
    } else {
        match dates.last() {
            Some(day) => day_added(days(dates.drop_last()), day),
            None => days(dates.drop_last()),
        }
    }
}

/// Whether `list` sums up the records by their dates, the latest first.
pub open spec fn are_daily_summaries(
    list: Seq<DailySummary>,
    all: Seq<UsageRecord>,
    dates: Seq<Option<Seq<char>>>,
) -> bool {
    &&& list.len() == days(dates).len()
    &&& forall|j: int|
        0 <= j < list.len() ==> {
            let marks = date_marks(dates, days(dates)[j]);
            &&& (#[trigger] list[j]).date@ == days(dates)[j]
            &&& list[j].total_requests == selection::marked(marks)
            &&& list[j].charges@ == selection::charges(all, marks)
        }
}

/// The name under which an account is shown.
pub open spec fn label_of(
    labels: Map<u64, String>,
    credential_id: Option<u64>,
) -> Option<Seq<char>> {
    match credential_id {
        Some(id) => if labels.dom().contains(id) {
            Some(labels[id]@)
        } else {
            None
        },
        None => None,
    }
}

/// Whether `item` shows the record `r`.
pub open spec fn shows(item: UsageRecordItem, r: UsageRecord, labels: Map<u64, String>) -> bool {
    &&& item.model@ == r.model@
    &&& item.input_tokens == r.input_tokens
    &&& item.output_tokens == r.output_tokens
    &&& item.estimated_cost == r.estimated_cost
    &&& item.credits_used == r.credits_used
    &&& item.k_ref == pricing::k_ref_of(pricing::lowercase(r.model@))
    &&& item.cache_read_input_tokens == r.cache_read_input_tokens
    &&& item.cache_creation_input_tokens == r.cache_creation_input_tokens
    &&& item.created_at == r.created_at
    &&& item.credential_id == r.credential_id
    &&& calendar::view_of(item.credential_label) == label_of(labels, r.credential_id)
    &&& calendar::view_of(item.client_ip) == calendar::view_of(r.client_ip)
}

/// How many pages `total` records fill.
pub open spec fn page_count(total: int, page_size: int) -> int {
    (total + page_size - 1) / page_size
}

/// The page that is shown where `page` is asked for.
pub open spec fn shown_page(page: int, total: int, page_size: int) -> int {
    if page < 1 {
        1
    } else if page > page_count(total, page_size) {
        page_count(total, page_size)
    } else {
        page
    }
}

/// Whether `r` is the asked page of the records at the places `order`.
pub open spec fn is_page(
    r: UsageRecordsPage,
    all: Seq<UsageRecord>,
    order: Seq<int>,
    page: int,
    page_size: int,
    labels: Map<u64, String>,
) -> bool {
    if page_size == 0 {
        r.records@.len() == 0 && r.total == 0 && r.page == 1 && r.page_size == 0 && r.total_pages
            == 0
    } else if order.len() == 0 {
        r.records@.len() == 0 && r.total == 0 && r.page == 1 && r.page_size == page_size
            && r.total_pages == 0
    } else {
        let shown = shown_page(page, order.len() as int, page_size);
        let start = (shown - 1) * page_size;
        &&& r.total == order.len()
        &&& r.total_pages == page_count(order.len() as int, page_size)
        &&& r.page == shown
        &&& r.page_size == page_size
        &&& r.records@.len() == if order.len() - start < page_size {
            order.len() - start
        } else {
            page_size
        }
        &&& forall|k: int|
            0 <= k < r.records@.len() ==> shows(
                #[trigger] r.records@[k],
                all[order[start + k]],
                labels,
            )
    }
}

/// The first `n`, or all where there are fewer.
pub open spec fn first<T>(s: Seq<T>, n: int) -> Seq<T> {
    if s.len() < n {
        s
    } else {
        s.take(n)
    }
}

/// The page size for a day: between one and the largest.
pub open spec fn day_page_size(page_size: int) -> int {
    if page_size < 1 {
        1
    } else if page_size > MAX_DAY_PAGE_SIZE {
        MAX_DAY_PAGE_SIZE as int
    } else {
        page_size
    }
}

/// Marks on the records of `owner`.
fn mark_owned(all: &Vec<UsageRecord>, owner: Owner) -> (marks: Vec<bool>)
    ensures
        marks@ == owner_marks(all@, owner),
{
    let mut marks: Vec<bool> = Vec::new();
    let mut i: usize = 0;
    while i < all.len()
        invariant
            i <= all.len(),
            marks@ == owner_marks(all@, owner).take(i as int),
        decreases all.len() - i,
    {
        marks.push(is_owned(&all[i], owner));
        assert(marks@ =~= owner_marks(all@, owner).take(i + 1));
        i += 1;
    }
    assert(marks@ =~= owner_marks(all@, owner));
    marks
}

/// Marks on those marked records that are of the given model.
fn mark_model(all: &Vec<UsageRecord>, marks: &Vec<bool>, model: &String) -> (r: Vec<bool>)
    requires
        marks.len() == all.len(),
    ensures
        r@ == model_marks(all@, marks@, model@),
{
    let mut r: Vec<bool> = Vec::new();
    let mut i: usize = 0;
    while i < all.len()
        invariant
            i <= all.len(),
            marks.len() == all.len(),
            r@ == model_marks(all@, marks@, model@).take(i as int),
        decreases all.len() - i,
    {
        r.push(marks[i] && all[i].model == *model);
        assert(r@ =~= model_marks(all@, marks@, model@).take(i + 1));
        i += 1;
    }
    assert(r@ =~= model_marks(all@, marks@, model@));
    r
}

/// Marks on the given date.
fn mark_date(dates: &Vec<Option<String>>, date: &str) -> (r: Vec<bool>)
    ensures
        r@ == date_marks(date_views(dates@), date@),
{
    let mut r: Vec<bool> = Vec::new();
    let mut i: usize = 0;
    while i < dates.len()
        invariant
            i <= dates.len(),
            r@ == date_marks(date_views(dates@), date@).take(i as int),
        decreases dates.len() - i,
    {
        let same: bool = match &dates[i] {
            Some(d) => text::same(d.as_str(), date),
            None => false,
        };
        r.push(same);
        assert(r@ =~= date_marks(date_views(dates@), date@).take(i + 1));
        i += 1;
    }
    assert(r@ =~= date_marks(date_views(dates@), date@));
    r
}

/// The models of the marked records, in the order in which they first occur.
fn list_models(all: &Vec<UsageRecord>, marks: &Vec<bool>) -> (r: Vec<String>)
    requires
        marks.len() == all.len(),
    ensures
        text::views(r@) == models(all@, marks@),
{
    let mut r: Vec<String> = Vec::new();
    let mut i: usize = 0;
    assert(text::views(r@) =~= Seq::empty());
    while i < all.len()
        invariant
            i <= all.len(),
            marks.len() == all.len(),
            text::views(r@) == models(all@.take(i as int), marks@),
        decreases all.len() - i,
    {
        assert(all@.take(i + 1).drop_last() =~= all@.take(i as int));
        let ghost done = text::views(r@);
        if marks[i] && !has_text(&r, &all[i].model) {
            r.push(all[i].model.clone());
            assert(text::views(r@) =~= done.push(all@[i as int].model@));
        }
        i += 1;
    }
    assert(all@.take(all.len() as int) =~= all@);
    r
}

/// Whether `list` holds `s`.
fn has_text(list: &Vec<String>, s: &String) -> (r: bool)
    ensures
        r == text::views(list@).contains(s@),
{
    let mut i: usize = 0;
    while i < list.len()
        invariant
            i <= list.len(),
            forall|j: int| 0 <= j < i ==> (#[trigger] list@[j])@ != s@,
        decreases list.len() - i,
    {
        if list[i] == *s {
            assert(text::views(list@)[i as int] == s@);
            return true;
        }
        i += 1;
    }
    assert forall|j: int| 0 <= j < list.len() implies text::views(list@)[j] != s@ by {
        assert(list@[j]@ != s@);
    }
    false
}

/// Puts a key in its place among ascending ones.
fn add_key(keys: &mut Vec<u32>, key: u32)
    ensures
        final(keys)@ == key_added(old(keys)@, key),
{
    let ghost before = keys@;
    let mut n: usize = keys.len();
    assert(before.take(n as int) =~= before);
    assert(key_added(before, key) =~= key_added(before, key) + before.skip(n as int));
    while n > 0 && keys[n - 1] > key
        invariant
            n <= keys.len(),
            keys@ == before,
            before == old(keys)@,
            key_added(before, key) == key_added(before.take(n as int), key) + before.skip(n as int),
        decreases n,
    {
        assert(before.take(n as int).last() == before[n - 1]);
        assert(before.take(n as int).drop_last() =~= before.take(n - 1));
        assert(key_added(before.take(n - 1), key).push(before[n - 1]) + before.skip(n as int)
            =~= key_added(before.take(n - 1), key) + before.skip(n - 1));
        n -= 1;
    }
    assert(n > 0 ==> before.take(n as int).last() == before[n - 1]);
    if n > 0 && keys[n - 1] == key {
        assert(before =~= before.take(n as int) + before.skip(n as int));
        return;
    }
    keys.insert(n, key);
    assert(keys@ =~= before.take(n as int).push(key) + before.skip(n as int));
}

/// Puts a date in its place among descending ones.
fn add_day(list: &mut Vec<String>, day: &String)
    ensures
        text::views(final(list)@) == day_added(text::views(old(list)@), day@),
{
    let ghost before = text::views(list@);
    let mut n: usize = list.len();
    assert(before.take(n as int) =~= before);
    assert(day_added(before, day@) =~= day_added(before, day@) + before.skip(n as int));
    while n > 0
        invariant
            n <= list.len(),
            list@ == old(list)@,
            before == text::views(list@),
            day_added(before, day@) == day_added(before.take(n as int), day@) + before.skip(
                n as int,
            ),
        decreases n,
    {
        assert(before.take(n as int).last() == before[n - 1]);
        assert(before.take(n as int).drop_last() =~= before.take(n - 1));
        if text::less(day.as_str(), list[n - 1].as_str()) {
            let ghost place = n as int;
            list.insert(n, day.clone());
            assert(text::views(list@) =~= before.take(place).push(day@) + before.skip(place));
            return;
        }
        if list[n - 1] == *day {
            assert(before =~= before.take(n as int) + before.skip(n as int));
            return;
        }
        assert(day_added(before.take(n - 1), day@).push(before[n - 1]) + before.skip(n as int)
            =~= day_added(before.take(n - 1), day@) + before.skip(n - 1));
        n -= 1;
    }
    list.insert(0, day.clone());
    assert(before.take(0) =~= Seq::empty());
    assert(text::views(list@) =~= before.take(0).push(day@) + before.skip(0));
}

/// Usage of one model among the marked records.
fn sum_up_model(all: &Vec<UsageRecord>, marks: &Vec<bool>, model: &String) -> (r: ModelUsage)
    requires
        marks.len() == all.len(),
    ensures
        is_model_usage(r, all@, marks@, model@),
{
    let of_model = mark_model(all, marks, model);
    let (input_tokens, output_tokens) = selection::sum_tokens(all, &of_model);
    ModelUsage {
        model: model.clone(),
        requests: selection::count_marked(&of_model),
        input_tokens,
        output_tokens,
        costs: selection::list_costs(all, &of_model),
    }
}

/// The name under which an account is shown.
fn find_label(labels: &HashMap<u64, String>, credential_id: Option<u64>) -> (r: Option<String>)
    ensures
        calendar::view_of(r) == label_of(labels@, credential_id),
{
    match credential_id {
        Some(id) => match labels.get(&id) {
            Some(label) => Some(label.clone()),
            None => None,
        },
        None => None,
    }
}

/// The record as it is shown.
fn show(r: &UsageRecord, labels: &HashMap<u64, String>) -> (item: UsageRecordItem)
    ensures
        shows(item, *r, labels@),
{
    let client_ip: Option<String> = match &r.client_ip {
        Some(ip) => Some(ip.clone()),
        None => None,
    };
    UsageRecordItem {
        model: r.model.clone(),
        input_tokens: r.input_tokens,
        output_tokens: r.output_tokens,
        estimated_cost: r.estimated_cost,
        credits_used: r.credits_used,
        k_ref: pricing::get_k_ref(r.model.as_str()),
        cache_read_input_tokens: r.cache_read_input_tokens,
        cache_creation_input_tokens: r.cache_creation_input_tokens,
        created_at: r.created_at,
        credential_id: r.credential_id,
        credential_label: find_label(labels, r.credential_id),
        client_ip,
    }
}

/// One page of the records at the places `order`.
fn cut_page(
    all: &Vec<UsageRecord>,
    order: &Vec<usize>,
    page: usize,
    page_size: usize,
    labels: &HashMap<u64, String>,
) -> (r: UsageRecordsPage)
    requires
        forall|k: int| 0 <= k < order.len() ==> (#[trigger] order@[k]) < all.len(),
    ensures
        is_page(
            r,
            all@,
            selection::places(order@),
            page as int,
            page_size as int,
            labels@,
        ),
{
    if page_size == 0 {
        return UsageRecordsPage {
            records: Vec::new(),
            total: 0,
            page: 1,
            page_size: 0,
            total_pages: 0,
        };
    }
    let total: usize = order.len();
    if total == 0 {
        return UsageRecordsPage {
            records: Vec::new(),
            total: 0,
            page: 1,
            page_size,
            total_pages: 0,
        };
    }
    let total_pages: usize = (total - 1) / page_size + 1;
    proof {
        let t = total as int;
        let s = page_size as int;
        vstd::arithmetic::div_mod::lemma_div_plus_one(t - 1, s);
        assert(page_count(t, s) == total_pages);
    }
    let shown: usize = if page < 1 {
        1
    } else if page > total_pages {
        total_pages
    } else {
        page
    };
    proof {
        let q = (total - 1) / page_size as int;
        vstd::arithmetic::div_mod::lemma_fundamental_div_mod(total - 1, page_size as int);
        assert((shown - 1) * page_size <= q * page_size) by (nonlinear_arith)
            requires
                shown - 1 <= q,
                page_size >= 0,
        ;
        assert(q * page_size == page_size * q) by (nonlinear_arith);
    }
    let start: usize = (shown - 1) * page_size;
    assert(start < total);
    let left: usize = total - start;
    let n: usize = if left < page_size {
        left
    } else {
        page_size
    };
    let mut records: Vec<UsageRecordItem> = Vec::new();
    let mut k: usize = 0;
    while k < n
        invariant
            k <= n,
            start + n <= order.len(),
            forall|j: int| 0 <= j < order.len() ==> (#[trigger] order@[j]) < all.len(),
            records.len() == k,
            forall|j: int|
                0 <= j < k ==> shows(
                    #[trigger] records@[j],
                    all@[selection::places(order@)[start + j]],
                    labels@,
                ),
        decreases n - k,
    {
        records.push(show(&all[order[start + k]], labels));
        k += 1;
    }
    UsageRecordsPage { records, total, page: shown, page_size, total_pages }
}

/// All records, from the first made to the last.
#[derive(Debug)]
pub struct UsageTracker {
    records: Vec<UsageRecord>,
}

impl View for UsageTracker {
    type V = Seq<UsageRecord>;

    closed spec fn view(&self) -> Seq<UsageRecord> {
        self.records@
    }
}

impl UsageTracker {
    /// A tracker with the records that were kept.
    pub fn load(records: Vec<UsageRecord>) -> (r: Self)
        ensures
            r@ == records@,
    {
        UsageTracker { records }
    }

    /// All records, to be kept.
    pub fn records(&self) -> (r: &Vec<UsageRecord>)
        ensures
            r@ == self@,
    {
        &self.records
    }

    /// Adds a record. Its API key, and its account where it has one, then keep
    /// only their newest records.
    pub fn record(
        &mut self,
        api_key_id: u32,
        credential_id: Option<u64>,
        model: String,
        input_tokens: i32,
        output_tokens: i32,
        client_ip: Option<String>,
        credits_used: Option<Amount>,
        cache_read_input_tokens: Option<i32>,
        cache_creation_input_tokens: Option<i32>,
        estimated_cost: Amount,
        created_at: Timestamp,
    )
        ensures
            final(self)@ == recorded(
                old(self)@,
                (UsageRecord {
                    api_key_id,
                    credential_id,
                    model,
                    input_tokens,
                    output_tokens,
                    estimated_cost,
                    credits_used,
                    cache_read_input_tokens,
                    cache_creation_input_tokens,
                    created_at,
                    client_ip,
                }),
            ),
    {
        let mut all: Vec<UsageRecord> = Vec::new();
        std::mem::swap(&mut all, &mut self.records);
        all.push(
            UsageRecord {
                api_key_id,
                credential_id,
                model,
                input_tokens,
                output_tokens,
                estimated_cost,
                credits_used,
                cache_read_input_tokens,
                cache_creation_input_tokens,
                created_at,
                client_ip,
            },
        );
        let mut kept: Vec<UsageRecord> = retain_newest(all, Owner::Key(api_key_id));
        if let Some(id) = credential_id {
            kept = retain_newest(kept, Owner::Credential(id));
        }
        self.records = kept;
    }

    /// Usage of one API key.
    pub fn get_summary(&self, api_key_id: u32) -> (r: UsageSummary)
        ensures
            is_summary(r, self@, api_key_id),
    {
        let marks = mark_owned(&self.records, Owner::Key(api_key_id));
        let (total_input_tokens, total_output_tokens) = selection::sum_tokens(
            &self.records,
            &marks,
        );
        let names = list_models(&self.records, &marks);
        let mut by_model: Vec<ModelUsage> = Vec::new();
        let mut j: usize = 0;
        while j < names.len()
            invariant
                j <= names.len(),
                by_model.len() == j,
                marks.len() == self.records.len(),
                text::views(names@) == models(self@, marks@),
                forall|k: int|
                    0 <= k < j ==> is_model_usage(
                        #[trigger] by_model@[k],
                        self@,
                        marks@,
                        models(self@, marks@)[k],
                    ),
            decreases names.len() - j,
        {
            assert(text::views(names@)[j as int] == names@[j as int]@);
            by_model.push(sum_up_model(&self.records, &marks, &names[j]));
            j += 1;
        }
        UsageSummary {
            api_key_id,
            total_requests: selection::count_marked(&marks),
            total_input_tokens,
            total_output_tokens,
            charges: selection::list_charges(&self.records, &marks),
            by_model,
        }
    }

    /// Usage of every API key that has records, by ascending key.
    pub fn get_all_summaries(&self) -> (r: Vec<UsageSummary>)
        ensures
            r@.len() == key_ids(self@).len(),
            forall|j: int|
                0 <= j < r@.len() ==> is_summary(#[trigger] r@[j], self@, key_ids(self@)[j]),
    {
        let mut keys: Vec<u32> = Vec::new();
        let mut i: usize = 0;
        while i < self.records.len()
            invariant
                i <= self.records.len(),
                keys@ == key_ids(self.records@.take(i as int)),
            decreases self.records.len() - i,
        {
            assert(self.records@.take(i + 1).drop_last() =~= self.records@.take(i as int));
            add_key(&mut keys, self.records[i].api_key_id);
            i += 1;
        }
        assert(self.records@.take(self.records.len() as int) =~= self.records@);
        let mut r: Vec<UsageSummary> = Vec::new();
        let mut j: usize = 0;
        while j < keys.len()
            invariant
                j <= keys.len(),
                keys@ == key_ids(self@),
                r.len() == j,
                forall|k: int|
                    0 <= k < j ==> is_summary(#[trigger] r@[k], self@, key_ids(self@)[k]),
            decreases keys.len() - j,
        {
            r.push(self.get_summary(keys[j]));
            j += 1;
        }
        r
    }

    /// Drops the records of one API key.
    pub fn reset(&mut self, api_key_id: u32)
        ensures
            final(self)@ == without_key(old(self)@, api_key_id),
    {
        let ghost before = self.records@;
        let mut all: Vec<UsageRecord> = Vec::new();
        std::mem::swap(&mut all, &mut self.records);
        let mut kept: Vec<UsageRecord> = Vec::new();
        assert(without_key(before.take(0), api_key_id) =~= Seq::empty()) by {
            reveal(Seq::filter);
        }
        for record in it: all
            invariant
                it.seq() == before,
                kept@ == without_key(before.take(it.index() as int), api_key_id),
        {
            proof {
                reveal(Seq::filter);
                assert(before.take(it.index() + 1).drop_last() =~= before.take(it.index() as int));
            }
            if record.api_key_id != api_key_id {
                kept.push(record);
            }
        }
        assert(before.take(before.len() as int) =~= before);
        self.records = kept;
    }

    /// The costs of the requests of one API key, in order, to be added up.
    pub fn costs(&self, api_key_id: u32) -> (r: Vec<Amount>)
        ensures
            r@ == selection::costs(self@, owner_marks(self@, Owner::Key(api_key_id))),
    {
        let marks = mark_owned(&self.records, Owner::Key(api_key_id));
        selection::list_costs(&self.records, &marks)
    }

    /// One page of the marked records, the latest first.
    fn page_of_marked(
        &self,
        marks: &Vec<bool>,
        limit: usize,
        page: usize,
        page_size: usize,
        labels: &HashMap<u64, String>,
    ) -> (r: UsageRecordsPage)
        requires
            marks.len() == self@.len(),
        ensures
            is_page(
                r,
                self@,
                first(selection::newest_first(self@, marks@), limit as int),
                page as int,
                page_size as int,
                labels@,
            ),
    {
        let mut order = selection::sort_newest_first(&self.records, marks);
        let ghost sorted = selection::places(order@);
        if order.len() >= limit {
            order.truncate(limit);
        }
        assert(selection::places(order@) =~= first(sorted, limit as int));
        cut_page(&self.records, &order, page, page_size, labels)
    }

    /// One page of the records of an API key, the latest first.
    pub fn get_records_paged(
        &self,
        api_key_id: u32,
        page: usize,
        page_size: usize,
        credential_labels: &HashMap<u64, String>,
    ) -> (r: UsageRecordsPage)
        ensures
            is_page(
                r,
                self@,
                selection::newest_first(
                    self@,
                    owner_marks(self@, Owner::Key(api_key_id)),
                ),
                page as int,
                page_size as int,
                credential_labels@,
            ),
    {
        let marks = mark_owned(&self.records, Owner::Key(api_key_id));
        let order = selection::sort_newest_first(&self.records, &marks);
        cut_page(&self.records, &order, page, page_size, credential_labels)
    }

    /// One page of the records of an account, the latest first.
    pub fn get_records_paged_by_credential(
        &self,
        credential_id: u64,
        page: usize,
        page_size: usize,
        credential_labels: &HashMap<u64, String>,
    ) -> (r: UsageRecordsPage)
        ensures
            is_page(
                r,
                self@,
                selection::newest_first(
                    self@,
                    owner_marks(self@, Owner::Credential(credential_id)),
                ),
                page as int,
                page_size as int,
                credential_labels@,
            ),
    {
        let marks = mark_owned(&self.records, Owner::Credential(credential_id));
        let order = selection::sort_newest_first(&self.records, &marks);
        cut_page(&self.records, &order, page, page_size, credential_labels)
    }

    /// The dates of all records in China Standard Time.
    pub fn dates(&self) -> (r: Vec<Option<String>>)
        ensures
            date_views(r@) == record_dates(self@),
            all_datable(self@) ==> all_dated(record_dates(self@)),
    {
        let mut r: Vec<Option<String>> = Vec::new();
        let mut i: usize = 0;
        while i < self.records.len()
            invariant
                i <= self.records.len(),
                r.len() == i,
                date_views(r@) == record_dates(self@).take(i as int),
                all_datable(self@) ==> all_dated(record_dates(self@).take(i as int)),
            decreases self.records.len() - i,
        {
            let ghost done = date_views(r@);
            assert(self.records@[i as int] == self@[i as int]);
            r.push(calendar::cst_date(self.records[i].created_at));
            assert(date_views(r@) =~= done.push(record_dates(self@)[i as int]));
            assert(record_dates(self@).take(i + 1) =~= done.push(record_dates(self@)[i as int]));
            i += 1;
        }
        assert(record_dates(self@).take(self.records.len() as int) =~= record_dates(self@));
        r
    }

    /// Usage by the given dates of the records, the latest date first. A record
    /// without a date belongs to no day.
    pub fn daily_summaries(&self, dates: &Vec<Option<String>>) -> (r: Vec<DailySummary>)
        requires
            dates.len() == self@.len(),
        ensures
            are_daily_summaries(r@, self@, date_views(dates@)),
    {
        let ghost views = date_views(dates@);
        let mut list: Vec<String> = Vec::new();
        let mut i: usize = 0;
        assert(text::views(list@) =~= Seq::empty());
        while i < dates.len()
            invariant
                i <= dates.len(),
                views == date_views(dates@),
                text::views(list@) == days(views.take(i as int)),
            decreases dates.len() - i,
        {
            assert(views.take(i + 1).drop_last() =~= views.take(i as int));
            assert(views.take(i + 1).last() == calendar::view_of(dates@[i as int]));
            if let Some(day) = &dates[i] {
                add_day(&mut list, day);
            }
            i += 1;
        }
        assert(views.take(dates.len() as int) =~= views);
        let mut r: Vec<DailySummary> = Vec::new();
        let mut j: usize = 0;
        while j < list.len()
            invariant
                j <= list.len(),
                views == date_views(dates@),
                dates.len() == self@.len(),
                text::views(list@) == days(views),
                r.len() == j,
                forall|k: int|
                    0 <= k < j ==> {
                        let marks = date_marks(views, days(views)[k]);
                        &&& (#[trigger] r@[k]).date@ == days(views)[k]
                        &&& r@[k].total_requests == selection::marked(marks)
                        &&& r@[k].charges@ == selection::charges(self@, marks)
                    },
            decreases list.len() - j,
        {
            assert(text::views(list@)[j as int] == list@[j as int]@);
            let marks = mark_date(dates, list[j].as_str());
            r.push(
                DailySummary {
                    date: list[j].clone(),
                    total_requests: selection::count_marked(&marks),
                    charges: selection::list_charges(&self.records, &marks),
                },
            );
            j += 1;
        }
        r
    }

    /// Usage by day in China Standard Time, the latest day first.
    pub fn get_daily_summaries(&self) -> (r: Vec<DailySummary>)
        ensures
            are_daily_summaries(r@, self@, record_dates(self@)),
            all_datable(self@) ==> all_dated(record_dates(self@)),
    {
        let dates = self.dates();
        assert(date_views(dates@).len() == self@.len());
        self.daily_summaries(&dates)
    }

    /// One page of the records with the given date among `dates`, the latest
    /// first, out of a limited number of them.
    pub fn records_paged_of_day(
        &self,
        dates: &Vec<Option<String>>,
        date: &str,
        page: usize,
        page_size: usize,
        credential_labels: &HashMap<u64, String>,
    ) -> (r: UsageRecordsPage)
        requires
            dates.len() == self@.len(),
        ensures
            is_page(
                r,
                self@,
                first(
                    selection::newest_first(self@, date_marks(date_views(dates@), date@)),
                    MAX_RECORDS_PER_DAY as int,
                ),
                page as int,
                day_page_size(page_size as int),
                credential_labels@,
            ),
    {
        let size: usize = if page_size < 1 {
            1
        } else if page_size > MAX_DAY_PAGE_SIZE {
            MAX_DAY_PAGE_SIZE
        } else {
            page_size
        };
        let marks = mark_date(dates, date);
        self.page_of_marked(&marks, MAX_RECORDS_PER_DAY, page, size, credential_labels)
    }

    /// One page of the records of a day in China Standard Time, the latest first,
    /// out of a limited number of them.
    pub fn get_records_paged_by_date(
        &self,
        date: &str,
        page: usize,
        page_size: usize,
        credential_labels: &HashMap<u64, String>,
    ) -> (r: UsageRecordsPage)
        ensures
            is_page(
                r,
                self@,
                first(
                    selection::newest_first(self@, date_marks(record_dates(self@), date@)),
                    MAX_RECORDS_PER_DAY as int,
                ),
                page as int,
                day_page_size(page_size as int),
                credential_labels@,
            ),
    {
        let dates = self.dates();
        assert(date_views(dates@).len() == self@.len());
        self.records_paged_of_day(&dates, date, page, page_size, credential_labels)
    }
}

} // verus!
