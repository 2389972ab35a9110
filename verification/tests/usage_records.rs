use promptmeter::calendar::{cst_date, FIRST_SEC, LAST_SEC};
use promptmeter::pricing::{
    get_k_ref, get_model_pricing, k_ref_by_lowercase, pricing_by_lowercase, ModelPricing,
};
use promptmeter::selection::{Amount, Timestamp};
use promptmeter::usage::{UsageTracker, MAX_RECORDS_PER_DAY, MAX_RECORDS_PER_KEY};
use std::collections::HashMap;

fn amount(x: f64) -> Amount {
    Amount { bits: x.to_bits() }
}

fn at(secs: i64) -> Timestamp {
    Timestamp { secs, nanos: 0 }
}

fn add(t: &mut UsageTracker, key: u32, account: Option<u64>, model: &str, n: i32, secs: i64) {
    t.record(
        key,
        account,
        model.to_string(),
        n,
        2 * n,
        None,
        None,
        None,
        None,
        amount(n as f64),
        at(secs),
    );
}

fn inputs(page: &promptmeter::usage::UsageRecordsPage) -> Vec<i32> {
    page.records.iter().map(|r| r.input_tokens).collect()
}

fn no_labels() -> HashMap<u64, String> {
    HashMap::new()
}

#[test]
fn prices_by_model() {
    let price = |i, o| ModelPricing { input_per_mtok: i, output_per_mtok: o };
    assert_eq!(get_model_pricing("Model-OPUS-4-6"), price(5, 25));
    assert_eq!(get_model_pricing("model-Haiku-4-5"), price(1, 5));
    assert_eq!(get_model_pricing("model-sonnet-4"), price(3, 15));
    assert_eq!(get_model_pricing(""), price(3, 15));
    assert_eq!(get_model_pricing("haiku opus"), price(5, 25));
    assert_eq!(pricing_by_lowercase("OPUS"), price(3, 15));
}

#[test]
fn credits_by_model() {
    assert_eq!(get_k_ref("model-opus-4-8"), 724);
    assert_eq!(get_k_ref("model-OPUS-4.8"), 724);
    assert_eq!(get_k_ref("model-opus-4-7"), 730);
    assert_eq!(get_k_ref("model-opus-4.7"), 730);
    assert_eq!(get_k_ref("model-opus-4-6"), 713);
    assert_eq!(get_k_ref("model-opus-4.6"), 713);
    // every other model takes the default
    assert_eq!(get_k_ref("model-opus-4-5"), 706);
    assert_eq!(get_k_ref("model-opus"), 706);
    assert_eq!(get_k_ref("model-sonnet-4-6"), 706);
    // the newest of several versions decides
    assert_eq!(get_k_ref("model-opus-4-6-4-7-4-8"), 724);
    assert_eq!(get_k_ref("model-opus-4-6-4-7"), 730);
    assert_eq!(get_k_ref("model-sonnet-4-8"), 706);
    assert_eq!(get_k_ref("model-haiku-4-5"), 706);
    assert_eq!(k_ref_by_lowercase("OPUS-4-8"), 706);
}

#[test]
fn dates_in_china() {
    assert_eq!(cst_date(at(0)).as_deref(), Some("1970-01-01"));
    // 2024-02-28T15:59:59Z and one second later
    assert_eq!(cst_date(at(1_709_135_999)).as_deref(), Some("2024-02-28"));
    assert_eq!(cst_date(at(1_709_136_000)).as_deref(), Some("2024-02-29"));
    assert_eq!(cst_date(at(-28_801)).as_deref(), Some("1969-12-31"));
}

#[test]
fn dates_out_of_range() {
    assert!(cst_date(at(FIRST_SEC)).is_some());
    assert!(cst_date(at(FIRST_SEC - 1)).is_none());
    assert!(cst_date(at(LAST_SEC)).is_some());
    assert!(cst_date(at(LAST_SEC + 1)).is_none());
    assert!(cst_date(at(i64::MIN)).is_none());
    assert!(cst_date(at(i64::MAX)).is_none());
    assert!(cst_date(Timestamp { secs: 0, nanos: 999_999_999 }).is_some());
    assert!(cst_date(Timestamp { secs: 0, nanos: 1_000_000_000 }).is_none());
    // a leap second
    assert!(cst_date(Timestamp { secs: 59, nanos: 1_999_999_999 }).is_some());
    assert!(cst_date(Timestamp { secs: -1, nanos: 1_000_000_000 }).is_some());
    assert!(cst_date(Timestamp { secs: 59, nanos: 2_000_000_000 }).is_none());
}

#[test]
fn a_record_is_kept_as_it_was_made() {
    let mut t = UsageTracker::load(Vec::new());
    t.record(
        7,
        Some(9),
        "m".to_string(),
        -1,
        2,
        Some("1.2.3.4".to_string()),
        Some(amount(0.5)),
        Some(3),
        Some(4),
        amount(1.25),
        Timestamp { secs: 5, nanos: 6 },
    );
    let r = &t.records()[0];
    assert_eq!(t.records().len(), 1);
    assert_eq!((r.api_key_id, r.credential_id, r.model.as_str()), (7, Some(9), "m"));
    assert_eq!((r.input_tokens, r.output_tokens), (-1, 2));
    assert_eq!(f64::from_bits(r.estimated_cost.bits), 1.25);
    assert_eq!(r.credits_used, Some(amount(0.5)));
    assert_eq!((r.cache_read_input_tokens, r.cache_creation_input_tokens), (Some(3), Some(4)));
    assert_eq!(r.created_at, Timestamp { secs: 5, nanos: 6 });
    assert_eq!(r.client_ip.as_deref(), Some("1.2.3.4"));
}

#[test]
fn summary_of_a_key() {
    let mut t = UsageTracker::load(Vec::new());
    add(&mut t, 1, None, "b", 10, 0);
    add(&mut t, 2, None, "b", 1000, 0);
    add(&mut t, 1, None, "a", 20, 0);
    add(&mut t, 1, None, "b", 30, 0);
    let s = t.get_summary(1);
    assert_eq!(s.api_key_id, 1);
    assert_eq!(s.total_requests, 3);
    assert_eq!(s.total_input_tokens, 60);
    assert_eq!(s.total_output_tokens, 120);
    let costs: Vec<f64> =
        s.charges.iter().map(|c| f64::from_bits(c.estimated_cost.bits)).collect();
    assert_eq!(costs, [10.0, 20.0, 30.0]);
    assert!(s.charges.iter().all(|c| c.k_ref == 706 && c.credits_used.is_none()));
    assert_eq!(s.by_model.len(), 2);
    assert_eq!((s.by_model[0].model.as_str(), s.by_model[0].requests), ("b", 2));
    assert_eq!((s.by_model[0].input_tokens, s.by_model[0].output_tokens), (40, 80));
    assert_eq!(s.by_model[0].costs, [amount(10.0), amount(30.0)]);
    assert_eq!((s.by_model[1].model.as_str(), s.by_model[1].requests), ("a", 1));
    // the models add up
    assert_eq!(s.by_model.iter().map(|m| m.requests).sum::<u64>(), s.total_requests);
    assert_eq!(s.by_model.iter().map(|m| m.input_tokens).sum::<i64>(), s.total_input_tokens);
    let none = t.get_summary(3);
    assert_eq!((none.total_requests, none.by_model.len()), (0, 0));
}

#[test]
fn sums_exceed_32_bits() {
    let mut t = UsageTracker::load(Vec::new());
    for _ in 0..3 {
        t.record(
            1,
            None,
            "m".to_string(),
            i32::MAX,
            i32::MIN,
            None,
            None,
            None,
            None,
            amount(0.0),
            at(0),
        );
    }
    let s = t.get_summary(1);
    assert_eq!(s.total_input_tokens, 3 * i32::MAX as i64);
    assert_eq!(s.total_output_tokens, 3 * i32::MIN as i64);
}

#[test]
fn summaries_come_by_key() {
    let mut t = UsageTracker::load(Vec::new());
    for key in [5, 0, 9, 5, 0, 5] {
        add(&mut t, key, None, "m", 1, 0);
    }
    let list = t.get_all_summaries();
    let keys: Vec<u32> = list.iter().map(|s| s.api_key_id).collect();
    let requests: Vec<u64> = list.iter().map(|s| s.total_requests).collect();
    assert_eq!(keys, [0, 5, 9]);
    assert_eq!(requests, [2, 3, 1]);
    assert!(UsageTracker::load(Vec::new()).get_all_summaries().is_empty());
}

#[test]
fn a_reset_drops_one_key() {
    let mut t = UsageTracker::load(Vec::new());
    for (key, n) in [(1, 1), (2, 2), (1, 3), (3, 4)] {
        add(&mut t, key, None, "m", n, 0);
    }
    t.reset(1);
    let left: Vec<(u32, i32)> =
        t.records().iter().map(|r| (r.api_key_id, r.input_tokens)).collect();
    assert_eq!(left, [(2, 2), (3, 4)]);
    let s = t.get_summary(1);
    assert_eq!((s.total_requests, s.total_input_tokens, s.charges.len()), (0, 0, 0));
    t.reset(1);
    assert_eq!(t.records().len(), 2);
}

#[test]
fn costs_of_a_key() {
    let mut t = UsageTracker::load(Vec::new());
    for (key, n) in [(1, 1), (2, 2), (1, 3)] {
        add(&mut t, key, None, "m", n, 0);
    }
    assert_eq!(t.costs(1), [amount(1.0), amount(3.0)]);
    assert!(t.costs(4).is_empty());
}

#[test]
fn a_key_keeps_its_newest() {
    // three more than are kept, all of them there at the start but the last
    let mut records = Vec::new();
    for n in 0..(MAX_RECORDS_PER_KEY as i32 + 2) {
        let mut one = UsageTracker::load(Vec::new());
        add(&mut one, 1, None, "m", n, 0);
        records.push(one.records()[0].clone());
    }
    let mut t = UsageTracker::load(records);
    assert_eq!(t.records().len(), MAX_RECORDS_PER_KEY + 2);
    // a record of another key changes nothing
    add(&mut t, 2, None, "other", -5, 0);
    assert_eq!(t.records().len(), MAX_RECORDS_PER_KEY + 3);
    add(&mut t, 1, None, "m", 777, 0);
    assert_eq!(t.records().len(), MAX_RECORDS_PER_KEY + 1);
    assert_eq!(t.records()[0].input_tokens, 3);
    assert_eq!(t.records().last().unwrap().input_tokens, 777);
    assert_eq!(t.records().iter().filter(|r| r.api_key_id == 1).count(), MAX_RECORDS_PER_KEY);
    assert_eq!(t.records().iter().filter(|r| r.api_key_id == 2).count(), 1);
}

#[test]
fn an_account_keeps_its_newest() {
    let mut records = Vec::new();
    for n in 0..MAX_RECORDS_PER_KEY as u32 {
        let mut one = UsageTracker::load(Vec::new());
        add(&mut one, n, Some(8), "m", n as i32, 0);
        records.push(one.records()[0].clone());
    }
    let mut t = UsageTracker::load(records);
    add(&mut t, 1, Some(8), "m", -1, 0);
    assert_eq!(t.records().len(), MAX_RECORDS_PER_KEY);
    assert_eq!(t.records()[0].input_tokens, 1);
    assert_eq!(t.records().last().unwrap().input_tokens, -1);
    // without an account no account is trimmed
    add(&mut t, 1, None, "m", -2, 0);
    assert_eq!(t.records().len(), MAX_RECORDS_PER_KEY + 1);
}

#[test]
fn pages_show_the_latest_first() {
    let mut t = UsageTracker::load(Vec::new());
    // two of one time stay as they were made
    for (n, secs) in [(1, 10), (2, 30), (3, 20), (4, 30), (5, 5)] {
        add(&mut t, 1, None, "m", n, secs);
    }
    add(&mut t, 2, None, "m", 99, 40);
    let labels = no_labels();
    let whole = t.get_records_paged(1, 1, 100, &labels);
    assert_eq!(inputs(&whole), [2, 4, 3, 1, 5]);
    assert_eq!((whole.total, whole.page, whole.page_size, whole.total_pages), (5, 1, 100, 1));
    let mut all = Vec::new();
    for page in 1..=3 {
        let p = t.get_records_paged(1, page, 2, &labels);
        assert_eq!((p.total, p.page, p.page_size, p.total_pages), (5, page, 2, 3));
        all.extend(inputs(&p));
    }
    assert_eq!(all, [2, 4, 3, 1, 5]);
    // below the first and beyond the last page
    assert_eq!(t.get_records_paged(1, 0, 2, &labels).page, 1);
    let last = t.get_records_paged(1, usize::MAX, 2, &labels);
    assert_eq!((last.page, inputs(&last)), (3, vec![5]));
    assert_eq!(inputs(&t.get_records_paged(1, 1, usize::MAX, &labels)), [2, 4, 3, 1, 5]);
}

#[test]
fn nanoseconds_decide_within_a_second() {
    let mut t = UsageTracker::load(Vec::new());
    for (n, nanos) in [(1, 5), (2, 7), (3, 6)] {
        t.record(
            1,
            None,
            "m".to_string(),
            n,
            0,
            None,
            None,
            None,
            None,
            amount(0.0),
            Timestamp { secs: 1, nanos },
        );
    }
    assert_eq!(inputs(&t.get_records_paged(1, 1, 10, &no_labels())), [2, 3, 1]);
}

#[test]
fn pages_of_nothing() {
    let mut t = UsageTracker::load(Vec::new());
    add(&mut t, 1, Some(1), "m", 1, 0);
    let labels = no_labels();
    let p = t.get_records_paged(1, 3, 0, &labels);
    assert_eq!((p.records.len(), p.total, p.page, p.page_size, p.total_pages), (0, 0, 1, 0, 0));
    let p = t.get_records_paged(2, 3, 10, &labels);
    assert_eq!((p.records.len(), p.total, p.page, p.page_size, p.total_pages), (0, 0, 1, 10, 0));
    let p = t.get_records_paged_by_credential(1, 3, 0, &labels);
    assert_eq!((p.records.len(), p.total, p.page, p.page_size, p.total_pages), (0, 0, 1, 0, 0));
    let p = t.get_records_paged_by_date("2000-01-01", 3, 0, &labels);
    assert_eq!((p.records.len(), p.total, p.page, p.page_size, p.total_pages), (0, 0, 1, 1, 0));
}

#[test]
fn items_show_their_records() {
    let mut t = UsageTracker::load(Vec::new());
    t.record(
        1,
        Some(9),
        "Model-OPUS-4-8".to_string(),
        3,
        4,
        Some("ip".to_string()),
        Some(amount(2.0)),
        Some(5),
        None,
        amount(1.5),
        at(7),
    );
    add(&mut t, 1, Some(10), "m", 1, 6);
    add(&mut t, 1, None, "m", 2, 5);
    let mut labels = HashMap::new();
    labels.insert(9u64, "nine".to_string());
    let p = t.get_records_paged(1, 1, 10, &labels);
    let item = &p.records[0];
    assert_eq!(item.model, "Model-OPUS-4-8");
    assert_eq!((item.input_tokens, item.output_tokens), (3, 4));
    assert_eq!((item.estimated_cost, item.credits_used), (amount(1.5), Some(amount(2.0))));
    assert_eq!(item.k_ref, 724);
    assert_eq!(item.cache_read_input_tokens, Some(5));
    assert_eq!(item.cache_creation_input_tokens, None);
    assert_eq!(item.created_at, at(7));
    assert_eq!(item.credential_id, Some(9));
    assert_eq!(item.credential_label.as_deref(), Some("nine"));
    assert_eq!(item.client_ip.as_deref(), Some("ip"));
    assert_eq!(p.records[1].credential_label, None);
    assert_eq!(p.records[2].credential_label, None);
}

#[test]
fn pages_of_an_account() {
    let mut t = UsageTracker::load(Vec::new());
    add(&mut t, 1, Some(4), "m", 1, 1);
    add(&mut t, 2, Some(4), "m", 2, 2);
    add(&mut t, 1, Some(5), "m", 3, 3);
    add(&mut t, 1, None, "m", 4, 4);
    let p = t.get_records_paged_by_credential(4, 1, 10, &no_labels());
    assert_eq!((p.total, inputs(&p)), (2, vec![2, 1]));
}

#[test]
fn days_come_latest_first() {
    let mut t = UsageTracker::load(Vec::new());
    let day = 86_400;
    for (n, secs) in [(1, 0), (2, 3 * day), (3, 0), (4, day), (5, i64::MAX)] {
        add(&mut t, 1, None, "m", n, secs);
    }
    let list = t.get_daily_summaries();
    let dates: Vec<&str> = list.iter().map(|d| d.date.as_str()).collect();
    let requests: Vec<u64> = list.iter().map(|d| d.total_requests).collect();
    assert_eq!(dates, ["1970-01-04", "1970-01-02", "1970-01-01"]);
    assert_eq!(requests, [1, 1, 2]);
    let costs: Vec<Amount> = list[2].charges.iter().map(|c| c.estimated_cost).collect();
    assert_eq!(costs, [amount(1.0), amount(3.0)]);
    assert_eq!(t.dates()[4], None);
}

#[test]
fn given_dates_decide() {
    let mut t = UsageTracker::load(Vec::new());
    for n in 1..=3 {
        add(&mut t, 1, None, "m", n, n as i64);
    }
    let dates = vec![Some("b".to_string()), None, Some("c".to_string())];
    let list = t.daily_summaries(&dates);
    let found: Vec<(&str, u64)> =
        list.iter().map(|d| (d.date.as_str(), d.total_requests)).collect();
    assert_eq!(found, [("c", 1), ("b", 1)]);
    let p = t.records_paged_of_day(&dates, "b", 1, 10, &no_labels());
    assert_eq!((p.total, inputs(&p)), (1, vec![1]));
}

#[test]
fn a_day_shows_a_limited_number() {
    let mut t = UsageTracker::load(Vec::new());
    let n = MAX_RECORDS_PER_DAY as i32 + 5;
    for i in 0..n {
        add(&mut t, (i % 7) as u32, None, "m", i, i as i64);
    }
    let labels = no_labels();
    let p = t.get_records_paged_by_date("1970-01-01", 1, 100_000, &labels);
    assert_eq!((p.total, p.page_size, p.total_pages), (2000, 500, 4));
    assert_eq!(p.records.len(), 500);
    assert_eq!(p.records[0].input_tokens, n - 1);
    let p = t.get_records_paged_by_date("1970-01-01", 4, 500, &labels);
    // the five earliest are beyond the limit
    assert_eq!(p.records[499].input_tokens, 5);
    let p = t.get_records_paged_by_date("1970-01-01", 2, 0, &labels);
    assert_eq!((p.page, p.page_size, p.total_pages, inputs(&p)), (2, 1, 2000, vec![n - 2]));
    assert_eq!(t.get_records_paged_by_date("1970-01-02", 1, 10, &labels).total, 0);
}
