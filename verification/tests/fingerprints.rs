use promptmeter::fingerprint::{
    charge, CacheSimulationConfig, EphemeralTier, FingerprintTable, FingerprintTracker,
    PromptCacheUsage,
};
use promptmeter::json::Json;
use promptmeter::messages::{Message, SystemMessage, Tool};
use promptmeter::profile::segments_of;
use promptmeter::ratio::Ratio;
use sha2::Digest;

fn ratio(x: f64) -> Ratio {
    Ratio::from_bits(x.to_bits())
}

fn cfg(enabled: bool, ttl_5m: u64) -> CacheSimulationConfig {
    CacheSimulationConfig {
        fingerprint_enabled: enabled,
        fingerprint_ttl_5m: ttl_5m,
        fingerprint_ttl_1h: 3600,
        ephemeral_1h_ratio: ratio(0.0),
        fingerprint_max_breakpoints_per_account: 256,
    }
}

fn umsg(role: &str, text: &str) -> Message {
    Message { role: role.to_string(), content: Json::Text(text.to_string()) }
}

fn sysm(text: &str) -> SystemMessage {
    SystemMessage { text: text.to_string() }
}

fn string(s: &str) -> Json {
    Json::Text(s.to_string())
}

fn object(members: Vec<(&str, Json)>) -> Json {
    Json::Object(members.into_iter().map(|(k, v)| (k.to_string(), v)).collect())
}

fn call_with(a: &str) -> Message {
    Message {
        role: "assistant".into(),
        content: Json::Array(vec![object(vec![
            ("type", string("tool_use")),
            ("name", string("f")),
            ("input", object(vec![("a", Json::Number(a.to_string()))])),
        ])]),
    }
}

fn image_of(data: &str) -> Message {
    Message {
        role: "user".into(),
        content: Json::Array(vec![object(vec![
            ("type", string("image")),
            (
                "source",
                object(vec![("media_type", string("image/png")), ("data", string(data))]),
            ),
        ])]),
    }
}

#[test]
fn test_same_prefix_hits_on_second_request() {
    let mut tracker = FingerprintTracker::new_for_test(cfg(true, 300));
    let sys_msgs = vec![sysm("You are helpful")];
    let m1 = vec![umsg("user", "Hello"), umsg("assistant", "Hi")];
    let m2 = vec![umsg("user", "Hello"), umsg("assistant", "Hi"), umsg("user", "How are you?")];

    let p1 = FingerprintTracker::build_profile(Some(&sys_msgs), &m1);
    tracker.update("acct-1", p1);

    let p2 = FingerprintTracker::build_profile(Some(&sys_msgs), &m2);
    let u = tracker.compute("acct-1", &p2, 1000).unwrap();
    assert!(u.cache_read_input_tokens > 0, "expected cache hit");
    assert!(u.cache_read_input_tokens <= (1000.0 * 0.85) as i32);
    assert_eq!(
        u.input_tokens + u.cache_read_input_tokens + u.cache_creation_input_tokens,
        1000
    );
}

#[test]
fn test_no_prefix_match_first_request() {
    let mut tracker = FingerprintTracker::new_for_test(cfg(true, 300));
    let sys_msgs = vec![sysm("Sys A")];
    let m = vec![umsg("user", "totally different content")];
    let p = FingerprintTracker::build_profile(Some(&sys_msgs), &m);
    let u = tracker.compute("acct-x", &p, 500).unwrap();
    assert_eq!(u.cache_read_input_tokens, 0);
    assert_eq!(u.cache_creation_input_tokens, 500);
}

#[test]
fn test_partial_prefix_match() {
    let mut tracker = FingerprintTracker::new_for_test(cfg(true, 300));
    let sys_msgs = vec![sysm("shared system")];
    let m1 = vec![umsg("user", "shared user A"), umsg("assistant", "diff A")];
    let m2 = vec![umsg("user", "shared user A"), umsg("assistant", "diff B")];
    let p1 = FingerprintTracker::build_profile(Some(&sys_msgs), &m1);
    tracker.update("acct", p1);
    let p2 = FingerprintTracker::build_profile(Some(&sys_msgs), &m2);
    let u = tracker.compute("acct", &p2, 1000).unwrap();
    assert!(u.cache_read_input_tokens > 0);
    assert!(u.cache_read_input_tokens < 1000);
}

#[test]
fn test_completely_equal_requests() {
    let mut tracker = FingerprintTracker::new_for_test(cfg(true, 300));
    let sys_msgs = vec![sysm("sys")];
    let m = vec![umsg("user", "hi"), umsg("assistant", "hello")];
    let p = FingerprintTracker::build_profile(Some(&sys_msgs), &m);
    let cumulative_max = p.last().map(|s| s.cumulative_tokens).unwrap_or(0);
    tracker.update("acct", p.clone());
    // a total far above the matched tokens, so that the cap does not bite
    let total = (cumulative_max * 10).max(100);
    let u = tracker.compute("acct", &p, total).unwrap();
    let cap = (total as f64 * 0.85).floor() as i32;
    let expected_read = cumulative_max.min(cap);
    assert_eq!(u.cache_read_input_tokens, expected_read);
    assert_eq!(u.cache_read_input_tokens + u.cache_creation_input_tokens, total);
}

#[test]
fn test_ttl_expiry() {
    let mut tracker = FingerprintTracker::new_for_test(cfg(true, 0));
    let sys_msgs = vec![sysm("a")];
    let m = vec![umsg("user", "b")];
    let p = FingerprintTracker::build_profile(Some(&sys_msgs), &m);
    tracker.update_at("acct", p.clone(), 0);
    // 10 milliseconds later
    tracker.evict_expired_at(10_000_000);
    let u = tracker.compute_at("acct", &p, 200, 10_000_000).unwrap();
    assert_eq!(u.cache_read_input_tokens, 0);
}

#[test]
fn test_account_isolation() {
    let mut tracker = FingerprintTracker::new_for_test(cfg(true, 300));
    let sys_msgs = vec![sysm("s")];
    let m = vec![umsg("user", "x")];
    let p = FingerprintTracker::build_profile(Some(&sys_msgs), &m);
    tracker.update("acct-A", p.clone());
    let u = tracker.compute("acct-B", &p, 100).unwrap();
    assert_eq!(u.cache_read_input_tokens, 0);
}

#[test]
fn test_disabled_returns_none() {
    let mut tracker = FingerprintTracker::new_for_test(cfg(false, 300));
    let p = FingerprintTracker::build_profile(None, &[umsg("user", "x")]);
    assert!(tracker.compute("a", &p, 100).is_none());
}

#[test]
fn test_tool_use_input_diff_breaks_match() {
    let mut tracker = FingerprintTracker::new_for_test(cfg(true, 300));
    let sys_msgs = vec![sysm("s")];
    let m1 = vec![call_with("1")];
    let m2 = vec![call_with("2")];
    tracker.update("acct", FingerprintTracker::build_profile(Some(&sys_msgs), &m1));
    let p2 = FingerprintTracker::build_profile(Some(&sys_msgs), &m2);
    let u = tracker.compute("acct", &p2, 1000).unwrap();
    assert!(u.cache_read_input_tokens < 100);
}

#[test]
fn test_image_source_diff_breaks_match() {
    let mut tracker = FingerprintTracker::new_for_test(cfg(true, 300));
    let m1 = vec![image_of("AAA")];
    let m2 = vec![image_of("BBB")];
    tracker.update("a", FingerprintTracker::build_profile(None, &m1));
    let p2 = FingerprintTracker::build_profile(None, &m2);
    let u = tracker.compute("a", &p2, 500).unwrap();
    assert_eq!(u.cache_read_input_tokens, 0);
}

#[test]
fn test_clamp_invariants() {
    let mut tracker = FingerprintTracker::new_for_test(cfg(true, 300));
    let sys_msgs = vec![sysm("s")];
    let m = vec![umsg("user", "x")];
    let p = FingerprintTracker::build_profile(Some(&sys_msgs), &m);
    tracker.update("a", p.clone());
    let u = tracker.compute("a", &p, 50).unwrap();
    assert!(u.cache_read_input_tokens + u.cache_creation_input_tokens <= 50);
    assert!(u.input_tokens >= 0);
}

#[test]
fn digests_run_over_all_segments_so_far() {
    let systems = [sysm(" one "), sysm("two")];
    let tools = [
        Tool {
            name: "f".to_string(),
            description: "d".to_string(),
            input_schema: object(vec![
                ("b", Json::Number("1".to_string())),
                ("a", Json::Bool(true)),
            ]),
        },
        Tool { name: "g".to_string(), description: String::new(), input_schema: Json::Null },
    ];
    let messages = [umsg("user", " hi ")];
    let expected = ["T:f:d:{a:true,b:1}\u{1f}g::null", "S:one\ntwo", "M:user:hi"];
    assert_eq!(segments_of(Some(&systems), &messages, Some(&tools)), expected);

    let profile =
        FingerprintTracker::build_profile_with_tools(Some(&systems), &messages, Some(&tools));
    let mut prefix = String::new();
    let mut sum = 0;
    assert_eq!(profile.len(), 3);
    for (segment, part) in profile.iter().zip(expected) {
        prefix.push_str(part);
        sum += promptmeter::token::count_tokens(part) as i32;
        let digest: [u8; 32] = sha2::Sha256::digest(prefix.as_bytes()).into();
        assert_eq!(segment.hash, digest);
        assert_eq!(segment.cumulative_tokens, sum);
    }
}

#[test]
fn empty_parts_give_no_segments() {
    assert!(segments_of(None, &[], None).is_empty());
    assert!(segments_of(Some(&[sysm("  ")]), &[], Some(&[])).is_empty());
    // two blank system texts still have the line between them
    assert_eq!(segments_of(Some(&[sysm(" "), sysm(" ")]), &[], None), ["S:\n"]);
}

#[test]
fn tools_take_part_in_the_fingerprint() {
    let tool = |name: &str| Tool {
        name: name.to_string(),
        description: "d".to_string(),
        input_schema: Json::Null,
    };
    let m = [umsg("user", "x")];
    let a = FingerprintTracker::build_profile_with_tools(None, &m, Some(&[tool("f")]));
    let b = FingerprintTracker::build_profile_with_tools(None, &m, Some(&[tool("g")]));
    let none = FingerprintTracker::build_profile(None, &m);
    assert_ne!(a[0].hash, b[0].hash);
    assert_ne!(a[1].hash, b[1].hash);
    assert_eq!(none.len(), 1);
    assert_ne!(a[1].hash, none[0].hash);
}

#[test]
fn key_order_of_an_input_does_not_count() {
    let message = |members: Vec<(&str, Json)>| Message {
        role: "assistant".to_string(),
        content: Json::Array(vec![object(vec![
            ("type", string("tool_use")),
            ("name", string("f")),
            ("input", object(members)),
        ])]),
    };
    let one = || Json::Number("1".to_string());
    let a = FingerprintTracker::build_profile(
        None,
        &[message(vec![("x", one()), ("y", Json::Null)])],
    );
    let b = FingerprintTracker::build_profile(
        None,
        &[message(vec![("y", Json::Null), ("x", one())])],
    );
    assert_eq!(a[0].hash, b[0].hash);
}

#[test]
fn surrounding_space_does_not_count() {
    let a = FingerprintTracker::build_profile(Some(&[sysm("s")]), &[umsg("user", "x y")]);
    let b = FingerprintTracker::build_profile(Some(&[sysm(" s\n")]), &[umsg("user", "\tx y  ")]);
    assert_eq!(a[0].hash, b[0].hash);
    assert_eq!(a[1].hash, b[1].hash);
}

#[test]
fn charges_are_exact() {
    assert_eq!(
        charge(1000, 100, &ratio(0.5)),
        PromptCacheUsage {
            input_tokens: 0,
            cache_creation_input_tokens: 900,
            cache_read_input_tokens: 100,
            cache_creation_5m_input_tokens: 450,
            cache_creation_1h_input_tokens: 450,
        }
    );
    // no more than 85 percent is read
    let u = charge(1000, 999, &ratio(1.0));
    assert_eq!(u.cache_read_input_tokens, 850);
    assert_eq!(u.cache_creation_1h_input_tokens, 150);
    assert_eq!(u.cache_creation_5m_input_tokens, 0);
    let u = charge(1, 1, &ratio(0.0));
    assert_eq!(u.cache_read_input_tokens, 0);
    assert_eq!(u.cache_creation_5m_input_tokens, 1);
    assert_eq!(charge(100, -5, &ratio(0.0)).cache_read_input_tokens, 0);
    assert_eq!(charge(i32::MAX, i32::MAX, &ratio(0.0)).cache_read_input_tokens, 1825361099);
}

#[test]
fn cap_is_that_of_binary64() {
    let mut total: i32 = 1;
    while total < i32::MAX - 100_003 {
        let u = charge(total, i32::MAX, &ratio(0.0));
        assert_eq!(u.cache_read_input_tokens, ((total as f64) * 0.85).floor() as i32);
        total += if total < 100_000 { 1 } else { 99_991 };
    }
}

#[test]
fn charges_always_add_up() {
    for total in [1, 2, 19, 20, 21, 1000, i32::MAX] {
        for matched in [i32::MIN, -1, 0, 1, 17, 850, i32::MAX] {
            for share in [0.0, 0.1, 0.3, 0.5, 0.999, 1.0] {
                let u = charge(total, matched, &ratio(share));
                assert_eq!(
                    u.input_tokens + u.cache_read_input_tokens + u.cache_creation_input_tokens,
                    total
                );
                assert_eq!(
                    u.cache_creation_5m_input_tokens + u.cache_creation_1h_input_tokens,
                    u.cache_creation_input_tokens
                );
                assert!(u.cache_creation_5m_input_tokens >= 0);
                assert!(u.cache_creation_1h_input_tokens >= 0);
            }
        }
    }
}

#[test]
fn shares_are_those_of_binary64() {
    let shares = [
        0.0,
        -0.0,
        -1.0,
        f64::NAN,
        f64::NEG_INFINITY,
        f64::INFINITY,
        1.0,
        1.5,
        0.5,
        0.1,
        0.2,
        0.3,
        0.7,
        0.9,
        0.05,
        1.0 / 3.0,
        0.999999999,
        f64::MIN_POSITIVE,
        5e-324,
        0.9999999999999999,
    ];
    for x in shares {
        let r = ratio(x);
        let clamped = x.clamp(0.0, 1.0);
        for i in 0..2000usize {
            let expected = ((i as f64 + 1.0) * clamped).floor() as usize
                > (i as f64 * clamped).floor() as usize;
            assert_eq!(r.takes(i), expected, "{} {}", x, i);
        }
        for i in [
            (1usize << 53) - 2,
            (1 << 53) - 1,
            1 << 53,
            (1 << 53) + 1,
            (1 << 60) + 12345,
            usize::MAX - 1,
        ] {
            let expected = ((i as f64 + 1.0) * clamped).floor() as usize
                > (i as f64 * clamped).floor() as usize;
            assert_eq!(r.takes(i), expected, "{} {}", x, i);
        }
        for n in [0u64, 1, 2, 3, 10, 100, 999, 1000, 123456789, 2147483647] {
            let expected = ((n as f64) * clamped).floor() as u64;
            assert_eq!(r.part_of(n), expected.min(n), "{} {}", x, n);
        }
    }
}

#[test]
fn a_longer_share_lives_longer() {
    // every segment falls to the longer tier
    let mut config = cfg(true, 10);
    config.ephemeral_1h_ratio = ratio(1.0);
    let p = FingerprintTracker::build_profile(Some(&[sysm("s")]), &[umsg("user", "x")]);
    let second: u128 = 1_000_000_000;
    let matched = p[1].cumulative_tokens;
    let mut long = FingerprintTracker::new(config);
    long.update_at("a", p.clone(), 0);
    assert_eq!(long.compute_at("a", &p, 1000, 3600 * second).unwrap().cache_read_input_tokens, matched);
    let mut short = FingerprintTracker::new(cfg(true, 10));
    short.update_at("a", p.clone(), 0);
    assert_eq!(short.compute_at("a", &p, 1000, 11 * second).unwrap().cache_read_input_tokens, 0);
}

#[test]
fn a_hit_renews_the_lifetime() {
    let second: u128 = 1_000_000_000;
    let p = FingerprintTracker::build_profile(None, &[umsg("user", "x")]);
    let matched = p[0].cumulative_tokens;
    let mut tracker = FingerprintTracker::new(cfg(true, 10));
    tracker.update_at("a", p.clone(), 0);
    // exactly at the end of the lifetime it still hits
    let at_end = tracker.compute_at("a", &p, 1000, 10 * second).unwrap();
    assert_eq!(at_end.cache_read_input_tokens, matched);
    let renewed = tracker.compute_at("a", &p, 1000, 20 * second).unwrap();
    assert_eq!(renewed.cache_read_input_tokens, matched);
    let past = tracker.compute_at("a", &p, 1000, 30 * second + 1).unwrap();
    assert_eq!(past.cache_read_input_tokens, 0);
    // a clock that runs back counts as no time at all
    let back = tracker.compute_at("a", &p, 1000, 0).unwrap();
    assert_eq!(back.cache_read_input_tokens, matched);
}

#[test]
fn eviction_keeps_the_living() {
    let second: u128 = 1_000_000_000;
    let p = FingerprintTracker::build_profile(None, &[umsg("user", "x")]);
    let mut tracker = FingerprintTracker::new(cfg(true, 10));
    tracker.update_at("old", p.clone(), 0);
    tracker.update_at("young", p.clone(), 5 * second);
    tracker.evict_expired_at(11 * second);
    let matched = p[0].cumulative_tokens;
    assert_eq!(tracker.compute_at("young", &p, 1000, 11 * second).unwrap().cache_read_input_tokens, matched);
    // gone for good, even for a clock that runs back
    assert_eq!(tracker.compute_at("old", &p, 1000, 0).unwrap().cache_read_input_tokens, 0);
}

#[test]
fn tables_keep_to_their_limit() {
    let mut config = cfg(true, 300);
    config.fingerprint_max_breakpoints_per_account = 2;
    let messages: Vec<Message> =
        (0..5).map(|i| umsg("user", &format!("message {}", i))).collect();
    let p = FingerprintTracker::build_profile(None, &messages);
    let mut tracker = FingerprintTracker::new(config);
    tracker.update_at("a", p.clone(), 0);
    let u = tracker.compute_at("a", &p, 10_000, 0).unwrap();
    assert_eq!(u.cache_read_input_tokens, p[1].cumulative_tokens);
    // a limit of nothing counts as one
    config.fingerprint_max_breakpoints_per_account = 0;
    let mut tracker = FingerprintTracker::new(config);
    tracker.update_at("a", p.clone(), 0);
    let u = tracker.compute_at("a", &p, 10_000, 0).unwrap();
    assert_eq!(u.cache_read_input_tokens, p[0].cumulative_tokens);
}

#[test]
fn an_update_replaces_what_differs() {
    let a = FingerprintTracker::build_profile(None, &[umsg("user", "x"), umsg("user", "a")]);
    let b = FingerprintTracker::build_profile(None, &[umsg("user", "x"), umsg("user", "b")]);
    let mut tracker = FingerprintTracker::new(cfg(true, 300));
    tracker.update_at("acct", a.clone(), 0);
    tracker.update_at("acct", b.clone(), 1);
    let u = tracker.compute_at("acct", &a, 1000, 2).unwrap();
    assert_eq!(u.cache_read_input_tokens, a[0].cumulative_tokens);
    let u = tracker.compute_at("acct", &b, 1000, 2).unwrap();
    assert_eq!(u.cache_read_input_tokens, b[1].cumulative_tokens);
}

#[test]
fn nothing_to_look_up() {
    let mut tracker = FingerprintTracker::new(cfg(true, 300));
    let p = FingerprintTracker::build_profile(None, &[umsg("user", "x")]);
    assert!(tracker.compute("a", &[], 100).is_none());
    assert!(tracker.compute("a", &p, 0).is_none());
    assert!(tracker.compute("a", &p, -1).is_none());
    assert!(tracker.compute("a", &p, 1).is_some());
}

#[test]
fn the_clock_of_the_tracker_runs() {
    let mut tracker = FingerprintTracker::new(cfg(true, 300));
    let p = FingerprintTracker::build_profile(None, &[umsg("user", "x")]);
    tracker.update("a", p.clone());
    tracker.evict_expired();
    let u = tracker.compute("a", &p, 1000).unwrap();
    assert_eq!(u.cache_read_input_tokens, p[0].cumulative_tokens);
}

#[test]
fn rounds_of_eviction_end_with_a_shutdown() {
    let p = FingerprintTracker::build_profile(None, &[umsg("user", "x")]);
    let mut tracker = FingerprintTracker::new(cfg(true, 0));
    tracker.update_at("a", p.clone(), 0);
    assert!(tracker.tick_at(1));
    assert_eq!(tracker.compute_at("a", &p, 1000, 0).unwrap().cache_read_input_tokens, 0);
    tracker.update_at("a", p.clone(), 0);
    tracker.shutdown();
    assert!(!tracker.tick_at(1));
    assert!(!tracker.tick());
    // a stopped tracker evicts nothing in its rounds
    assert_eq!(
        tracker.compute_at("a", &p, 1000, 0).unwrap().cache_read_input_tokens,
        p[0].cumulative_tokens
    );
}

#[test]
fn a_disabled_tracker_learns_nothing() {
    let p = FingerprintTracker::build_profile(None, &[umsg("user", "x")]);
    let mut tracker = FingerprintTracker::new(cfg(false, 300));
    tracker.update_at("a", p.clone(), 0);
    tracker.evict_expired_at(0);
    assert!(tracker.compute_at("a", &p, 100, 0).is_none());
    assert!(!tracker.config().fingerprint_enabled);
    assert_eq!(tracker.config().fingerprint_ttl_1h, 3600);
}

#[test]
fn empty_table() {
    assert!(FingerprintTable::default().breakpoints.is_empty());
    assert_ne!(EphemeralTier::FiveM, EphemeralTier::OneH);
}

#[test]
fn a_continued_conversation_reads_its_earlier_part() {
    let system = [sysm("You are helpful")];
    let first = [umsg("user", "Hello"), umsg("assistant", "Hi")];
    let second = [umsg("user", "Hello"), umsg("assistant", "Hi"), umsg("user", "Go on")];
    let p = FingerprintTracker::build_profile(Some(&system), &first);
    let q = FingerprintTracker::build_profile(Some(&system), &second);
    let matched = p.last().unwrap().cumulative_tokens;
    let mut tracker = FingerprintTracker::new(cfg(true, 300));
    tracker.update_at("a", p.clone(), 0);
    let u = tracker.compute_at("a", &q, 1000, 1).unwrap();
    assert_eq!(u.cache_read_input_tokens, matched);
    assert_eq!(u.cache_creation_input_tokens, 1000 - matched);
    // a shorter request hits as far as it goes
    let mut tracker = FingerprintTracker::new(cfg(true, 300));
    tracker.update_at("a", q, 0);
    assert_eq!(tracker.compute_at("a", &p, 1000, 1).unwrap().cache_read_input_tokens, matched);
}

#[test]
fn another_set_of_tools_loses_every_hit() {
    let tool = |name: &str, description: &str, schema: Json| Tool {
        name: name.to_string(),
        description: description.to_string(),
        input_schema: schema,
    };
    let system = [sysm("You are helpful")];
    let messages = [umsg("user", "Hello"), umsg("assistant", "Hi")];
    let profile = |tools: Option<&[Tool]>| {
        FingerprintTracker::build_profile_with_tools(Some(&system), &messages, tools)
    };
    let first = profile(Some(&[tool("f", "d", Json::Null)]));
    for other in [
        profile(Some(&[tool("g", "d", Json::Null)])),
        profile(Some(&[tool("f", "e", Json::Null)])),
        profile(Some(&[tool("f", "d", Json::Bool(true))])),
        profile(Some(&[tool("f", "d", Json::Null), tool("g", "d", Json::Null)])),
        profile(None),
    ] {
        for (a, b) in first.iter().zip(other.iter()) {
            assert_ne!(a.hash, b.hash);
        }
        let mut tracker = FingerprintTracker::new(cfg(true, 300));
        tracker.update_at("a", first.clone(), 0);
        let u = tracker.compute_at("a", &other, 1000, 1).unwrap();
        assert_eq!(u.cache_read_input_tokens, 0);
        assert_eq!(u.cache_creation_input_tokens, 1000);
    }
}

#[test]
fn each_breakpoint_lives_by_its_own_tier() {
    // of four segments the second and the fourth fall to the longer tier
    let mut config = cfg(true, 10);
    config.ephemeral_1h_ratio = ratio(0.5);
    let second: u128 = 1_000_000_000;
    let messages: Vec<Message> =
        (0..4).map(|i| umsg("user", &format!("message {}", i))).collect();
    let p = FingerprintTracker::build_profile(None, &messages);
    let mut tracker = FingerprintTracker::new(config);
    tracker.update_at("a", p.clone(), 0);
    let u = tracker.compute_at("a", &p, 10_000, 10 * second).unwrap();
    assert_eq!(u.cache_read_input_tokens, p[3].cumulative_tokens);
    // a look-up of the first segment alone renews that one only
    let u = tracker.compute_at("a", &p[..1], 10_000, 15 * second).unwrap();
    assert_eq!(u.cache_read_input_tokens, p[0].cumulative_tokens);
    // the second lives on in the longer tier, the third is over
    let u = tracker.compute_at("a", &p, 10_000, 25 * second).unwrap();
    assert_eq!(u.cache_read_input_tokens, p[1].cumulative_tokens);
    // once the first is over nothing hits
    let u = tracker.compute_at("a", &p, 10_000, 36 * second).unwrap();
    assert_eq!(u.cache_read_input_tokens, 0);
}
