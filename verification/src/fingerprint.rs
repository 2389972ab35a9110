//! Prompt-prefix fingerprints by account: which part of a request an earlier
//! one already held, and what that is worth as cached input.

use crate::messages::{Message, SystemMessage, Tool};
use crate::profile;
use crate::profile::ContentSegment;
use crate::ratio;
use crate::ratio::Ratio;
use crate::token;
use std::time::{Duration, Instant};
use vstd::prelude::*;

verus! {

/// How long a breakpoint is kept.
#[derive(Debug, Clone, Copy, PartialEq, Eq, Structural)]
pub enum EphemeralTier {
    FiveM,
    OneH,
}

/// The end of a known prefix. Times are nanoseconds since the tracker was made.
#[derive(Debug, Clone, Copy)]
pub struct Breakpoint {
    pub hash: [u8; 32],
    pub cumulative_tokens: i32,
    pub tier: EphemeralTier,
    pub last_hit_at: u128,
}

/// The known prefixes of one account, from the shortest to the longest.
#[derive(Debug, Clone)]
pub struct FingerprintTable {
    pub breakpoints: Vec<Breakpoint>,
}

impl Default for FingerprintTable {
    fn default() -> (r: Self)
        ensures
            r.breakpoints@.len() == 0,
    {
        FingerprintTable { breakpoints: Vec::new() }
    }
}

/// What the tracker goes by.
#[derive(Debug, Clone, Copy)]
pub struct CacheSimulationConfig {
    pub fingerprint_enabled: bool,
    /// Seconds that a breakpoint of the shorter tier lasts after its last hit.
    pub fingerprint_ttl_5m: u64,
    /// Seconds that a breakpoint of the longer tier lasts after its last hit.
    pub fingerprint_ttl_1h: u64,
    /// The share of the longer tier.
    pub ephemeral_1h_ratio: Ratio,
    /// How many breakpoints an account keeps; zero counts as one.
    pub fingerprint_max_breakpoints_per_account: usize,
}

/// The input tokens of a request by how they are charged.
#[derive(Debug, Clone, Copy, PartialEq, Eq, Structural)]
pub struct PromptCacheUsage {
    pub input_tokens: i32,
    pub cache_creation_input_tokens: i32,
    pub cache_read_input_tokens: i32,
    pub cache_creation_5m_input_tokens: i32,
    pub cache_creation_1h_input_tokens: i32,
}

/// Seconds that a breakpoint of the given tier lasts after its last hit.
pub open spec fn lifetime(config: CacheSimulationConfig, tier: EphemeralTier) -> nat {
    match tier {
        EphemeralTier::FiveM => config.fingerprint_ttl_5m as nat,
        EphemeralTier::OneH => config.fingerprint_ttl_1h as nat,
    }
}

/// Whether a breakpoint has outlived its tier.
pub open spec fn expired(config: CacheSimulationConfig, b: Breakpoint, now: u128) -> bool {
    now - b.last_hit_at > lifetime(config, b.tier) * 1_000_000_000
}

/// Whether the breakpoint at `k` is alive and ends the same prefix as the segment at `k`.
pub open spec fn hit_at(
    config: CacheSimulationConfig,
    table: Seq<Breakpoint>,
    profile: Seq<ContentSegment>,
    now: u128,
    k: int,
) -> bool {
    &&& 0 <= k < table.len()
    &&& k < profile.len()
    &&& !expired(config, table[k], now)
    &&& table[k].hash@ == profile[k].hash@
}

/// The end of the run of hits that starts at `k`.
pub open spec fn hits_from(
    config: CacheSimulationConfig,
    table: Seq<Breakpoint>,
    profile: Seq<ContentSegment>,
    now: u128,
    k: int,
) -> int
    decreases profile.len() - k,
{
    if hit_at(config, table, profile, now, k) {
        hits_from(config, table, profile, now, k + 1)
    } else {
        k
    }
}

/// How many segments from the front hit.
pub open spec fn hits(
    config: CacheSimulationConfig,
    table: Seq<Breakpoint>,
    profile: Seq<ContentSegment>,
    now: u128,
) -> int {
    hits_from(config, table, profile, now, 0)
}

/// The breakpoint, hit now.
pub open spec fn touched(b: Breakpoint, now: u128) -> Breakpoint {
    Breakpoint { last_hit_at: now, ..b }
}

/// The table with its first `n` breakpoints hit now.
pub open spec fn touched_front(table: Seq<Breakpoint>, n: int, now: u128) -> Seq<Breakpoint> {
    Seq::new(
        table.len(),
        |i: int|
            if i < n {
                touched(table[i], now)
            } else {
                table[i]
            },
    )
}

/// The tokens in the first `n` segments.
pub open spec fn tokens_up_to(profile: Seq<ContentSegment>, n: int) -> int {
    if n == 0 {
        0
    } else {
        profile[n - 1].cumulative_tokens as int
    }
}

/// The most that counts as read from the cache: 85 percent, rounded down.
pub open spec fn read_cap(total: int) -> int {
    total * 17 / 20
}

/// What of `matched` tokens counts as read from the cache.
pub open spec fn cache_read(total: int, matched: int) -> int {
    if matched < 0 {
        0
    } else if matched < read_cap(total) {
        matched
    } else {
        read_cap(total)
    }
}

/// The part of newly cached tokens that falls to the longer tier.
pub open spec fn one_hour_part(creation: int, share: (nat, nat)) -> int {
    let whole = ratio::share(creation as nat, share) as int;
    if whole < creation {
        whole
    } else {
        creation
    }
}

/// The charges for a request of `total` tokens with `matched` known ones.
pub open spec fn usage_for(total: int, matched: int, share: (nat, nat)) -> PromptCacheUsage {
    let read = cache_read(total, matched);
    let creation = total - read;
    let long = one_hour_part(creation, share);
    PromptCacheUsage {
        input_tokens: 0,
        cache_creation_input_tokens: creation as i32,
        cache_read_input_tokens: read as i32,
        cache_creation_5m_input_tokens: (creation - long) as i32,
        cache_creation_1h_input_tokens: long as i32,
    }
}

/// The end of the run of equal digests that starts at `k`.
pub open spec fn known_from(
    table: Seq<Breakpoint>,
    profile: Seq<ContentSegment>,
    k: int,
) -> int
    decreases profile.len() - k,
{
    if 0 <= k < table.len() && k < profile.len() && table[k].hash@ == profile[k].hash@ {
        known_from(table, profile, k + 1)
    } else {
        k
    }
}

/// The breakpoint for the segment at `i`.
pub open spec fn breakpoint_for(
    config: CacheSimulationConfig,
    profile: Seq<ContentSegment>,
    i: int,
    now: u128,
) -> Breakpoint {
    Breakpoint {
        hash: profile[i].hash,
        cumulative_tokens: profile[i].cumulative_tokens,
        tier: if ratio::falls_to_share(i as nat, config.ephemeral_1h_ratio@) {
            EphemeralTier::OneH
        } else {
            EphemeralTier::FiveM
        },
        last_hit_at: now,
    }
}

/// How many breakpoints an account keeps.
pub open spec fn table_limit(config: CacheSimulationConfig) -> int {
    if config.fingerprint_max_breakpoints_per_account == 0 {
        1
    } else {
        config.fingerprint_max_breakpoints_per_account as int
    }
}

/// The table before the limit: the known front, hit now, then the rest of the
/// profile.
pub open spec fn extended(
    config: CacheSimulationConfig,
    table: Seq<Breakpoint>,
    profile: Seq<ContentSegment>,
    now: u128,
) -> Seq<Breakpoint> {
    let known = known_from(table, profile, 0);
    Seq::new(
        profile.len(),
        |i: int|
            if i < known {
                touched(table[i], now)
            } else {
                breakpoint_for(config, profile, i, now)
            },
    )
}

/// The table after a request: the front of what its profile gives.
pub open spec fn learned(
    config: CacheSimulationConfig,
    table: Seq<Breakpoint>,
    profile: Seq<ContentSegment>,
    now: u128,
) -> Seq<Breakpoint> {
    let all = extended(config, table, profile, now);
    if all.len() > table_limit(config) {
        all.take(table_limit(config))
    } else {
        all
    }
}

/// The breakpoints that are alive.
pub open spec fn alive(
    config: CacheSimulationConfig,
    table: Seq<Breakpoint>,
    now: u128,
) -> Seq<Breakpoint> {
    table.filter(|b: Breakpoint| !expired(config, b, now))
}

/// Whether two digests are equal.
fn same_hash(a: &[u8; 32], b: &[u8; 32]) -> (r: bool)
    ensures
        r == (a@ == b@),
{
    let mut i: usize = 0;
    while i < 32
        invariant
            i <= 32,
            forall|j: int| 0 <= j < i ==> a@[j] == b@[j],
        decreases 32 - i,
    {
        if a[i] != b[i] {
            return false;
        }
        i += 1;
    }
    assert(a@ =~= b@);
    true
}

/// Whether a breakpoint has outlived its tier.
fn is_expired(config: &CacheSimulationConfig, b: &Breakpoint, now: u128) -> (r: bool)
    ensures
        r == expired(*config, *b, now),
{
    let secs: u64 = match b.tier {
        EphemeralTier::FiveM => config.fingerprint_ttl_5m,
        EphemeralTier::OneH => config.fingerprint_ttl_1h,
    };
    now > b.last_hit_at && now - b.last_hit_at > secs as u128 * 1_000_000_000
}

impl FingerprintTable {
    /// Hits the front of the table that is alive and known to the profile, and
    /// gives its length.
    fn hit(
        &mut self,
        config: &CacheSimulationConfig,
        profile: &[ContentSegment],
        now: u128,
    ) -> (r: usize)
        ensures
            r == hits(*config, old(self).breakpoints@, profile@, now),
            r <= profile.len(),
            final(self).breakpoints@ == touched_front(old(self).breakpoints@, r as int, now),
    {
        let ghost before = self.breakpoints@;
        let mut k: usize = 0;
        assert(touched_front(before, 0, now) =~= before);
        while k < profile.len() && k < self.breakpoints.len()
            invariant
                k <= profile.len(),
                before == old(self).breakpoints@,
                k <= before.len(),
                self.breakpoints@ == touched_front(before, k as int, now),
                hits(*config, before, profile@, now) == hits_from(
                    *config,
                    before,
                    profile@,
                    now,
                    k as int,
                ),
            decreases profile.len() - k,
        {
            let b: Breakpoint = self.breakpoints[k];
            assert(b == before[k as int]);
            if is_expired(config, &b, now) || !same_hash(&b.hash, &profile[k].hash) {
                return k;
            }
            self.breakpoints.set(k, Breakpoint { last_hit_at: now, ..b });
            assert(self.breakpoints@ =~= touched_front(before, k + 1, now));
            k += 1;
        }
        k
    }

    /// Takes in a profile.
    fn learn(&mut self, config: &CacheSimulationConfig, profile: &Vec<ContentSegment>, now: u128)
        ensures
            final(self).breakpoints@ == learned(
                *config,
                old(self).breakpoints@,
                profile@,
                now,
            ),
    {
        let ghost before = self.breakpoints@;
        let ghost all = extended(*config, before, profile@, now);
        let ghost known = known_from(before, profile@, 0);
        let mut k: usize = 0;
        assert(touched_front(before, 0, now) =~= before);
        while k < profile.len() && k < self.breakpoints.len() && same_hash(
            &self.breakpoints[k].hash,
            &profile[k].hash,
        )
            invariant
                k <= profile.len(),
                k <= before.len(),
                self.breakpoints@ == touched_front(before, k as int, now),
                known == known_from(before, profile@, k as int),
            decreases profile.len() - k,
        {
            let b: Breakpoint = self.breakpoints[k];
            self.breakpoints.set(k, Breakpoint { last_hit_at: now, ..b });
            assert(self.breakpoints@ =~= touched_front(before, k + 1, now));
            k += 1;
        }
        assert(known == k);
        self.breakpoints.truncate(k);
        assert(self.breakpoints@ =~= all.take(k as int));
        let mut i: usize = k;
        while i < profile.len()
            invariant
                k <= i <= profile.len(),
                known == k,
                known == known_from(before, profile@, 0),
                all == extended(*config, before, profile@, now),
                self.breakpoints@ == all.take(i as int),
            decreases profile.len() - i,
        {
            let tier = if config.ephemeral_1h_ratio.takes(i) {
                EphemeralTier::OneH
            } else {
                EphemeralTier::FiveM
            };
            self.breakpoints.push(
                Breakpoint {
                    hash: profile[i].hash,
                    cumulative_tokens: profile[i].cumulative_tokens,
                    tier,
                    last_hit_at: now,
                },
            );
            assert(self.breakpoints@ =~= all.take(i + 1));
            i += 1;
        }
        assert(all.take(profile.len() as int) =~= all);
        let limit: usize = if config.fingerprint_max_breakpoints_per_account == 0 {
            1
        } else {
            config.fingerprint_max_breakpoints_per_account
        };
        if self.breakpoints.len() > limit {
            self.breakpoints.truncate(limit);
            assert(self.breakpoints@ =~= all.take(limit as int));
        }
    }

    /// Drops what has expired.
    fn drop_expired(&mut self, config: &CacheSimulationConfig, now: u128)
        ensures
            final(self).breakpoints@ == alive(*config, old(self).breakpoints@, now),
    {
        let ghost before = self.breakpoints@;
        let mut kept: Vec<Breakpoint> = Vec::new();
        let mut i: usize = 0;
        assert(alive(*config, before.take(0), now) =~= Seq::empty()) by {
            reveal(Seq::filter);
        }
        while i < self.breakpoints.len()
            invariant
                i <= self.breakpoints.len(),
                self.breakpoints@ == before,
                kept@ == alive(*config, before.take(i as int), now),
            decreases self.breakpoints.len() - i,
        {
            let b: Breakpoint = self.breakpoints[i];
            proof {
                reveal(Seq::filter);
                assert(before.take(i + 1).drop_last() =~= before.take(i as int));
            }
            if !is_expired(config, &b, now) {
                kept.push(b);
            }
            i += 1;
        }
        assert(before.take(before.len() as int) =~= before);
        self.breakpoints = kept;
    }
}

/// The table of one account.
#[derive(Debug)]
struct AccountTable {
    account: String,
    table: FingerprintTable,
}

/// The known prefixes of all accounts.
#[derive(Debug)]
pub struct FingerprintTracker {
    tables: Vec<AccountTable>,
    config: CacheSimulationConfig,
    stopped: bool,
    epoch: Instant,
}

/// A tracker as what it holds: the table of each account, the configuration and
/// whether it was told to stop. Where its clock counts from is not part of this;
/// `clock_may_show` speaks of it, and no operation changes it.
#[verifier::ext_equal]
pub struct TrackerState {
    pub tables: Map<Seq<char>, Seq<Breakpoint>>,
    pub config: CacheSimulationConfig,
    pub stopped: bool,
}

/// Whether some entry is that of `account`.
spec fn has_account(tables: Seq<AccountTable>, account: Seq<char>) -> bool {
    exists|i: int| 0 <= i < tables.len() && (#[trigger] tables[i]).account@ == account
}

/// The entry of `account`.
spec fn place_of(tables: Seq<AccountTable>, account: Seq<char>) -> int {
    choose|i: int| 0 <= i < tables.len() && (#[trigger] tables[i]).account@ == account
}

/// The tables by account.
spec fn table_map(tables: Seq<AccountTable>) -> Map<Seq<char>, Seq<Breakpoint>> {
    Map::new(
        |account: Seq<char>| has_account(tables, account),
        |account: Seq<char>| tables[place_of(tables, account)].table.breakpoints@,
    )
}

/// No account has two entries.
spec fn accounts_distinct(tables: Seq<AccountTable>) -> bool {
    forall|i: int, j: int|
        0 <= i < j < tables.len() ==> (#[trigger] tables[i]).account@ != (
        #[trigger] tables[j]).account@
}

proof fn table_at(tables: Seq<AccountTable>, i: int)
    requires
        accounts_distinct(tables),
        0 <= i < tables.len(),
    ensures
        table_map(tables).dom().contains(tables[i].account@),
        table_map(tables)[tables[i].account@] == tables[i].table.breakpoints@,
{
    let account = tables[i].account@;
    assert(has_account(tables, account));
    let j = place_of(tables, account);
    assert(i == j);
}

/// Putting another table in place of the one at `i` replaces that account's table.
proof fn table_replaced(before: Seq<AccountTable>, after: Seq<AccountTable>, i: int)
    requires
        accounts_distinct(before),
        0 <= i < before.len(),
        after.len() == before.len(),
        after[i].account@ == before[i].account@,
        forall|j: int| 0 <= j < before.len() && j != i ==> #[trigger] after[j] == before[j],
    ensures
        accounts_distinct(after),
        table_map(after) == table_map(before).insert(
            before[i].account@,
            after[i].table.breakpoints@,
        ),
{
    assert forall|j: int| 0 <= j < before.len() implies (#[trigger] after[j]).account@
        == before[j].account@ by {
        if j != i {
            assert(after[j] == before[j]);
        }
    }
    assert(accounts_distinct(after)) by {
        assert forall|a: int, b: int| 0 <= a < b < after.len() implies (#[trigger] after[a]).account@
            != (#[trigger] after[b]).account@ by {
            assert(before[a].account@ != before[b].account@);
        }
    }
    let map = table_map(before).insert(before[i].account@, after[i].table.breakpoints@);
    assert forall|account: Seq<char>| #[trigger]
        table_map(after).dom().contains(account) <==> map.dom().contains(account) by {
        if has_account(after, account) {
            let j = place_of(after, account);
            assert(before[j].account@ == account);
            assert(has_account(before, account));
        }
        if has_account(before, account) {
            let j = place_of(before, account);
            assert(after[j].account@ == account);
            assert(has_account(after, account));
        }
        if account == before[i].account@ {
            assert(after[i].account@ == account);
            assert(has_account(after, account));
        }
    }
    assert forall|account: Seq<char>| #[trigger] table_map(after).dom().contains(account) implies
        table_map(after)[account] == map[account] by {
        let j = place_of(after, account);
        table_at(after, j);
        if j != i {
            assert(after[j] == before[j]);
            table_at(before, j);
            if i < j {
                assert(before[i].account@ != before[j].account@);
            } else {
                assert(before[j].account@ != before[i].account@);
            }
        }
    }
    assert(table_map(after) =~= map);
}

/// A new entry adds that account's table.
proof fn table_added(before: Seq<AccountTable>, entry: AccountTable)
    requires
        accounts_distinct(before),
        !has_account(before, entry.account@),
    ensures
        accounts_distinct(before.push(entry)),
        table_map(before.push(entry)) == table_map(before).insert(
            entry.account@,
            entry.table.breakpoints@,
        ),
{
    let after = before.push(entry);
    assert(accounts_distinct(after)) by {
        assert forall|a: int, b: int| 0 <= a < b < after.len() implies (#[trigger] after[a]).account@
            != (#[trigger] after[b]).account@ by {
            assert(after[a] == before[a]);
            if b < before.len() {
                assert(after[b] == before[b]);
            }
        }
    }
    let map = table_map(before).insert(entry.account@, entry.table.breakpoints@);
    assert forall|account: Seq<char>| #[trigger]
        table_map(after).dom().contains(account) <==> map.dom().contains(account) by {
        if has_account(after, account) {
            let j = place_of(after, account);
            if j < before.len() {
                assert(before[j].account@ == account);
                assert(has_account(before, account));
            }
        }
        if has_account(before, account) {
            let j = place_of(before, account);
            assert(after[j].account@ == account);
            assert(has_account(after, account));
        }
        assert(after[before.len() as int] == entry);
        if account == entry.account@ {
            assert(has_account(after, account));
        }
    }
    assert forall|account: Seq<char>| #[trigger] table_map(after).dom().contains(account) implies
        table_map(after)[account] == map[account] by {
        let j = place_of(after, account);
        table_at(after, j);
        if j < before.len() {
            assert(after[j] == before[j]);
            table_at(before, j);
            assert(has_account(before, account));
        }
    }
    assert(table_map(after) =~= map);
}

/// The place of an account's entry.
fn find(tables: &Vec<AccountTable>, account: &str) -> (r: Option<usize>)
    ensures
        match r {
            Some(i) => i < tables.len() && tables@[i as int].account@ == account@,
            None => !has_account(tables@, account@),
        },
{
    let mut i: usize = 0;
    while i < tables.len()
        invariant
            i <= tables.len(),
            forall|j: int| 0 <= j < i ==> (#[trigger] tables@[j]).account@ != account@,
        decreases tables.len() - i,
    {
        if crate::text::same(tables[i].account.as_str(), account) {
            return Some(i);
        }
        i += 1;
    }
    None
}

impl View for FingerprintTracker {
    type V = TrackerState;

    closed spec fn view(&self) -> TrackerState {
        TrackerState {
            tables: table_map(self.tables@),
            config: self.config,
            stopped: self.stopped,
        }
    }
}

/// The table of an account; empty where it has none.
pub open spec fn table_of(state: TrackerState, account: Seq<char>) -> Seq<Breakpoint> {
    if state.tables.dom().contains(account) {
        state.tables[account]
    } else {
        Seq::empty()
    }
}

/// Whether a request is looked up at all.
pub open spec fn looked_up(
    state: TrackerState,
    profile: Seq<ContentSegment>,
    total_input: int,
) -> bool {
    state.config.fingerprint_enabled && profile.len() > 0 && total_input > 0
}

/// The state after a look-up: what was hit is as of now.
pub open spec fn state_after_lookup(
    state: TrackerState,
    account: Seq<char>,
    profile: Seq<ContentSegment>,
    total_input: int,
    now: u128,
) -> TrackerState {
    if looked_up(state, profile, total_input) && state.tables.dom().contains(account) {
        let table = state.tables[account];
        TrackerState {
            tables: state.tables.insert(
                account,
                touched_front(table, hits(state.config, table, profile, now), now),
            ),
            ..state
        }
    } else {
        state
    }
}

/// The result of a look-up.
pub open spec fn lookup_result(
    state: TrackerState,
    account: Seq<char>,
    profile: Seq<ContentSegment>,
    total_input: int,
    now: u128,
) -> Option<PromptCacheUsage> {
    if looked_up(state, profile, total_input) {
        Some(
            usage_for(
                total_input,
                tokens_up_to(
                    profile,
                    hits(state.config, table_of(state, account), profile, now),
                ),
                state.config.ephemeral_1h_ratio@,
            ),
        )
    } else {
        None
    }
}

/// The state after a profile was taken in.
pub open spec fn state_after_update(
    state: TrackerState,
    account: Seq<char>,
    profile: Seq<ContentSegment>,
    now: u128,
) -> TrackerState {
    if state.config.fingerprint_enabled && profile.len() > 0 {
        TrackerState {
            tables: state.tables.insert(
                account,
                learned(state.config, table_of(state, account), profile, now),
            ),
            ..state
        }
    } else {
        state
    }
}

/// The state without expired breakpoints.
pub open spec fn state_after_evict(state: TrackerState, now: u128) -> TrackerState {
    if state.config.fingerprint_enabled {
        TrackerState {
            tables: state.tables.map_values(
                |table: Seq<Breakpoint>| alive(state.config, table, now),
            ),
            ..state
        }
    } else {
        state
    }
}

/// The charges for a request of `total_input` tokens with `matched` known ones.
pub fn charge(total_input: i32, matched: i32, share: &Ratio) -> (r: PromptCacheUsage)
    requires
        total_input > 0,
    ensures
        r == usage_for(total_input as int, matched as int, share@),
{
    let cap: i32 = (total_input as i64 * 17 / 20) as i32;
    let read: i32 = if matched < 0 {
        0
    } else if matched < cap {
        matched
    } else {
        cap
    };
    let creation: i32 = total_input - read;
    let long: i32 = share.part_of(creation as u64) as i32;
    PromptCacheUsage {
        input_tokens: 0,
        cache_creation_input_tokens: creation,
        cache_read_input_tokens: read,
        cache_creation_5m_input_tokens: creation - long,
        cache_creation_1h_input_tokens: long,
    }
}

/// `std::time::Instant`, a reading of the monotonic clock.
#[verifier::external_type_specification]
#[verifier::external_body]
pub struct ExInstant(std::time::Instant);

/// `Instant::now` of std: the clock's reading, of which nothing is promised.
pub assume_specification[ Instant::now ]() -> Instant;

/// `Instant::elapsed` of std: the time since a reading, of which nothing is promised.
pub assume_specification[ Instant::elapsed ](earlier: &Instant) -> Duration;

/// `Duration::as_nanos` of std: the nanoseconds of a duration, which is itself
/// without a model here.
pub assume_specification[ Duration::as_nanos ](duration: &Duration) -> u128;

impl FingerprintTracker {
    /// No account has two tables.
    #[verifier::type_invariant]
    spec fn distinct(&self) -> bool {
        accounts_distinct(self.tables@)
    }

    /// A tracker without any table.
    pub fn new(config: CacheSimulationConfig) -> (r: Self)
        ensures
            r@ == (TrackerState { tables: Map::empty(), config, stopped: false }),
    {
        let r = FingerprintTracker {
            tables: Vec::new(),
            config,
            stopped: false,
            epoch: Instant::now(),
        };
        assert(r@.tables =~= Map::empty());
        r
    }

    /// The same tracker as `new` gives.
    pub fn new_for_test(config: CacheSimulationConfig) -> (r: Self)
        ensures
            r@ == (TrackerState { tables: Map::empty(), config, stopped: false }),
    {
        Self::new(config)
    }

    /// Whether the clock may show `now`: the nanoseconds of a time that it gives as
    /// elapsed since the tracker was made.
    pub closed spec fn clock_may_show(&self, now: u128) -> bool {
        exists|elapsed: Duration|
            call_ensures(Instant::elapsed, (&self.epoch,), elapsed) && #[trigger] call_ensures(
                Duration::as_nanos,
                (&elapsed,),
                now,
            )
    }

    /// Nanoseconds since the tracker was made.
    fn now(&self) -> (r: u128)
        ensures
            self.clock_may_show(r),
    {
        let elapsed = self.epoch.elapsed();
        elapsed.as_nanos()
    }

    /// Looks a request up at the given time: what its account already knows
    /// counts as read from the cache, the rest as newly cached.
    pub fn compute_at(
        &mut self,
        account_id: &str,
        profile: &[ContentSegment],
        total_input: i32,
        now: u128,
    ) -> (r: Option<PromptCacheUsage>)
        ensures
            final(self)@ == state_after_lookup(
                old(self)@,
                account_id@,
                profile@,
                total_input as int,
                now,
            ),
            r == lookup_result(old(self)@, account_id@, profile@, total_input as int, now),
            forall|n: u128| #[trigger]
                final(self).clock_may_show(n) == old(self).clock_may_show(n),
    {
        if !self.config.fingerprint_enabled || profile.len() == 0 || total_input <= 0 {
            return None;
        }
        proof {
            use_type_invariant(&*self);
        }
        let ghost before = self.tables@;
        let config = self.config;
        let mut tables: Vec<AccountTable> = Vec::new();
        std::mem::swap(&mut tables, &mut self.tables);
        let matched: i32 = match find(&tables, account_id) {
            Some(i) => {
                proof {
                    table_at(before, i as int);
                }
                let n: usize = tables[i].table.hit(&config, profile, now);
                proof {
                    table_replaced(before, tables@, i as int);
                }
                if n == 0 {
                    0
                } else {
                    profile[n - 1].cumulative_tokens
                }
            },
            None => 0,
        };
        self.tables = tables;
        Some(charge(total_input, matched, &config.ephemeral_1h_ratio))
    }

    /// Looks a request up now.
    pub fn compute(
        &mut self,
        account_id: &str,
        profile: &[ContentSegment],
        total_input: i32,
    ) -> (r: Option<PromptCacheUsage>)
        ensures
            r is Some <==> looked_up(old(self)@, profile@, total_input as int),
            exists|now: u128|
                old(self).clock_may_show(now) && final(self)@ == #[trigger] state_after_lookup(
                    old(self)@,
                    account_id@,
                    profile@,
                    total_input as int,
                    now,
                ) && r == lookup_result(
                    old(self)@,
                    account_id@,
                    profile@,
                    total_input as int,
                    now,
                ),
            forall|n: u128| #[trigger]
                final(self).clock_may_show(n) == old(self).clock_may_show(n),
    {
        let now: u128 = self.now();
        self.compute_at(account_id, profile, total_input, now)
    }

    /// Takes in the profile of a request at the given time.
    pub fn update_at(&mut self, account_id: &str, profile: Vec<ContentSegment>, now: u128)
        ensures
            final(self)@ == state_after_update(old(self)@, account_id@, profile@, now),
            forall|n: u128| #[trigger]
                final(self).clock_may_show(n) == old(self).clock_may_show(n),
    {
        if !self.config.fingerprint_enabled || profile.len() == 0 {
            return;
        }
        proof {
            use_type_invariant(&*self);
        }
        let ghost before = self.tables@;
        let config = self.config;
        let mut tables: Vec<AccountTable> = Vec::new();
        std::mem::swap(&mut tables, &mut self.tables);
        match find(&tables, account_id) {
            Some(i) => {
                proof {
                    table_at(before, i as int);
                }
                tables[i].table.learn(&config, &profile, now);
                proof {
                    table_replaced(before, tables@, i as int);
                }
            },
            None => {
                let mut table = FingerprintTable { breakpoints: Vec::new() };
                assert(table.breakpoints@ =~= Seq::empty());
                table.learn(&config, &profile, now);
                let entry = AccountTable { account: account_id.to_owned(), table };
                proof {
                    table_added(before, entry);
                }
                tables.push(entry);
            },
        }
        self.tables = tables;
    }

    /// Takes in the profile of a request now.
    pub fn update(&mut self, account_id: &str, profile: Vec<ContentSegment>)
        ensures
            exists|now: u128|
                old(self).clock_may_show(now) && final(self)@ == #[trigger] state_after_update(
                    old(self)@,
                    account_id@,
                    profile@,
                    now,
                ),
            forall|n: u128| #[trigger]
                final(self).clock_may_show(n) == old(self).clock_may_show(n),
    {
        let now: u128 = self.now();
        self.update_at(account_id, profile, now);
    }

    /// Drops what has expired at the given time, for every account.
    pub fn evict_expired_at(&mut self, now: u128)
        ensures
            final(self)@ == state_after_evict(old(self)@, now),
            forall|n: u128| #[trigger]
                final(self).clock_may_show(n) == old(self).clock_may_show(n),
    {
        if !self.config.fingerprint_enabled {
            return;
        }
        proof {
            use_type_invariant(&*self);
        }
        let ghost before = self.tables@;
        let config = self.config;
        let mut tables: Vec<AccountTable> = Vec::new();
        std::mem::swap(&mut tables, &mut self.tables);
        let mut i: usize = 0;
        while i < tables.len()
            invariant
                i <= tables.len(),
                tables.len() == before.len(),
                forall|j: int|
                    0 <= j < before.len() ==> (#[trigger] tables@[j]).account@
                        == before[j].account@,
                forall|j: int|
                    0 <= j < i ==> (#[trigger] tables@[j]).table.breakpoints@ == alive(
                        config,
                        before[j].table.breakpoints@,
                        now,
                    ),
                forall|j: int| i <= j < before.len() ==> #[trigger] tables@[j] == before[j],
            decreases tables.len() - i,
        {
            tables[i].table.drop_expired(&config, now);
            i += 1;
        }
        proof {
            tables_mapped(before, tables@, config, now);
        }
        self.tables = tables;
    }

    /// Drops what has expired now, for every account.
    pub fn evict_expired(&mut self)
        ensures
            exists|now: u128|
                old(self).clock_may_show(now) && final(self)@ == #[trigger] state_after_evict(
                    old(self)@,
                    now,
                ),
            forall|n: u128| #[trigger]
                final(self).clock_may_show(n) == old(self).clock_may_show(n),
    {
        let now: u128 = self.now();
        self.evict_expired_at(now);
    }

    /// Tells the periodic eviction to stop.
    pub fn shutdown(&mut self)
        ensures
            final(self)@ == (TrackerState { stopped: true, ..old(self)@ }),
            forall|n: u128| #[trigger]
                final(self).clock_may_show(n) == old(self).clock_may_show(n),
    {
        proof {
            use_type_invariant(&*self);
        }
        self.stopped = true;
    }

    /// One round of the periodic eviction, and whether another one is to follow.
    pub fn tick_at(&mut self, now: u128) -> (r: bool)
        ensures
            r == !old(self)@.stopped,
            final(self)@ == if old(self)@.stopped {
                old(self)@
            } else {
                state_after_evict(old(self)@, now)
            },
            forall|n: u128| #[trigger]
                final(self).clock_may_show(n) == old(self).clock_may_show(n),
    {
        if self.stopped {
            return false;
        }
        self.evict_expired_at(now);
        true
    }

    /// One round of the periodic eviction now, and whether another one is to follow.
    pub fn tick(&mut self) -> (r: bool)
        ensures
            r == !old(self)@.stopped,
            old(self)@.stopped ==> final(self)@ == old(self)@,
            !old(self)@.stopped ==> exists|now: u128|
                old(self).clock_may_show(now) && final(self)@ == #[trigger] state_after_evict(
                    old(self)@,
                    now,
                ),
            forall|n: u128| #[trigger]
                final(self).clock_may_show(n) == old(self).clock_may_show(n),
    {
        let now: u128 = self.now();
        self.tick_at(now)
    }

    /// The configuration.
    pub fn config(&self) -> (r: CacheSimulationConfig)
        ensures
            r == self@.config,
    {
        self.config
    }

    /// The profile of a request without tools.
    pub fn build_profile(
        system: Option<&[SystemMessage]>,
        messages: &[Message],
    ) -> (r: Vec<ContentSegment>)
        ensures
            profile::is_profile(
                profile::request_segments(token::items(system), messages@, Seq::empty()),
                r@,
            ),
    {
        let r = Self::build_profile_with_tools(system, messages, None);
        assert(token::items::<Tool>(None) =~= Seq::empty());
        r
    }

    /// The profile of a request: another set of tools makes another profile.
    pub fn build_profile_with_tools(
        system: Option<&[SystemMessage]>,
        messages: &[Message],
        tools: Option<&[Tool]>,
    ) -> (r: Vec<ContentSegment>)
        ensures
            profile::is_profile(
                profile::request_segments(token::items(system), messages@, token::items(tools)),
                r@,
            ),
    {
        let segments = profile::segments_of(system, messages, tools);
        profile::segment_profile(&segments)
    }
}

/// Applying one change to every entry changes the table of every account by it.
proof fn tables_mapped(
    before: Seq<AccountTable>,
    after: Seq<AccountTable>,
    config: CacheSimulationConfig,
    now: u128,
)
    requires
        accounts_distinct(before),
        after.len() == before.len(),
        forall|j: int|
            0 <= j < before.len() ==> (#[trigger] after[j]).account@ == before[j].account@,
        forall|j: int|
            0 <= j < before.len() ==> (#[trigger] after[j]).table.breakpoints@ == alive(
                config,
                before[j].table.breakpoints@,
                now,
            ),
    ensures
        accounts_distinct(after),
        table_map(after) == table_map(before).map_values(
            |table: Seq<Breakpoint>| alive(config, table, now),
        ),
{
    assert(accounts_distinct(after)) by {
        assert forall|a: int, b: int| 0 <= a < b < after.len() implies (#[trigger] after[a]).account@
            != (#[trigger] after[b]).account@ by {
            assert(before[a].account@ != before[b].account@);
        }
    }
    let map = table_map(before).map_values(|table: Seq<Breakpoint>| alive(config, table, now));
    assert forall|account: Seq<char>| #[trigger]
        table_map(after).dom().contains(account) <==> map.dom().contains(account) by {
        if has_account(after, account) {
            let j = place_of(after, account);
            assert(before[j].account@ == account);
            assert(has_account(before, account));
        }
        if has_account(before, account) {
            let j = place_of(before, account);
            assert(after[j].account@ == account);
            assert(has_account(after, account));
        }
    }
    assert forall|account: Seq<char>| #[trigger] table_map(after).dom().contains(account) implies
        table_map(after)[account] == map[account] by {
        let j = place_of(after, account);
        assert(after[j].account@ == account);
        table_at(after, j);
        assert(before[j].account@ == account);
        table_at(before, j);
    }
    assert(table_map(after) =~= map);
}

} // verus!
