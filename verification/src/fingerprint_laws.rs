//! What holds of fingerprints across requests.

use crate::digest;
use crate::fingerprint;
use crate::fingerprint::{Breakpoint, CacheSimulationConfig, EphemeralTier, TrackerState};
use crate::messages::{Message, SystemMessage, Tool};
use crate::profile;
use crate::profile::ContentSegment;
use crate::ratio;
use crate::text;
use vstd::prelude::*;

verus! {

/// The parts of a charge: read and newly cached tokens make up the request, the
/// two tiers make up what is newly cached, no part is negative, and no more than
/// 85 percent is read, nor more than was matched.
pub proof fn charges_add_up(total: int, matched: int, share: (nat, nat))
    requires
        0 < total <= i32::MAX,
    ensures
        ({
            let u = fingerprint::usage_for(total, matched, share);
            &&& u.input_tokens + u.cache_read_input_tokens + u.cache_creation_input_tokens == total
            &&& u.cache_creation_5m_input_tokens + u.cache_creation_1h_input_tokens
                == u.cache_creation_input_tokens
            &&& u.input_tokens >= 0
            &&& u.cache_read_input_tokens >= 0
            &&& u.cache_creation_5m_input_tokens >= 0
            &&& u.cache_creation_1h_input_tokens >= 0
            &&& 20 * u.cache_read_input_tokens <= 17 * total
            &&& matched >= 0 ==> u.cache_read_input_tokens <= matched
        }),
{
}

proof fn run_of_hits(
    config: CacheSimulationConfig,
    table: Seq<Breakpoint>,
    profile: Seq<ContentSegment>,
    now: u128,
    k: int,
)
    requires
        k >= 0,
    ensures
        ({
            let n = fingerprint::hits_from(config, table, profile, now, k);
            &&& k <= n
            &&& n <= profile.len() || n == k
            &&& n <= table.len() || n == k
            &&& !fingerprint::hit_at(config, table, profile, now, n)
            &&& forall|j: int|
                k <= j < n ==> #[trigger] fingerprint::hit_at(config, table, profile, now, j)
        }),
    decreases profile.len() - k,
{
    if fingerprint::hit_at(config, table, profile, now, k) {
        run_of_hits(config, table, profile, now, k + 1);
    }
}

/// Hits come from the front without a gap: where a prefix hits, so does every
/// shorter one, and the first segment that does not hit ends the run.
pub proof fn hits_are_a_prefix(
    config: CacheSimulationConfig,
    table: Seq<Breakpoint>,
    profile: Seq<ContentSegment>,
    now: u128,
)
    ensures
        ({
            let n = fingerprint::hits(config, table, profile, now);
            &&& 0 <= n <= profile.len()
            &&& n <= table.len()
            &&& !fingerprint::hit_at(config, table, profile, now, n)
            &&& forall|j: int|
                0 <= j < n ==> #[trigger] fingerprint::hit_at(config, table, profile, now, j)
        }),
{
    run_of_hits(config, table, profile, now, 0);
}

proof fn run_is(
    config: CacheSimulationConfig,
    table: Seq<Breakpoint>,
    profile: Seq<ContentSegment>,
    now: u128,
    k: int,
    n: int,
)
    requires
        0 <= k <= n,
        forall|j: int|
            k <= j < n ==> #[trigger] fingerprint::hit_at(config, table, profile, now, j),
    ensures
        fingerprint::hits_from(config, table, profile, now, k) == fingerprint::hits_from(
            config,
            table,
            profile,
            now,
            n,
        ),
    decreases n - k,
{
    if k < n {
        assert(fingerprint::hit_at(config, table, profile, now, k));
        run_is(config, table, profile, now, k + 1, n);
    }
}

proof fn known_run(table: Seq<Breakpoint>, profile: Seq<ContentSegment>, k: int)
    requires
        k >= 0,
    ensures
        ({
            let n = fingerprint::known_from(table, profile, k);
            &&& k <= n
            &&& n <= profile.len() || n == k
            &&& n <= table.len() || n == k
            &&& forall|j: int|
                k <= j < n ==> (#[trigger] table[j]).hash@ == profile[j].hash@
        }),
    decreases profile.len() - k,
{
    if 0 <= k < table.len() && k < profile.len() && table[k].hash@ == profile[k].hash@ {
        known_run(table, profile, k + 1);
    }
}

/// How many breakpoints a profile leaves in a table.
pub open spec fn learned_len(config: CacheSimulationConfig, profile: Seq<ContentSegment>) -> int {
    if profile.len() <= fingerprint::table_limit(config) {
        profile.len() as int
    } else {
        fingerprint::table_limit(config)
    }
}

/// What a table holds after a profile was taken in: as many breakpoints as the
/// limit allows, each with the digest of its segment, all of them hit just now.
/// Those already known keep their tier, the others take theirs by their share.
pub proof fn table_follows_profile(
    config: CacheSimulationConfig,
    table: Seq<Breakpoint>,
    profile: Seq<ContentSegment>,
    now: u128,
)
    ensures
        ({
            let after = fingerprint::learned(config, table, profile, now);
            let known = fingerprint::known_from(table, profile, 0);
            &&& after.len() == learned_len(config, profile)
            &&& after.len() <= fingerprint::table_limit(config)
            &&& forall|k: int|
                0 <= k < after.len() ==> {
                    &&& (#[trigger] after[k]).hash@ == profile[k].hash@
                    &&& after[k].last_hit_at == now
                    &&& after[k].tier == if k < known {
                        table[k].tier
                    } else if ratio::falls_to_share(k as nat, config.ephemeral_1h_ratio@) {
                        EphemeralTier::OneH
                    } else {
                        EphemeralTier::FiveM
                    }
                }
        }),
{
    known_run(table, profile, 0);
}

/// Whether each of the first `n` breakpoints is within the lifetime of its tier.
pub open spec fn front_is_fresh(
    config: CacheSimulationConfig,
    table: Seq<Breakpoint>,
    n: int,
    now: u128,
) -> bool {
    forall|k: int| 0 <= k < n ==> !fingerprint::expired(config, #[trigger] table[k], now)
}

/// Whether two profiles agree on exactly their first `n` segments, as far as the
/// first of them is kept.
pub open spec fn agree_up_to(
    config: CacheSimulationConfig,
    first: Seq<ContentSegment>,
    second: Seq<ContentSegment>,
    n: int,
) -> bool {
    &&& 0 <= n <= learned_len(config, first)
    &&& n <= second.len()
    &&& forall|k: int| 0 <= k < n ==> (#[trigger] second[k]).hash@ == first[k].hash@
    &&& n < learned_len(config, first) && n < second.len() ==> second[n].hash@ != first[n].hash@
}

/// A request hits exactly as far as it agrees with the one before it of its
/// account and that was kept, while what they share is within the lifetimes of
/// its tiers, and is charged for that as read.
pub proof fn shared_prefix_hits(
    state: TrackerState,
    account: Seq<char>,
    first: Seq<ContentSegment>,
    second: Seq<ContentSegment>,
    n: int,
    then: u128,
    now: u128,
    total: int,
)
    requires
        state.config.fingerprint_enabled,
        first.len() > 0,
        second.len() > 0,
        agree_up_to(state.config, first, second, n),
        front_is_fresh(
            state.config,
            fingerprint::table_of(
                fingerprint::state_after_update(state, account, first, then),
                account,
            ),
            n,
            now,
        ),
        total > 0,
    ensures
        ({
            let after = fingerprint::state_after_update(state, account, first, then);
            &&& fingerprint::hits(
                after.config,
                fingerprint::table_of(after, account),
                second,
                now,
            ) == n
            &&& fingerprint::lookup_result(after, account, second, total, now) == Some(
                fingerprint::usage_for(
                    total,
                    fingerprint::tokens_up_to(second, n),
                    state.config.ephemeral_1h_ratio@,
                ),
            )
        }),
{
    let after = fingerprint::state_after_update(state, account, first, then);
    let before = fingerprint::table_of(state, account);
    table_follows_profile(state.config, before, first, then);
    let table = fingerprint::table_of(after, account);
    assert(table == fingerprint::learned(state.config, before, first, then));
    assert forall|j: int| 0 <= j < n implies #[trigger] fingerprint::hit_at(
        state.config,
        table,
        second,
        now,
        j,
    ) by {
        assert(table[j].hash@ == first[j].hash@);
        assert(second[j].hash@ == first[j].hash@);
    }
    run_is(state.config, table, second, now, 0, n);
    if n < table.len() {
        assert(table[n].hash@ == first[n].hash@);
    }
}

/// A conversation that goes on, with the same system texts and tools, reads all
/// of its earlier part from the cache, up to the limit on reading, while that is
/// within the lifetimes of its tiers and was kept whole.
pub proof fn continued_conversation_hits(
    state: TrackerState,
    account: Seq<char>,
    system: Seq<SystemMessage>,
    tools: Seq<Tool>,
    messages: Seq<Message>,
    more: Seq<Message>,
    first: Seq<ContentSegment>,
    second: Seq<ContentSegment>,
    then: u128,
    now: u128,
    total: int,
)
    requires
        state.config.fingerprint_enabled,
        profile::is_profile(profile::request_segments(system, messages, tools), first),
        profile::is_profile(profile::request_segments(system, messages + more, tools), second),
        0 < first.len() <= fingerprint::table_limit(state.config),
        front_is_fresh(
            state.config,
            fingerprint::table_of(
                fingerprint::state_after_update(state, account, first, then),
                account,
            ),
            first.len() as int,
            now,
        ),
        total > 0,
    ensures
        fingerprint::lookup_result(
            fingerprint::state_after_update(state, account, first, then),
            account,
            second,
            total,
            now,
        ) == Some(
            fingerprint::usage_for(
                total,
                first.last().cumulative_tokens as int,
                state.config.ephemeral_1h_ratio@,
            ),
        ),
{
    let short = profile::request_segments(system, messages, tools);
    let long = profile::request_segments(system, messages + more, tools);
    let n = first.len() as int;
    conversation_extends_segments(system, tools, messages, more);
    assert(short.take(n) =~= short);
    equal_segments_equal_profiles(short, long, first, second, n);
    assert forall|k: int| 0 <= k < n implies (#[trigger] second[k]).hash@ == first[k].hash@ by {
        assert(first[k].hash@ == second[k].hash@);
    }
    shared_prefix_hits(state, account, first, second, n, then, now, total);
    assert(first[n - 1].cumulative_tokens == second[n - 1].cumulative_tokens);
}

/// A breakpoint that has outlived its tier ends the run of hits at the latest.
pub proof fn expiry_ends_the_run(
    config: CacheSimulationConfig,
    table: Seq<Breakpoint>,
    profile: Seq<ContentSegment>,
    now: u128,
    k: int,
)
    requires
        0 <= k < table.len(),
        fingerprint::expired(config, table[k], now),
    ensures
        fingerprint::hits(config, table, profile, now) <= k,
{
    hits_are_a_prefix(config, table, profile, now);
    if fingerprint::hits(config, table, profile, now) > k {
        assert(fingerprint::hit_at(config, table, profile, now, k));
    }
}

/// A request hits nothing where the first breakpoint of its account has outlived
/// its tier.
pub proof fn stale_prefix_misses(
    state: TrackerState,
    account: Seq<char>,
    profile: Seq<ContentSegment>,
    now: u128,
    total: int,
)
    requires
        fingerprint::looked_up(state, profile, total),
        fingerprint::table_of(state, account).len() > 0,
        fingerprint::expired(state.config, fingerprint::table_of(state, account)[0], now),
    ensures
        fingerprint::lookup_result(state, account, profile, total, now) == Some(
            fingerprint::usage_for(total, 0, state.config.ephemeral_1h_ratio@),
        ),
        fingerprint::state_after_lookup(state, account, profile, total, now) == state,
{
    let table = fingerprint::table_of(state, account);
    assert(!fingerprint::hit_at(state.config, table, profile, now, 0));
    assert(fingerprint::touched_front(table, 0, now) =~= table);
    assert(state.tables.insert(account, table) =~= state.tables);
}

/// An eviction empties a table of which every breakpoint has outlived its tier.
pub proof fn stale_table_is_emptied(state: TrackerState, account: Seq<char>, now: u128)
    requires
        state.config.fingerprint_enabled,
        forall|k: int|
            0 <= k < fingerprint::table_of(state, account).len() ==> fingerprint::expired(
                state.config,
                #[trigger] fingerprint::table_of(state, account)[k],
                now,
            ),
    ensures
        fingerprint::table_of(fingerprint::state_after_evict(state, now), account).len() == 0,
{
    nothing_alive(state.config, fingerprint::table_of(state, account), now);
}

/// With a share of nothing the shorter lifetime alone decides: once it is over a
/// request hits nothing, and an eviction empties the table.
pub proof fn short_lifetime_ends_hits(
    state: TrackerState,
    account: Seq<char>,
    first: Seq<ContentSegment>,
    second: Seq<ContentSegment>,
    then: u128,
    now: u128,
    total: int,
)
    requires
        state.config.fingerprint_enabled,
        state.config.ephemeral_1h_ratio@.0 == 0,
        forall|k: int|
            0 <= k < fingerprint::table_of(state, account).len() ==> (
            #[trigger] fingerprint::table_of(state, account)[k]).tier == EphemeralTier::FiveM,
        first.len() > 0,
        second.len() > 0,
        now - then > state.config.fingerprint_ttl_5m * 1_000_000_000,
        total > 0,
    ensures
        ({
            let after = fingerprint::state_after_update(state, account, first, then);
            let evicted = fingerprint::state_after_evict(after, now);
            let missed = fingerprint::usage_for(total, 0, state.config.ephemeral_1h_ratio@);
            &&& fingerprint::lookup_result(after, account, second, total, now) == Some(missed)
            &&& fingerprint::table_of(evicted, account).len() == 0
            &&& fingerprint::lookup_result(evicted, account, second, total, now) == Some(missed)
        }),
{
    let after = fingerprint::state_after_update(state, account, first, then);
    let before = fingerprint::table_of(state, account);
    table_follows_profile(state.config, before, first, then);
    known_run(before, first, 0);
    let table = fingerprint::table_of(after, account);
    assert(table == fingerprint::learned(state.config, before, first, then));
    assert forall|k: int| 0 <= k < table.len() implies fingerprint::expired(
        state.config,
        #[trigger] table[k],
        now,
    ) by {
        zero_share_stays_short(k as nat, 0, state.config.ephemeral_1h_ratio@.1);
        assert(state.config.ephemeral_1h_ratio@ == (0nat, state.config.ephemeral_1h_ratio@.1));
        if k < fingerprint::known_from(before, first, 0) {
            assert(before[k].tier == EphemeralTier::FiveM);
        }
    }
    stale_prefix_misses(after, account, second, now, total);
    stale_table_is_emptied(after, account, now);
    let evicted = fingerprint::state_after_evict(after, now);
    assert(!fingerprint::hit_at(
        evicted.config,
        fingerprint::table_of(evicted, account),
        second,
        now,
        0,
    ));
}

proof fn nothing_alive(config: CacheSimulationConfig, table: Seq<Breakpoint>, now: u128)
    requires
        forall|k: int|
            0 <= k < table.len() ==> fingerprint::expired(config, #[trigger] table[k], now),
    ensures
        fingerprint::alive(config, table, now).len() == 0,
    decreases table.len(),
{
    reveal(Seq::filter);
    if table.len() > 0 {
        assert forall|k: int| 0 <= k < table.drop_last().len() implies fingerprint::expired(
            config,
            #[trigger] table.drop_last()[k],
            now,
        ) by {
            assert(table.drop_last()[k] == table[k]);
        }
        nothing_alive(config, table.drop_last(), now);
        assert(fingerprint::expired(config, table[table.len() - 1], now));
    }
}

/// A hit renews the lifetime: what a look-up hit is hit again by the same profile
/// while each breakpoint is within the lifetime of its tier, counted from the
/// look-up, and nothing more is.
pub proof fn hit_renews_the_lifetime(
    config: CacheSimulationConfig,
    table: Seq<Breakpoint>,
    profile: Seq<ContentSegment>,
    then: u128,
    now: u128,
)
    requires
        then <= now,
        front_is_fresh(
            config,
            fingerprint::touched_front(
                table,
                fingerprint::hits(config, table, profile, then),
                then,
            ),
            fingerprint::hits(config, table, profile, then),
            now,
        ),
    ensures
        ({
            let n = fingerprint::hits(config, table, profile, then);
            fingerprint::hits(
                config,
                fingerprint::touched_front(table, n, then),
                profile,
                now,
            ) == n
        }),
{
    let n = fingerprint::hits(config, table, profile, then);
    let after = fingerprint::touched_front(table, n, then);
    hits_are_a_prefix(config, table, profile, then);
    assert forall|j: int| 0 <= j < n implies #[trigger] fingerprint::hit_at(
        config,
        after,
        profile,
        now,
        j,
    ) by {
        assert(fingerprint::hit_at(config, table, profile, then, j));
        assert(!fingerprint::expired(config, after[j], now));
    }
    run_is(config, after, profile, now, 0, n);
}

/// An account without a table reads nothing from the cache: all of its request
/// is newly cached.
pub proof fn unknown_account_misses(
    state: TrackerState,
    account: Seq<char>,
    profile: Seq<ContentSegment>,
    now: u128,
    total: int,
)
    requires
        fingerprint::looked_up(state, profile, total),
        !state.tables.dom().contains(account),
        total <= i32::MAX,
    ensures
        fingerprint::lookup_result(state, account, profile, total, now) matches Some(u)
            && u.cache_read_input_tokens == 0 && u.cache_creation_input_tokens == total,
        fingerprint::state_after_lookup(state, account, profile, total, now) == state,
{
    assert(!fingerprint::hit_at(
        state.config,
        fingerprint::table_of(state, account),
        profile,
        now,
        0,
    ));
}

/// What one account does leaves the table of another, and what that is charged,
/// as they were.
pub proof fn accounts_are_apart(
    state: TrackerState,
    one: Seq<char>,
    other: Seq<char>,
    first: Seq<ContentSegment>,
    second: Seq<ContentSegment>,
    then: u128,
    now: u128,
    total: int,
)
    requires
        one != other,
    ensures
        ({
            let updated = fingerprint::state_after_update(state, one, first, then);
            let searched = fingerprint::state_after_lookup(state, one, first, total, then);
            &&& fingerprint::table_of(updated, other) == fingerprint::table_of(state, other)
            &&& fingerprint::table_of(searched, other) == fingerprint::table_of(state, other)
            &&& fingerprint::lookup_result(updated, other, second, total, now)
                == fingerprint::lookup_result(state, other, second, total, now)
            &&& fingerprint::lookup_result(searched, other, second, total, now)
                == fingerprint::lookup_result(state, other, second, total, now)
        }),
{
}

/// A tracker that is switched off answers nothing and learns nothing.
pub proof fn disabled_does_nothing(
    state: TrackerState,
    account: Seq<char>,
    profile: Seq<ContentSegment>,
    total: int,
    now: u128,
)
    requires
        !state.config.fingerprint_enabled,
    ensures
        fingerprint::lookup_result(state, account, profile, total, now) is None,
        fingerprint::state_after_lookup(state, account, profile, total, now) == state,
        fingerprint::state_after_update(state, account, profile, now) == state,
        fingerprint::state_after_evict(state, now) == state,
{
}

/// No table is over the limit.
pub open spec fn within_limit(state: TrackerState) -> bool {
    forall|account: Seq<char>| #[trigger]
        state.tables.dom().contains(account) ==> state.tables[account].len()
            <= fingerprint::table_limit(state.config)
}

/// Every operation keeps all tables within the limit.
pub proof fn limit_is_kept(
    state: TrackerState,
    account: Seq<char>,
    profile: Seq<ContentSegment>,
    total: int,
    now: u128,
)
    requires
        within_limit(state),
    ensures
        within_limit(fingerprint::state_after_lookup(state, account, profile, total, now)),
        within_limit(fingerprint::state_after_update(state, account, profile, now)),
        within_limit(fingerprint::state_after_evict(state, now)),
{
    table_follows_profile(
        state.config,
        fingerprint::table_of(state, account),
        profile,
        now,
    );
    let evicted = fingerprint::state_after_evict(state, now);
    assert forall|a: Seq<char>| #[trigger] evicted.tables.dom().contains(a) implies
        evicted.tables[a].len() <= fingerprint::table_limit(state.config) by {
        assert(state.tables.dom().contains(a));
        state.tables[a].lemma_filter_len(
            |b: Breakpoint| !fingerprint::expired(state.config, b, now),
        );
    }
}

/// A tracker that has learned nothing keeps within the limit.
pub proof fn new_is_within_limit(state: TrackerState)
    requires
        state.tables == Map::<Seq<char>, Seq<Breakpoint>>::empty(),
    ensures
        within_limit(state),
{
}

proof fn front_survives(
    config: CacheSimulationConfig,
    table: Seq<Breakpoint>,
    n: int,
    now: u128,
)
    requires
        0 <= n <= table.len(),
        forall|k: int| 0 <= k < n ==> !fingerprint::expired(config, #[trigger] table[k], now),
    ensures
        fingerprint::alive(config, table, now).len() >= n,
        fingerprint::alive(config, table, now).take(n) == table.take(n),
    decreases table.len(),
{
    reveal(Seq::filter);
    if table.len() > 0 {
        let front = table.drop_last();
        assert forall|k: int| 0 <= k < n && k < front.len() implies !fingerprint::expired(
            config,
            #[trigger] front[k],
            now,
        ) by {
            assert(front[k] == table[k]);
        }
        if n == table.len() {
            front_survives(config, front, n - 1, now);
            let kept = fingerprint::alive(config, front, now);
            nothing_gained(config, front, now);
            assert(kept.take(n - 1) =~= kept);
            assert(!fingerprint::expired(config, table[n - 1], now));
            assert(fingerprint::alive(config, table, now).take(n) =~= table.take(n));
        } else {
            front_survives(config, front, n, now);
            let kept = fingerprint::alive(config, front, now);
            assert(fingerprint::alive(config, table, now).take(n) =~= kept.take(n));
            assert(front.take(n) =~= table.take(n));
        }
    } else {
        assert(fingerprint::alive(config, table, now).take(n) =~= table.take(n));
    }
}

proof fn nothing_gained(config: CacheSimulationConfig, table: Seq<Breakpoint>, now: u128)
    ensures
        fingerprint::alive(config, table, now).len() <= table.len(),
{
    table.lemma_filter_len(|b: Breakpoint| !fingerprint::expired(config, b, now));
}

/// Dropping what has expired takes no hit away.
pub proof fn eviction_keeps_hits(
    config: CacheSimulationConfig,
    table: Seq<Breakpoint>,
    profile: Seq<ContentSegment>,
    now: u128,
)
    ensures
        fingerprint::hits(config, fingerprint::alive(config, table, now), profile, now)
            >= fingerprint::hits(config, table, profile, now),
{
    let n = fingerprint::hits(config, table, profile, now);
    let kept = fingerprint::alive(config, table, now);
    hits_are_a_prefix(config, table, profile, now);
    assert forall|k: int| 0 <= k < n implies !fingerprint::expired(
        config,
        #[trigger] table[k],
        now,
    ) by {
        assert(fingerprint::hit_at(config, table, profile, now, k));
    }
    front_survives(config, table, n, now);
    assert forall|j: int| 0 <= j < n implies #[trigger] fingerprint::hit_at(
        config,
        kept,
        profile,
        now,
        j,
    ) by {
        assert(fingerprint::hit_at(config, table, profile, now, j));
        assert(kept.take(n)[j] == table.take(n)[j]);
    }
    run_is(config, kept, profile, now, 0, n);
    run_of_hits(config, kept, profile, now, n);
}

/// What is left after an eviction is alive.
pub proof fn eviction_leaves_the_living(
    config: CacheSimulationConfig,
    table: Seq<Breakpoint>,
    now: u128,
    k: int,
)
    requires
        0 <= k < fingerprint::alive(config, table, now).len(),
    ensures
        !fingerprint::expired(config, fingerprint::alive(config, table, now)[k], now),
        table.contains(fingerprint::alive(config, table, now)[k]),
{
    let pred = |b: Breakpoint| !fingerprint::expired(config, b, now);
    table.lemma_filter_pred(pred, k);
    assert(table.filter(pred).contains(table.filter(pred)[k]));
    table.lemma_filter_contains_rev(pred, table.filter(pred)[k]);
}

/// Requests whose segments agree up to some point have profiles that agree up to
/// that point.
pub proof fn equal_segments_equal_profiles(
    a: Seq<Seq<char>>,
    b: Seq<Seq<char>>,
    p: Seq<ContentSegment>,
    q: Seq<ContentSegment>,
    n: int,
)
    requires
        profile::is_profile(a, p),
        profile::is_profile(b, q),
        0 <= n <= a.len(),
        n <= b.len(),
        a.take(n) == b.take(n),
    ensures
        forall|k: int|
            0 <= k < n ==> (#[trigger] p[k]).hash@ == q[k].hash@ && p[k].cumulative_tokens
                == q[k].cumulative_tokens,
{
    assert forall|k: int| 0 <= k < n implies (#[trigger] p[k]).hash@ == q[k].hash@
        && p[k].cumulative_tokens == q[k].cumulative_tokens by {
        assert(a.take(k + 1) =~= a.take(n).take(k + 1));
        assert(b.take(k + 1) =~= b.take(n).take(k + 1));
        assert(q[k].hash@ == profile::prefix_hash(b, k));
    }
}

/// A conversation that goes on keeps its segments: they begin those of the
/// longer one.
pub proof fn conversation_extends_segments(
    system: Seq<SystemMessage>,
    tools: Seq<Tool>,
    messages: Seq<Message>,
    more: Seq<Message>,
)
    ensures
        ({
            let short = profile::request_segments(system, messages, tools);
            let long = profile::request_segments(system, messages + more, tools);
            &&& short.len() <= long.len()
            &&& long.take(short.len() as int) == short
        }),
{
    let short = profile::request_segments(system, messages, tools);
    let long = profile::request_segments(system, messages + more, tools);
    assert(profile::message_segments(messages + more) =~= profile::message_segments(messages)
        + profile::message_segments(more));
    assert(long.take(short.len() as int) =~= short);
}

/// Whether SHA-256 gives two different prefixes one digest.
pub open spec fn prefixes_collide(a: Seq<Seq<char>>, b: Seq<Seq<char>>, k: int) -> bool {
    let x = vstd::utf8::encode_utf8(profile::concat(a.take(k + 1)));
    let y = vstd::utf8::encode_utf8(profile::concat(b.take(k + 1)));
    x != y && digest::sha256(x) == digest::sha256(y)
}

/// Two prefixes with different texts have different digests, unless SHA-256 gives
/// two different texts one digest: another system text, tool, message or tool
/// input breaks the match from there on.
pub proof fn different_text_breaks_the_match(
    a: Seq<Seq<char>>,
    b: Seq<Seq<char>>,
    p: Seq<ContentSegment>,
    q: Seq<ContentSegment>,
    k: int,
)
    requires
        profile::is_profile(a, p),
        profile::is_profile(b, q),
        0 <= k < a.len(),
        k < b.len(),
        profile::concat(a.take(k + 1)) != profile::concat(b.take(k + 1)),
    ensures
        p[k].hash@ != q[k].hash@ || prefixes_collide(a, b, k),
{
    let x = profile::concat(a.take(k + 1));
    let y = profile::concat(b.take(k + 1));
    vstd::utf8::encode_utf8_decode_utf8(x);
    vstd::utf8::encode_utf8_decode_utf8(y);
    assert(p[k].hash@ == profile::prefix_hash(a, k));
    assert(q[k].hash@ == profile::prefix_hash(b, k));
}

/// Another set of tools breaks every match, also that of the system texts: no
/// digest of the one profile is that of the other, unless SHA-256 gives two
/// different texts one digest.
pub proof fn other_tools_break_every_match(
    system: Seq<SystemMessage>,
    messages: Seq<Message>,
    t1: Seq<Tool>,
    t2: Seq<Tool>,
    p: Seq<ContentSegment>,
    q: Seq<ContentSegment>,
    k: int,
)
    requires
        profile::is_profile(profile::request_segments(system, messages, t1), p),
        profile::is_profile(profile::request_segments(system, messages, t2), q),
        t1.len() > 0,
        t2.len() > 0,
        profile::tool_segments(t1) != profile::tool_segments(t2),
        0 <= k < p.len(),
    ensures
        p.len() == q.len(),
        p[k].hash@ != q[k].hash@ || prefixes_collide(
            profile::request_segments(system, messages, t1),
            profile::request_segments(system, messages, t2),
            k,
        ),
{
    let a = profile::request_segments(system, messages, t1);
    let b = profile::request_segments(system, messages, t2);
    let x = a.take(k + 1);
    let y = b.take(k + 1);
    profile::concat_of_front(x);
    profile::concat_of_front(y);
    assert(x.drop_first() =~= y.drop_first());
    let rest = profile::concat(x.drop_first());
    assert(profile::tool_segments(t1) =~= seq![x[0]]);
    assert(profile::tool_segments(t2) =~= seq![y[0]]);
    if profile::concat(x) == profile::concat(y) {
        assert(profile::concat(x) == x[0] + rest);
        assert(profile::concat(y) == y[0] + rest);
        assert((x[0] + rest).len() == (y[0] + rest).len());
        assert((x[0] + rest).take(x[0].len() as int) =~= x[0]);
        assert((y[0] + rest).take(y[0].len() as int) =~= y[0]);
    }
    different_text_breaks_the_match(a, b, p, q, k);
}

/// A request with tools matches none without, nor the other way round, also not
/// in the system texts, unless SHA-256 gives two different texts one digest.
pub proof fn tools_and_no_tools_break_every_match(
    system: Seq<SystemMessage>,
    messages: Seq<Message>,
    tools: Seq<Tool>,
    p: Seq<ContentSegment>,
    q: Seq<ContentSegment>,
    k: int,
)
    requires
        profile::is_profile(profile::request_segments(system, messages, tools), p),
        profile::is_profile(profile::request_segments(system, messages, Seq::empty()), q),
        tools.len() > 0,
        0 <= k < q.len(),
    ensures
        k < p.len(),
        p[k].hash@ != q[k].hash@ || prefixes_collide(
            profile::request_segments(system, messages, tools),
            profile::request_segments(system, messages, Seq::empty()),
            k,
        ),
{
    let a = profile::request_segments(system, messages, tools);
    let b = profile::request_segments(system, messages, Seq::empty());
    let x = a.take(k + 1);
    let y = b.take(k + 1);
    profile::concat_of_front(x);
    profile::concat_of_front(y);
    reveal_strlit("T:");
    reveal_strlit("S:");
    reveal_strlit("M:");
    assert(profile::concat(x)[0] == 'T');
    assert(profile::concat(y)[0] != 'T');
    different_text_breaks_the_match(a, b, p, q, k);
}

/// After a request with one set of tools, one with another set reads nothing from
/// the cache, unless SHA-256 gives two different texts one digest.
pub proof fn other_tools_read_nothing(
    state: TrackerState,
    account: Seq<char>,
    system: Seq<SystemMessage>,
    messages: Seq<Message>,
    t1: Seq<Tool>,
    t2: Seq<Tool>,
    p: Seq<ContentSegment>,
    q: Seq<ContentSegment>,
    then: u128,
    now: u128,
    total: int,
)
    requires
        state.config.fingerprint_enabled,
        profile::is_profile(profile::request_segments(system, messages, t1), p),
        profile::is_profile(profile::request_segments(system, messages, t2), q),
        t1.len() > 0,
        t2.len() > 0,
        profile::tool_segments(t1) != profile::tool_segments(t2),
        total > 0,
    ensures
        fingerprint::lookup_result(
            fingerprint::state_after_update(state, account, p, then),
            account,
            q,
            total,
            now,
        ) == Some(fingerprint::usage_for(total, 0, state.config.ephemeral_1h_ratio@))
            || prefixes_collide(
            profile::request_segments(system, messages, t1),
            profile::request_segments(system, messages, t2),
            0,
        ),
{
    other_tools_break_every_match(system, messages, t1, t2, p, q, 0);
    let after = fingerprint::state_after_update(state, account, p, then);
    let before = fingerprint::table_of(state, account);
    table_follows_profile(state.config, before, p, then);
    let table = fingerprint::table_of(after, account);
    assert(table == fingerprint::learned(state.config, before, p, then));
    assert(table[0].hash@ == p[0].hash@);
}

proof fn tokens_in_grows(parts: Seq<Seq<char>>, j: int, k: int)
    requires
        0 <= j <= k <= parts.len(),
    ensures
        profile::tokens_in(parts.take(j)) <= profile::tokens_in(parts.take(k)),
        k <= profile::tokens_in(parts.take(k)),
    decreases k,
{
    if k > 0 {
        assert(parts.take(k).drop_last() =~= parts.take(k - 1));
        if j < k {
            tokens_in_grows(parts, j, k - 1);
        } else {
            tokens_in_grows(parts, j - 1, k - 1);
        }
    }
}

/// The token counts of a profile are positive and never fall from one segment to
/// a later one.
pub proof fn profile_tokens_grow(
    segments: Seq<Seq<char>>,
    p: Seq<ContentSegment>,
    j: int,
    k: int,
)
    requires
        profile::is_profile(segments, p),
        0 <= j <= k < p.len(),
    ensures
        0 < p[j].cumulative_tokens <= p[k].cumulative_tokens,
{
    tokens_in_grows(segments, j + 1, k + 1);
    tokens_in_grows(segments, j + 1, j + 1);
    assert(p[j].cumulative_tokens == profile::prefix_tokens(segments, j));
    assert(p[k].cumulative_tokens == profile::prefix_tokens(segments, k));
}

/// White space around a message's text does not change its segment.
pub proof fn surrounding_space_is_ignored(
    a: Message,
    b: Message,
    left: Seq<char>,
    right: Seq<char>,
)
    requires
        a.role@ == b.role@,
        a.content is Text,
        b.content is Text,
        a.content->Text_0@ == left + b.content->Text_0@ + right,
        forall|i: int| 0 <= i < left.len() ==> text::white(#[trigger] left[i]),
        forall|i: int| 0 <= i < right.len() ==> text::white(#[trigger] right[i]),
    ensures
        profile::message_segment(a) == profile::message_segment(b),
{
    space_is_trimmed(left, b.content->Text_0@, right);
}

proof fn space_is_trimmed(left: Seq<char>, s: Seq<char>, right: Seq<char>)
    requires
        forall|i: int| 0 <= i < left.len() ==> text::white(#[trigger] left[i]),
        forall|i: int| 0 <= i < right.len() ==> text::white(#[trigger] right[i]),
    ensures
        text::trimmed(left + s + right) == text::trimmed(s),
{
    front_dropped(left, s + right);
    assert(left + s + right =~= left + (s + right));
    back_kept(s, right);
}

proof fn front_dropped(left: Seq<char>, s: Seq<char>)
    requires
        forall|i: int| 0 <= i < left.len() ==> text::white(#[trigger] left[i]),
    ensures
        text::trimmed_front(left + s) == text::trimmed_front(s),
    decreases left.len(),
{
    if left.len() == 0 {
        assert(left + s =~= s);
    } else {
        assert((left + s)[0] == left[0]);
        assert((left + s).drop_first() =~= left.drop_first() + s);
        assert forall|i: int| 0 <= i < left.drop_first().len() implies text::white(
            #[trigger] left.drop_first()[i],
        ) by {
            assert(left.drop_first()[i] == left[i + 1]);
        }
        front_dropped(left.drop_first(), s);
    }
}

proof fn back_dropped(s: Seq<char>, right: Seq<char>)
    requires
        forall|i: int| 0 <= i < right.len() ==> text::white(#[trigger] right[i]),
    ensures
        text::trimmed_back(s + right) == text::trimmed_back(s),
    decreases right.len(),
{
    if right.len() == 0 {
        assert(s + right =~= s);
    } else {
        assert((s + right).last() == right.last());
        assert((s + right).drop_last() =~= s + right.drop_last());
        assert(text::white(right[right.len() - 1]));
        assert forall|i: int| 0 <= i < right.drop_last().len() implies text::white(
            #[trigger] right.drop_last()[i],
        ) by {
            assert(right.drop_last()[i] == right[i]);
        }
        back_dropped(s, right.drop_last());
    }
}

proof fn back_kept(s: Seq<char>, right: Seq<char>)
    requires
        forall|i: int| 0 <= i < right.len() ==> text::white(#[trigger] right[i]),
    ensures
        text::trimmed(s + right) == text::trimmed(s),
    decreases s.len(),
{
    if s.len() == 0 {
        assert(s + right =~= right);
        front_dropped(right, Seq::empty());
        assert(right + Seq::<char>::empty() =~= right);
        assert(s =~= Seq::empty());
    } else if text::white(s[0]) {
        assert((s + right)[0] == s[0]);
        assert((s + right).drop_first() =~= s.drop_first() + right);
        back_kept(s.drop_first(), right);
    } else {
        assert((s + right)[0] == s[0]);
        back_dropped(s, right);
    }
}

/// With a share of nothing no segment falls to the longer tier and nothing newly
/// cached is charged to it.
pub proof fn zero_share_stays_short(index: nat, creation: int, scale: nat)
    requires
        creation >= 0,
    ensures
        !ratio::falls_to_share(index, (0, scale)),
        fingerprint::one_hour_part(creation, (0, scale)) == 0,
{
    zero_share(ratio::rounded(ratio::rounded(index) + 1), scale);
    zero_share(ratio::rounded(index), scale);
    zero_share(creation as nat, scale);
}

proof fn zero_share(n: nat, scale: nat)
    ensures
        ratio::share(n, (0, scale)) == 0,
{
    assert(n * 0 == 0) by (nonlinear_arith);
    small_is_exact(0);
    vstd::arithmetic::power2::lemma_pow2_pos(scale);
    vstd::arithmetic::div_mod::lemma_div_basics(vstd::arithmetic::power2::pow2(scale) as int);
}

proof fn small_is_exact(n: nat)
    requires
        n < 0x20_0000_0000_0000,
    ensures
        ratio::rounded(n) == n,
{
    vstd::arithmetic::power2::lemma2_to64();
    assert(ratio::excess_bits(n) == 0);
    assert(n % 1 == 0);
    assert(n / 1 == n);
}

/// With a share of everything each segment, up to 2^53 of them, falls to the
/// longer tier, and all that is newly cached is charged to it.
pub proof fn full_share_goes_long(index: nat, creation: int)
    requires
        index + 1 < 0x20_0000_0000_0000,
        0 <= creation <= i32::MAX,
    ensures
        ratio::falls_to_share(index, (1, 0)),
        fingerprint::one_hour_part(creation, (1, 0)) == creation,
{
    small_is_exact(index);
    small_is_exact(index + 1);
    full_share(index);
    full_share(index + 1);
    full_share(creation as nat);
}

proof fn full_share(n: nat)
    requires
        n < 0x20_0000_0000_0000,
    ensures
        ratio::share(n, (1, 0)) == n,
{
    vstd::arithmetic::power2::lemma2_to64();
    assert(n * 1 == n) by (nonlinear_arith);
    small_is_exact(n);
    assert(n / 1 == n);
}

/// Whether a breakpoint is alive: no more nanoseconds have gone by since its last
/// hit than its tier has seconds times a thousand million.
pub open spec fn alive_at(config: CacheSimulationConfig, b: Breakpoint, now: u128) -> bool {
    match b.tier {
        EphemeralTier::FiveM => now - b.last_hit_at <= config.fingerprint_ttl_5m * 1_000_000_000,
        EphemeralTier::OneH => now - b.last_hit_at <= config.fingerprint_ttl_1h * 1_000_000_000,
    }
}

proof fn alive_or_expired(config: CacheSimulationConfig, b: Breakpoint, now: u128)
    ensures
        fingerprint::expired(config, b, now) == !alive_at(config, b, now),
{
}

/// A request is split exactly: read is the smaller of what was matched and the
/// whole part of 85 percent, never below nothing; the rest is newly cached, of
/// which the longer tier gets its whole share and the shorter one what is left.
pub proof fn charge_is_exact(total: int, matched: int, share: (nat, nat))
    requires
        0 < total <= i32::MAX,
    ensures
        ({
            let u = fingerprint::usage_for(total, matched, share);
            let read = u.cache_read_input_tokens as int;
            let creation = u.cache_creation_input_tokens as int;
            let long = u.cache_creation_1h_input_tokens as int;
            &&& u.input_tokens == 0
            &&& read + creation == total
            &&& read >= 0
            &&& 20 * read <= 17 * total
            &&& matched <= 0 ==> read == 0
            &&& matched >= 0 ==> read <= matched
            &&& 0 <= matched && 20 * matched <= 17 * total ==> read == matched
            &&& 20 * matched > 17 * total ==> 20 * (read + 1) > 17 * total
            &&& u.cache_creation_5m_input_tokens == creation - long
            &&& ratio::share(creation as nat, share) <= creation ==> long == ratio::share(
                creation as nat,
                share,
            )
            &&& ratio::share(creation as nat, share) > creation ==> long == creation
        }),
{
}

/// A look-up takes place exactly where the tracker is enabled, the profile has a
/// segment and the request has tokens; else it gives nothing and changes nothing.
pub proof fn lookup_takes_place(
    state: TrackerState,
    account: Seq<char>,
    profile: Seq<ContentSegment>,
    total: int,
    now: u128,
)
    ensures
        ({
            let asked = state.config.fingerprint_enabled && profile.len() > 0 && total > 0;
            &&& fingerprint::lookup_result(state, account, profile, total, now) is Some == asked
            &&& !asked ==> fingerprint::state_after_lookup(state, account, profile, total, now)
                == state
        }),
{
}

/// Whether the first `n` breakpoints of a table are alive and have the digests of
/// the first `n` segments, and the run ends there: at the end of either, at a
/// breakpoint that is not alive, or at another digest.
pub open spec fn live_run(
    config: CacheSimulationConfig,
    table: Seq<Breakpoint>,
    profile: Seq<ContentSegment>,
    now: u128,
    n: int,
) -> bool {
    &&& 0 <= n <= table.len()
    &&& n <= profile.len()
    &&& forall|k: int|
        0 <= k < n ==> alive_at(config, #[trigger] table[k], now) && table[k].hash@
            == profile[k].hash@
    &&& n < table.len() && n < profile.len() ==> !alive_at(config, table[n], now)
        || table[n].hash@ != profile[n].hash@
}

/// A look-up reads the run of segments from the front whose digests the account
/// knows and whose breakpoints are alive. It renews these breakpoints and changes
/// nothing else.
pub proof fn lookup_reads_the_live_run(
    state: TrackerState,
    account: Seq<char>,
    profile: Seq<ContentSegment>,
    total: int,
    now: u128,
    n: int,
)
    requires
        state.config.fingerprint_enabled,
        profile.len() > 0,
        total > 0,
        state.tables.dom().contains(account),
        live_run(state.config, state.tables[account], profile, now, n),
    ensures
        ({
            let table = state.tables[account];
            let after = fingerprint::state_after_lookup(state, account, profile, total, now);
            let renewed = after.tables[account];
            let matched: int = if n == 0 {
                0
            } else {
                profile[n - 1].cumulative_tokens as int
            };
            &&& fingerprint::lookup_result(state, account, profile, total, now) == Some(
                fingerprint::usage_for(total, matched, state.config.ephemeral_1h_ratio@),
            )
            &&& after.tables.dom() == state.tables.dom()
            &&& after.config == state.config
            &&& after.stopped == state.stopped
            &&& forall|other: Seq<char>|
                other != account ==> #[trigger] after.tables[other] == state.tables[other]
            &&& renewed.len() == table.len()
            &&& forall|k: int|
                0 <= k < table.len() ==> {
                    &&& (#[trigger] renewed[k]).hash == table[k].hash
                    &&& renewed[k].cumulative_tokens == table[k].cumulative_tokens
                    &&& renewed[k].tier == table[k].tier
                    &&& renewed[k].last_hit_at == if k < n {
                        now
                    } else {
                        table[k].last_hit_at
                    }
                }
        }),
{
    let config = state.config;
    let table = state.tables[account];
    assert forall|j: int| 0 <= j < n implies #[trigger] fingerprint::hit_at(
        config,
        table,
        profile,
        now,
        j,
    ) by {
        alive_or_expired(config, table[j], now);
    }
    if n < table.len() {
        alive_or_expired(config, table[n], now);
    }
    run_is(config, table, profile, now, 0, n);
    let after = fingerprint::state_after_lookup(state, account, profile, total, now);
    assert(after.tables.dom() =~= state.tables.dom());
}

/// Whether a table and a profile have the same digests in their first `n` places
/// and part there.
pub open spec fn common_front(
    table: Seq<Breakpoint>,
    profile: Seq<ContentSegment>,
    n: int,
) -> bool {
    &&& 0 <= n <= table.len()
    &&& n <= profile.len()
    &&& forall|k: int| 0 <= k < n ==> (#[trigger] table[k]).hash@ == profile[k].hash@
    &&& n < table.len() && n < profile.len() ==> table[n].hash@ != profile[n].hash@
}

proof fn known_is(table: Seq<Breakpoint>, profile: Seq<ContentSegment>, k: int, n: int)
    requires
        common_front(table, profile, n),
        0 <= k <= n,
    ensures
        fingerprint::known_from(table, profile, k) == n,
    decreases n - k,
{
    if k < n {
        assert(table[k].hash@ == profile[k].hash@);
        known_is(table, profile, k + 1, n);
    }
}

/// An update makes the account's table that of the profile, up to the limit, which
/// is at least one. All of it is hit now. The front that was known keeps tokens and
/// tier; the rest takes the tokens of its segment, and the longer tier where its
/// place falls to the share. No other account changes.
pub proof fn update_takes_the_profile_over(
    state: TrackerState,
    account: Seq<char>,
    profile: Seq<ContentSegment>,
    now: u128,
    n: int,
)
    requires
        state.config.fingerprint_enabled,
        profile.len() > 0,
        state.tables.dom().contains(account) ==> common_front(state.tables[account], profile, n),
        !state.tables.dom().contains(account) ==> n == 0,
    ensures
        ({
            let limit = state.config.fingerprint_max_breakpoints_per_account as int;
            let after = fingerprint::state_after_update(state, account, profile, now);
            let table = after.tables[account];
            &&& after.tables.dom() == state.tables.dom().insert(account)
            &&& after.config == state.config
            &&& after.stopped == state.stopped
            &&& forall|other: Seq<char>|
                other != account ==> #[trigger] after.tables[other] == state.tables[other]
            &&& limit >= 1 && profile.len() > limit ==> table.len() == limit
            &&& limit >= 1 && profile.len() <= limit ==> table.len() == profile.len()
            &&& limit == 0 ==> table.len() == 1
            &&& forall|k: int|
                0 <= k < table.len() ==> {
                    &&& (#[trigger] table[k]).hash@ == profile[k].hash@
                    &&& table[k].last_hit_at == now
                    &&& k < n ==> table[k].cumulative_tokens
                        == state.tables[account][k].cumulative_tokens && table[k].tier
                        == state.tables[account][k].tier
                    &&& k >= n ==> table[k].cumulative_tokens == profile[k].cumulative_tokens && (
                    table[k].tier == EphemeralTier::OneH) == ratio::falls_to_share(
                        k as nat,
                        state.config.ephemeral_1h_ratio@,
                    )
                }
        }),
{
    let before = fingerprint::table_of(state, account);
    assert(common_front(before, profile, n));
    known_is(before, profile, 0, n);
    let after = fingerprint::state_after_update(state, account, profile, now);
    assert(after.tables.dom() =~= state.tables.dom().insert(account));
}

/// Nothing is learned from a profile without segments.
pub proof fn empty_profile_teaches_nothing(state: TrackerState, account: Seq<char>, now: u128)
    ensures
        fingerprint::state_after_update(state, account, Seq::empty(), now) == state,
{
}

/// An eviction keeps, for every account, exactly the breakpoints that are alive, in
/// their order.
pub proof fn eviction_keeps_the_living(state: TrackerState, account: Seq<char>, now: u128)
    requires
        state.config.fingerprint_enabled,
    ensures
        ({
            let after = fingerprint::state_after_evict(state, now);
            &&& after.config == state.config
            &&& after.stopped == state.stopped
            &&& after.tables.dom() == state.tables.dom()
            &&& state.tables.dom().contains(account) ==> after.tables[account]
                == state.tables[account].filter(
                |b: Breakpoint|
                    match b.tier {
                        EphemeralTier::FiveM => now - b.last_hit_at
                            <= state.config.fingerprint_ttl_5m * 1_000_000_000,
                        EphemeralTier::OneH => now - b.last_hit_at
                            <= state.config.fingerprint_ttl_1h * 1_000_000_000,
                    },
            )
        }),
{
    let config = state.config;
    let after = fingerprint::state_after_evict(state, now);
    assert(after.tables.dom() =~= state.tables.dom());
    let kept = |b: Breakpoint|
        match b.tier {
            EphemeralTier::FiveM => now - b.last_hit_at <= config.fingerprint_ttl_5m
                * 1_000_000_000,
            EphemeralTier::OneH => now - b.last_hit_at <= config.fingerprint_ttl_1h
                * 1_000_000_000,
        };
    let living = |b: Breakpoint| !fingerprint::expired(config, b, now);
    assert forall|b: Breakpoint| #[trigger] kept(b) == living(b) by {
        alive_or_expired(config, b, now);
    }
    if state.tables.dom().contains(account) {
        same_filter(state.tables[account], kept, living);
    }
}

proof fn same_filter(
    table: Seq<Breakpoint>,
    p: spec_fn(Breakpoint) -> bool,
    q: spec_fn(Breakpoint) -> bool,
)
    requires
        forall|b: Breakpoint| #[trigger] p(b) == q(b),
    ensures
        table.filter(p) == table.filter(q),
    decreases table.len(),
{
    reveal(Seq::filter);
    if table.len() > 0 {
        same_filter(table.drop_last(), p, q);
    }
}

/// With a share of everything the longer lifetime alone decides: until it is over
/// the same request reads all that was kept of it, and an eviction leaves that
/// alone; once it is over the request reads nothing, and an eviction leaves
/// nothing. The shorter lifetime plays no part.
pub proof fn long_lifetime_decides(
    state: TrackerState,
    account: Seq<char>,
    profile: Seq<ContentSegment>,
    then: u128,
    now: u128,
    total: int,
)
    requires
        state.config.fingerprint_enabled,
        state.config.ephemeral_1h_ratio@ == (1nat, 0nat),
        fingerprint::table_of(state, account).len() == 0,
        0 < profile.len() < 0x20_0000_0000_0000,
        0 < total <= i32::MAX,
    ensures
        one_lifetime_decides(
            state,
            account,
            profile,
            then,
            now,
            total,
            state.config.fingerprint_ttl_1h,
        ),
{
    let config = state.config;
    let before = fingerprint::table_of(state, account);
    assert(common_front(before, profile, 0));
    known_is(before, profile, 0, 0);
    table_follows_profile(config, before, profile, then);
    let table = fingerprint::learned(config, before, profile, then);
    assert forall|k: int| 0 <= k < table.len() implies (#[trigger] table[k]).tier
        == EphemeralTier::OneH by {
        full_share_goes_long(k as nat, 0);
    }
    tier_decides(state, account, profile, then, now, total, EphemeralTier::OneH);
}

/// With a share of nothing the shorter lifetime alone decides, in the same way.
pub proof fn short_lifetime_decides(
    state: TrackerState,
    account: Seq<char>,
    profile: Seq<ContentSegment>,
    then: u128,
    now: u128,
    total: int,
)
    requires
        state.config.fingerprint_enabled,
        state.config.ephemeral_1h_ratio@.0 == 0,
        fingerprint::table_of(state, account).len() == 0,
        0 < profile.len(),
        0 < total <= i32::MAX,
    ensures
        one_lifetime_decides(
            state,
            account,
            profile,
            then,
            now,
            total,
            state.config.fingerprint_ttl_5m,
        ),
{
    let config = state.config;
    let before = fingerprint::table_of(state, account);
    assert(common_front(before, profile, 0));
    known_is(before, profile, 0, 0);
    table_follows_profile(config, before, profile, then);
    let table = fingerprint::learned(config, before, profile, then);
    assert forall|k: int| 0 <= k < table.len() implies (#[trigger] table[k]).tier
        == EphemeralTier::FiveM by {
        zero_share_stays_short(k as nat, 0, config.ephemeral_1h_ratio@.1);
        assert(config.ephemeral_1h_ratio@ == (0nat, config.ephemeral_1h_ratio@.1));
    }
    tier_decides(state, account, profile, then, now, total, EphemeralTier::FiveM);
}

/// Whether, after an update at `then`, the given lifetime in seconds decides what
/// the same request reads at `now` and what an eviction leaves: up to 85 percent of
/// the request, all tokens of what was kept while no more nanoseconds have gone by,
/// and nothing after that.
pub open spec fn one_lifetime_decides(
    state: TrackerState,
    account: Seq<char>,
    profile: Seq<ContentSegment>,
    then: u128,
    now: u128,
    total: int,
    seconds: u64,
) -> bool {
    let after = fingerprint::state_after_update(state, account, profile, then);
    let evicted = fingerprint::state_after_evict(after, now);
    let kept = after.tables[account].len() as int;
    let result = fingerprint::lookup_result(after, account, profile, total, now);
    let later = fingerprint::lookup_result(evicted, account, profile, total, now);
    if now - then <= seconds * 1_000_000_000 {
        let matched = profile[kept - 1].cumulative_tokens;
        &&& evicted.tables[account] == after.tables[account]
        &&& later == result
        &&& result matches Some(u) && (0 <= matched && 20 * matched <= 17 * total
            ==> u.cache_read_input_tokens == matched) && (20 * matched > 17 * total ==> 17 * total
            - 20 < 20 * u.cache_read_input_tokens <= 17 * total)
    } else {
        &&& evicted.tables[account].len() == 0
        &&& later == result
        &&& result matches Some(u) && u.cache_read_input_tokens == 0
            && u.cache_creation_input_tokens == total
    }
}

proof fn tier_decides(
    state: TrackerState,
    account: Seq<char>,
    profile: Seq<ContentSegment>,
    then: u128,
    now: u128,
    total: int,
    tier: EphemeralTier,
)
    requires
        state.config.fingerprint_enabled,
        0 < profile.len(),
        0 < total <= i32::MAX,
        ({
            let table = fingerprint::learned(
                state.config,
                fingerprint::table_of(state, account),
                profile,
                then,
            );
            forall|k: int| 0 <= k < table.len() ==> (#[trigger] table[k]).tier == tier
        }),
    ensures
        one_lifetime_decides(
            state,
            account,
            profile,
            then,
            now,
            total,
            match tier {
                EphemeralTier::FiveM => state.config.fingerprint_ttl_5m,
                EphemeralTier::OneH => state.config.fingerprint_ttl_1h,
            },
        ),
{
    let config = state.config;
    let seconds = match tier {
        EphemeralTier::FiveM => config.fingerprint_ttl_5m,
        EphemeralTier::OneH => config.fingerprint_ttl_1h,
    };
    let before = fingerprint::table_of(state, account);
    let after = fingerprint::state_after_update(state, account, profile, then);
    let evicted = fingerprint::state_after_evict(after, now);
    let table = after.tables[account];
    table_follows_profile(config, before, profile, then);
    assert(table == fingerprint::learned(config, before, profile, then));
    let n = table.len() as int;
    if now - then <= seconds * 1_000_000_000 {
        assert forall|k: int| 0 <= k < n implies alive_at(config, #[trigger] table[k], now)
            && table[k].hash@ == profile[k].hash@ && !fingerprint::expired(
            config,
            table[k],
            now,
        ) by {
            alive_or_expired(config, table[k], now);
        }
        lookup_reads_the_live_run(after, account, profile, total, now, n);
        front_survives(config, table, n, now);
        nothing_gained(config, table, now);
        let kept = fingerprint::alive(config, table, now);
        assert(kept.take(n) =~= kept);
        assert(table.take(n) =~= table);
        charge_is_exact(
            total,
            profile[n - 1].cumulative_tokens as int,
            config.ephemeral_1h_ratio@,
        );
    } else {
        assert forall|k: int| 0 <= k < n implies fingerprint::expired(
            config,
            #[trigger] table[k],
            now,
        ) by {
            alive_or_expired(config, table[k], now);
        }
        alive_or_expired(config, table[0], now);
        lookup_reads_the_live_run(after, account, profile, total, now, 0);
        nothing_alive(config, table, now);
        lookup_reads_the_live_run(evicted, account, profile, total, now, 0);
        charge_is_exact(total, 0, config.ephemeral_1h_ratio@);
    }
}

} // verus!
