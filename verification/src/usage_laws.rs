//! What holds of usage records across operations.

use crate::calendar;
use crate::pricing;
use crate::selection;
use crate::selection::UsageRecord;
use crate::usage;
use crate::usage::{Owner, UsageRecordItem, UsageRecordsPage};
use vstd::prelude::*;

verus! {

/// Whether the record at `i` is shown before the one at `j`: it is later, or of
/// the same time and earlier in the list.
pub open spec fn shown_before(all: Seq<UsageRecord>, i: int, j: int) -> bool {
    let a = all[i].created_at;
    let b = all[j].created_at;
    ||| a.secs > b.secs
    ||| a.secs == b.secs && a.nanos > b.nanos
    ||| a.secs == b.secs && a.nanos == b.nanos && i < j
}

/// Whether `order` is ordered by time, the latest first.
pub open spec fn in_order(all: Seq<UsageRecord>, order: Seq<int>) -> bool {
    forall|a: int, b: int|
        0 <= a < b < order.len() ==> shown_before(all, #[trigger] order[a], #[trigger] order[b])
}

proof fn placed_in_order(all: Seq<UsageRecord>, order: Seq<int>, i: int)
    requires
        in_order(all, order),
        forall|k: int| 0 <= k < order.len() ==> i < #[trigger] order[k],
    ensures
        in_order(all, selection::placed(all, order, i)),
        selection::placed(all, order, i).len() == order.len() + 1,
        forall|j: int| #[trigger]
            selection::placed(all, order, i).contains(j) <==> (j == i || order.contains(j)),
    decreases order.len(),
{
    let r = selection::placed(all, order, i);
    if order.len() > 0 && !selection::later(all[order.last()].created_at, all[i].created_at) {
        let front = order.drop_last();
        let last = order.last();
        assert forall|a: int, b: int| 0 <= a < b < front.len() implies shown_before(
            all,
            #[trigger] front[a],
            #[trigger] front[b],
        ) by {
            assert(shown_before(all, order[a], order[b]));
        }
        assert forall|k: int| 0 <= k < front.len() implies i < #[trigger] front[k] by {
            assert(i < order[k]);
        }
        placed_in_order(all, front, i);
        let inner = selection::placed(all, front, i);
        assert(i < order[order.len() - 1]);
        assert forall|a: int| 0 <= a < inner.len() implies shown_before(
            all,
            #[trigger] inner[a],
            last,
        ) by {
            assert(inner.contains(inner[a]));
            if inner[a] != i {
                let k = choose|k: int| 0 <= k < front.len() && front[k] == inner[a];
                assert(shown_before(all, order[k], order[order.len() - 1]));
            }
        }
        assert(in_order(all, r)) by {
            assert forall|a: int, b: int| 0 <= a < b < r.len() implies shown_before(
                all,
                #[trigger] r[a],
                #[trigger] r[b],
            ) by {
                if b < inner.len() {
                    assert(shown_before(all, inner[a], inner[b]));
                } else {
                    assert(shown_before(all, inner[a], last));
                }
            }
        }
        assert forall|j: int| #[trigger] r.contains(j) <==> (j == i || order.contains(j)) by {
            if r.contains(j) {
                let k = choose|k: int| 0 <= k < r.len() && r[k] == j;
                if k < inner.len() {
                    assert(inner.contains(j));
                    if j != i {
                        let m = choose|m: int| 0 <= m < front.len() && front[m] == j;
                        assert(order[m] == j);
                    }
                } else {
                    assert(order[order.len() - 1] == j);
                }
            }
            if order.contains(j) {
                let k = choose|k: int| 0 <= k < order.len() && order[k] == j;
                if k < front.len() {
                    assert(front[k] == j);
                    assert(front.contains(j));
                    assert(inner.contains(j));
                    let m = choose|m: int| 0 <= m < inner.len() && inner[m] == j;
                    assert(r[m] == j);
                } else {
                    assert(r[inner.len() as int] == j);
                }
            }
            if j == i {
                assert(inner.contains(j));
                let m = choose|m: int| 0 <= m < inner.len() && inner[m] == j;
                assert(r[m] == j);
            }
        }
    } else {
        assert forall|a: int| 0 <= a < order.len() implies shown_before(
            all,
            #[trigger] order[a],
            i,
        ) by {
            if a < order.len() - 1 {
                assert(shown_before(all, order[a], order[order.len() - 1]));
            }
        }
        assert forall|j: int| #[trigger] r.contains(j) <==> (j == i || order.contains(j)) by {
            assert(r[order.len() as int] == i);
            if order.contains(j) {
                let k = choose|k: int| 0 <= k < order.len() && order[k] == j;
                assert(r[k] == j);
            }
        }
    }
}

proof fn newest_from_in_order(all: Seq<UsageRecord>, marks: Seq<bool>, i: int)
    requires
        marks.len() == all.len(),
        0 <= i <= all.len(),
    ensures
        in_order(all, selection::newest_from(all, marks, i)),
        forall|j: int| #[trigger]
            selection::newest_from(all, marks, i).contains(j) <==> (i <= j < all.len() && marks[j]),
        selection::newest_from(all, marks, i).len() == selection::marked(marks.skip(i)),
    decreases all.len() - i,
{
    if i < all.len() {
        newest_from_in_order(all, marks, i + 1);
        let rest = selection::newest_from(all, marks, i + 1);
        assert(marks.skip(i) =~= seq![marks[i]] + marks.skip(i + 1));
        marked_concat(seq![marks[i]], marks.skip(i + 1));
        reveal_with_fuel(selection::marked, 2);
        assert(seq![marks[i]].drop_last() =~= Seq::empty());
        if marks[i] {
            assert forall|k: int| 0 <= k < rest.len() implies i < #[trigger] rest[k] by {
                assert(rest.contains(rest[k]));
            }
            placed_in_order(all, rest, i);
        }
    } else {
        assert(marks.skip(i) =~= Seq::empty());
    }
}

proof fn marked_concat(a: Seq<bool>, b: Seq<bool>)
    ensures
        selection::marked(a + b) == selection::marked(a) + selection::marked(b),
    decreases b.len(),
{
    if b.len() == 0 {
        assert(a + b =~= a);
    } else {
        marked_concat(a, b.drop_last());
        assert((a + b).drop_last() =~= a + b.drop_last());
    }
}

/// Records are shown by time, the latest first and those of one time as they
/// stand in the list, each marked record once and no other.
pub proof fn newest_come_first(all: Seq<UsageRecord>, marks: Seq<bool>)
    requires
        marks.len() == all.len(),
    ensures
        ({
            let order = selection::newest_first(all, marks);
            &&& order.len() == selection::marked(marks)
            &&& in_order(all, order)
            &&& order.no_duplicates()
            &&& forall|j: int| #[trigger]
                order.contains(j) <==> (0 <= j < all.len() && marks[j])
        }),
{
    newest_from_in_order(all, marks, 0);
    assert(marks.skip(0) =~= marks);
    let order = selection::newest_first(all, marks);
    assert forall|a: int, b: int| 0 <= a < order.len() && 0 <= b < order.len() && a != b implies
        order[a] != order[b] by {
        if a < b {
            assert(shown_before(all, order[a], order[b]));
        } else {
            assert(shown_before(all, order[b], order[a]));
        }
    }
}

/// The page that is shown is one of the pages there are.
pub proof fn shown_page_exists(page: int, total: int, page_size: int)
    requires
        page_size > 0,
        total > 0,
    ensures
        1 <= usage::shown_page(page, total, page_size) <= usage::page_count(total, page_size),
{
    vstd::arithmetic::div_mod::lemma_div_plus_one(total - 1, page_size);
    vstd::arithmetic::div_mod::lemma_div_pos_is_pos(total - 1, page_size);
}

/// Every record of an order stands on a page, at a place that follows from its
/// place in the order: the pages one after the other give the whole order.
pub proof fn pages_cover_the_order(
    r: UsageRecordsPage,
    all: Seq<UsageRecord>,
    order: Seq<int>,
    page_size: int,
    labels: Map<u64, String>,
    place: int,
)
    requires
        page_size > 0,
        0 <= place < order.len(),
        usage::is_page(r, all, order, place / page_size + 1, page_size, labels),
    ensures
        r.page == place / page_size + 1,
        place % page_size < r.records@.len() <= page_size,
        usage::shows(r.records@[place % page_size], all[order[place]], labels),
{
    let total = order.len() as int;
    vstd::arithmetic::div_mod::lemma_fundamental_div_mod(place, page_size);
    vstd::arithmetic::div_mod::lemma_mod_bound(place, page_size);
    vstd::arithmetic::div_mod::lemma_div_plus_one(total - 1, page_size);
    vstd::arithmetic::div_mod::lemma_div_is_ordered(place, total - 1, page_size);
    vstd::arithmetic::div_mod::lemma_div_pos_is_pos(place, page_size);
    let q = place / page_size;
    assert(q * page_size == page_size * q) by (nonlinear_arith);
}

/// No two places on pages are one place of the order: nothing is shown twice.
pub proof fn pages_do_not_overlap(page_size: int, page: int, k: int, other_page: int, other_k: int)
    requires
        0 <= k < page_size,
        0 <= other_k < page_size,
        (page - 1) * page_size + k == (other_page - 1) * page_size + other_k,
    ensures
        page == other_page,
        k == other_k,
{
    let place = (page - 1) * page_size + k;
    vstd::arithmetic::div_mod::lemma_fundamental_div_mod_converse(place, page_size, page - 1, k);
    vstd::arithmetic::div_mod::lemma_fundamental_div_mod_converse(
        place,
        page_size,
        other_page - 1,
        other_k,
    );
}

/// The records of `owner`, in order.
pub open spec fn records_of(all: Seq<UsageRecord>, owner: Owner) -> Seq<UsageRecord> {
    all.filter(|r: UsageRecord| usage::owned(r, owner))
}

/// The records that are not of `owner`, in order.
pub open spec fn records_of_others(all: Seq<UsageRecord>, owner: Owner) -> Seq<UsageRecord> {
    all.filter(|r: UsageRecord| !usage::owned(r, owner))
}

proof fn count_is_length(all: Seq<UsageRecord>, owner: Owner)
    ensures
        usage::owned_count(all, owner) == records_of(all, owner).len(),
    decreases all.len(),
{
    reveal(Seq::filter);
    if all.len() > 0 {
        count_is_length(all.drop_last(), owner);
    }
}

proof fn filter_of_front(all: Seq<UsageRecord>, keep: spec_fn(UsageRecord) -> bool)
    requires
        all.len() > 0,
    ensures
        all.filter(keep) == (if keep(all[0]) {
            seq![all[0]]
        } else {
            Seq::empty()
        }) + all.drop_first().filter(keep),
{
    let head = seq![all[0]];
    assert(all =~= head + all.drop_first());
    Seq::filter_distributes_over_add(head, all.drop_first(), keep);
    reveal(Seq::filter);
    assert(head.drop_last() =~= Seq::empty());
    assert(head.drop_last().filter(keep) =~= Seq::empty());
    assert(head.filter(keep) =~= if keep(all[0]) {
        seq![all[0]]
    } else {
        Seq::empty()
    });
}

proof fn oldest_go(all: Seq<UsageRecord>, owner: Owner, n: nat)
    requires
        n <= usage::owned_count(all, owner),
    ensures
        records_of(usage::without_oldest(all, owner, n), owner) == records_of(all, owner).skip(
            n as int,
        ),
    decreases all.len(),
{
    let keep = |r: UsageRecord| usage::owned(r, owner);
    count_is_length(all, owner);
    if n == 0 || all.len() == 0 {
        assert(records_of(all, owner).skip(0) =~= records_of(all, owner));
    } else {
        let rest = all.drop_first();
        filter_of_front(all, keep);
        count_is_length(rest, owner);
        if usage::owned(all[0], owner) {
            oldest_go(rest, owner, (n - 1) as nat);
            assert(records_of(all, owner).skip(n as int) =~= records_of(rest, owner).skip(n - 1));
        } else {
            oldest_go(rest, owner, n);
            let tail = usage::without_oldest(rest, owner, n);
            let whole = seq![all[0]] + tail;
            filter_of_front(whole, keep);
            assert(whole.drop_first() =~= tail);
            assert(records_of(all, owner) =~= records_of(rest, owner));
        }
    }
}

proof fn oldest_leave_the_rest(
    all: Seq<UsageRecord>,
    owner: Owner,
    n: nat,
    keep: spec_fn(UsageRecord) -> bool,
)
    requires
        forall|r: UsageRecord| #[trigger] keep(r) ==> !usage::owned(r, owner),
    ensures
        usage::without_oldest(all, owner, n).filter(keep) == all.filter(keep),
    decreases all.len(),
{
    if n > 0 && all.len() > 0 {
        let rest = all.drop_first();
        filter_of_front(all, keep);
        if usage::owned(all[0], owner) {
            oldest_leave_the_rest(rest, owner, (n - 1) as nat, keep);
            assert(all.filter(keep) =~= rest.filter(keep));
        } else {
            oldest_leave_the_rest(rest, owner, n, keep);
            let tail = usage::without_oldest(rest, owner, n);
            let whole = seq![all[0]] + tail;
            filter_of_front(whole, keep);
            assert(whole.drop_first() =~= tail);
        }
    }
}

proof fn counts_do_not_grow(all: Seq<UsageRecord>, owner: Owner, n: nat, other: Owner)
    ensures
        usage::owned_count(usage::without_oldest(all, owner, n), other) <= usage::owned_count(
            all,
            other,
        ),
    decreases all.len(),
{
    let keep = |r: UsageRecord| usage::owned(r, other);
    let kept = usage::without_oldest(all, owner, n);
    count_is_length(all, other);
    count_is_length(kept, other);
    if n > 0 && all.len() > 0 {
        let rest = all.drop_first();
        filter_of_front(all, keep);
        count_is_length(rest, other);
        if usage::owned(all[0], owner) {
            counts_do_not_grow(rest, owner, (n - 1) as nat, other);
        } else {
            counts_do_not_grow(rest, owner, n, other);
            let tail = usage::without_oldest(rest, owner, n);
            filter_of_front(kept, keep);
            assert(kept.drop_first() =~= tail);
            count_is_length(tail, other);
        }
    }
}

proof fn last_stays(all: Seq<UsageRecord>, owner: Owner, n: nat)
    requires
        all.len() > 0,
        usage::owned(all.last(), owner),
        n < usage::owned_count(all, owner),
    ensures
        usage::without_oldest(all, owner, n).len() > 0,
        usage::without_oldest(all, owner, n).last() == all.last(),
    decreases all.len(),
{
    if n > 0 {
        let rest = all.drop_first();
        count_is_length(all, owner);
        count_is_length(rest, owner);
        filter_of_front(all, |r: UsageRecord| usage::owned(r, owner));
        if rest.len() == 0 {
            assert(records_of(rest, owner).len() == 0) by {
                reveal(Seq::filter);
            }
        } else if usage::owned(all[0], owner) {
            last_stays(rest, owner, (n - 1) as nat);
        } else {
            last_stays(rest, owner, n);
        }
    }
}

/// An owner keeps its newest records, as many as the limit allows, in their order.
pub proof fn newest_are_retained(all: Seq<UsageRecord>, owner: Owner)
    ensures
        ({
            let kept = records_of(usage::retained(all, owner), owner);
            let had = records_of(all, owner);
            if had.len() > usage::MAX_RECORDS_PER_KEY {
                kept == had.skip(had.len() - usage::MAX_RECORDS_PER_KEY)
            } else {
                kept == had
            }
        }),
        records_of(usage::retained(all, owner), owner).len() <= usage::MAX_RECORDS_PER_KEY,
        usage::owned_count(usage::retained(all, owner), owner) <= usage::MAX_RECORDS_PER_KEY,
{
    count_is_length(all, owner);
    count_is_length(usage::retained(all, owner), owner);
    let count = usage::owned_count(all, owner);
    if count > usage::MAX_RECORDS_PER_KEY {
        oldest_go(all, owner, (count - usage::MAX_RECORDS_PER_KEY) as nat);
    }
}

/// What one owner gives up is its own: all other records stay, in their order.
pub proof fn retaining_spares_others(all: Seq<UsageRecord>, owner: Owner)
    ensures
        records_of_others(usage::retained(all, owner), owner) == records_of_others(all, owner),
{
    let count = usage::owned_count(all, owner);
    if count > usage::MAX_RECORDS_PER_KEY {
        oldest_leave_the_rest(
            all,
            owner,
            (count - usage::MAX_RECORDS_PER_KEY) as nat,
            |r: UsageRecord| !usage::owned(r, owner),
        );
    }
}

proof fn retained_counts(all: Seq<UsageRecord>, owner: Owner, other: Owner)
    ensures
        usage::owned_count(usage::retained(all, owner), other) <= usage::owned_count(all, other),
{
    let count = usage::owned_count(all, owner);
    if count > usage::MAX_RECORDS_PER_KEY {
        counts_do_not_grow(all, owner, (count - usage::MAX_RECORDS_PER_KEY) as nat, other);
    }
}

proof fn retained_last(all: Seq<UsageRecord>, owner: Owner)
    requires
        all.len() > 0,
        usage::owned(all.last(), owner),
    ensures
        usage::retained(all, owner).len() > 0,
        usage::retained(all, owner).last() == all.last(),
{
    let count = usage::owned_count(all, owner);
    if count > usage::MAX_RECORDS_PER_KEY {
        last_stays(all, owner, (count - usage::MAX_RECORDS_PER_KEY) as nat);
    }
}

/// A record that is added is kept, as the last one.
pub proof fn new_record_is_kept(all: Seq<UsageRecord>, r: UsageRecord)
    ensures
        usage::recorded(all, r).len() > 0,
        usage::recorded(all, r).last() == r,
{
    retained_last(all.push(r), Owner::Key(r.api_key_id));
    if let Some(id) = r.credential_id {
        retained_last(
            usage::retained(all.push(r), Owner::Key(r.api_key_id)),
            Owner::Credential(id),
        );
    }
}

/// After a record was added its API key and its account are within the limit,
/// however many records they had.
pub proof fn recording_restores_the_limit(all: Seq<UsageRecord>, r: UsageRecord)
    ensures
        usage::owned_count(usage::recorded(all, r), Owner::Key(r.api_key_id))
            <= usage::MAX_RECORDS_PER_KEY,
        r.credential_id matches Some(id) ==> usage::owned_count(
            usage::recorded(all, r),
            Owner::Credential(id),
        ) <= usage::MAX_RECORDS_PER_KEY,
{
    let key = Owner::Key(r.api_key_id);
    newest_are_retained(all.push(r), key);
    if let Some(id) = r.credential_id {
        let by_key = usage::retained(all.push(r), key);
        newest_are_retained(by_key, Owner::Credential(id));
        retained_counts(by_key, Owner::Credential(id), key);
    }
}

/// Whether every API key and every account is within the limit.
pub open spec fn within_limits(all: Seq<UsageRecord>) -> bool {
    forall|owner: Owner| #[trigger]
        usage::owned_count(all, owner) <= usage::MAX_RECORDS_PER_KEY
}

/// Adding a record keeps every API key and every account within the limit.
pub proof fn recording_keeps_limits(all: Seq<UsageRecord>, r: UsageRecord)
    requires
        within_limits(all),
    ensures
        within_limits(usage::recorded(all, r)),
{
    recording_restores_the_limit(all, r);
    let key = Owner::Key(r.api_key_id);
    let pushed = all.push(r);
    let by_key = usage::retained(pushed, key);
    assert forall|owner: Owner| #[trigger]
        usage::owned_count(usage::recorded(all, r), owner) <= usage::MAX_RECORDS_PER_KEY by {
        retained_counts(pushed, key, owner);
        assert(pushed.drop_last() =~= all);
        assert(usage::owned_count(all, owner) <= usage::MAX_RECORDS_PER_KEY);
        if let Some(id) = r.credential_id {
            retained_counts(by_key, Owner::Credential(id), owner);
        }
    }
}

/// Adding a record leaves alone the records that are neither of its API key nor
/// of its account.
pub proof fn recording_spares_strangers(all: Seq<UsageRecord>, r: UsageRecord)
    ensures
        ({
            let stranger = |s: UsageRecord|
                s.api_key_id != r.api_key_id && (r.credential_id is None || s.credential_id
                    != r.credential_id);
            usage::recorded(all, r).filter(stranger) == all.filter(stranger)
        }),
{
    let stranger = |s: UsageRecord|
        s.api_key_id != r.api_key_id && (r.credential_id is None || s.credential_id
            != r.credential_id);
    let key = Owner::Key(r.api_key_id);
    let pushed = all.push(r);
    assert(pushed.filter(stranger) =~= all.filter(stranger)) by {
        reveal(Seq::filter);
        assert(pushed.drop_last() =~= all);
    }
    let count = usage::owned_count(pushed, key);
    if count > usage::MAX_RECORDS_PER_KEY {
        oldest_leave_the_rest(
            pushed,
            key,
            (count - usage::MAX_RECORDS_PER_KEY) as nat,
            stranger,
        );
    }
    let by_key = usage::retained(pushed, key);
    if let Some(id) = r.credential_id {
        let account = Owner::Credential(id);
        let more = usage::owned_count(by_key, account);
        if more > usage::MAX_RECORDS_PER_KEY {
            oldest_leave_the_rest(
                by_key,
                account,
                (more - usage::MAX_RECORDS_PER_KEY) as nat,
                stranger,
            );
        }
    }
}

/// A reset keeps every API key and every account within the limit.
pub proof fn reset_keeps_limits(all: Seq<UsageRecord>, api_key_id: u32)
    requires
        within_limits(all),
    ensures
        within_limits(usage::without_key(all, api_key_id)),
{
    let left = usage::without_key(all, api_key_id);
    assert forall|owner: Owner| #[trigger]
        usage::owned_count(left, owner) <= usage::MAX_RECORDS_PER_KEY by {
        reset_counts(all, api_key_id, owner);
        assert(usage::owned_count(all, owner) <= usage::MAX_RECORDS_PER_KEY);
    }
}

proof fn reset_counts(all: Seq<UsageRecord>, api_key_id: u32, owner: Owner)
    ensures
        usage::owned_count(usage::without_key(all, api_key_id), owner) <= usage::owned_count(
            all,
            owner,
        ),
    decreases all.len(),
{
    reveal(Seq::filter);
    if all.len() > 0 {
        let front = all.drop_last();
        reset_counts(front, api_key_id, owner);
        let left = usage::without_key(front, api_key_id);
        assert(left.push(all.last()).drop_last() =~= left);
    }
}

/// A record is told by its ids: it is of the API key whose number it holds, and of
/// the account whose number it holds, if it holds one.
pub proof fn owners_are_told_by_ids(r: UsageRecord, key: u32, account: u64)
    ensures
        usage::owned(r, Owner::Key(key)) <==> r.api_key_id == key,
        usage::owned(r, Owner::Credential(account)) <==> (r.credential_id matches Some(id) && id
            == account),
{
}

/// The newest 10000 of some records, or all where there are fewer.
pub open spec fn newest_10000(records: Seq<UsageRecord>) -> Seq<UsageRecord> {
    if records.len() > 10000 {
        records.skip(records.len() - 10000)
    } else {
        records
    }
}

/// A record without an account leaves its API key with its newest 10000 records,
/// that one among them, and all other records as they were, in their order.
pub proof fn key_keeps_its_newest(all: Seq<UsageRecord>, r: UsageRecord)
    requires
        r.credential_id is None,
    ensures
        usage::recorded(all, r).filter(|s: UsageRecord| s.api_key_id == r.api_key_id)
            == newest_10000(
            all.push(r).filter(|s: UsageRecord| s.api_key_id == r.api_key_id),
        ),
        usage::recorded(all, r).filter(|s: UsageRecord| s.api_key_id != r.api_key_id)
            == all.push(r).filter(|s: UsageRecord| s.api_key_id != r.api_key_id),
{
    let key = Owner::Key(r.api_key_id);
    newest_are_retained(all.push(r), key);
    retaining_spares_others(all.push(r), key);
    key_filters(usage::recorded(all, r), r.api_key_id);
    key_filters(all.push(r), r.api_key_id);
}

/// A record whose API key is within 10000 leaves its account with its newest 10000
/// records, and all records that are not of the account as they were, in their
/// order.
pub proof fn account_keeps_its_newest(all: Seq<UsageRecord>, r: UsageRecord)
    requires
        r.credential_id is Some,
        all.push(r).filter(|s: UsageRecord| s.api_key_id == r.api_key_id).len() <= 10000,
    ensures
        usage::recorded(all, r).filter(|s: UsageRecord| s.credential_id == r.credential_id)
            == newest_10000(
            all.push(r).filter(|s: UsageRecord| s.credential_id == r.credential_id),
        ),
        usage::recorded(all, r).filter(|s: UsageRecord| s.credential_id != r.credential_id)
            == all.push(r).filter(|s: UsageRecord| s.credential_id != r.credential_id),
{
    let pushed = all.push(r);
    let key = Owner::Key(r.api_key_id);
    let id = r.credential_id->0;
    let account = Owner::Credential(id);
    key_filters(pushed, r.api_key_id);
    count_is_length(pushed, key);
    assert(usage::retained(pushed, key) == pushed);
    newest_are_retained(pushed, account);
    retaining_spares_others(pushed, account);
    account_filters(usage::recorded(all, r), id);
    account_filters(pushed, id);
}

/// Where API key and account are below 10000 a record is added and nothing else
/// happens.
pub proof fn below_the_limit_nothing_goes(all: Seq<UsageRecord>, r: UsageRecord)
    requires
        all.filter(|s: UsageRecord| s.api_key_id == r.api_key_id).len() < 10000,
        r.credential_id is Some ==> all.filter(
            |s: UsageRecord| s.credential_id == r.credential_id,
        ).len() < 10000,
    ensures
        usage::recorded(all, r) == all.push(r),
{
    let pushed = all.push(r);
    let key = Owner::Key(r.api_key_id);
    assert(pushed.drop_last() =~= all);
    key_filters(all, r.api_key_id);
    count_is_length(all, key);
    if let Some(id) = r.credential_id {
        account_filters(all, id);
        count_is_length(all, Owner::Credential(id));
    }
}

proof fn key_filters(all: Seq<UsageRecord>, key: u32)
    ensures
        records_of(all, Owner::Key(key)) == all.filter(|s: UsageRecord| s.api_key_id == key),
        records_of_others(all, Owner::Key(key)) == all.filter(
            |s: UsageRecord| s.api_key_id != key,
        ),
    decreases all.len(),
{
    reveal(Seq::filter);
    if all.len() > 0 {
        key_filters(all.drop_last(), key);
    }
}

proof fn account_filters(all: Seq<UsageRecord>, id: u64)
    ensures
        records_of(all, Owner::Credential(id)) == all.filter(
            |s: UsageRecord| s.credential_id == Some(id),
        ),
        records_of_others(all, Owner::Credential(id)) == all.filter(
            |s: UsageRecord| s.credential_id != Some(id),
        ),
    decreases all.len(),
{
    reveal(Seq::filter);
    if all.len() > 0 {
        account_filters(all.drop_last(), id);
    }
}

/// A reset leaves exactly the records of all other API keys, in their order.
pub proof fn reset_leaves_the_others(all: Seq<UsageRecord>, api_key_id: u32)
    ensures
        usage::without_key(all, api_key_id) == all.filter(
            |r: UsageRecord| !(r.api_key_id == api_key_id),
        ),
    decreases all.len(),
{
    reveal(Seq::filter);
    if all.len() > 0 {
        reset_leaves_the_others(all.drop_last(), api_key_id);
    }
}

/// A record is shown with all that it holds, and with the name that its account
/// has, if it has an account and that has a name.
pub proof fn items_hold_their_records(
    item: UsageRecordItem,
    r: UsageRecord,
    labels: Map<u64, String>,
)
    requires
        usage::shows(item, r, labels),
    ensures
        item.model@ == r.model@,
        item.input_tokens == r.input_tokens,
        item.output_tokens == r.output_tokens,
        item.estimated_cost.bits == r.estimated_cost.bits,
        item.credits_used == r.credits_used,
        item.k_ref == pricing::k_ref_of(pricing::lowercase(r.model@)),
        item.cache_read_input_tokens == r.cache_read_input_tokens,
        item.cache_creation_input_tokens == r.cache_creation_input_tokens,
        item.created_at.secs == r.created_at.secs,
        item.created_at.nanos == r.created_at.nanos,
        item.credential_id == r.credential_id,
        match r.client_ip {
            Some(ip) => item.client_ip matches Some(shown) && shown@ == ip@,
            None => item.client_ip is None,
        },
        match r.credential_id {
            Some(id) => if labels.dom().contains(id) {
                item.credential_label matches Some(name) && name@ == labels[id]@
            } else {
                item.credential_label is None
            },
            None => item.credential_label is None,
        },
{
}

/// The numbers on a page: how many records there are in all, as many pages as they
/// fill, and a page among these, the asked one or else the nearest. A page of no
/// size, or of no records, is the first and empty.
pub proof fn page_numbers(
    r: UsageRecordsPage,
    all: Seq<UsageRecord>,
    order: Seq<int>,
    page: int,
    page_size: int,
    labels: Map<u64, String>,
)
    requires
        page_size >= 0,
        usage::is_page(r, all, order, page, page_size, labels),
    ensures
        r.page_size == page_size,
        page_size == 0 || order.len() == 0 ==> r.records@.len() == 0 && r.total == 0 && r.page == 1
            && r.total_pages == 0,
        page_size > 0 && order.len() > 0 ==> {
            &&& r.total == order.len()
            &&& (r.total_pages - 1) * page_size < order.len() <= r.total_pages * page_size
            &&& 1 <= r.page <= r.total_pages
            &&& page < 1 ==> r.page == 1
            &&& 1 <= page <= r.total_pages ==> r.page == page
            &&& page > r.total_pages ==> r.page == r.total_pages
            &&& r.page < r.total_pages ==> r.records@.len() == page_size
            &&& r.page == r.total_pages ==> r.records@.len() == order.len() - (r.total_pages - 1)
                * page_size
        },
{
    if page_size > 0 && order.len() > 0 {
        let total = order.len() as int;
        let count = usage::page_count(total, page_size);
        vstd::arithmetic::div_mod::lemma_div_plus_one(total - 1, page_size);
        vstd::arithmetic::div_mod::lemma_div_pos_is_pos(total - 1, page_size);
        vstd::arithmetic::div_mod::lemma_fundamental_div_mod(total - 1, page_size);
        vstd::arithmetic::div_mod::lemma_mod_bound(total - 1, page_size);
        let q = (total - 1) / page_size;
        assert(q == count - 1);
        assert(page_size * q == q * page_size) by (nonlinear_arith);
        assert((q + 1) * page_size == q * page_size + page_size) by (nonlinear_arith);
        let shown = usage::shown_page(page, total, page_size);
        if shown < count {
            assert((shown - 1) * page_size + page_size <= q * page_size) by (nonlinear_arith)
                requires
                    shown <= q,
                    page_size >= 0,
            ;
        }
    }
}

/// The records of an API key are shown on its pages: its newest first, as many in
/// all as it has, each item one of its records.
pub proof fn key_pages_show_its_records(
    r: UsageRecordsPage,
    all: Seq<UsageRecord>,
    api_key_id: u32,
    page: int,
    page_size: int,
    labels: Map<u64, String>,
)
    requires
        page_size > 0,
        usage::is_page(
            r,
            all,
            selection::newest_first(all, usage::owner_marks(all, Owner::Key(api_key_id))),
            page,
            page_size,
            labels,
        ),
    ensures
        r.total == all.filter(|s: UsageRecord| s.api_key_id == api_key_id).len(),
        pages_show(r, all, labels, |s: UsageRecord| s.api_key_id == api_key_id),
{
    pages_show_the_marked(
        r,
        all,
        usage::owner_marks(all, Owner::Key(api_key_id)),
        |s: UsageRecord| s.api_key_id == api_key_id,
        page,
        page_size,
        labels,
    );
}

/// The records of an account are shown on its pages in the same way.
pub proof fn account_pages_show_its_records(
    r: UsageRecordsPage,
    all: Seq<UsageRecord>,
    id: u64,
    page: int,
    page_size: int,
    labels: Map<u64, String>,
)
    requires
        page_size > 0,
        usage::is_page(
            r,
            all,
            selection::newest_first(all, usage::owner_marks(all, Owner::Credential(id))),
            page,
            page_size,
            labels,
        ),
    ensures
        r.total == all.filter(|s: UsageRecord| s.credential_id == Some(id)).len(),
        pages_show(r, all, labels, |s: UsageRecord| s.credential_id == Some(id)),
{
    pages_show_the_marked(
        r,
        all,
        usage::owner_marks(all, Owner::Credential(id)),
        |s: UsageRecord| s.credential_id == Some(id),
        page,
        page_size,
        labels,
    );
}

/// Whether an item shows a record that `keep` picks.
pub open spec fn shows_one(
    item: UsageRecordItem,
    all: Seq<UsageRecord>,
    labels: Map<u64, String>,
    keep: spec_fn(UsageRecord) -> bool,
) -> bool {
    exists|i: int|
        0 <= i < all.len() && keep(#[trigger] all[i]) && usage::shows(item, all[i], labels)
}

/// Whether each item of a page shows a record that `keep` picks, and the items come
/// by time, the latest first.
pub open spec fn pages_show(
    r: UsageRecordsPage,
    all: Seq<UsageRecord>,
    labels: Map<u64, String>,
    keep: spec_fn(UsageRecord) -> bool,
) -> bool {
    &&& forall|k: int|
        0 <= k < r.records@.len() ==> shows_one(#[trigger] r.records@[k], all, labels, keep)
    &&& forall|k: int, l: int|
        0 <= k < l < r.records@.len() ==> {
            let a = (#[trigger] r.records@[k]).created_at;
            let b = (#[trigger] r.records@[l]).created_at;
            a.secs > b.secs || (a.secs == b.secs && a.nanos >= b.nanos)
        }
}

proof fn pages_show_the_marked(
    r: UsageRecordsPage,
    all: Seq<UsageRecord>,
    marks: Seq<bool>,
    keep: spec_fn(UsageRecord) -> bool,
    page: int,
    page_size: int,
    labels: Map<u64, String>,
)
    requires
        page_size > 0,
        marks.len() == all.len(),
        forall|i: int| 0 <= i < all.len() ==> #[trigger] marks[i] == keep(all[i]),
        usage::is_page(
            r,
            all,
            selection::newest_first(all, marks),
            page,
            page_size,
            labels,
        ),
    ensures
        r.total == all.filter(keep).len(),
        pages_show(r, all, labels, keep),
{
    let order = selection::newest_first(all, marks);
    newest_come_first(all, marks);
    marked_is_filtered(all, marks, keep);
    assert(marks.take(all.len() as int) =~= marks);
    assert forall|k: int| 0 <= k < order.len() implies 0 <= #[trigger] order[k] < all.len()
        && marks[order[k]] by {
        assert(order.contains(order[k]));
    }
    order_is_shown(r, all, order, marks, keep, page, page_size, labels);
}

proof fn order_is_shown(
    r: UsageRecordsPage,
    all: Seq<UsageRecord>,
    order: Seq<int>,
    marks: Seq<bool>,
    keep: spec_fn(UsageRecord) -> bool,
    page: int,
    page_size: int,
    labels: Map<u64, String>,
)
    requires
        page_size > 0,
        marks.len() == all.len(),
        forall|i: int| 0 <= i < all.len() ==> #[trigger] marks[i] == keep(all[i]),
        in_order(all, order),
        forall|k: int|
            0 <= k < order.len() ==> 0 <= #[trigger] order[k] < all.len() && marks[order[k]],
        usage::is_page(r, all, order, page, page_size, labels),
    ensures
        pages_show(r, all, labels, keep),
{
    if order.len() > 0 {
        let total = order.len() as int;
        let shown = usage::shown_page(page, total, page_size);
        let start = (shown - 1) * page_size;
        shown_page_exists(page, total, page_size);
        assert(start >= 0) by (nonlinear_arith)
            requires
                start == (shown - 1) * page_size,
                shown >= 1,
                page_size > 0,
        ;
        assert forall|k: int| 0 <= k < r.records@.len() implies shows_one(
            #[trigger] r.records@[k],
            all,
            labels,
            keep,
        ) by {
            let i = order[start + k];
            assert(marks[i] == keep(all[i]));
            assert(usage::shows(r.records@[k], all[order[start + k]], labels));
        }
        assert forall|k: int, l: int| 0 <= k < l < r.records@.len() implies {
            let a = (#[trigger] r.records@[k]).created_at;
            let b = (#[trigger] r.records@[l]).created_at;
            a.secs > b.secs || (a.secs == b.secs && a.nanos >= b.nanos)
        } by {
            assert(usage::shows(r.records@[k], all[order[start + k]], labels));
            assert(usage::shows(r.records@[l], all[order[start + l]], labels));
            assert(shown_before(all, order[start + k], order[start + l]));
        }
    }
}

proof fn marked_is_filtered(
    all: Seq<UsageRecord>,
    marks: Seq<bool>,
    keep: spec_fn(UsageRecord) -> bool,
)
    requires
        all.len() <= marks.len(),
        forall|i: int| 0 <= i < all.len() ==> #[trigger] marks[i] == keep(all[i]),
    ensures
        selection::marked(marks.take(all.len() as int)) == all.filter(keep).len(),
    decreases all.len(),
{
    reveal(Seq::filter);
    let n = all.len() as int;
    if n > 0 {
        let front = all.drop_last();
        assert forall|i: int| 0 <= i < front.len() implies #[trigger] marks[i] == keep(
            front[i],
        ) by {
            assert(front[i] == all[i]);
        }
        marked_is_filtered(front, marks, keep);
        assert(marks.take(n).drop_last() =~= marks.take(n - 1));
        assert(marks[n - 1] == keep(all[n - 1]));
    } else {
        assert(marks.take(0) =~= Seq::empty());
    }
}

/// The records whose time, eight hours ahead of UTC, falls on a date are shown on
/// the pages of the day: its newest 2000 at most, from one to 500 on a page.
pub proof fn day_pages_show_its_records(
    r: UsageRecordsPage,
    all: Seq<UsageRecord>,
    date: Seq<char>,
    page: int,
    page_size: int,
    labels: Map<u64, String>,
)
    requires
        usage::is_page(
            r,
            all,
            usage::first(
                selection::newest_first(
                    all,
                    usage::date_marks(usage::record_dates(all), date),
                ),
                usage::MAX_RECORDS_PER_DAY as int,
            ),
            page,
            usage::day_page_size(page_size),
            labels,
        ),
    ensures
        ({
            let on_day = |s: UsageRecord|
                calendar::date_text(s.created_at.secs, s.created_at.nanos, 28800) == Some(date);
            let n = all.filter(on_day).len();
            &&& n <= 2000 ==> r.total == n
            &&& n > 2000 ==> r.total == 2000
            &&& page_size < 1 ==> r.page_size == 1
            &&& 1 <= page_size <= 500 ==> r.page_size == page_size
            &&& page_size > 500 ==> r.page_size == 500
            &&& pages_show(r, all, labels, on_day)
        }),
{
    let on_day = |s: UsageRecord|
        calendar::date_text(s.created_at.secs, s.created_at.nanos, 28800) == Some(date);
    let marks = usage::date_marks(usage::record_dates(all), date);
    let whole = selection::newest_first(all, marks);
    let order = usage::first(whole, usage::MAX_RECORDS_PER_DAY as int);
    newest_come_first(all, marks);
    marked_is_filtered(all, marks, on_day);
    assert(marks.take(all.len() as int) =~= marks);
    assert forall|k: int| 0 <= k < order.len() implies 0 <= #[trigger] order[k] < all.len()
        && marks[order[k]] by {
        assert(order[k] == whole[k]);
        assert(whole.contains(whole[k]));
    }
    assert(in_order(all, order)) by {
        assert forall|a: int, b: int| 0 <= a < b < order.len() implies shown_before(
            all,
            #[trigger] order[a],
            #[trigger] order[b],
        ) by {
            assert(shown_before(all, whole[a], whole[b]));
        }
    }
    order_is_shown(
        r,
        all,
        order,
        marks,
        on_day,
        page,
        usage::day_page_size(page_size),
        labels,
    );
    page_numbers(r, all, order, page, usage::day_page_size(page_size), labels);
}

/// Of the records of a day the newest are shown: none that is left out is later
/// than one that is shown.
pub proof fn day_leaves_out_the_oldest(
    all: Seq<UsageRecord>,
    marks: Seq<bool>,
    shown: int,
    left: int,
)
    requires
        marks.len() == all.len(),
        0 <= shown < 2000 <= left < selection::newest_first(all, marks).len(),
    ensures
        ({
            let whole = selection::newest_first(all, marks);
            let order = usage::first(whole, usage::MAX_RECORDS_PER_DAY as int);
            &&& order.len() == 2000
            &&& order[shown] == whole[shown]
            &&& shown_before(all, order[shown], whole[left])
        }),
{
    newest_come_first(all, marks);
    let whole = selection::newest_first(all, marks);
    assert(shown_before(all, whole[shown], whole[left]));
}

proof fn cut_of_oldest(all: Seq<UsageRecord>, owner: Owner, n: nat) -> (m: int)
    requires
        n <= usage::owned_count(all, owner),
    ensures
        0 <= m <= all.len(),
        usage::without_oldest(all, owner, n) == records_of_others(all.take(m), owner) + all.skip(
            m,
        ),
        records_of(all.take(m), owner).len() == n,
    decreases all.len(),
{
    let mine = |r: UsageRecord| usage::owned(r, owner);
    let others = |r: UsageRecord| !usage::owned(r, owner);
    count_is_length(all, owner);
    if n == 0 {
        reveal(Seq::filter);
        assert(all.take(0) =~= Seq::empty());
        assert(records_of_others(all.take(0), owner) + all.skip(0) =~= all);
        0
    } else {
        if all.len() == 0 {
            reveal(Seq::filter);
        }
        let rest = all.drop_first();
        filter_of_front(all, mine);
        count_is_length(rest, owner);
        let owned = usage::owned(all[0], owner);
        let k = if owned {
            cut_of_oldest(rest, owner, (n - 1) as nat)
        } else {
            cut_of_oldest(rest, owner, n)
        };
        let front = all.take(k + 1);
        assert(front.drop_first() =~= rest.take(k));
        assert(rest.skip(k) =~= all.skip(k + 1));
        filter_of_front(front, mine);
        filter_of_front(front, others);
        assert(records_of_others(front, owner) + all.skip(k + 1) =~= usage::without_oldest(
            all,
            owner,
            n,
        ));
        k + 1
    }
}

/// Giving up the oldest records of an owner beyond 10000 cuts the list somewhere:
/// before the cut only the records of others stay, behind it all records do, and
/// as many of the owner's stood before it as are too many. Nothing changes places.
pub proof fn retention_cuts_the_list(all: Seq<UsageRecord>, owner: Owner)
    ensures
        exists|m: int|
            0 <= m <= all.len() && usage::retained(all, owner) == records_of_others(
                #[trigger] all.take(m),
                owner,
            ) + all.skip(m) && records_of(all.take(m), owner).len() == if records_of(
                all,
                owner,
            ).len() > 10000 {
                records_of(all, owner).len() - 10000
            } else {
                0
            },
{
    let count = usage::owned_count(all, owner);
    count_is_length(all, owner);
    if count > 10000 {
        let m = cut_of_oldest(all, owner, (count - 10000) as nat);
        assert(all.take(m) == all.take(m));
    } else {
        let m = cut_of_oldest(all, owner, 0);
        assert(all.take(m) == all.take(m));
    }
}

/// A record first holds its API key to the limit, and what that leaves its account,
/// where it has one.
pub proof fn key_goes_before_account(all: Seq<UsageRecord>, r: UsageRecord)
    ensures
        match r.credential_id {
            Some(id) => usage::recorded(all, r) == usage::retained(
                usage::retained(all.push(r), Owner::Key(r.api_key_id)),
                Owner::Credential(id),
            ),
            None => usage::recorded(all, r) == usage::retained(
                all.push(r),
                Owner::Key(r.api_key_id),
            ),
        },
{
}

/// Dates are seen as their characters, one by one and in their order, and a missing
/// one as missing.
pub proof fn dates_are_seen_whole(dates: Seq<Option<String>>, i: int)
    requires
        0 <= i < dates.len(),
    ensures
        usage::date_views(dates).len() == dates.len(),
        match dates[i] {
            Some(date) => usage::date_views(dates)[i] == Some(date@),
            None => usage::date_views(dates)[i] is None,
        },
{
}

} // verus!
