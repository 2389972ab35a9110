//! What holds of usage summaries: they add up, and nothing is left out of them
//! or counted twice.

use crate::calendar;
use crate::pricing;
use crate::selection;
use crate::selection::{Amount, Charge, UsageRecord};
use crate::text;
use crate::usage;
use crate::usage::{DailySummary, Owner, UsageSummary};
use vstd::prelude::*;

verus! {

/// What the records under one name are worth.
spec fn total_of<T>(names: Seq<Option<T>>, worth: Seq<int>, name: T) -> int
    decreases names.len(),
{
    if names.len() == 0 {
        0
    } else {
        total_of(names.drop_last(), worth, name) + if names.last() == Some(name) {
            worth[names.len() - 1]
        } else {
            0
        }
    }
}

/// What the records under any name are worth.
spec fn total<T>(names: Seq<Option<T>>, worth: Seq<int>) -> int
    decreases names.len(),
{
    if names.len() == 0 {
        0
    } else {
        total(names.drop_last(), worth) + if names.last() is Some {
            worth[names.len() - 1]
        } else {
            0
        }
    }
}

/// What the records under the names of a list are worth, name by name.
spec fn total_by_name<T>(list: Seq<T>, names: Seq<Option<T>>, worth: Seq<int>) -> int
    decreases list.len(),
{
    if list.len() == 0 {
        0
    } else {
        total_by_name(list.drop_last(), names, worth) + total_of(names, worth, list.last())
    }
}

proof fn last_counts_once<T>(list: Seq<T>, names: Seq<Option<T>>, worth: Seq<int>)
    requires
        list.no_duplicates(),
        names.len() > 0,
    ensures
        total_by_name(list, names, worth) == total_by_name(list, names.drop_last(), worth) + (if (
        names.last() is Some && list.contains(names.last()->0)) {
            worth[names.len() - 1]
        } else {
            0
        }),
    decreases list.len(),
{
    if list.len() > 0 {
        let front = list.drop_last();
        last_counts_once(front, names, worth);
        if names.last() is Some {
            let name = names.last()->0;
            if list.contains(name) {
                let k = choose|k: int| 0 <= k < list.len() && list[k] == name;
                if k < front.len() {
                    assert(front[k] == name);
                    assert(list.last() != name);
                } else {
                    assert(!front.contains(name)) by {
                        if front.contains(name) {
                            let j = choose|j: int| 0 <= j < front.len() && front[j] == name;
                            assert(list[j] == list[k]);
                        }
                    }
                }
            } else {
                assert(list[list.len() - 1] == list.last());
                assert(!front.contains(name)) by {
                    if front.contains(name) {
                        let j = choose|j: int| 0 <= j < front.len() && front[j] == name;
                        assert(list[j] == name);
                    }
                }
            }
        }
    }
}

/// Where each name stands once in a list, the totals by name add up to the whole.
proof fn totals_add_up<T>(list: Seq<T>, names: Seq<Option<T>>, worth: Seq<int>)
    requires
        list.no_duplicates(),
        forall|i: int|
            0 <= i < names.len() && (#[trigger] names[i]) is Some ==> list.contains(names[i]->0),
    ensures
        total_by_name(list, names, worth) == total(names, worth),
    decreases names.len(),
{
    if names.len() == 0 {
        nothing_by_name(list, names, worth);
    } else {
        let front = names.drop_last();
        assert forall|i: int| 0 <= i < front.len() && (#[trigger] front[i]) is Some implies list.contains(
            front[i]->0,
        ) by {
            assert(names[i] == front[i]);
        }
        totals_add_up(list, front, worth);
        last_counts_once(list, names, worth);
        assert(names[names.len() - 1] == names.last());
    }
}

proof fn nothing_by_name<T>(list: Seq<T>, names: Seq<Option<T>>, worth: Seq<int>)
    requires
        names.len() == 0,
    ensures
        total_by_name(list, names, worth) == 0,
    decreases list.len(),
{
    if list.len() > 0 {
        nothing_by_name(list.drop_last(), names, worth);
    }
}

/// The sum of a list of numbers.
pub open spec fn sum(s: Seq<int>) -> int
    decreases s.len(),
{
    if s.len() == 0 {
        0
    } else {
        sum(s.drop_last()) + s.last()
    }
}

proof fn sum_is_by_name<T>(s: Seq<int>, list: Seq<T>, names: Seq<Option<T>>, worth: Seq<int>)
    requires
        s.len() == list.len(),
        forall|j: int| 0 <= j < s.len() ==> #[trigger] s[j] == total_of(names, worth, list[j]),
    ensures
        sum(s) == total_by_name(list, names, worth),
    decreases s.len(),
{
    if s.len() > 0 {
        let front = s.drop_last();
        assert forall|j: int| 0 <= j < front.len() implies #[trigger] front[j] == total_of(
            names,
            worth,
            list.drop_last()[j],
        ) by {
            assert(front[j] == s[j]);
        }
        sum_is_by_name(front, list.drop_last(), names, worth);
        assert(s[s.len() - 1] == total_of(names, worth, list[list.len() - 1]));
    }
}

/// One for each record.
spec fn ones(n: nat) -> Seq<int> {
    Seq::new(n, |i: int| 1int)
}

/// The input tokens of records.
spec fn inputs(all: Seq<UsageRecord>) -> Seq<int> {
    Seq::new(all.len(), |i: int| all[i].input_tokens as int)
}

/// The output tokens of records.
spec fn outputs(all: Seq<UsageRecord>) -> Seq<int> {
    Seq::new(all.len(), |i: int| all[i].output_tokens as int)
}

/// Counting marks is adding up ones.
proof fn marked_is_total_of<T>(marks: Seq<bool>, names: Seq<Option<T>>, worth: Seq<int>, name: T)
    requires
        marks.len() == names.len() <= worth.len(),
        forall|i: int| 0 <= i < marks.len() ==> #[trigger] marks[i] == (names[i] == Some(name)),
        forall|i: int| 0 <= i < worth.len() ==> #[trigger] worth[i] == 1,
    ensures
        selection::marked(marks) == total_of(names, worth, name),
    decreases marks.len(),
{
    if marks.len() > 0 {
        let front = marks.drop_last();
        assert forall|i: int| 0 <= i < front.len() implies #[trigger] front[i] == (
        names.drop_last()[i] == Some(name)) by {
            assert(front[i] == marks[i]);
        }
        marked_is_total_of(front, names.drop_last(), worth, name);
        assert(marks[marks.len() - 1] == (names[names.len() - 1] == Some(name)));
    }
}

proof fn marked_is_total<T>(marks: Seq<bool>, names: Seq<Option<T>>, worth: Seq<int>)
    requires
        marks.len() == names.len() <= worth.len(),
        forall|i: int| 0 <= i < marks.len() ==> #[trigger] marks[i] == (names[i] is Some),
        forall|i: int| 0 <= i < worth.len() ==> #[trigger] worth[i] == 1,
    ensures
        selection::marked(marks) == total(names, worth),
    decreases marks.len(),
{
    if marks.len() > 0 {
        let front = marks.drop_last();
        assert forall|i: int| 0 <= i < front.len() implies #[trigger] front[i] == (
        names.drop_last()[i] is Some) by {
            assert(front[i] == marks[i]);
        }
        marked_is_total(front, names.drop_last(), worth);
        assert(marks[marks.len() - 1] == (names[names.len() - 1] is Some));
    }
}

/// Adding up tokens of marked records is adding up their worth.
proof fn tokens_are_total_of<T>(
    all: Seq<UsageRecord>,
    marks: Seq<bool>,
    names: Seq<Option<T>>,
    ins: Seq<int>,
    outs: Seq<int>,
    name: T,
)
    requires
        all.len() == names.len() <= marks.len(),
        all.len() <= ins.len(),
        all.len() <= outs.len(),
        forall|i: int| 0 <= i < all.len() ==> #[trigger] marks[i] == (names[i] == Some(name)),
        forall|i: int| 0 <= i < all.len() ==> #[trigger] ins[i] == all[i].input_tokens,
        forall|i: int| 0 <= i < all.len() ==> #[trigger] outs[i] == all[i].output_tokens,
    ensures
        selection::input_sum(all, marks) == total_of(names, ins, name),
        selection::output_sum(all, marks) == total_of(names, outs, name),
    decreases all.len(),
{
    if all.len() > 0 {
        tokens_are_total_of(all.drop_last(), marks, names.drop_last(), ins, outs, name);
        assert(marks[all.len() - 1] == (names[names.len() - 1] == Some(name)));
        assert(ins[all.len() - 1] == all[all.len() - 1].input_tokens);
        assert(outs[all.len() - 1] == all[all.len() - 1].output_tokens);
    }
}

proof fn tokens_are_total<T>(
    all: Seq<UsageRecord>,
    marks: Seq<bool>,
    names: Seq<Option<T>>,
    ins: Seq<int>,
    outs: Seq<int>,
)
    requires
        all.len() == names.len() <= marks.len(),
        all.len() <= ins.len(),
        all.len() <= outs.len(),
        forall|i: int| 0 <= i < all.len() ==> #[trigger] marks[i] == (names[i] is Some),
        forall|i: int| 0 <= i < all.len() ==> #[trigger] ins[i] == all[i].input_tokens,
        forall|i: int| 0 <= i < all.len() ==> #[trigger] outs[i] == all[i].output_tokens,
    ensures
        selection::input_sum(all, marks) == total(names, ins),
        selection::output_sum(all, marks) == total(names, outs),
    decreases all.len(),
{
    if all.len() > 0 {
        tokens_are_total(all.drop_last(), marks, names.drop_last(), ins, outs);
        assert(marks[all.len() - 1] == (names[names.len() - 1] is Some));
        assert(ins[all.len() - 1] == all[all.len() - 1].input_tokens);
        assert(outs[all.len() - 1] == all[all.len() - 1].output_tokens);
    }
}

/// The models of marked records are listed once each, and no other model is.
pub proof fn models_are_listed_once(all: Seq<UsageRecord>, marks: Seq<bool>)
    requires
        all.len() <= marks.len(),
    ensures
        usage::models(all, marks).no_duplicates(),
        forall|i: int|
            0 <= i < all.len() && #[trigger] marks[i] ==> usage::models(all, marks).contains(
                all[i].model@,
            ),
        forall|j: int|
            0 <= j < usage::models(all, marks).len() ==> exists|i: int|
                0 <= i < all.len() && marks[i] && (#[trigger] all[i]).model@
                    == #[trigger] usage::models(all, marks)[j],
    decreases all.len(),
{
    if all.len() > 0 {
        let front = all.drop_last();
        models_are_listed_once(front, marks);
        let before = usage::models(front, marks);
        let after = usage::models(all, marks);
        let n = all.len() - 1;
        assert forall|i: int| 0 <= i < all.len() && #[trigger] marks[i] implies after.contains(
            all[i].model@,
        ) by {
            if i < n {
                assert(before.contains(front[i].model@));
                let k = choose|k: int| 0 <= k < before.len() && before[k] == front[i].model@;
                assert(after[k] == all[i].model@);
            } else if !before.contains(all.last().model@) {
                assert(after[before.len() as int] == all.last().model@);
            }
        }
        assert forall|j: int| 0 <= j < after.len() implies exists|i: int|
            0 <= i < all.len() && marks[i] && (#[trigger] all[i]).model@ == #[trigger] after[j] by {
            if j < before.len() {
                assert(after[j] == before[j]);
                let i = choose|i: int|
                    0 <= i < front.len() && marks[i] && (#[trigger] front[i]).model@ == before[j];
                assert(all[i].model@ == after[j]);
            } else {
                assert(all[n].model@ == after[j]);
            }
        }
        assert(after.no_duplicates()) by {
            assert forall|a: int, b: int|
                0 <= a < after.len() && 0 <= b < after.len() && a != b implies after[a] != after[b] by {
                if a < before.len() && b < before.len() {
                    assert(before[a] != before[b]);
                } else if a < before.len() {
                    assert(before.contains(before[a]));
                } else if b < before.len() {
                    assert(before.contains(before[b]));
                }
            }
        }
    }
}

/// The requests of an API key are those of its models together.
pub proof fn models_add_up(summary: UsageSummary, all: Seq<UsageRecord>, api_key_id: u32)
    requires
        usage::is_summary(summary, all, api_key_id),
    ensures
        summary.total_requests == sum(
            Seq::new(
                summary.by_model@.len(),
                |j: int| summary.by_model@[j].requests as int,
            ),
        ),
{
    let marks = usage::owner_marks(all, Owner::Key(api_key_id));
    let list = usage::models(all, marks);
    let names = Seq::new(
        all.len(),
        |i: int|
            if marks[i] {
                Some(all[i].model@)
            } else {
                None
            },
    );
    let worth = ones(all.len());
    models_are_listed_once(all, marks);
    totals_add_up(list, names, worth);
    marked_is_total(marks, names, worth);
    let s = Seq::new(summary.by_model@.len(), |j: int| summary.by_model@[j].requests as int);
    assert forall|j: int| 0 <= j < s.len() implies #[trigger] s[j] == total_of(
        names,
        worth,
        list[j],
    ) by {
        assert(usage::is_model_usage(summary.by_model@[j], all, marks, list[j]));
        marked_is_total_of(usage::model_marks(all, marks, list[j]), names, worth, list[j]);
    }
    sum_is_by_name(s, list, names, worth);
}

/// The tokens of an API key are those of its models together.
pub proof fn model_tokens_add_up(all: Seq<UsageRecord>, api_key_id: u32)
    ensures
        ({
            let marks = usage::owner_marks(all, Owner::Key(api_key_id));
            let list = usage::models(all, marks);
            &&& selection::input_sum(all, marks) == sum(
                Seq::new(
                    list.len(),
                    |j: int| selection::input_sum(all, usage::model_marks(all, marks, list[j])),
                ),
            )
            &&& selection::output_sum(all, marks) == sum(
                Seq::new(
                    list.len(),
                    |j: int| selection::output_sum(all, usage::model_marks(all, marks, list[j])),
                ),
            )
        }),
{
    let marks = usage::owner_marks(all, Owner::Key(api_key_id));
    let list = usage::models(all, marks);
    let names = Seq::new(
        all.len(),
        |i: int|
            if marks[i] {
                Some(all[i].model@)
            } else {
                None
            },
    );
    let ins = inputs(all);
    let outs = outputs(all);
    models_are_listed_once(all, marks);
    totals_add_up(list, names, ins);
    totals_add_up(list, names, outs);
    tokens_are_total(all, marks, names, ins, outs);
    let s = Seq::new(
        list.len(),
        |j: int| selection::input_sum(all, usage::model_marks(all, marks, list[j])),
    );
    let t = Seq::new(
        list.len(),
        |j: int| selection::output_sum(all, usage::model_marks(all, marks, list[j])),
    );
    assert forall|j: int| 0 <= j < s.len() implies #[trigger] s[j] == total_of(
        names,
        ins,
        list[j],
    ) by {
        tokens_are_total_of(all, usage::model_marks(all, marks, list[j]), names, ins, outs, list[j]);
    }
    assert forall|j: int| 0 <= j < t.len() implies #[trigger] t[j] == total_of(
        names,
        outs,
        list[j],
    ) by {
        tokens_are_total_of(all, usage::model_marks(all, marks, list[j]), names, ins, outs, list[j]);
    }
    sum_is_by_name(s, list, names, ins);
    sum_is_by_name(t, list, names, outs);
}

/// Whether keys ascend.
pub open spec fn ascending(keys: Seq<u32>) -> bool {
    forall|a: int, b: int| 0 <= a < b < keys.len() ==> #[trigger] keys[a] < #[trigger] keys[b]
}

proof fn key_is_added(keys: Seq<u32>, key: u32)
    requires
        ascending(keys),
    ensures
        ascending(usage::key_added(keys, key)),
        forall|k: u32| #[trigger]
            usage::key_added(keys, key).contains(k) <==> (k == key || keys.contains(k)),
    decreases keys.len(),
{
    let after = usage::key_added(keys, key);
    if keys.len() == 0 || keys.last() < key {
        assert forall|k: u32| #[trigger] after.contains(k) <==> (k == key || keys.contains(k)) by {
            assert(after[keys.len() as int] == key);
            if keys.contains(k) {
                let j = choose|j: int| 0 <= j < keys.len() && keys[j] == k;
                assert(after[j] == k);
            }
        }
        assert forall|a: int| 0 <= a < keys.len() implies #[trigger] keys[a] < key by {
            if a < keys.len() - 1 {
                assert(keys[a] < keys[keys.len() - 1]);
            }
        }
    } else if keys.last() == key {
        assert(keys[keys.len() - 1] == key);
    } else {
        let front = keys.drop_last();
        let last = keys.last();
        assert forall|a: int, b: int| 0 <= a < b < front.len() implies #[trigger] front[a]
            < #[trigger] front[b] by {
            assert(keys[a] < keys[b]);
        }
        key_is_added(front, key);
        let inner = usage::key_added(front, key);
        assert forall|a: int| 0 <= a < inner.len() implies #[trigger] inner[a] < last by {
            assert(inner.contains(inner[a]));
            if inner[a] != key {
                let j = choose|j: int| 0 <= j < front.len() && front[j] == inner[a];
                assert(keys[j] < keys[keys.len() - 1]);
            }
        }
        assert forall|a: int, b: int| 0 <= a < b < after.len() implies #[trigger] after[a]
            < #[trigger] after[b] by {
            if b < inner.len() {
                assert(inner[a] < inner[b]);
            } else {
                assert(inner[a] < last);
            }
        }
        assert forall|k: u32| #[trigger] after.contains(k) <==> (k == key || keys.contains(k)) by {
            assert(inner.contains(k) <==> (k == key || front.contains(k)));
            pushed_contains(inner, last, k);
            assert(keys =~= front.push(last));
            pushed_contains(front, last, k);
        }
    }
}

proof fn pushed_contains<T>(s: Seq<T>, last: T, x: T)
    ensures
        s.push(last).contains(x) <==> (s.contains(x) || x == last),
{
    let after = s.push(last);
    assert(after[s.len() as int] == last);
    if s.contains(x) {
        let j = choose|j: int| 0 <= j < s.len() && s[j] == x;
        assert(after[j] == x);
    }
    if after.contains(x) {
        let j = choose|j: int| 0 <= j < after.len() && after[j] == x;
        if j < s.len() {
            assert(s[j] == x);
        }
    }
}

/// Summaries come by ascending API key, one for each key that has records and
/// for no other.
pub proof fn keys_ascend(all: Seq<UsageRecord>)
    ensures
        ascending(usage::key_ids(all)),
        usage::key_ids(all).no_duplicates(),
        forall|k: u32| #[trigger]
            usage::key_ids(all).contains(k) <==> exists|i: int|
                0 <= i < all.len() && (#[trigger] all[i]).api_key_id == k,
    decreases all.len(),
{
    let keys = usage::key_ids(all);
    if all.len() > 0 {
        let front = all.drop_last();
        keys_ascend(front);
        key_is_added(usage::key_ids(front), all.last().api_key_id);
        assert forall|k: u32| #[trigger]
            keys.contains(k) <==> exists|i: int|
                0 <= i < all.len() && (#[trigger] all[i]).api_key_id == k by {
            if usage::key_ids(front).contains(k) {
                let i = choose|i: int|
                    0 <= i < front.len() && (#[trigger] front[i]).api_key_id == k;
                assert(all[i].api_key_id == k);
            }
            if k == all.last().api_key_id {
                assert(all[all.len() - 1].api_key_id == k);
            }
            if exists|i: int| 0 <= i < all.len() && (#[trigger] all[i]).api_key_id == k {
                let i = choose|i: int| 0 <= i < all.len() && (#[trigger] all[i]).api_key_id == k;
                if i < front.len() {
                    assert(front[i].api_key_id == k);
                }
            }
        }
    }
    assert forall|a: int, b: int| 0 <= a < keys.len() && 0 <= b < keys.len() && a != b implies
        keys[a] != keys[b] by {
        if a < b {
            assert(keys[a] < keys[b]);
        } else {
            assert(keys[b] < keys[a]);
        }
    }
}

/// The requests in the summaries of all API keys are all records.
pub proof fn summaries_add_up(list: Seq<UsageSummary>, all: Seq<UsageRecord>)
    requires
        list.len() == usage::key_ids(all).len(),
        forall|j: int|
            0 <= j < list.len() ==> usage::is_summary(
                #[trigger] list[j],
                all,
                usage::key_ids(all)[j],
            ),
    ensures
        sum(Seq::new(list.len(), |j: int| list[j].total_requests as int)) == all.len(),
{
    let keys = usage::key_ids(all);
    let names = Seq::new(all.len(), |i: int| Some(all[i].api_key_id));
    let worth = ones(all.len());
    keys_ascend(all);
    assert forall|i: int| 0 <= i < names.len() && (#[trigger] names[i]) is Some implies keys.contains(
        names[i]->0,
    ) by {
        assert(all[i].api_key_id == names[i]->0);
    }
    totals_add_up(keys, names, worth);
    let s = Seq::new(list.len(), |j: int| list[j].total_requests as int);
    assert forall|j: int| 0 <= j < s.len() implies #[trigger] s[j] == total_of(
        names,
        worth,
        keys[j],
    ) by {
        assert(usage::is_summary(list[j], all, keys[j]));
        marked_is_total_of(usage::owner_marks(all, Owner::Key(keys[j])), names, worth, keys[j]);
    }
    sum_is_by_name(s, keys, names, worth);
    total_is_length(names, worth);
}

proof fn total_is_length<T>(names: Seq<Option<T>>, worth: Seq<int>)
    requires
        names.len() <= worth.len(),
        forall|i: int| 0 <= i < names.len() ==> (#[trigger] names[i]) is Some,
        forall|i: int| 0 <= i < worth.len() ==> #[trigger] worth[i] == 1,
    ensures
        total(names, worth) == names.len(),
    decreases names.len(),
{
    if names.len() > 0 {
        assert forall|i: int| 0 <= i < names.drop_last().len() implies (
        #[trigger] names.drop_last()[i]) is Some by {
            assert(names[i] is Some);
        }
        total_is_length(names.drop_last(), worth);
        assert(names[names.len() - 1] is Some);
    }
}

/// Whether dates descend.
pub open spec fn descending(list: Seq<Seq<char>>) -> bool {
    forall|a: int, b: int|
        0 <= a < b < list.len() ==> text::precedes(#[trigger] list[b], #[trigger] list[a])
}

proof fn day_is_added(list: Seq<Seq<char>>, day: Seq<char>)
    requires
        descending(list),
    ensures
        descending(usage::day_added(list, day)),
        forall|d: Seq<char>| #[trigger]
            usage::day_added(list, day).contains(d) <==> (d == day || list.contains(d)),
    decreases list.len(),
{
    let after = usage::day_added(list, day);
    if list.len() == 0 || text::precedes(day, list.last()) {
        assert forall|d: Seq<char>| #[trigger]
            after.contains(d) <==> (d == day || list.contains(d)) by {
            pushed_contains(list, day, d);
        }
        assert forall|a: int| 0 <= a < list.len() implies text::precedes(
            day,
            #[trigger] list[a],
        ) by {
            if a < list.len() - 1 {
                assert(text::precedes(list[list.len() - 1], list[a]));
                text::precedes_transitive(day, list.last(), list[a]);
            }
        }
    } else if list.last() == day {
        assert(list[list.len() - 1] == day);
    } else {
        let front = list.drop_last();
        let last = list.last();
        assert forall|a: int, b: int| 0 <= a < b < front.len() implies text::precedes(
            #[trigger] front[b],
            #[trigger] front[a],
        ) by {
            assert(text::precedes(list[b], list[a]));
        }
        day_is_added(front, day);
        let inner = usage::day_added(front, day);
        text::precedes_total(day, last);
        assert forall|a: int| 0 <= a < inner.len() implies text::precedes(
            last,
            #[trigger] inner[a],
        ) by {
            assert(inner.contains(inner[a]));
            if inner[a] != day {
                let j = choose|j: int| 0 <= j < front.len() && front[j] == inner[a];
                assert(text::precedes(list[list.len() - 1], list[j]));
            }
        }
        assert forall|a: int, b: int| 0 <= a < b < after.len() implies text::precedes(
            #[trigger] after[b],
            #[trigger] after[a],
        ) by {
            if b < inner.len() {
                assert(text::precedes(inner[b], inner[a]));
            } else {
                assert(text::precedes(last, inner[a]));
            }
        }
        assert forall|d: Seq<char>| #[trigger]
            after.contains(d) <==> (d == day || list.contains(d)) by {
            assert(inner.contains(d) <==> (d == day || front.contains(d)));
            pushed_contains(inner, last, d);
            assert(list =~= front.push(last));
            pushed_contains(front, last, d);
        }
    }
}

/// Days come by descending date, one for each date on which there are records
/// and for no other.
pub proof fn days_descend(dates: Seq<Option<Seq<char>>>)
    ensures
        descending(usage::days(dates)),
        usage::days(dates).no_duplicates(),
        forall|d: Seq<char>| #[trigger]
            usage::days(dates).contains(d) <==> exists|i: int|
                0 <= i < dates.len() && #[trigger] dates[i] == Some(d),
    decreases dates.len(),
{
    let list = usage::days(dates);
    if dates.len() > 0 {
        let front = dates.drop_last();
        days_descend(front);
        if let Some(day) = dates.last() {
            day_is_added(usage::days(front), day);
        }
        assert forall|d: Seq<char>| #[trigger]
            list.contains(d) <==> exists|i: int|
                0 <= i < dates.len() && #[trigger] dates[i] == Some(d) by {
            if usage::days(front).contains(d) {
                let i = choose|i: int| 0 <= i < front.len() && #[trigger] front[i] == Some(d);
                assert(dates[i] == Some(d));
            }
            if dates.last() == Some(d) {
                assert(dates[dates.len() - 1] == Some(d));
            }
            if exists|i: int| 0 <= i < dates.len() && #[trigger] dates[i] == Some(d) {
                let i = choose|i: int| 0 <= i < dates.len() && #[trigger] dates[i] == Some(d);
                if i < front.len() {
                    assert(front[i] == Some(d));
                }
            }
        }
    }
    assert forall|a: int, b: int| 0 <= a < list.len() && 0 <= b < list.len() && a != b implies
        list[a] != list[b] by {
        if a < b {
            assert(text::precedes(list[b], list[a]));
        } else {
            assert(text::precedes(list[a], list[b]));
        }
        text::precedes_irreflexive(list[a]);
    }
}

/// The requests of all days together are the records that have a date: all of
/// them, where no date is missing.
pub proof fn days_add_up(
    list: Seq<DailySummary>,
    all: Seq<UsageRecord>,
    dates: Seq<Option<Seq<char>>>,
)
    requires
        usage::are_daily_summaries(list, all, dates),
    ensures
        sum(Seq::new(list.len(), |j: int| list[j].total_requests as int)) == selection::marked(
            Seq::new(dates.len(), |i: int| dates[i] is Some),
        ),
        usage::all_dated(dates) ==> sum(
            Seq::new(list.len(), |j: int| list[j].total_requests as int),
        ) == dates.len(),
{
    let keys = usage::days(dates);
    let worth = ones(dates.len());
    days_descend(dates);
    assert forall|i: int| 0 <= i < dates.len() && (#[trigger] dates[i]) is Some implies keys.contains(
        dates[i]->0,
    ) by {
        assert(dates[i] == Some(dates[i]->0));
    }
    totals_add_up(keys, dates, worth);
    let s = Seq::new(list.len(), |j: int| list[j].total_requests as int);
    assert forall|j: int| 0 <= j < s.len() implies #[trigger] s[j] == total_of(
        dates,
        worth,
        keys[j],
    ) by {
        assert(list[j].date@ == keys[j]);
        marked_is_total_of(usage::date_marks(dates, keys[j]), dates, worth, keys[j]);
    }
    sum_is_by_name(s, keys, dates, worth);
    marked_is_total(Seq::new(dates.len(), |i: int| dates[i] is Some), dates, worth);
    if usage::all_dated(dates) {
        total_is_length(dates, worth);
    }
}

proof fn nothing_marked(all: Seq<UsageRecord>, marks: Seq<bool>)
    requires
        all.len() <= marks.len(),
        forall|i: int| 0 <= i < all.len() ==> !#[trigger] marks[i],
    ensures
        selection::marked(marks.take(all.len() as int)) == 0,
        selection::input_sum(all, marks) == 0,
        selection::output_sum(all, marks) == 0,
        selection::charges(all, marks).len() == 0,
        selection::costs(all, marks).len() == 0,
        usage::models(all, marks).len() == 0,
    decreases all.len(),
{
    if all.len() > 0 {
        nothing_marked(all.drop_last(), marks);
        assert(marks.take(all.len() as int).drop_last() =~= marks.take(all.len() - 1));
        assert(!marks[all.len() - 1]);
    }
}

/// After a reset an API key has no records left, and its summary is empty.
pub proof fn reset_empties_the_summary(
    summary: UsageSummary,
    all: Seq<UsageRecord>,
    api_key_id: u32,
)
    requires
        usage::is_summary(summary, usage::without_key(all, api_key_id), api_key_id),
    ensures
        summary.total_requests == 0,
        summary.total_input_tokens == 0,
        summary.total_output_tokens == 0,
        summary.charges@.len() == 0,
        summary.by_model@.len() == 0,
{
    let left = usage::without_key(all, api_key_id);
    let marks = usage::owner_marks(left, Owner::Key(api_key_id));
    let other = |r: UsageRecord| r.api_key_id != api_key_id;
    assert forall|i: int| 0 <= i < left.len() implies !#[trigger] marks[i] by {
        all.lemma_filter_pred(other, i);
    }
    nothing_marked(left, marks);
    assert(marks.take(left.len() as int) =~= marks);
}

/// A reset of one API key leaves the records of every other as they are, in
/// their order.
pub proof fn reset_spares_other_keys(all: Seq<UsageRecord>, api_key_id: u32, other: u32)
    requires
        other != api_key_id,
    ensures
        usage::without_key(all, api_key_id).filter(|r: UsageRecord| r.api_key_id == other)
            == all.filter(|r: UsageRecord| r.api_key_id == other),
    decreases all.len(),
{
    reveal(Seq::filter);
    if all.len() > 0 {
        let front = all.drop_last();
        reset_spares_other_keys(front, api_key_id, other);
        let left = usage::without_key(front, api_key_id);
        assert(left.push(all.last()).drop_last() =~= left);
    }
}

/// The input tokens of records together.
pub open spec fn input_of(records: Seq<UsageRecord>) -> int {
    records.fold_left(0int, |sum: int, r: UsageRecord| sum + r.input_tokens)
}

/// The output tokens of records together.
pub open spec fn output_of(records: Seq<UsageRecord>) -> int {
    records.fold_left(0int, |sum: int, r: UsageRecord| sum + r.output_tokens)
}

/// Whether `n` is `sum`, or the end of `i64` beyond which `sum` lies.
pub open spec fn is_sum(n: i64, sum: int) -> bool {
    &&& i64::MIN <= sum <= i64::MAX ==> n == sum
    &&& sum > i64::MAX ==> n == i64::MAX
    &&& sum < i64::MIN ==> n == i64::MIN
}

/// Whether `list` holds what each record adds to sums of money, one for one and in
/// their order: its own cost, its own credits where they are known, and the rate of
/// its model.
pub open spec fn are_charges_of(list: Seq<Charge>, records: Seq<UsageRecord>) -> bool {
    &&& list.len() == records.len()
    &&& forall|j: int|
        0 <= j < list.len() ==> {
            &&& (#[trigger] list[j]).estimated_cost == records[j].estimated_cost
            &&& list[j].credits_used == records[j].credits_used
            &&& list[j].k_ref == pricing::k_ref_of(pricing::lowercase(records[j].model@))
        }
}

/// Whether `list` holds the cost of each record, one for one and in their order.
pub open spec fn are_costs_of(list: Seq<Amount>, records: Seq<UsageRecord>) -> bool {
    &&& list.len() == records.len()
    &&& forall|j: int|
        0 <= j < list.len() ==> #[trigger] list[j] == records[j].estimated_cost
}

/// Where marks stand on exactly the records that `keep` picks, counts, sums and
/// lists over the marks are those of the picked records.
proof fn marks_pick_records(
    all: Seq<UsageRecord>,
    marks: Seq<bool>,
    keep: spec_fn(UsageRecord) -> bool,
)
    requires
        all.len() <= marks.len(),
        forall|i: int| 0 <= i < all.len() ==> #[trigger] marks[i] == keep(all[i]),
    ensures
        selection::marked(marks.take(all.len() as int)) == all.filter(keep).len(),
        selection::input_sum(all, marks) == input_of(all.filter(keep)),
        selection::output_sum(all, marks) == output_of(all.filter(keep)),
        are_charges_of(selection::charges(all, marks), all.filter(keep)),
        are_costs_of(selection::costs(all, marks), all.filter(keep)),
    decreases all.len(),
{
    reveal(Seq::filter);
    if all.len() > 0 {
        let front = all.drop_last();
        assert forall|i: int| 0 <= i < front.len() implies #[trigger] marks[i] == keep(
            front[i],
        ) by {
            assert(front[i] == all[i]);
        }
        marks_pick_records(front, marks, keep);
        let n = all.len() - 1;
        assert(marks[n] == keep(all[n]));
        assert(marks.take(all.len() as int).drop_last() =~= marks.take(n));
        let picked = front.filter(keep);
        if keep(all.last()) {
            assert(picked.push(all.last()).drop_last() =~= picked);
        }
    } else {
        assert(marks.take(0) =~= Seq::empty());
    }
}

/// The summary of an API key is that of exactly the records with its id: how many
/// they are, their tokens, and what each of them adds to sums of money.
pub proof fn summary_is_of_the_keys_records(
    summary: UsageSummary,
    all: Seq<UsageRecord>,
    api_key_id: u32,
)
    requires
        usage::is_summary(summary, all, api_key_id),
    ensures
        ({
            let mine = all.filter(|r: UsageRecord| r.api_key_id == api_key_id);
            &&& summary.api_key_id == api_key_id
            &&& summary.total_requests == mine.len()
            &&& is_sum(summary.total_input_tokens, input_of(mine))
            &&& is_sum(summary.total_output_tokens, output_of(mine))
            &&& are_charges_of(summary.charges@, mine)
        }),
{
    let marks = usage::owner_marks(all, Owner::Key(api_key_id));
    marks_pick_records(all, marks, |r: UsageRecord| r.api_key_id == api_key_id);
    assert(marks.take(all.len() as int) =~= marks);
}

/// Each model of a summary sums up exactly the records of the key with that model,
/// and every model of such a record is there, once.
pub proof fn models_are_of_the_keys_records(
    summary: UsageSummary,
    all: Seq<UsageRecord>,
    api_key_id: u32,
    j: int,
)
    requires
        usage::is_summary(summary, all, api_key_id),
        0 <= j < summary.by_model@.len(),
    ensures
        ({
            let one = summary.by_model@[j];
            let mine = all.filter(
                |r: UsageRecord| r.api_key_id == api_key_id && r.model@ == one.model@,
            );
            &&& mine.len() > 0
            &&& one.requests == mine.len()
            &&& is_sum(one.input_tokens, input_of(mine))
            &&& is_sum(one.output_tokens, output_of(mine))
            &&& are_costs_of(one.costs@, mine)
        }),
        forall|k: int|
            0 <= k < summary.by_model@.len() && k != j ==> (
            #[trigger] summary.by_model@[k]).model@ != summary.by_model@[j].model@,
{
    let marks = usage::owner_marks(all, Owner::Key(api_key_id));
    let list = usage::models(all, marks);
    let one = summary.by_model@[j];
    assert(usage::is_model_usage(one, all, marks, list[j]));
    let of_model = usage::model_marks(all, marks, list[j]);
    let keep = |r: UsageRecord| r.api_key_id == api_key_id && r.model@ == one.model@;
    marks_pick_records(all, of_model, keep);
    assert(of_model.take(all.len() as int) =~= of_model);
    models_are_listed_once(all, marks);
    let i = choose|i: int|
        0 <= i < all.len() && marks[i] && (#[trigger] all[i]).model@ == list[j];
    all.lemma_filter_contains(keep, i);
    assert forall|k: int| 0 <= k < summary.by_model@.len() && k != j implies (
    #[trigger] summary.by_model@[k]).model@ != one.model@ by {
        assert(usage::is_model_usage(summary.by_model@[k], all, marks, list[k]));
        assert(list[k] != list[j]);
    }
}

/// Every record of an API key is counted under its model.
pub proof fn every_model_is_listed(
    summary: UsageSummary,
    all: Seq<UsageRecord>,
    api_key_id: u32,
    i: int,
)
    requires
        usage::is_summary(summary, all, api_key_id),
        0 <= i < all.len(),
        all[i].api_key_id == api_key_id,
    ensures
        exists|j: int|
            0 <= j < summary.by_model@.len() && (#[trigger] summary.by_model@[j]).model@
                == all[i].model@,
{
    let marks = usage::owner_marks(all, Owner::Key(api_key_id));
    let list = usage::models(all, marks);
    models_are_listed_once(all, marks);
    assert(marks[i]);
    assert(list.contains(all[i].model@));
    let j = choose|j: int| 0 <= j < list.len() && list[j] == all[i].model@;
    assert(usage::is_model_usage(summary.by_model@[j], all, marks, list[j]));
}

/// The costs of an API key are those of exactly the records with its id.
pub proof fn costs_are_of_the_keys_records(all: Seq<UsageRecord>, api_key_id: u32)
    ensures
        are_costs_of(
            selection::costs(all, usage::owner_marks(all, Owner::Key(api_key_id))),
            all.filter(|r: UsageRecord| r.api_key_id == api_key_id),
        ),
{
    let marks = usage::owner_marks(all, Owner::Key(api_key_id));
    marks_pick_records(all, marks, |r: UsageRecord| r.api_key_id == api_key_id);
}

/// Each day sums up exactly the records whose time, eight hours ahead of UTC, falls
/// on its date.
pub proof fn days_are_of_their_records(list: Seq<DailySummary>, all: Seq<UsageRecord>, j: int)
    requires
        usage::are_daily_summaries(list, all, usage::record_dates(all)),
        0 <= j < list.len(),
    ensures
        ({
            let of_day = all.filter(
                |r: UsageRecord|
                    calendar::date_text(r.created_at.secs, r.created_at.nanos, 28800) == Some(
                        list[j].date@,
                    ),
            );
            &&& of_day.len() > 0
            &&& list[j].total_requests == of_day.len()
            &&& are_charges_of(list[j].charges@, of_day)
        }),
{
    let dates = usage::record_dates(all);
    let day = usage::days(dates)[j];
    let marks = usage::date_marks(dates, day);
    let keep = |r: UsageRecord|
        calendar::date_text(r.created_at.secs, r.created_at.nanos, 28800) == Some(list[j].date@);
    assert(list[j].date@ == day);
    marks_pick_records(all, marks, keep);
    assert(marks.take(all.len() as int) =~= marks);
    days_descend(dates);
    assert(usage::days(dates).contains(day));
    let i = choose|i: int| 0 <= i < dates.len() && #[trigger] dates[i] == Some(day);
    all.lemma_filter_contains(keep, i);
}

/// Each day of given dates sums up exactly the records at the places of its date.
pub proof fn given_days_are_of_their_places(
    list: Seq<DailySummary>,
    all: Seq<UsageRecord>,
    dates: Seq<Option<Seq<char>>>,
    j: int,
)
    requires
        usage::are_daily_summaries(list, all, dates),
        dates.len() == all.len(),
        0 <= j < list.len(),
    ensures
        list[j].total_requests == dates.filter(
            |d: Option<Seq<char>>| d == Some(list[j].date@),
        ).len(),
        list[j].charges@.len() == list[j].total_requests,
        forall|i: int|
            0 <= i < all.len() && #[trigger] dates[i] == Some(list[j].date@) ==> exists|k: int|
                0 <= k < list[j].charges@.len() && (#[trigger] list[j].charges@[k]).estimated_cost
                    == all[i].estimated_cost && list[j].charges@[k].credits_used
                    == all[i].credits_used,
{
    let day = usage::days(dates)[j];
    assert(list[j].date@ == day);
    let marks = usage::date_marks(dates, day);
    places_are_charged(all, marks, dates, day);
    assert(dates.take(all.len() as int) =~= dates);
    assert(marks.take(all.len() as int) =~= marks);
}

proof fn places_are_charged(
    all: Seq<UsageRecord>,
    marks: Seq<bool>,
    dates: Seq<Option<Seq<char>>>,
    day: Seq<char>,
)
    requires
        all.len() <= marks.len(),
        dates.len() == marks.len(),
        forall|i: int| 0 <= i < all.len() ==> #[trigger] marks[i] == (dates[i] == Some(day)),
    ensures
        ({
            let list = selection::charges(all, marks);
            let n = all.len() as int;
            &&& selection::marked(marks.take(n)) == list.len()
            &&& dates.take(n).filter(|d: Option<Seq<char>>| d == Some(day)).len() == list.len()
            &&& forall|i: int|
                0 <= i < all.len() && #[trigger] dates[i] == Some(day) ==> exists|k: int|
                    0 <= k < list.len() && (#[trigger] list[k]).estimated_cost
                        == all[i].estimated_cost && list[k].credits_used == all[i].credits_used
        }),
    decreases all.len(),
{
    reveal(Seq::filter);
    let n = all.len() as int;
    if n > 0 {
        let front = all.drop_last();
        places_are_charged(front, marks, dates, day);
        assert(marks.take(n).drop_last() =~= marks.take(n - 1));
        assert(dates.take(n).drop_last() =~= dates.take(n - 1));
        assert(marks[n - 1] == (dates[n - 1] == Some(day)));
        let before = selection::charges(front, marks);
        let list = selection::charges(all, marks);
        assert forall|i: int| 0 <= i < n && #[trigger] dates[i] == Some(day) implies exists|k: int|
            0 <= k < list.len() && (#[trigger] list[k]).estimated_cost == all[i].estimated_cost
                && list[k].credits_used == all[i].credits_used by {
            if i < n - 1 {
                let k = choose|k: int|
                    0 <= k < before.len() && (#[trigger] before[k]).estimated_cost
                        == front[i].estimated_cost && before[k].credits_used
                        == front[i].credits_used;
                assert(list[k] == before[k]);
            } else {
                assert(list[before.len() as int].estimated_cost == all[i].estimated_cost);
            }
        }
    } else {
        assert(marks.take(0) =~= Seq::empty());
        assert(dates.take(0) =~= Seq::empty());
    }
}

} // verus!
