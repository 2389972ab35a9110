//! Usage records, marked records among them, their totals and their order by
//! time.

use crate::pricing;
use vstd::prelude::*;

verus! {

/// An amount as the bits of a binary64 number. It is carried, never reckoned with.
#[derive(Debug, Clone, Copy, PartialEq, Eq, Structural)]
pub struct Amount {
    pub bits: u64,
}

/// A point in time: seconds since 1970 in UTC and nanoseconds beyond them.
#[derive(Debug, Clone, Copy, PartialEq, Eq, Structural)]
pub struct Timestamp {
    pub secs: i64,
    pub nanos: u32,
}

/// One request.
#[derive(Debug, Clone)]
pub struct UsageRecord {
    /// The API key; 0 is the main key.
    pub api_key_id: u32,
    /// The account, where it is known.
    pub credential_id: Option<u64>,
    pub model: String,
    pub input_tokens: i32,
    pub output_tokens: i32,
    /// Estimated cost in dollars.
    pub estimated_cost: Amount,
    /// Credits really used, where they are known.
    pub credits_used: Option<Amount>,
    pub cache_read_input_tokens: Option<i32>,
    pub cache_creation_input_tokens: Option<i32>,
    pub created_at: Timestamp,
    pub client_ip: Option<String>,
}

/// What a record adds to sums of money: its cost, the credits really used, and
/// the credits that a dollar stands for, in hundredths.
#[derive(Debug, Clone, Copy, PartialEq, Eq, Structural)]
pub struct Charge {
    pub estimated_cost: Amount,
    pub credits_used: Option<Amount>,
    pub k_ref: u32,
}

/// What a record adds to sums of money.
pub open spec fn charge_of(r: UsageRecord) -> Charge {
    Charge {
        estimated_cost: r.estimated_cost,
        credits_used: r.credits_used,
        k_ref: pricing::k_ref_of(pricing::lowercase(r.model@)),
    }
}

/// How many marks are set.
pub open spec fn marked(marks: Seq<bool>) -> nat
    decreases marks.len(),
{
    if marks.len() == 0 {
        0
    } else {
        marked(marks.drop_last()) + if marks.last() {
            1nat
        } else {
            0nat
        }
    }
}

/// Input tokens in the marked records.
pub open spec fn input_sum(all: Seq<UsageRecord>, marks: Seq<bool>) -> int
    decreases all.len(),
{
    if all.len() == 0 {
        0
    } else {
        input_sum(all.drop_last(), marks) + if marks[all.len() - 1] {
            all.last().input_tokens as int
        } else {
            0
        }
    }
}

/// Output tokens in the marked records.
pub open spec fn output_sum(all: Seq<UsageRecord>, marks: Seq<bool>) -> int
    decreases all.len(),
{
    if all.len() == 0 {
        0
    } else {
        output_sum(all.drop_last(), marks) + if marks[all.len() - 1] {
            all.last().output_tokens as int
        } else {
            0
        }
    }
}

/// The charges of the marked records, in order.
pub open spec fn charges(all: Seq<UsageRecord>, marks: Seq<bool>) -> Seq<Charge>
    decreases all.len(),
{
    if all.len() == 0 {
        Seq::empty()
    } else if marks[all.len() - 1] {
        charges(all.drop_last(), marks).push(charge_of(all.last()))
    } else {
        charges(all.drop_last(), marks)
    }
}

/// The costs of the marked records, in order.
pub open spec fn costs(all: Seq<UsageRecord>, marks: Seq<bool>) -> Seq<Amount>
    decreases all.len(),
{
    if all.len() == 0 {
        Seq::empty()
    } else if marks[all.len() - 1] {
        costs(all.drop_last(), marks).push(all.last().estimated_cost)
    } else {
        costs(all.drop_last(), marks)
    }
}

/// `n` held between the smallest and the largest `i64`.
pub open spec fn clamped(n: int) -> int {
    if n > i64::MAX {
        i64::MAX as int
    } else if n < i64::MIN {
        i64::MIN as int
    } else {
        n
    }
}

/// Whether `a` is later than `b`.
pub open spec fn later(a: Timestamp, b: Timestamp) -> bool {
    a.secs > b.secs || (a.secs == b.secs && a.nanos > b.nanos)
}

/// `order` with the place of one more record, which stands before all of `order`
/// in the list: behind those that are later, before the others.
pub open spec fn placed(all: Seq<UsageRecord>, order: Seq<int>, i: int) -> Seq<int>
    decreases order.len(),
{
    if order.len() > 0 && !later(all[order.last()].created_at, all[i].created_at) {
        placed(all, order.drop_last(), i).push(order.last())
    } else {
        order.push(i)
    }
}

/// The places of the marked records from place `i` on, the latest first.
pub open spec fn newest_from(all: Seq<UsageRecord>, marks: Seq<bool>, i: int) -> Seq<int>
    decreases all.len() - i,
{
    if i >= all.len() {
        Seq::empty()
    } else if marks[i] {
        placed(all, newest_from(all, marks, i + 1), i)
    } else {
        newest_from(all, marks, i + 1)
    }
}

/// The places of the marked records, the latest first; of records of one time
/// the earlier in the list comes first.
pub open spec fn newest_first(all: Seq<UsageRecord>, marks: Seq<bool>) -> Seq<int> {
    newest_from(all, marks, 0)
}

/// How many marks are set.
pub fn count_marked(marks: &Vec<bool>) -> (r: u64)
    ensures
        r == marked(marks@),
{
    let mut n: u64 = 0;
    let mut i: usize = 0;
    while i < marks.len()
        invariant
            i <= marks.len(),
            n == marked(marks@.take(i as int)),
            n <= i,
        decreases marks.len() - i,
    {
        assert(marks@.take(i + 1).drop_last() =~= marks@.take(i as int));
        if marks[i] {
            n += 1;
        }
        i += 1;
    }
    assert(marks@.take(marks.len() as int) =~= marks@);
    n
}

/// Holds a sum within `i64`.
fn clamp(n: i128) -> (r: i64)
    ensures
        r == clamped(n as int),
{
    if n > 0x7fff_ffff_ffff_ffff {
        i64::MAX
    } else if n < -0x8000_0000_0000_0000 {
        i64::MIN
    } else {
        n as i64
    }
}

/// Input and output tokens in the marked records, each held within `i64`.
pub fn sum_tokens(all: &Vec<UsageRecord>, marks: &Vec<bool>) -> (r: (i64, i64))
    requires
        marks.len() == all.len(),
    ensures
        r.0 == clamped(input_sum(all@, marks@)),
        r.1 == clamped(output_sum(all@, marks@)),
{
    let mut input: i128 = 0;
    let mut output: i128 = 0;
    let mut i: usize = 0;
    while i < all.len()
        invariant
            i <= all.len(),
            marks.len() == all.len(),
            input == input_sum(all@.take(i as int), marks@),
            output == output_sum(all@.take(i as int), marks@),
            -0x8000_0000 * i <= input <= 0x8000_0000 * i,
            -0x8000_0000 * i <= output <= 0x8000_0000 * i,
        decreases all.len() - i,
    {
        assert(all@.take(i + 1).drop_last() =~= all@.take(i as int));
        if marks[i] {
            input += all[i].input_tokens as i128;
            output += all[i].output_tokens as i128;
        }
        i += 1;
    }
    assert(all@.take(all.len() as int) =~= all@);
    (clamp(input), clamp(output))
}

/// The charges of the marked records, in order.
pub fn list_charges(all: &Vec<UsageRecord>, marks: &Vec<bool>) -> (r: Vec<Charge>)
    requires
        marks.len() == all.len(),
    ensures
        r@ == charges(all@, marks@),
{
    let mut r: Vec<Charge> = Vec::new();
    let mut i: usize = 0;
    while i < all.len()
        invariant
            i <= all.len(),
            marks.len() == all.len(),
            r@ == charges(all@.take(i as int), marks@),
        decreases all.len() - i,
    {
        assert(all@.take(i + 1).drop_last() =~= all@.take(i as int));
        if marks[i] {
            r.push(
                Charge {
                    estimated_cost: all[i].estimated_cost,
                    credits_used: all[i].credits_used,
                    k_ref: pricing::get_k_ref(all[i].model.as_str()),
                },
            );
        }
        i += 1;
    }
    assert(all@.take(all.len() as int) =~= all@);
    r
}

/// The costs of the marked records, in order.
pub fn list_costs(all: &Vec<UsageRecord>, marks: &Vec<bool>) -> (r: Vec<Amount>)
    requires
        marks.len() == all.len(),
    ensures
        r@ == costs(all@, marks@),
{
    let mut r: Vec<Amount> = Vec::new();
    let mut i: usize = 0;
    while i < all.len()
        invariant
            i <= all.len(),
            marks.len() == all.len(),
            r@ == costs(all@.take(i as int), marks@),
        decreases all.len() - i,
    {
        assert(all@.take(i + 1).drop_last() =~= all@.take(i as int));
        if marks[i] {
            r.push(all[i].estimated_cost);
        }
        i += 1;
    }
    assert(all@.take(all.len() as int) =~= all@);
    r
}

/// Whether `a` is later than `b`.
fn is_later(a: &Timestamp, b: &Timestamp) -> (r: bool)
    ensures
        r == later(*a, *b),
{
    a.secs > b.secs || (a.secs == b.secs && a.nanos > b.nanos)
}

/// A list of places as numbers.
pub open spec fn places(order: Seq<usize>) -> Seq<int> {
    Seq::new(order.len(), |k: int| order[k] as int)
}

/// The places of the marked records, the latest first.
pub fn sort_newest_first(all: &Vec<UsageRecord>, marks: &Vec<bool>) -> (r: Vec<usize>)
    requires
        marks.len() == all.len(),
    ensures
        places(r@) == newest_first(all@, marks@),
        forall|k: int| 0 <= k < r.len() ==> (#[trigger] r@[k]) < all.len(),
{
    let mut order: Vec<usize> = Vec::new();
    let mut i: usize = all.len();
    assert(places(order@) =~= Seq::empty());
    while i > 0
        invariant
            i <= all.len(),
            marks.len() == all.len(),
            places(order@) == newest_from(all@, marks@, i as int),
            forall|k: int| 0 <= k < order.len() ==> (#[trigger] order@[k]) < all.len(),
        decreases i,
    {
        i -= 1;
        if marks[i] {
            place(all, &mut order, i);
        }
    }
    order
}

/// Puts one more place into an order.
fn place(all: &Vec<UsageRecord>, order: &mut Vec<usize>, i: usize)
    requires
        i < all.len(),
        forall|k: int| 0 <= k < old(order).len() ==> (#[trigger] old(order)@[k]) < all.len(),
    ensures
        places(final(order)@) == placed(all@, places(old(order)@), i as int),
        forall|k: int| 0 <= k < final(order).len() ==> (#[trigger] final(order)@[k]) < all.len(),
{
    let ghost before = places(order@);
    let mut n: usize = order.len();
    assert(before.take(n as int) =~= before);
    assert(placed(all@, before, i as int) =~= placed(all@, before, i as int) + before.skip(
        n as int,
    ));
    while n > 0 && !is_later(&all[order[n - 1]].created_at, &all[i].created_at)
        invariant
            n <= order.len(),
            i < all.len(),
            forall|k: int| 0 <= k < order.len() ==> (#[trigger] order@[k]) < all.len(),
            order@ == old(order)@,
            before == places(order@),
            placed(all@, before, i as int) == placed(all@, before.take(n as int), i as int)
                + before.skip(n as int),
        decreases n,
    {
        let ghost front = before.take(n as int);
        assert(front.last() == before[n - 1]);
        assert(front.drop_last() =~= before.take(n - 1));
        assert(placed(all@, before.take(n - 1), i as int).push(before[n - 1]) + before.skip(
            n as int,
        ) =~= placed(all@, before.take(n - 1), i as int) + before.skip(n - 1));
        n -= 1;
    }
    let ghost front = before.take(n as int);
    assert(n > 0 ==> front.last() == order@[n - 1]);
    assert(placed(all@, front, i as int) == front.push(i as int));
    order.insert(n, i);
    assert(places(order@) =~= front.push(i as int) + before.skip(n as int));
}

/// Places are seen as their numbers, one by one and in their order.
pub proof fn places_are_seen_whole(order: Seq<usize>, k: int)
    requires
        0 <= k < order.len(),
    ensures
        places(order).len() == order.len(),
        places(order)[k] == order[k],
{
}

} // verus!
