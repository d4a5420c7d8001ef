//! The happens-before relation read off vector clocks.

use vstd::prelude::*;
use crate::event::Event;

verus! {

/// How two events are ordered by their vector clocks.
#[derive(Clone, Copy, Debug, PartialEq, Eq, Structural)]
pub enum Order {
    Before,
    After,
    Concurrent,
    Equal,
}

/// Every entry of `a` is at most the matching entry of `b`.
pub open spec fn all_le(a: Seq<usize>, b: Seq<usize>) -> bool {
    forall|j: int| 0 <= j < a.len() ==> a[j] <= b[j]
}

/// Some entry of `a` is smaller than the matching entry of `b`.
pub open spec fn some_lt(a: Seq<usize>, b: Seq<usize>) -> bool {
    exists|j: int| 0 <= j < a.len() && a[j] < b[j]
}

/// The order of two clocks of the same length: `Before` when `a` is
/// nowhere larger and somewhere smaller, `After` the other way round,
/// `Equal` when they agree, `Concurrent` when each is larger somewhere.
pub open spec fn order_of(a: Seq<usize>, b: Seq<usize>) -> Order {
    if all_le(a, b) && some_lt(a, b) {
        Order::Before
    } else if all_le(b, a) && some_lt(b, a) {
        Order::After
    } else if some_lt(a, b) && some_lt(b, a) {
        Order::Concurrent
    } else {
        Order::Equal
    }
}

/// Returns whether some entry of `a` exceeds the matching entry of `b`.
fn exceeds_somewhere(a: &Vec<usize>, b: &Vec<usize>) -> (r: bool)
    requires
        a@.len() == b@.len(),
    ensures
        r == some_lt(b@, a@),
{
    let mut j: usize = 0;
    while j < a.len()
        invariant
            a@.len() == b@.len(),
            0 <= j <= a@.len(),
            forall|k: int| 0 <= k < j ==> a@[k] <= b@[k],
        decreases a@.len() - j,
    {
        if a[j] > b[j] {
            return true;
        }
        j = j + 1;
    }
    false
}

/// Compares two events by their vector clocks.
pub fn compare(e1: &Event, e2: &Event) -> (r: Order)
    requires
        e1.vector_clock@.len() == e2.vector_clock@.len(),
    ensures
        r == order_of(e1.vector_clock@, e2.vector_clock@),
{
    let a_lt = exceeds_somewhere(&e2.vector_clock, &e1.vector_clock);
    let b_lt = exceeds_somewhere(&e1.vector_clock, &e2.vector_clock);
    if a_lt && !b_lt {
        Order::Before
    } else if b_lt && !a_lt {
        Order::After
    } else if a_lt && b_lt {
        Order::Concurrent
    } else {
        Order::Equal
    }
}

/// Whether neither event's clock dominates the other's: each is larger in
/// some entry.
pub fn are_concurrent(e1: &Event, e2: &Event) -> (r: bool)
    requires
        e1.vector_clock@.len() == e2.vector_clock@.len(),
    ensures
        r == (order_of(e1.vector_clock@, e2.vector_clock@) == Order::Concurrent),
{
    exceeds_somewhere(&e1.vector_clock, &e2.vector_clock) && exceeds_somewhere(
        &e2.vector_clock,
        &e1.vector_clock,
    )
}

/// Events `i` and `j` are concurrent.
pub open spec fn concurrent_at(events: Seq<Event>, i: int, j: int) -> bool {
    order_of(events[i].vector_clock@, events[j].vector_clock@) == Order::Concurrent
}

/// Number of events `j` with `i < j < k` that are concurrent with event `i`.
pub open spec fn concurrent_after(events: Seq<Event>, i: int, k: int) -> nat
    decreases k - i,
{
    if k <= i + 1 {
        0
    } else {
        concurrent_after(events, i, k - 1) + if concurrent_at(events, i, k - 1) {
            1nat
        } else {
            0nat
        }
    }
}

/// Number of unordered pairs of concurrent events whose first member is
/// among the first `m` events.
pub open spec fn concurrent_pairs(events: Seq<Event>, m: int) -> nat
    decreases m,
{
    if m <= 0 {
        0
    } else {
        concurrent_pairs(events, m - 1) + concurrent_after(events, m - 1, events.len() as int)
    }
}

/// All events carry clocks of the same length.
pub open spec fn uniform_clocks(events: Seq<Event>) -> bool {
    forall|i: int, j: int|
        0 <= i < events.len() && 0 <= j < events.len() ==> (#[trigger] events[i]).vector_clock@.len()
            == (#[trigger] events[j]).vector_clock@.len()
}

/// Counts the unordered pairs of concurrent events. Compares every pair:
/// quadratic in the number of events.
pub fn count_concurrent_events(events: &Vec<Event>) -> (r: usize)
    requires
        uniform_clocks(events@),
        events@.len() * events@.len() <= usize::MAX,
    ensures
        r == concurrent_pairs(events@, events@.len() as int),
{
    let len = events.len();
    let mut count: usize = 0;
    let mut i: usize = 0;
    while i < len
        invariant
            len == events@.len(),
            uniform_clocks(events@),
            len * len <= usize::MAX,
            0 <= i <= len,
            count == concurrent_pairs(events@, i as int),
            count <= i * len,
        decreases len - i,
    {
        let mut j: usize = i + 1;
        let ghost start = count;
        while j < len
            invariant
                len == events@.len(),
                uniform_clocks(events@),
                len * len <= usize::MAX,
                0 <= i < len,
                i + 1 <= j <= len,
                start <= i * len,
                count == start + concurrent_after(events@, i as int, j as int),
                count <= start + j - i - 1,
            decreases len - j,
        {
            proof {
                assert(events@[i as int].vector_clock@.len() == events@[j as int].vector_clock@.len());
            }
            if are_concurrent(&events[i], &events[j]) {
                proof {
                    assert(i * len + len <= len * len) by (nonlinear_arith)
                        requires
                            i < len,
                    ;
                }
                count = count + 1;
            }
            j = j + 1;
        }
        proof {
            assert((i + 1) * len == i * len + len) by (nonlinear_arith);
            assert((i + 1) * len <= len * len) by (nonlinear_arith)
                requires
                    i < len,
            ;
        }
        i = i + 1;
    }
    count
}

/// Pairs `(i, j)` with `i == r`, `r < j < k` and the two events concurrent.
pub open spec fn concurrent_row(events: Seq<Event>, r: int, k: int) -> Set<(int, int)> {
    Set::new(|p: (int, int)| p.0 == r && r < p.1 < k && concurrent_at(events, p.0, p.1))
}

/// Unordered pairs of concurrent events, each written `(i, j)` with `i < j`,
/// whose first member is among the first `m` events.
pub open spec fn concurrent_pair_set(events: Seq<Event>, m: int) -> Set<(int, int)> {
    Set::new(
        |p: (int, int)| 0 <= p.0 < m && p.0 < p.1 < events.len() && concurrent_at(events, p.0, p.1),
    )
}

proof fn lemma_row_len(events: Seq<Event>, r: int, k: int)
    ensures
        concurrent_row(events, r, k).finite(),
        concurrent_row(events, r, k).len() == concurrent_after(events, r, k),
    decreases k - r,
{
    if k <= r + 1 {
        assert(concurrent_row(events, r, k) =~= Set::empty());
    } else {
        lemma_row_len(events, r, k - 1);
        let prev = concurrent_row(events, r, k - 1);
        if concurrent_at(events, r, k - 1) {
            assert(concurrent_row(events, r, k) =~= prev.insert((r, k - 1)));
            assert(!prev.contains((r, k - 1)));
        } else {
            assert(concurrent_row(events, r, k) =~= prev);
        }
    }
}

proof fn lemma_pair_set_len(events: Seq<Event>, m: int)
    requires
        0 <= m,
    ensures
        concurrent_pair_set(events, m).finite(),
        concurrent_pair_set(events, m).len() == concurrent_pairs(events, m),
    decreases m,
{
    if m == 0 {
        assert(concurrent_pair_set(events, m) =~= Set::empty());
    } else {
        lemma_pair_set_len(events, m - 1);
        let len = events.len() as int;
        let prev = concurrent_pair_set(events, m - 1);
        let row = concurrent_row(events, m - 1, len);
        lemma_row_len(events, m - 1, len);
        assert(concurrent_pair_set(events, m) =~= prev + row);
        assert(prev.disjoint(row));
        vstd::set_lib::lemma_set_disjoint_lens(prev, row);
    }
}

/// The concurrent-pair count is the number of unordered pairs of distinct
/// events whose clocks are neither `Before`, `After` nor `Equal`.
pub proof fn lemma_concurrent_pairs_is_pair_count(events: Seq<Event>)
    ensures
        concurrent_pair_set(events, events.len() as int).finite(),
        concurrent_pairs(events, events.len() as int) == concurrent_pair_set(
            events,
            events.len() as int,
        ).len(),
        forall|p: (int, int)|
            #[trigger] concurrent_pair_set(events, events.len() as int).contains(p) <==> {
                &&& 0 <= p.0 < p.1 < events.len()
                &&& order_of(events[p.0].vector_clock@, events[p.1].vector_clock@) != Order::Before
                &&& order_of(events[p.0].vector_clock@, events[p.1].vector_clock@) != Order::After
                &&& order_of(events[p.0].vector_clock@, events[p.1].vector_clock@) != Order::Equal
            },
{
    lemma_pair_set_len(events, events.len() as int);
}

/// `Before` and `After` mirror each other, no clock is before or after
/// itself, and concurrency is symmetric.
pub proof fn lemma_order_antisymmetric(a: Seq<usize>, b: Seq<usize>)
    requires
        a.len() == b.len(),
    ensures
        order_of(a, b) == Order::Before <==> order_of(b, a) == Order::After,
        order_of(a, b) == Order::After <==> order_of(b, a) == Order::Before,
        order_of(a, b) == Order::Concurrent <==> order_of(b, a) == Order::Concurrent,
        order_of(a, b) == Order::Equal <==> order_of(b, a) == Order::Equal,
        order_of(a, b) == Order::Equal <==> a == b,
        order_of(a, a) == Order::Equal,
{
    if order_of(a, b) == Order::Equal {
        assert forall|j: int| 0 <= j < a.len() implies a[j] == b[j] by {
            if a[j] < b[j] {
                assert(some_lt(a, b));
            } else if b[j] < a[j] {
                assert(some_lt(b, a));
            }
        }
        assert(a =~= b);
    }
}

} // verus!
