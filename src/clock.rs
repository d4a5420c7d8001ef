//! Vector clocks, assigned in one pass over the log.

use vstd::prelude::*;
use crate::event::{Event, EventKind, EventLog, LogError, host_count, well_formed_events};
use crate::order::{Order, order_of, all_le, some_lt};

verus! {

/// Index of the last event of host `h` among the first `k` events, or -1.
pub open spec fn last_on_host(events: Seq<Event>, h: int, k: int) -> int
    decreases k,
{
    if k <= 0 {
        -1
    } else if events[k - 1].host == h {
        k - 1
    } else {
        last_on_host(events, h, k - 1)
    }
}

/// `e` is the Send event with local clock `sc` on host `sh`.
pub open spec fn is_send_of(e: Event, sh: usize, sc: usize) -> bool {
    e.kind == EventKind::Send && e.host == sh && e.clock == sc
}

/// Index of the last Send event with local clock `sc` on host `sh` among the
/// first `k` events, or -1.
pub open spec fn find_send(events: Seq<Event>, k: int, sh: usize, sc: usize) -> int
    decreases k,
{
    if k <= 0 {
        -1
    } else if is_send_of(events[k - 1], sh, sc) {
        k - 1
    } else {
        find_send(events, k - 1, sh, sc)
    }
}

/// If event `i` is a receive, its Send event comes earlier in the log.
pub open spec fn receive_resolved(events: Seq<Event>, i: int) -> bool {
    match events[i].kind {
        EventKind::Receive { from_host, from_clock } => find_send(events, i, from_host, from_clock)
            >= 0,
        _ => true,
    }
}

/// Every receive of the log comes after its Send event.
pub open spec fn all_resolved(events: Seq<Event>) -> bool {
    forall|i: int| 0 <= i < events.len() ==> #[trigger] receive_resolved(events, i)
}

pub open spec fn zeros(n: nat) -> Seq<int> {
    Seq::new(n, |j: int| 0int)
}

pub open spec fn max_int(a: int, b: int) -> int {
    if a >= b {
        a
    } else {
        b
    }
}

/// Vector clock of event `i` over `n` hosts: the clock of the previous event
/// of its host (zero for the first), with its own host's entry raised by one
/// and, for a receive, every other entry raised to that of the Send event.
pub open spec fn vclock(events: Seq<Event>, n: nat, i: int) -> Seq<int>
    decreases i,
{
    let h = events[i].host as int;
    let p = last_on_host(events, h, i);
    let base = if 0 <= p < i {
        vclock(events, n, p)
    } else {
        zeros(n)
    };
    let bumped = base.update(h, base[h] + 1);
    match events[i].kind {
        EventKind::Receive { from_host, from_clock } => {
            let s = find_send(events, i, from_host, from_clock);
            if 0 <= s < i {
                let snap = vclock(events, n, s);
                Seq::new(
                    n,
                    |j: int|
                        if j == h {
                            bumped[j]
                        } else {
                            max_int(bumped[j], snap[j])
                        },
                )
            } else {
                bumped
            }
        },
        _ => bumped,
    }
}

/// `v` holds the clock values `w`.
pub open spec fn clock_is(v: Seq<usize>, w: Seq<int>) -> bool {
    &&& v.len() == w.len()
    &&& forall|j: int| 0 <= j < v.len() ==> v[j] as int == #[trigger] w[j]
}

/// The clock host `h` has reached after the first `k` events: that of its
/// last event so far, or zero.
pub open spec fn running_clock(events: Seq<Event>, n: nat, h: int, k: int) -> Seq<int> {
    let p = last_on_host(events, h, k);
    if 0 <= p < k {
        vclock(events, n, p)
    } else {
        zeros(n)
    }
}

/// `b` is `a` with vector clocks filled in: the same events in the same
/// order, each carrying its vector clock over `n` hosts.
pub open spec fn clocks_assigned(a: Seq<Event>, b: Seq<Event>, n: nat) -> bool {
    &&& a.len() == b.len()
    &&& forall|i: int|
        0 <= i < a.len() ==> {
            &&& (#[trigger] b[i]).kind == a[i].kind
            &&& b[i].host == a[i].host
            &&& b[i].clock == a[i].clock
            &&& clock_is(b[i].vector_clock@, vclock(a, n, i))
        }
}

proof fn lemma_host_count_same_hosts(a: Seq<Event>, b: Seq<Event>, h: int, k: int)
    requires
        a.len() == b.len(),
        k <= a.len(),
        forall|i: int| 0 <= i < a.len() ==> (#[trigger] b[i]).host == a[i].host,
    ensures
        host_count(a, h, k) == host_count(b, h, k),
    decreases k,
{
    if k > 0 {
        lemma_host_count_same_hosts(a, b, h, k - 1);
    }
}

/// A log whose events keep their kind, host and local clock stays well formed.
proof fn lemma_wf_same_skeleton(a: Seq<Event>, b: Seq<Event>, n: int)
    requires
        well_formed_events(a, n),
        a.len() == b.len(),
        forall|i: int|
            0 <= i < a.len() ==> {
                &&& (#[trigger] b[i]).kind == a[i].kind
                &&& b[i].host == a[i].host
                &&& b[i].clock == a[i].clock
            },
    ensures
        well_formed_events(b, n),
{
    assert forall|i: int| 0 <= i < b.len() implies #[trigger] crate::event::event_in_order(
        b,
        n,
        i,
    ) by {
        assert(crate::event::event_in_order(a, n, i));
        lemma_host_count_same_hosts(a, b, a[i].host as int, i);
    }
    assert forall|i: int| 0 <= i < b.len() implies #[trigger] crate::event::sender_resolvable(
        b,
        n,
        i,
    ) by {
        assert(crate::event::sender_resolvable(a, n, i));
        match a[i].kind {
            EventKind::Receive { from_host, from_clock } => {
                lemma_host_count_same_hosts(a, b, from_host as int, a.len() as int);
            },
            _ => {},
        }
    }
}

proof fn lemma_host_count_mono(events: Seq<Event>, h: int, k1: int, k2: int)
    requires
        k1 <= k2,
    ensures
        host_count(events, h, k1) <= host_count(events, h, k2),
    decreases k2 - k1,
{
    if k1 < k2 {
        lemma_host_count_mono(events, h, k1, k2 - 1);
    }
}

/// No event of host `h` lies at an index in `lo .. k`.
proof fn lemma_host_count_gap(events: Seq<Event>, h: int, lo: int, k: int)
    requires
        0 <= lo <= k <= events.len(),
        forall|j: int| lo <= j < k ==> (#[trigger] events[j]).host != h,
    ensures
        host_count(events, h, k) == host_count(events, h, lo),
    decreases k - lo,
{
    if lo < k {
        lemma_host_count_gap(events, h, lo, k - 1);
    }
}

proof fn lemma_last_on_host(events: Seq<Event>, h: int, k: int)
    requires
        0 <= k <= events.len(),
    ensures
        last_on_host(events, h, k) >= 0 ==> {
            &&& events[last_on_host(events, h, k)].host == h
            &&& host_count(events, h, k) == host_count(events, h, last_on_host(events, h, k) + 1)
        },
        last_on_host(events, h, k) < 0 ==> host_count(events, h, k) == 0,
        -1 <= last_on_host(events, h, k) < k,
    decreases k,
{
    if k > 0 {
        lemma_last_on_host(events, h, k - 1);
    }
}

proof fn lemma_find_send(events: Seq<Event>, k: int, sh: usize, sc: usize)
    requires
        0 <= k <= events.len(),
    ensures
        -1 <= find_send(events, k, sh, sc) < k,
        find_send(events, k, sh, sc) >= 0 ==> is_send_of(events[find_send(events, k, sh, sc)], sh, sc),
    decreases k,
{
    if k > 0 {
        lemma_find_send(events, k - 1, sh, sc);
    }
}

/// Each entry `j` of a vector clock counts at most the events of host `j`
/// up to and including the event; the event's own entry counts exactly its
/// host's events so far, which is its local clock.
proof fn lemma_vclock_entries(events: Seq<Event>, n: nat, i: int)
    requires
        well_formed_events(events, n as int),
        0 <= i < events.len(),
    ensures
        vclock(events, n, i).len() == n,
        forall|j: int| 0 <= j < n ==> 0 <= #[trigger] vclock(events, n, i)[j] <= host_count(events, j, i + 1),
        vclock(events, n, i)[events[i].host as int] == events[i].clock,
    decreases i,
{
    let h = events[i].host as int;
    assert(crate::event::event_in_order(events, n as int, i));
    let p = last_on_host(events, h, i);
    lemma_last_on_host(events, h, i);
    let base = if 0 <= p < i { vclock(events, n, p) } else { zeros(n) };
    if 0 <= p < i {
        lemma_vclock_entries(events, n, p);
        assert forall|j: int| 0 <= j < n implies 0 <= #[trigger] base[j] <= host_count(events, j, i) by {
            lemma_host_count_mono(events, j, p + 1, i);
        }
        assert(crate::event::event_in_order(events, n as int, p));
        assert(host_count(events, h, p + 1) == host_count(events, h, p) + 1);
        assert(base[h] == host_count(events, h, i));
    }
    let bumped = base.update(h, base[h] + 1);
    assert forall|j: int| 0 <= j < n implies 0 <= #[trigger] bumped[j] <= host_count(events, j, i + 1) by {
        lemma_host_count_mono(events, j, i, i + 1);
    }
    match events[i].kind {
        EventKind::Receive { from_host, from_clock } => {
            let s = find_send(events, i, from_host, from_clock);
            lemma_find_send(events, i, from_host, from_clock);
            if 0 <= s < i {
                lemma_vclock_entries(events, n, s);
                assert forall|j: int| 0 <= j < n implies 0 <= #[trigger] vclock(events, n, i)[j]
                    <= host_count(events, j, i + 1) by {
                    lemma_host_count_mono(events, j, s + 1, i + 1);
                }
            }
        },
        _ => {},
    }
}

/// Every host's own entry rises by exactly one from each of its events to
/// the next: it equals the event's local clock.
pub proof fn lemma_own_entry_steps(events: Seq<Event>, n: nat, i: int, k: int)
    requires
        well_formed_events(events, n as int),
        0 <= i < k < events.len(),
        events[i].host == events[k].host,
        forall|j: int| i < j < k ==> (#[trigger] events[j]).host != events[i].host,
    ensures
        vclock(events, n, i)[events[i].host as int] == events[i].clock,
        vclock(events, n, k)[events[k].host as int] == events[k].clock,
        vclock(events, n, k)[events[k].host as int] == vclock(events, n, i)[events[i].host as int]
            + 1,
{
    let h = events[i].host as int;
    lemma_vclock_entries(events, n, i);
    lemma_vclock_entries(events, n, k);
    assert(crate::event::event_in_order(events, n as int, i));
    assert(crate::event::event_in_order(events, n as int, k));
    lemma_host_count_gap(events, h, i + 1, k);
}

/// Two events of one host with the same local clock are the same event.
proof fn lemma_clock_unique(events: Seq<Event>, n: int, a: int, b: int)
    requires
        well_formed_events(events, n),
        0 <= a < b < events.len(),
        events[a].host == events[b].host,
    ensures
        events[a].clock < events[b].clock,
{
    assert(crate::event::event_in_order(events, n, a));
    assert(crate::event::event_in_order(events, n, b));
    lemma_host_count_mono(events, events[a].host as int, a + 1, b);
}

/// A receive happens strictly after the Send event whose message it
/// consumes: once clocks are assigned, the Send's clock is `Before` the
/// receive's.
pub proof fn lemma_receive_after_send(a: Seq<Event>, b: Seq<Event>, n: nat, i: int, s: int)
    requires
        well_formed_events(a, n as int),
        all_resolved(a),
        clocks_assigned(a, b, n),
        0 <= i < a.len(),
        0 <= s < a.len(),
        a[i].kind matches EventKind::Receive { from_host, from_clock } && is_send_of(
            a[s],
            from_host,
            from_clock,
        ),
    ensures
        order_of(b[s].vector_clock@, b[i].vector_clock@) == Order::Before,
{
    let h = a[i].host as int;
    let (fh, fc) = match a[i].kind {
        EventKind::Receive { from_host, from_clock } => (from_host, from_clock),
        _ => (0usize, 0usize),
    };
    assert(receive_resolved(a, i));
    let t = find_send(a, i, fh, fc);
    lemma_find_send(a, i, fh, fc);
    if t < s {
        lemma_clock_unique(a, n as int, t, s);
    } else if s < t {
        lemma_clock_unique(a, n as int, s, t);
    }
    assert(t == s);
    lemma_vclock_entries(a, n, s);
    lemma_vclock_entries(a, n, i);
    assert(crate::event::event_in_order(a, n as int, i));
    let vs = vclock(a, n, s);
    let vi = vclock(a, n, i);
    let p = last_on_host(a, h, i);
    lemma_last_on_host(a, h, i);
    let base = if 0 <= p < i { vclock(a, n, p) } else { zeros(n) };
    if 0 <= p < i {
        lemma_vclock_entries(a, n, p);
    }
    let bumped = base.update(h, base[h] + 1);
    assert forall|j: int| 0 <= j < n && j != h implies #[trigger] vs[j] <= vi[j] by {
        assert(vi[j] == max_int(bumped[j], vs[j]));
    }
    lemma_host_count_mono(a, h, s + 1, i);
    assert(vs[h] < vi[h]);
    let x = b[s].vector_clock@;
    let y = b[i].vector_clock@;
    assert(clock_is(x, vs));
    assert(clock_is(y, vi));
    assert forall|j: int| 0 <= j < x.len() implies x[j] <= y[j] by {
        assert(x[j] as int == vs[j]);
        assert(y[j] as int == vi[j]);
        if j != h {
            assert(vs[j] <= vi[j]);
        }
    }
    assert(all_le(x, y));
    assert(x[h] < y[h]);
    assert(some_lt(x, y));
}

fn send_of(e: &Event, sh: usize, sc: usize) -> (r: bool)
    ensures
        r == is_send_of(*e, sh, sc),
{
    e.kind == EventKind::Send && e.host == sh && e.clock == sc
}

impl EventLog {
    /// Gives every event its vector clock, in one pass over the log in log
    /// order. Fails, leaving the log as it was, when a receive comes before
    /// the Send event it names: the log is then not in causal order.
    pub fn assign_vector_clocks(&mut self) -> (r: Result<(), LogError>)
        requires
            old(self).wf(),
        ensures
            r is Ok <==> all_resolved(old(self).events@),
            r is Ok ==> {
                &&& final(self).wf()
                &&& final(self).hosts@ == old(self).hosts@
                &&& final(self).by_host@ == old(self).by_host@
                &&& clocks_assigned(old(self).events@, final(self).events@, old(self).num_hosts())
            },
            r matches Err(e) ==> e == LogError::UnresolvedSender && *final(self) == *old(self),
    {
        let n = self.hosts.len();
        let len = self.events.len();
        let ghost ev = self.events@;
        let mut running: Vec<Vec<usize>> = Vec::new();
        let mut g: usize = 0;
        while g < n
            invariant
                0 <= g <= n,
                running@.len() == g,
                forall|x: int| 0 <= x < g ==> clock_is(#[trigger] running@[x]@, zeros(n as nat)),
                forall|x: int| 0 <= x < g ==> (#[trigger] running@[x]@).len() == n,
                forall|x: int, y: int| 0 <= x < g && 0 <= y < n ==> running@[x]@[y] == 0,
            decreases n - g,
        {
            let mut z: Vec<usize> = Vec::new();
            let mut j: usize = 0;
            while j < n
                invariant
                    0 <= j <= n,
                    z@.len() == j,
                    forall|y: int| 0 <= y < j ==> z@[y] == 0,
                decreases n - j,
            {
                z.push(0);
                j = j + 1;
            }
            running.push(z);
            proof {
                assert(clock_is(z@, zeros(n as nat)));
            }
            g = g + 1;
        }
        let mut clocks: Vec<Vec<usize>> = Vec::new();
        let mut i: usize = 0;
        while i < len
            invariant
                n == self.hosts@.len(),
                len == self.events@.len(),
                ev == self.events@,
                self.wf(),
                0 <= i <= len,
                running@.len() == n,
                clocks@.len() == i,
                forall|x: int| 0 <= x < n ==> (#[trigger] running@[x]@).len() == n,
                forall|k: int| 0 <= k < i ==> (#[trigger] clocks@[k]@).len() == n,
                forall|x: int|
                    0 <= x < n ==> clock_is(
                        #[trigger] running@[x]@,
                        running_clock(ev, n as nat, x, i as int),
                    ),
                forall|x: int, y: int| 0 <= x < n && 0 <= y < n ==> running@[x]@[y] <= i,
                forall|k: int| 0 <= k < i ==> clock_is(#[trigger] clocks@[k]@, vclock(ev, n as nat, k)),
                forall|k: int, y: int| 0 <= k < i && 0 <= y < n ==> clocks@[k]@[y] <= i,
                forall|k: int| 0 <= k < i ==> #[trigger] receive_resolved(ev, k),
            decreases len - i,
        {
            let h = self.events[i].host;
            proof {
                assert(crate::event::event_in_order(ev, n as int, i as int));
            }
            let mut v: Vec<usize> = running[h].clone();
            assert(v@ =~= running@[h as int]@);
            let c = v[h] + 1;
            v.set(h, c);
            match self.events[i].kind {
                EventKind::Receive { from_host, from_clock } => {
                    let mut k: usize = i;
                    while k > 0 && !send_of(&self.events[k - 1], from_host, from_clock)
                        invariant
                            0 <= k <= i < len,
                            len == self.events@.len(),
                            ev == self.events@,
                            find_send(ev, i as int, from_host, from_clock) == find_send(
                                ev,
                                k as int,
                                from_host,
                                from_clock,
                            ),
                        decreases k,
                    {
                        k = k - 1;
                    }
                    if k == 0 {
                        proof {
                            assert(!receive_resolved(ev, i as int));
                        }
                        return Err(LogError::UnresolvedSender);
                    }
                    let s = k - 1;
                    let ghost bumped = v@;
                    let mut j: usize = 0;
                    while j < n
                        invariant
                            0 <= j <= n,
                            h < n,
                            s < i,
                            v@.len() == n,
                            clocks@.len() == i,
                            forall|y: int| 0 <= y < n ==> clocks@[s as int]@[y] <= i,
                            clocks@[s as int]@.len() == n,
                            bumped.len() == n,
                            forall|y: int| 0 <= y < n ==> bumped[y] <= i + 1,
                            forall|y: int|
                                0 <= y < j ==> v@[y] as int == if y == h {
                                    bumped[y] as int
                                } else {
                                    max_int(bumped[y] as int, clocks@[s as int]@[y] as int)
                                },
                            forall|y: int| j <= y < n ==> v@[y] == bumped[y],
                        decreases n - j,
                    {
                        if j != h && clocks[s][j] > v[j] {
                            let x = clocks[s][j];
                            v.set(j, x);
                        }
                        j = j + 1;
                    }
                },
                _ => {},
            }
            proof {
                let target = vclock(ev, n as nat, i as int);
                assert(clock_is(v@, target));
            }
            let ghost old_running = running@;
            let ghost vv = v@;
            clocks.push(v.clone());
            running.set(h, v);
            proof {
                assert forall|x: int| 0 <= x < n implies clock_is(
                    #[trigger] running@[x]@,
                    running_clock(ev, n as nat, x, i + 1),
                ) by {
                    if x == h {
                        assert(last_on_host(ev, x, i + 1) == i);
                        assert(running@[x]@ == vv);
                    } else {
                        assert(running@[x] == old_running[x]);
                        assert(last_on_host(ev, x, i + 1) == last_on_host(ev, x, i as int));
                        lemma_last_on_host(ev, x, i as int);
                    }
                }
            }
            i = i + 1;
        }
        let mut out: Vec<Event> = Vec::new();
        let mut i: usize = 0;
        while i < len
            invariant
                n == self.hosts@.len(),
                self.wf(),
                len == self.events@.len(),
                ev == self.events@,
                clocks@.len() == len,
                0 <= i <= len,
                out@.len() == i,
                forall|k: int| 0 <= k < len ==> clock_is(#[trigger] clocks@[k]@, vclock(ev, n as nat, k)),
                forall|k: int|
                    0 <= k < i ==> {
                        &&& (#[trigger] out@[k]).kind == ev[k].kind
                        &&& out@[k].host == ev[k].host
                        &&& out@[k].clock == ev[k].clock
                        &&& clock_is(out@[k].vector_clock@, vclock(ev, n as nat, k))
                    },
            decreases len - i,
        {
            let e = &self.events[i];
            out.push(Event { kind: e.kind, host: e.host, clock: e.clock, vector_clock: clocks[i].clone() });
            i = i + 1;
        }
        proof {
            lemma_wf_same_skeleton(ev, out@, n as int);
            assert forall|g: int| 0 <= g < n implies crate::event::host_row(
                out@,
                g,
                #[trigger] self.by_host@[g]@,
            ) by {
                assert(crate::event::host_row(ev, g, self.by_host@[g]@));
                lemma_host_count_same_hosts(ev, out@, g, len as int);
            }
        }
        self.events = out;
        Ok(())
    }
}

} // verus!
