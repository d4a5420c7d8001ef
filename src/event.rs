//! The event log: events of each host in their local order, with the
//! structural checks that make the log usable by the later passes.

use vstd::prelude::*;

verus! {

/// What kind of occurrence an event records.
#[derive(Clone, Copy, Debug, PartialEq, Eq, Structural)]
pub enum EventKind {
    Local,
    Send,
    /// Consumes the message of the Send event with local clock
    /// `from_clock` on host `from_host`.
    Receive { from_host: usize, from_clock: usize },
    Checkpoint,
}

/// One event of one host. Hosts are identified by their index in the
/// log's host list.
#[derive(Clone, Debug)]
pub struct Event {
    pub kind: EventKind,
    pub host: usize,
    /// 1-based position of the event in its host's local order.
    pub clock: usize,
    /// One entry per host; empty until vector clocks are assigned.
    pub vector_clock: Vec<usize>,
}

/// The caption of a logged event, which tells its kind.
#[derive(Clone, Copy, Debug, PartialEq, Eq, Structural)]
pub enum EventLabel {
    Local,
    Send,
    Receive,
    Checkpoint,
}

/// Index of the first entry at or after `k` whose host is `h`, or -1.
pub open spec fn find_entry(entries: Seq<(usize, usize)>, h: usize, k: int) -> int
    decreases entries.len() - k,
{
    if k < 0 || k >= entries.len() {
        -1
    } else if entries[k].0 == h {
        k
    } else {
        find_entry(entries, h, k + 1)
    }
}

/// Index of the first entry at or after `k` whose host is not `h`, or -1.
pub open spec fn find_other_entry(entries: Seq<(usize, usize)>, h: usize, k: int) -> int
    decreases entries.len() - k,
{
    if k < 0 || k >= entries.len() {
        -1
    } else if entries[k].0 != h {
        k
    } else {
        find_other_entry(entries, h, k + 1)
    }
}

/// Kind of the event that a log record describes: for a receive, the
/// first entry of a host other than the event's own names the Send event
/// consumed.
pub open spec fn record_kind(label: EventLabel, host: usize, entries: Seq<(usize, usize)>) -> EventKind {
    let other = find_other_entry(entries, host, 0);
    match label {
        EventLabel::Local => EventKind::Local,
        EventLabel::Send => EventKind::Send,
        EventLabel::Receive => EventKind::Receive {
            from_host: entries[other].0,
            from_clock: entries[other].1,
        },
        EventLabel::Checkpoint => EventKind::Checkpoint,
    }
}

/// Local clock of the event that a log record describes: the clock of the
/// first entry of the event's own host.
pub open spec fn record_clock(host: usize, entries: Seq<(usize, usize)>) -> usize {
    entries[find_entry(entries, host, 0)].1
}

/// Errors of the analysis.
#[derive(Clone, Copy, Debug, PartialEq, Eq, Structural)]
pub enum LogError {
    /// A host index is unknown, a host's local clocks have a gap or a
    /// duplicate, or a receive names an event that is not in the log.
    MalformedLog,
    /// A receive names no Send event that precedes it in the log.
    UnresolvedSender,
    /// No cut satisfies the constraints of the failure set.
    NoRecoveryLine,
}

fn find_entry_exec(entries: &Vec<(usize, usize)>, h: usize, other: bool) -> (r: Option<usize>)
    ensures
        r matches Some(k) ==> k < entries@.len(),
        !other ==> match r {
            Some(k) => k as int == find_entry(entries@, h, 0),
            None => find_entry(entries@, h, 0) == -1,
        },
        other ==> match r {
            Some(k) => k as int == find_other_entry(entries@, h, 0),
            None => find_other_entry(entries@, h, 0) == -1,
        },
{
    let mut k: usize = 0;
    while k < entries.len()
        invariant
            0 <= k <= entries@.len(),
            !other ==> find_entry(entries@, h, 0) == find_entry(entries@, h, k as int),
            other ==> find_other_entry(entries@, h, 0) == find_other_entry(entries@, h, k as int),
        decreases entries@.len() - k,
    {
        if (entries[k].0 == h) != other {
            return Some(k);
        }
        k = k + 1;
    }
    None
}

impl Event {
    /// An event without vector clock.
    pub fn new(kind: EventKind, host: usize, clock: usize) -> (r: Event)
        ensures
            r.kind == kind,
            r.host == host,
            r.clock == clock,
            r.vector_clock@.len() == 0,
    {
        Event { kind, host, clock, vector_clock: Vec::new() }
    }

    /// The event of a log record (see `record_kind`). Fails when no
    /// entry gives the clock of `host`, or when a receive has no entry of
    /// another host.
    pub fn from_entries(label: EventLabel, host: usize, entries: &Vec<(usize, usize)>) -> (r: Result<Event, LogError>)
        ensures
            r is Ok <==> find_entry(entries@, host, 0) >= 0 && (label == EventLabel::Receive
                ==> find_other_entry(entries@, host, 0) >= 0),
            r matches Ok(e) ==> {
                &&& e.kind == record_kind(label, host, entries@)
                &&& e.host == host
                &&& e.clock == record_clock(host, entries@)
                &&& e.vector_clock@.len() == 0
            },
            r matches Err(e) ==> e == LogError::MalformedLog,
    {
        let own = match find_entry_exec(entries, host, false) {
            Some(k) => k,
            None => {
                return Err(LogError::MalformedLog);
            },
        };
        let clock = entries[own].1;
        let kind = match label {
            EventLabel::Local => EventKind::Local,
            EventLabel::Send => EventKind::Send,
            EventLabel::Checkpoint => EventKind::Checkpoint,
            EventLabel::Receive => {
                match find_entry_exec(entries, host, true) {
                    Some(o) => EventKind::Receive { from_host: entries[o].0, from_clock: entries[o].1 },
                    None => {
                        return Err(LogError::MalformedLog);
                    },
                }
            },
        };
        Ok(Event::new(kind, host, clock))
    }

    /// A copy of the event.
    pub fn copy(&self) -> (r: Event)
        ensures
            r.kind == self.kind,
            r.host == self.host,
            r.clock == self.clock,
            r.vector_clock@ == self.vector_clock@,
    {
        Event { kind: self.kind, host: self.host, clock: self.clock, vector_clock: self.vector_clock.clone() }
    }
}

/// Number of events of host `h` among the first `k` events.
pub open spec fn host_count(events: Seq<Event>, h: int, k: int) -> nat
    decreases k,
{
    if k <= 0 {
        0
    } else {
        host_count(events, h, k - 1) + if events[k - 1].host == h { 1nat } else { 0nat }
    }
}

/// Event `i` names a known host and carries the next local clock of that host.
pub open spec fn event_in_order(events: Seq<Event>, n: int, i: int) -> bool {
    &&& events[i].host < n
    &&& events[i].clock == host_count(events, events[i].host as int, i) + 1
}

/// If event `i` is a receive, the event it names exists in the log.
pub open spec fn sender_resolvable(events: Seq<Event>, n: int, i: int) -> bool {
    match events[i].kind {
        EventKind::Receive { from_host, from_clock } => {
            &&& from_host < n
            &&& 1 <= from_clock <= host_count(events, from_host as int, events.len() as int)
        },
        _ => true,
    }
}

/// A log over `n` hosts: every host's local clocks run 1, 2, 3, ... in log
/// order, and every receive names an event that exists.
pub open spec fn well_formed_events(events: Seq<Event>, n: int) -> bool {
    &&& forall|i: int| 0 <= i < events.len() ==> #[trigger] event_in_order(events, n, i)
    &&& forall|i: int| 0 <= i < events.len() ==> #[trigger] sender_resolvable(events, n, i)
}

/// Total number of events of hosts `0 .. m` among the first `k` events.
pub open spec fn sum_counts(events: Seq<Event>, m: int, k: int) -> nat
    decreases m,
{
    if m <= 0 {
        0
    } else {
        sum_counts(events, m - 1, k) + host_count(events, m - 1, k)
    }
}

proof fn lemma_sum_counts_step(events: Seq<Event>, m: int, k: int)
    requires
        0 <= k < events.len(),
    ensures
        sum_counts(events, m, k + 1) == sum_counts(events, m, k) + if 0 <= events[k].host < m {
            1nat
        } else {
            0nat
        },
    decreases m,
{
    if m > 0 {
        lemma_sum_counts_step(events, m - 1, k);
    }
}

/// Every event of the first `k` belongs to one of the hosts `0 .. n`, so
/// the per-host counts add up to `k`.
pub proof fn lemma_sum_counts(events: Seq<Event>, n: int, k: int)
    requires
        0 <= k <= events.len(),
        forall|i: int| 0 <= i < k ==> (#[trigger] events[i]).host < n,
    ensures
        sum_counts(events, n, k) == k,
    decreases k,
{
    if k > 0 {
        lemma_sum_counts(events, n, k - 1);
        lemma_sum_counts_step(events, n, k - 1);
        assert(events[k - 1].host < n);
    } else {
        lemma_sum_counts_empty(events, n);
    }
}

proof fn lemma_sum_counts_empty(events: Seq<Event>, m: int)
    ensures
        sum_counts(events, m, 0) == 0,
    decreases m,
{
    if m > 0 {
        lemma_sum_counts_empty(events, m - 1);
    }
}

pub proof fn lemma_sum_counts_mono(events: Seq<Event>, m1: int, m2: int, k: int)
    requires
        m1 <= m2,
    ensures
        sum_counts(events, m1, k) <= sum_counts(events, m2, k),
    decreases m2 - m1,
{
    if m1 < m2 {
        lemma_sum_counts_mono(events, m1, m2 - 1, k);
    }
}

/// The parsed log. Build it with `EventLog::new`, which checks `wf`.
#[derive(Clone, Debug)]
pub struct EventLog {
    /// Host names; a host is identified by its index here.
    pub hosts: Vec<String>,
    /// All events, in log order.
    pub events: Vec<Event>,
    /// `by_host[h][p]` is the index in `events` of host `h`'s event with
    /// local clock `p + 1`.
    pub by_host: Vec<Vec<usize>>,
}

/// `row` lists, in order, the indices of host `h`'s events, and the event at
/// `row[p]` has local clock `p + 1`.
pub open spec fn host_row(events: Seq<Event>, h: int, row: Seq<usize>) -> bool {
    &&& row.len() == host_count(events, h, events.len() as int)
    &&& forall|p: int|
        0 <= p < row.len() ==> {
            &&& (#[trigger] row[p]) < events.len()
            &&& events[row[p] as int].host == h
            &&& events[row[p] as int].clock == p + 1
        }
}

impl EventLog {
    pub open spec fn num_hosts(&self) -> nat {
        self.hosts@.len()
    }

    pub open spec fn wf(&self) -> bool {
        &&& well_formed_events(self.events@, self.hosts@.len() as int)
        &&& self.by_host@.len() == self.hosts@.len()
        &&& forall|h: int|
            0 <= h < self.hosts@.len() ==> host_row(self.events@, h, #[trigger] self.by_host@[h]@)
    }

    /// Number of events of host `h`.
    pub open spec fn count_of(&self, h: int) -> nat {
        host_count(self.events@, h, self.events@.len() as int)
    }

    /// All events, in log order.
    pub fn events(&self) -> (r: &Vec<Event>)
        ensures
            r@ == self.events@,
    {
        &self.events
    }

    /// Host names, by host index.
    pub fn hosts(&self) -> (r: &Vec<String>)
        ensures
            r@ == self.hosts@,
    {
        &self.hosts
    }

    /// The events of host `h`, in its local order.
    pub fn events_by_host(&self, h: usize) -> (r: Vec<Event>)
        requires
            self.wf(),
            h < self.hosts@.len(),
        ensures
            r@.len() == self.count_of(h as int),
            forall|p: int|
                0 <= p < r@.len() ==> {
                    let e = self.event_at(h as int, p);
                    &&& (#[trigger] r@[p]).kind == e.kind
                    &&& r@[p].host == e.host
                    &&& r@[p].clock == e.clock
                    &&& r@[p].vector_clock@ == e.vector_clock@
                },
    {
        proof {
            assert(host_row(self.events@, h as int, self.by_host@[h as int]@));
        }
        let row = &self.by_host[h];
        let mut r: Vec<Event> = Vec::new();
        let mut p: usize = 0;
        while p < row.len()
            invariant
                self.wf(),
                h < self.hosts@.len(),
                row@ == self.by_host@[h as int]@,
                host_row(self.events@, h as int, row@),
                0 <= p <= row@.len(),
                r@.len() == p,
                forall|q: int|
                    0 <= q < p ==> {
                        let e = self.event_at(h as int, q);
                        &&& (#[trigger] r@[q]).kind == e.kind
                        &&& r@[q].host == e.host
                        &&& r@[q].clock == e.clock
                        &&& r@[q].vector_clock@ == e.vector_clock@
                    },
            decreases row@.len() - p,
        {
            r.push(self.events[row[p]].copy());
            p = p + 1;
        }
        r
    }

    /// Number of events of each host.
    pub open spec fn counts(&self) -> Seq<usize> {
        Seq::new(self.hosts@.len(), |h: int| self.count_of(h) as usize)
    }

    /// Number of events of each host.
    pub fn event_counts(&self) -> (r: Vec<usize>)
        requires
            self.wf(),
        ensures
            r@ == self.counts(),
            forall|h: int| 0 <= h < r@.len() ==> r@[h] == self.count_of(h),
    {
        let n = self.hosts.len();
        let mut r: Vec<usize> = Vec::new();
        let mut h: usize = 0;
        while h < n
            invariant
                n == self.hosts@.len(),
                self.wf(),
                0 <= h <= n,
                r@.len() == h,
                forall|g: int| 0 <= g < h ==> r@[g] == self.count_of(g),
            decreases n - h,
        {
            r.push(self.by_host[h].len());
            proof {
                assert(host_row(self.events@, h as int, self.by_host@[h as int]@));
            }
            h = h + 1;
        }
        assert(r@ =~= self.counts());
        r
    }

    /// Host `h`'s event at 0-based position `p` of its local order.
    pub open spec fn event_at(&self, h: int, p: int) -> Event {
        self.events@[self.by_host@[h]@[p] as int]
    }

    /// Builds the log, checking that every host index is known, that each
    /// host's local clocks run 1, 2, 3, ... in log order, and that every
    /// receive names an event of the log.
    pub fn new(hosts: Vec<String>, events: Vec<Event>) -> (r: Result<EventLog, LogError>)
        ensures
            r is Ok <==> well_formed_events(events@, hosts@.len() as int),
            r matches Ok(log) ==> log.wf() && log.events@ == events@ && log.hosts@ == hosts@,
            r matches Err(e) ==> e == LogError::MalformedLog,
    {
        let n = hosts.len();
        let len = events.len();
        let mut i: usize = 0;
        while i < len
            invariant
                len == events@.len(),
                n == hosts@.len(),
                0 <= i <= len,
                forall|j: int| 0 <= j < i ==> (#[trigger] events@[j]).host < n,
            decreases len - i,
        {
            if events[i].host >= n {
                proof {
                    assert(!event_in_order(events@, n as int, i as int));
                            assert(!well_formed_events(events@, hosts@.len() as int));
                }
                return Err(LogError::MalformedLog);
            }
            i = i + 1;
        }
        let mut by_host: Vec<Vec<usize>> = Vec::new();
        let mut h: usize = 0;
        while h < n
            invariant
                len == events@.len(),
                n == hosts@.len(),
                0 <= h <= n,
                by_host@.len() == h,
                forall|j: int| 0 <= j < len ==> (#[trigger] events@[j]).host < n,
                forall|g: int| 0 <= g < h ==> host_row(events@, g, #[trigger] by_host@[g]@),
                forall|j: int|
                    0 <= j < len && (#[trigger] events@[j]).host < h ==> event_in_order(
                        events@,
                        n as int,
                        j,
                    ),
            decreases n - h,
        {
            let mut row: Vec<usize> = Vec::new();
            let mut k: usize = 0;
            while k < len
                invariant
                    len == events@.len(),
                    n == hosts@.len(),
                n == hosts@.len(),
                    0 <= k <= len,
                    h < n,
                    row@.len() == host_count(events@, h as int, k as int),
                    row@.len() <= k,
                    forall|p: int|
                        0 <= p < row@.len() ==> {
                            &&& row@[p] < k
                            &&& (#[trigger] events@[row@[p] as int]).host == h
                            &&& events@[row@[p] as int].clock == p + 1
                        },
                    forall|j: int| 0 <= j < len ==> (#[trigger] events@[j]).host < n,
                    forall|j: int|
                        0 <= j < k && (#[trigger] events@[j]).host == h ==> event_in_order(
                            events@,
                            n as int,
                            j,
                        ),
                decreases len - k,
            {
                if events[k].host == h {
                    if events[k].clock != row.len() + 1 {
                        proof {
                            assert(!event_in_order(events@, n as int, k as int));
                            assert(!well_formed_events(events@, hosts@.len() as int));
                        }
                        return Err(LogError::MalformedLog);
                    }
                    row.push(k);
                }
                k = k + 1;
            }
            by_host.push(row);
            proof {
                assert forall|j: int|
                    0 <= j < len && (#[trigger] events@[j]).host < h + 1 implies event_in_order(
                    events@,
                    n as int,
                    j,
                ) by {
                    if events@[j].host < h {
                    } else {
                        assert(events@[j].host == h);
                    }
                }
                assert forall|g: int| 0 <= g < h + 1 implies host_row(
                    events@,
                    g,
                    #[trigger] by_host@[g]@,
                ) by {
                    if g < h {
                    } else {
                        assert(by_host@[g]@ == row@);
                    }
                }
            }
            h = h + 1;
        }
        let mut i: usize = 0;
        while i < len
            invariant
                len == events@.len(),
                n == hosts@.len(),
                0 <= i <= len,
                by_host@.len() == n,
                forall|g: int| 0 <= g < n ==> host_row(events@, g, #[trigger] by_host@[g]@),
                forall|j: int| 0 <= j < i ==> #[trigger] sender_resolvable(events@, n as int, j),
            decreases len - i,
        {
            match events[i].kind {
                EventKind::Receive { from_host, from_clock } => {
                    if from_host >= n || from_clock == 0 || from_clock > by_host[from_host].len() {
                        proof {
                            assert(!sender_resolvable(events@, n as int, i as int));
                            assert(!well_formed_events(events@, hosts@.len() as int));
                        }
                        return Err(LogError::MalformedLog);
                    }
                },
                _ => {},
            }
            i = i + 1;
        }
        Ok(EventLog { hosts, events, by_host })
    }
}

} // verus!
