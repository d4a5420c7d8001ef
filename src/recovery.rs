//! Consistent cuts and the choice of a recovery line.

use vstd::prelude::*;
use crate::event::{
    Event,
    EventKind,
    EventLog,
    LogError,
    host_row,
    sum_counts,
    lemma_sum_counts,
    lemma_sum_counts_mono,
};
use crate::cuts::{CutEnumerator, valid_cut, cut_rank, cut_of_rank, num_cuts, lemma_cuts_enumerated};

verus! {

/// Event `i` is a receive that `cut` includes while the cut leaves out
/// its Send event. A cut position `p` stands for local clock `p + 1`.
pub open spec fn orphan_at(events: Seq<Event>, cut: Seq<usize>, i: int) -> bool {
    match events[i].kind {
        EventKind::Receive { from_host, from_clock } => {
            &&& events[i].clock <= cut[events[i].host as int] + 1
            &&& from_clock > cut[from_host as int] + 1
        },
        _ => false,
    }
}

/// No receive of the whole log is an orphan of `cut`.
pub open spec fn consistent(events: Seq<Event>, cut: Seq<usize>) -> bool {
    forall|i: int| 0 <= i < events.len() ==> !#[trigger] orphan_at(events, cut, i)
}

pub open spec fn is_checkpoint(e: Event) -> bool {
    e.kind == EventKind::Checkpoint
}

/// `cut` may serve as recovery line when the hosts in `failed` fail: it is
/// a consistent cut, every failed host stands at a checkpoint, and every
/// host that does not stand at a checkpoint stands at its last event.
pub open spec fn recovery_ok(log: EventLog, failed: Seq<usize>, cut: Seq<usize>) -> bool {
    &&& valid_cut(log.counts(), cut)
    &&& consistent(log.events@, cut)
    &&& forall|f: int|
        0 <= f < failed.len() ==> {
            &&& (#[trigger] failed[f]) < log.hosts@.len()
            &&& is_checkpoint(log.event_at(failed[f] as int, cut[failed[f] as int] as int))
        }
    &&& forall|h: int|
        0 <= h < log.hosts@.len() ==> !is_checkpoint(#[trigger] log.event_at(h, cut[h] as int))
            ==> cut[h] + 1 == log.count_of(h)
}

/// Sum of the local clocks of the first `m` members of `cut`.
pub open spec fn age_upto(cut: Seq<usize>, m: int) -> nat
    decreases m,
{
    if m <= 0 {
        0
    } else {
        age_upto(cut, m - 1) + (cut[m - 1] as nat) + 1
    }
}

/// Age of a cut: the sum of its members' local clocks.
pub open spec fn age(cut: Seq<usize>) -> nat {
    age_upto(cut, cut.len() as int)
}

/// `cut` is the recovery line for `failed`: admissible, of the largest age,
/// and the first in lexicographic order of positions among those of that age.
pub open spec fn best_recovery(log: EventLog, failed: Seq<usize>, cut: Seq<usize>) -> bool {
    &&& recovery_ok(log, failed, cut)
    &&& forall|c: Seq<usize>|
        #[trigger] recovery_ok(log, failed, c) ==> age(c) < age(cut) || (age(c) == age(cut)
            && cut_rank(log.counts(), cut) <= cut_rank(log.counts(), c))
}

/// What `find_recovery_line` returns for `failed`.
pub open spec fn recovery_result(
    log: EventLog,
    failed: Seq<usize>,
    r: Result<Vec<usize>, LogError>,
) -> bool {
    &&& r matches Ok(c) ==> best_recovery(log, failed, c@)
    &&& r matches Err(e) ==> e == LogError::NoRecoveryLine && forall|c: Seq<usize>|
        !#[trigger] recovery_ok(log, failed, c)
}

proof fn lemma_age_bound(log: EventLog, cut: Seq<usize>, m: int)
    requires
        log.wf(),
        0 <= m <= log.hosts@.len(),
        cut.len() == log.hosts@.len(),
        forall|h: int| 0 <= h < log.hosts@.len() ==> cut[h] < log.count_of(h),
    ensures
        age_upto(cut, m) <= sum_counts(log.events@, m, log.events@.len() as int),
    decreases m,
{
    if m > 0 {
        lemma_age_bound(log, cut, m - 1);
    }
}

/// A consistent cut holds no orphan: whenever it includes a receive, it
/// includes the Send event whose message the receive consumes.
pub proof fn lemma_consistent_no_orphan(log: EventLog, cut: Seq<usize>, i: int, s: int)
    requires
        log.wf(),
        consistent(log.events@, cut),
        0 <= i < log.events@.len(),
        0 <= s < log.events@.len(),
        log.events@[i].kind matches EventKind::Receive { from_host, from_clock }
            && log.events@[s].host == from_host && log.events@[s].clock == from_clock,
        log.events@[i].clock <= cut[log.events@[i].host as int] + 1,
    ensures
        log.events@[s].clock <= cut[log.events@[s].host as int] + 1,
{
    assert(!orphan_at(log.events@, cut, i));
}

/// The cut made of every host's last event.
pub open spec fn last_cut(log: EventLog) -> Seq<usize> {
    Seq::new(log.hosts@.len(), |h: int| (log.count_of(h) - 1) as usize)
}

proof fn lemma_age_at_most_last(cut: Seq<usize>, last: Seq<usize>, m: int)
    requires
        0 <= m <= cut.len(),
        cut.len() == last.len(),
        forall|h: int| 0 <= h < cut.len() ==> cut[h] <= last[h],
    ensures
        age_upto(cut, m) <= age_upto(last, m),
        age_upto(cut, m) == age_upto(last, m) ==> forall|h: int| 0 <= h < m ==> cut[h] == last[h],
    decreases m,
{
    if m > 0 {
        lemma_age_at_most_last(cut, last, m - 1);
    }
}

/// With no failed host, and every host having logged an event, the
/// recovery line is the cut of every host's last event exactly when that
/// cut is consistent.
pub proof fn lemma_no_failure_recovers_all(log: EventLog, r: Result<Vec<usize>, LogError>)
    requires
        log.wf(),
        forall|h: int| 0 <= h < log.hosts@.len() ==> log.count_of(h) > 0,
        recovery_result(log, Seq::empty(), r),
    ensures
        (r matches Ok(c) && c@ == last_cut(log)) <==> consistent(log.events@, last_cut(log)),
{
    let n = log.hosts@.len();
    let last = last_cut(log);
    let failed = Seq::<usize>::empty();
    assert forall|h: int| 0 <= h < n implies last[h] + 1 == log.count_of(h) && last[h] < #[trigger] log.counts()[h] by {
        assert(crate::event::host_row(log.events@, h, log.by_host@[h]@));
        assert(log.by_host@[h].len() == log.count_of(h));
    }
    if consistent(log.events@, last) {
        assert(valid_cut(log.counts(), last));
        assert(recovery_ok(log, failed, last));
        match r {
            Ok(c) => {
                assert(best_recovery(log, failed, c@));
                assert(valid_cut(log.counts(), c@));
                assert forall|h: int| 0 <= h < c@.len() implies c@[h] <= last[h] by {
                    assert(c@[h] < log.counts()[h]);
                }
                lemma_age_at_most_last(c@, last, n as int);
                assert(c@ =~= last);
            },
            Err(_) => {
                assert(!recovery_ok(log, failed, last));
            },
        }
    }
}

impl EventLog {
    /// Whether `cut` holds no orphan: no receive anywhere in the log that
    /// the cut includes while it leaves out the matching Send.
    pub fn is_consistent_cut(&self, cut: &Vec<usize>) -> (r: bool)
        requires
            self.wf(),
            cut@.len() == self.hosts@.len(),
        ensures
            r == consistent(self.events@, cut@),
    {
        let len = self.events.len();
        let mut i: usize = 0;
        while i < len
            invariant
                self.wf(),
                len == self.events@.len(),
                cut@.len() == self.hosts@.len(),
                0 <= i <= len,
                forall|j: int| 0 <= j < i ==> !#[trigger] orphan_at(self.events@, cut@, j),
            decreases len - i,
        {
            proof {
                assert(crate::event::event_in_order(self.events@, self.hosts@.len() as int, i as int));
                assert(crate::event::sender_resolvable(self.events@, self.hosts@.len() as int, i as int));
            }
            match self.events[i].kind {
                EventKind::Receive { from_host, from_clock } => {
                    let h = self.events[i].host;
                    if self.events[i].clock - 1 <= cut[h] && from_clock - 1 > cut[from_host] {
                        proof {
                            assert(orphan_at(self.events@, cut@, i as int));
                        }
                        return false;
                    }
                },
                _ => {},
            }
            i = i + 1;
        }
        true
    }

    /// Whether `cut` (a valid cut) is admissible as recovery line when the
    /// hosts in `failed` fail.
    fn admissible(&self, counts: &Vec<usize>, cut: &Vec<usize>, failed: &Vec<usize>) -> (r: bool)
        requires
            self.wf(),
            counts@ == self.counts(),
            forall|h: int| 0 <= h < counts@.len() ==> counts@[h] == self.count_of(h),
            valid_cut(self.counts(), cut@),
        ensures
            r == recovery_ok(*self, failed@, cut@),
    {
        if !self.is_consistent_cut(cut) {
            return false;
        }
        let n = self.hosts.len();
        let mut f: usize = 0;
        while f < failed.len()
            invariant
                self.wf(),
                n == self.hosts@.len(),
                valid_cut(self.counts(), cut@),
                0 <= f <= failed@.len(),
                forall|g: int|
                    0 <= g < f ==> {
                        &&& (#[trigger] failed@[g]) < n
                        &&& is_checkpoint(self.event_at(failed@[g] as int, cut@[failed@[g] as int] as int))
                    },
            decreases failed@.len() - f,
        {
            let h = failed[f];
            if h >= n {
                return false;
            }
            proof {
                assert(host_row(self.events@, h as int, self.by_host@[h as int]@));
            }
            let p = cut[h];
            let idx = self.by_host[h][p];
            if self.events[idx].kind != EventKind::Checkpoint {
                proof {
                    assert(!is_checkpoint(self.event_at(failed@[f as int] as int, cut@[h as int] as int)));
                }
                return false;
            }
            f = f + 1;
        }
        let mut h: usize = 0;
        while h < n
            invariant
                self.wf(),
                n == self.hosts@.len(),
                counts@ == self.counts(),
                forall|g: int| 0 <= g < counts@.len() ==> counts@[g] == self.count_of(g),
                valid_cut(self.counts(), cut@),
                0 <= h <= n,
                forall|g: int|
                    0 <= g < h ==> !is_checkpoint(#[trigger] self.event_at(g, cut@[g] as int))
                        ==> cut@[g] + 1 == self.count_of(g),
            decreases n - h,
        {
            proof {
                assert(host_row(self.events@, h as int, self.by_host@[h as int]@));
            }
            let p = cut[h];
            let idx = self.by_host[h][p];
            if self.events[idx].kind != EventKind::Checkpoint && p + 1 != counts[h] {
                proof {
                    assert(!is_checkpoint(self.event_at(h as int, cut@[h as int] as int)));
                }
                return false;
            }
            h = h + 1;
        }
        true
    }

    /// The recovery line for the failure of the hosts in `failed`: each
    /// host's position, in host order, in the most recent admissible cut.
    /// Goes through every cut: exponential in the number of hosts.
    pub fn find_recovery_line(&self, failed: &Vec<usize>) -> (r: Result<Vec<usize>, LogError>)
        requires
            self.wf(),
        ensures
            recovery_result(*self, failed@, r),
    {
        let counts = self.event_counts();
        let ghost cs = counts@;
        let mut cuts = CutEnumerator::new(counts.clone());
        let mut best: Option<Vec<usize>> = None;
        let mut best_age: usize = 0;
        proof {
            lemma_cuts_enumerated(cs);
            assert forall|i: int| 0 <= i < self.events@.len() implies (
            #[trigger] self.events@[i]).host < self.hosts@.len() by {
                assert(crate::event::event_in_order(self.events@, self.hosts@.len() as int, i));
            }
            lemma_sum_counts(self.events@, self.hosts@.len() as int, self.events@.len() as int);
        }
        let mut finished = false;
        while !finished
            invariant
                finished ==> cuts.position() >= num_cuts(cs),
                self.wf(),
                counts@ == cs,
                cs == self.counts(),
                forall|h: int| 0 <= h < cs.len() ==> cs[h] == self.count_of(h),
                sum_counts(self.events@, self.hosts@.len() as int, self.events@.len() as int)
                    == self.events@.len(),
                cuts.wf(),
                cuts.host_counts() == cs,
                0 <= cuts.position() <= num_cuts(cs),
                forall|k: int|
                    0 <= k < num_cuts(cs) ==> valid_cut(cs, #[trigger] cut_of_rank(cs, k))
                        && cut_rank(cs, cut_of_rank(cs, k)) == k,
                best is None ==> forall|k: int|
                    0 <= k < cuts.position() ==> !recovery_ok(
                        *self,
                        failed@,
                        #[trigger] cut_of_rank(cs, k),
                    ),
                best matches Some(b) ==> {
                    &&& recovery_ok(*self, failed@, b@)
                    &&& best_age == age(b@)
                    &&& cut_rank(cs, b@) < cuts.position()
                    &&& forall|k: int|
                        0 <= k < cuts.position() && recovery_ok(
                            *self,
                            failed@,
                            #[trigger] cut_of_rank(cs, k),
                        ) ==> age(cut_of_rank(cs, k)) < best_age || (age(cut_of_rank(cs, k))
                            == best_age && cut_rank(cs, b@) <= k)
                },
            decreases (num_cuts(cs) - cuts.position()) * 2 + if finished {
                0int
            } else {
                1int
            },
        {
            let ghost pos = cuts.position();
            match cuts.next_cut() {
                None => {
                    finished = true;
                },
                Some(cut) => {
                    proof {
                        assert(cut@ == cut_of_rank(cs, pos));
                    }
                    if self.admissible(&counts, &cut, failed) {
                        let a = cut_age(self, &counts, &cut);
                        let better = match &best {
                            None => true,
                            Some(_) => a > best_age,
                        };
                        if better {
                            best = Some(cut);
                            best_age = a;
                        }
                    }
                },
            }
        }
        match best {
            Some(b) => {
                proof {
                    assert forall|c: Seq<usize>| #[trigger] recovery_ok(*self, failed@, c) implies age(c)
                        < age(b@) || (age(c) == age(b@) && cut_rank(cs, b@) <= cut_rank(cs, c)) by {
                        lemma_cuts_enumerated(cs);
                        let k = cut_rank(cs, c);
                        assert(cut_of_rank(cs, k) == c);
                    }
                }
                Ok(b)
            },
            None => {
                proof {
                    assert forall|c: Seq<usize>| !#[trigger] recovery_ok(*self, failed@, c) by {
                        if recovery_ok(*self, failed@, c) {
                            lemma_cuts_enumerated(cs);
                            let k = cut_rank(cs, c);
                            assert(cut_of_rank(cs, k) == c);
                        }
                    }
                }
                Err(LogError::NoRecoveryLine)
            },
        }
    }
}

/// Age of a valid cut of `log`.
fn cut_age(log: &EventLog, counts: &Vec<usize>, cut: &Vec<usize>) -> (r: usize)
    requires
        log.wf(),
        counts@ == log.counts(),
        forall|h: int| 0 <= h < counts@.len() ==> counts@[h] == log.count_of(h),
        valid_cut(log.counts(), cut@),
        sum_counts(log.events@, log.hosts@.len() as int, log.events@.len() as int)
            == log.events@.len(),
    ensures
        r == age(cut@),
{
    let n = cut.len();
    let len = log.events.len();
    let mut a: usize = 0;
    let mut h: usize = 0;
    proof {
        assert forall|g: int| 0 <= g < log.hosts@.len() implies cut@[g] < log.count_of(g) by {
            assert(counts@[g] == log.count_of(g));
        }
        lemma_age_bound(*log, cut@, n as int);
    }
    while h < n
        invariant
            log.wf(),
            n == cut@.len(),
            n == log.hosts@.len(),
            forall|g: int| 0 <= g < counts@.len() ==> counts@[g] == log.count_of(g),
            counts@ == log.counts(),
            valid_cut(log.counts(), cut@),
            len == log.events@.len(),
            sum_counts(log.events@, log.hosts@.len() as int, log.events@.len() as int)
                == log.events@.len(),
            forall|g: int| 0 <= g < log.hosts@.len() ==> cut@[g] < log.count_of(g),
            0 <= h <= n,
            a == age_upto(cut@, h as int),
        decreases n - h,
    {
        proof {
            lemma_age_bound(*log, cut@, h + 1);
            lemma_sum_counts_mono(log.events@, h + 1, n as int, log.events@.len() as int);
            assert(age_upto(cut@, h + 1) == a + cut@[h as int] + 1);
        }
        a = a + cut[h] + 1;
        h = h + 1;
    }
    a
}

} // verus!
