//! Cuts: one event per host, given as each host's 0-based position in its
//! local order. Cuts are numbered in mixed radix, host 0 most significant,
//! so that they come in lexicographic order of positions.

use vstd::prelude::*;
use vstd::arithmetic::div_mod::lemma_fundamental_div_mod_converse;
use crate::event::EventLog;

verus! {

/// Number of cuts over the first `len` hosts, where host `h` has `counts[h]`
/// events: the product of those counts.
pub open spec fn num_cuts_upto(counts: Seq<usize>, len: int) -> nat
    decreases len,
{
    if len <= 0 {
        1
    } else {
        num_cuts_upto(counts, len - 1) * (counts[len - 1] as nat)
    }
}

/// Number of cuts: the product of the per-host event counts.
pub open spec fn num_cuts(counts: Seq<usize>) -> nat {
    num_cuts_upto(counts, counts.len() as int)
}

/// `cut` names an event of every host.
pub open spec fn valid_cut(counts: Seq<usize>, cut: Seq<usize>) -> bool {
    &&& cut.len() == counts.len()
    &&& forall|h: int| 0 <= h < cut.len() ==> cut[h] < counts[h]
}

/// Rank of the first `len` positions of `cut` in mixed radix.
pub open spec fn rank_upto(counts: Seq<usize>, cut: Seq<usize>, len: int) -> int
    decreases len,
{
    if len <= 0 {
        0
    } else {
        rank_upto(counts, cut, len - 1) * counts[len - 1] + cut[len - 1]
    }
}

/// The number of `cut` in the enumeration order.
pub open spec fn cut_rank(counts: Seq<usize>, cut: Seq<usize>) -> int {
    rank_upto(counts, cut, counts.len() as int)
}

/// The positions over the first `len` hosts whose rank is `k`.
pub open spec fn cut_of_rank_upto(counts: Seq<usize>, k: int, len: int) -> Seq<usize>
    decreases len,
{
    if len <= 0 {
        Seq::empty()
    } else {
        cut_of_rank_upto(counts, k / counts[len - 1] as int, len - 1).push(
            (k % counts[len - 1] as int) as usize,
        )
    }
}

/// The cut numbered `k` in the enumeration order.
pub open spec fn cut_of_rank(counts: Seq<usize>, k: int) -> Seq<usize> {
    cut_of_rank_upto(counts, k, counts.len() as int)
}

proof fn lemma_rank_ext(counts: Seq<usize>, a: Seq<usize>, b: Seq<usize>, len: int)
    requires
        forall|h: int| 0 <= h < len ==> a[h] == b[h],
    ensures
        rank_upto(counts, a, len) == rank_upto(counts, b, len),
    decreases len,
{
    if len > 0 {
        lemma_rank_ext(counts, a, b, len - 1);
    }
}

proof fn lemma_rank_bound(counts: Seq<usize>, cut: Seq<usize>, len: int)
    requires
        0 <= len <= counts.len(),
        len <= cut.len(),
        forall|h: int| 0 <= h < len ==> cut[h] < counts[h],
    ensures
        0 <= rank_upto(counts, cut, len) < num_cuts_upto(counts, len),
    decreases len,
{
    if len > 0 {
        lemma_rank_bound(counts, cut, len - 1);
        let r = rank_upto(counts, cut, len - 1);
        let nn = num_cuts_upto(counts, len - 1) as int;
        let m = counts[len - 1] as int;
        let d = cut[len - 1] as int;
        assert(0 <= r * m + d < nn * m) by (nonlinear_arith)
            requires
                0 <= r < nn,
                0 <= d < m,
        ;
    }
}

proof fn lemma_decode(counts: Seq<usize>, k: int, len: int)
    requires
        0 <= len <= counts.len(),
        0 <= k < num_cuts_upto(counts, len),
    ensures
        cut_of_rank_upto(counts, k, len).len() == len,
        forall|h: int| 0 <= h < len ==> #[trigger] cut_of_rank_upto(counts, k, len)[h] < counts[h],
        rank_upto(counts, cut_of_rank_upto(counts, k, len), len) == k,
    decreases len,
{
    if len > 0 {
        let m = counts[len - 1] as int;
        let nn = num_cuts_upto(counts, len - 1) as int;
        assert(m > 0) by (nonlinear_arith)
            requires
                0 <= k < nn * m,
                m >= 0,
        ;
        let q = k / m;
        let r = k % m;
        assert(k == m * q + r && 0 <= r < m) by (nonlinear_arith)
            requires
                m > 0,
                q == k / m,
                r == k % m,
        ;
        assert(0 <= q < nn) by (nonlinear_arith)
            requires
                k == m * q + r,
                0 <= r < m,
                0 <= k < nn * m,
        ;
        lemma_decode(counts, q, len - 1);
        let prefix = cut_of_rank_upto(counts, q, len - 1);
        let full = cut_of_rank_upto(counts, k, len);
        assert(full == prefix.push(r as usize));
        lemma_rank_ext(counts, full, prefix, len - 1);
        assert(rank_upto(counts, full, len) == q * m + r);
    }
}

proof fn lemma_encode(counts: Seq<usize>, cut: Seq<usize>, len: int)
    requires
        0 <= len <= counts.len(),
        len <= cut.len(),
        forall|h: int| 0 <= h < len ==> cut[h] < counts[h],
    ensures
        cut_of_rank_upto(counts, rank_upto(counts, cut, len), len) == cut.subrange(0, len),
    decreases len,
{
    if len > 0 {
        lemma_encode(counts, cut, len - 1);
        lemma_rank_bound(counts, cut, len - 1);
        let q = rank_upto(counts, cut, len - 1);
        let m = counts[len - 1] as int;
        let d = cut[len - 1] as int;
        lemma_fundamental_div_mod_converse(q * m + d, m, q, d);
        assert(cut.subrange(0, len) =~= cut.subrange(0, len - 1).push(cut[len - 1]));
    }
}

/// Cut enumeration covers each cut exactly once: the cuts numbered
/// 0, 1, ... below the product of the per-host event counts are valid and
/// carry their own number, and every valid cut is one of them.
pub proof fn lemma_cuts_enumerated(counts: Seq<usize>)
    ensures
        forall|k: int|
            0 <= k < num_cuts(counts) ==> valid_cut(counts, #[trigger] cut_of_rank(counts, k))
                && cut_rank(counts, cut_of_rank(counts, k)) == k,
        forall|c: Seq<usize>|
            valid_cut(counts, c) ==> 0 <= #[trigger] cut_rank(counts, c) < num_cuts(counts)
                && cut_of_rank(counts, cut_rank(counts, c)) == c,
{
    let n = counts.len() as int;
    assert forall|k: int| 0 <= k < num_cuts(counts) implies valid_cut(
        counts,
        #[trigger] cut_of_rank(counts, k),
    ) && cut_rank(counts, cut_of_rank(counts, k)) == k by {
        lemma_decode(counts, k, n);
    }
    assert forall|c: Seq<usize>| valid_cut(counts, c) implies 0 <= #[trigger] cut_rank(counts, c)
        < num_cuts(counts) && cut_of_rank(counts, cut_rank(counts, c)) == c by {
        lemma_rank_bound(counts, c, n);
        lemma_encode(counts, c, n);
        assert(c.subrange(0, n) =~= c);
    }
}

/// Moves the first `len` positions of `cut` to the next cut in the
/// enumeration order. Returns false, with those positions back at zero,
/// when they were already the last cut.
fn advance(counts: &Vec<usize>, cut: &mut Vec<usize>, len: usize) -> (r: bool)
    requires
        len <= counts@.len(),
        valid_cut(counts@, old(cut)@),
    ensures
        valid_cut(counts@, final(cut)@),
        forall|h: int| len <= h < counts@.len() ==> final(cut)@[h] == old(cut)@[h],
        r ==> rank_upto(counts@, final(cut)@, len as int) == rank_upto(counts@, old(cut)@, len as int)
            + 1,
        !r ==> rank_upto(counts@, old(cut)@, len as int) + 1 == num_cuts_upto(counts@, len as int),
        !r ==> forall|h: int| 0 <= h < len ==> final(cut)@[h] == 0,
    decreases len,
{
    if len == 0 {
        return false;
    }
    let j = len - 1;
    let ghost before = cut@;
    if cut[j] + 1 < counts[j] {
        let x = cut[j] + 1;
        cut.set(j, x);
        proof {
            lemma_rank_ext(counts@, cut@, before, j as int);
        }
        true
    } else {
        cut.set(j, 0);
        let ghost mid = cut@;
        proof {
            lemma_rank_ext(counts@, mid, before, j as int);
        }
        let r = advance(counts, cut, j);
        proof {
            let m = counts@[j as int] as int;
            let a = rank_upto(counts@, before, j as int);
            assert(before[j as int] == m - 1);
            assert(cut@[j as int] == 0);
            if r {
                assert((a + 1) * m == a * m + (m - 1) + 1) by (nonlinear_arith);
            } else {
                let nn = num_cuts_upto(counts@, j as int) as int;
                assert((nn - 1) * m + (m - 1) + 1 == nn * m) by (nonlinear_arith);
            }
        }
        r
    }
}

/// Yields the cuts of a log one at a time, in lexicographic order of
/// positions, without holding more than the current one. `restart` begins
/// the enumeration again.
pub struct CutEnumerator {
    counts: Vec<usize>,
    current: Vec<usize>,
    exhausted: bool,
}

impl CutEnumerator {
    /// Number of events of each host.
    pub closed spec fn host_counts(&self) -> Seq<usize> {
        self.counts@
    }

    pub closed spec fn wf(&self) -> bool {
        &&& self.current@.len() == self.counts@.len()
        &&& !self.exhausted ==> valid_cut(self.counts@, self.current@)
    }

    /// Number of the cut that `next_cut` yields next; the number of cuts
    /// once all have been yielded.
    pub closed spec fn position(&self) -> int {
        if self.exhausted {
            num_cuts(self.counts@) as int
        } else {
            cut_rank(self.counts@, self.current@)
        }
    }

    /// An enumerator of the cuts of hosts with `counts[h]` events each,
    /// at its first cut.
    pub fn new(counts: Vec<usize>) -> (r: CutEnumerator)
        ensures
            r.wf(),
            r.host_counts() == counts@,
            r.position() == 0,
    {
        let mut e = CutEnumerator { counts, current: Vec::new(), exhausted: false };
        e.restart();
        e
    }

    /// Goes back to the first cut.
    pub fn restart(&mut self)
        ensures
            final(self).wf(),
            final(self).host_counts() == old(self).host_counts(),
            final(self).position() == 0,
    {
        let n = self.counts.len();
        let mut z: Vec<usize> = Vec::new();
        let mut empty_host = false;
        let mut h: usize = 0;
        while h < n
            invariant
                n == self.counts@.len(),
                0 <= h <= n,
                z@.len() == h,
                forall|g: int| 0 <= g < h ==> z@[g] == 0,
                empty_host <==> exists|g: int| 0 <= g < h && self.counts@[g] == 0,
            decreases n - h,
        {
            if self.counts[h] == 0 {
                empty_host = true;
            }
            z.push(0);
            h = h + 1;
        }
        self.current = z;
        self.exhausted = empty_host;
        proof {
            if empty_host {
                let g = choose|g: int| 0 <= g < n && self.counts@[g] == 0;
                lemma_num_cuts_zero(self.counts@, g, n as int);
            } else {
                lemma_rank_zero(self.counts@, self.current@, n as int);
            }
        }
    }

    /// The next cut, as each host's position, or `None` once every cut
    /// has been yielded.
    pub fn next_cut(&mut self) -> (r: Option<Vec<usize>>)
        requires
            old(self).wf(),
        ensures
            final(self).wf(),
            final(self).host_counts() == old(self).host_counts(),
            old(self).position() < num_cuts(old(self).host_counts()) ==> {
                &&& r matches Some(c) && c@ == cut_of_rank(old(self).host_counts(), old(self).position())
                &&& final(self).position() == old(self).position() + 1
            },
            old(self).position() >= num_cuts(old(self).host_counts()) ==> r is None && final(self).position()
                == old(self).position(),
    {
        proof {
            if !self.exhausted {
                lemma_cuts_enumerated(self.counts@);
            }
        }
        if self.exhausted {
            return None;
        }
        let c = self.current.clone();
        assert(c@ =~= self.current@);
        let n = self.counts.len();
        let more = advance(&self.counts, &mut self.current, n);
        if !more {
            self.exhausted = true;
        }
        Some(c)
    }
}

impl EventLog {
    /// The cuts of the log, one at a time, from the first.
    pub fn enumerate_cuts(&self) -> (r: CutEnumerator)
        requires
            self.wf(),
        ensures
            r.wf(),
            r.host_counts() == self.counts(),
            r.position() == 0,
    {
        CutEnumerator::new(self.event_counts())
    }
}

proof fn lemma_num_cuts_zero(counts: Seq<usize>, g: int, len: int)
    requires
        0 <= g < len <= counts.len(),
        counts[g] == 0,
    ensures
        num_cuts_upto(counts, len) == 0,
    decreases len,
{
    let a = num_cuts_upto(counts, len - 1);
    let m = counts[len - 1] as nat;
    if g < len - 1 {
        lemma_num_cuts_zero(counts, g, len - 1);
        assert(a * m == 0) by (nonlinear_arith)
            requires
                a == 0,
        ;
    } else {
        assert(a * m == 0) by (nonlinear_arith)
            requires
                m == 0,
        ;
    }
}

proof fn lemma_rank_zero(counts: Seq<usize>, cut: Seq<usize>, len: int)
    requires
        0 <= len <= cut.len(),
        forall|h: int| 0 <= h < len ==> cut[h] == 0,
    ensures
        rank_upto(counts, cut, len) == 0,
    decreases len,
{
    if len > 0 {
        lemma_rank_zero(counts, cut, len - 1);
    }
}

} // verus!
