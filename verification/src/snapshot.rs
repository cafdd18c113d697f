//! Snapshot: the immutable, fully-formed result of one measurement cycle,
//! the selection pipeline that builds it, and the single-slot cache through
//! which it is published.
//!
//! A cycle builds its complete snapshot off to the side and replaces the
//! published one in a single step; a failed cycle keeps the prior readings
//! and only updates the bookkeeping fields.

use vstd::prelude::*;

use crate::MemoryReading;
use crate::bytes::bytes_eq;
use crate::filter::{FilterPolicy, accepts, matches_any_spec, reading_accepted};
use crate::rank::{
    RankingPolicy, lemma_rank_order_valid, lemma_rank_spec_properties, rank, rank_order, rank_spec,
};

verus! {

/// The candidates that pass the filter policy, in their original order.
pub open spec fn filtered(s: Seq<MemoryReading>, p: FilterPolicy) -> Seq<MemoryReading>
    decreases s.len(),
{
    if s.len() == 0 {
        Seq::empty()
    } else if accepts(p, s.last().name@, s.last().uss) {
        filtered(s.drop_last(), p).push(s.last())
    } else {
        filtered(s.drop_last(), p)
    }
}

/// The readings of one published cycle: candidates filtered, then ranked
/// and truncated to the top N.
pub open spec fn selected(
    s: Seq<MemoryReading>,
    fp: FilterPolicy,
    rp: RankingPolicy,
) -> Seq<MemoryReading> {
    rank_spec(filtered(s, fp), rp.sort_key, rp.top_n as int)
}

/// Drops every candidate the policy rejects, keeping the original order.
pub fn filter_readings(candidates: Vec<MemoryReading>, fp: &FilterPolicy) -> (r: Vec<
    MemoryReading,
>)
    ensures
        r@ == filtered(candidates@, *fp),
{
    let ghost s = candidates@;
    let mut rest = candidates;
    let mut kept: Vec<MemoryReading> = Vec::new();
    proof {
        assert(rest@ =~= s.skip(0));
        assert(kept@ =~= filtered(s.take(0), *fp));
    }
    while rest.len() > 0
        invariant
            rest@.len() <= s.len(),
            rest@ == s.skip(s.len() - rest@.len()),
            kept@ == filtered(s.take(s.len() - rest@.len()), *fp),
        decreases rest@.len(),
    {
        let ghost i = s.len() - rest@.len();
        let m = rest.remove(0);
        proof {
            assert(m == s[i]);
            assert(rest@ =~= s.skip(i + 1));
        }
        if reading_accepted(fp, &m.name, m.uss) {
            kept.push(m);
        }
        proof {
            assert(s.take(i + 1).drop_last() =~= s.take(i));
            assert(s.take(i + 1).last() == s[i]);
        }
    }
    proof {
        assert(s.take(s.len() as int) =~= s);
    }
    kept
}

/// Builds the published readings of one cycle: filter, then rank and
/// truncate.
pub fn select_readings(
    candidates: Vec<MemoryReading>,
    fp: &FilterPolicy,
    rp: &RankingPolicy,
) -> (r: Vec<MemoryReading>)
    ensures
        r@ == selected(candidates@, *fp, *rp),
{
    let kept = filter_readings(candidates, fp);
    rank(kept, rp.sort_key, rp.top_n)
}

/// The immutable result of one complete measurement cycle.
pub struct Snapshot {
    /// The published readings, in rank order.
    pub readings: Vec<MemoryReading>,
    /// When the cycle was captured, in microseconds of the caller's clock.
    pub captured_at_micros: u64,
    /// How long the scan took, in microseconds.
    pub scan_duration_micros: u64,
    /// Whether the cycle completed successfully.
    pub success: bool,
}

impl Snapshot {
    /// The reading published for `pid`, if any: the readings form a mapping
    /// keyed by process identifier. When pids are distinct — as every
    /// cycle's enumeration yields — the first match is the only one.
    pub fn reading_for(&self, pid: &Vec<u8>) -> (r: Option<&MemoryReading>)
        ensures
            r is Some <==> (exists|i: int|
                0 <= i < self.readings@.len() && (#[trigger] self.readings@[i]).pid@ == pid@),
            r matches Some(m) ==> exists|i: int|
                0 <= i < self.readings@.len() && *m == self.readings@[i]
                    && (#[trigger] self.readings@[i]).pid@ == pid@ && (forall|j: int|
                    0 <= j < i ==> self.readings@[j].pid@ != pid@),
    {
        let mut i: usize = 0;
        while i < self.readings.len()
            invariant
                i <= self.readings@.len(),
                forall|j: int| 0 <= j < i ==> (#[trigger] self.readings@[j]).pid@ != pid@,
            decreases self.readings@.len() - i,
        {
            let m = &self.readings[i];
            if bytes_eq(&m.pid, pid) {
                return Some(m);
            }
            i = i + 1;
        }
        None
    }

    /// The empty snapshot that stands published before any cycle completes.
    pub fn empty() -> (s: Snapshot)
        ensures
            s.readings@ == Seq::<MemoryReading>::empty(),
            s.captured_at_micros == 0,
            s.scan_duration_micros == 0,
            !s.success,
    {
        Snapshot { readings: Vec::new(), captured_at_micros: 0, scan_duration_micros: 0, success: false }
    }
}

/// Assembles the complete snapshot of one successful cycle off to the side.
pub fn build_snapshot(
    candidates: Vec<MemoryReading>,
    fp: &FilterPolicy,
    rp: &RankingPolicy,
    captured_at_micros: u64,
    scan_duration_micros: u64,
) -> (s: Snapshot)
    ensures
        s.readings@ == selected(candidates@, *fp, *rp),
        s.captured_at_micros == captured_at_micros,
        s.scan_duration_micros == scan_duration_micros,
        s.success,
{
    Snapshot {
        readings: select_readings(candidates, fp, rp),
        captured_at_micros,
        scan_duration_micros,
        success: true,
    }
}

/// The only mutable cell of the system: which snapshot is currently
/// published. A writer replaces the whole snapshot in one step, so a reader
/// sees either the prior or the new one, never a mixture.
pub struct SnapshotCache {
    current: Snapshot,
}

impl SnapshotCache {
    /// The presently published snapshot.
    pub closed spec fn spec_current(&self) -> Snapshot {
        self.current
    }

    /// A fresh cache: an empty, unsuccessful snapshot stands published
    /// until the first cycle completes.
    pub fn new() -> (c: SnapshotCache)
        ensures
            c.spec_current().readings@ == Seq::<MemoryReading>::empty(),
            c.spec_current().captured_at_micros == 0,
            c.spec_current().scan_duration_micros == 0,
            !c.spec_current().success,
    {
        SnapshotCache { current: Snapshot::empty() }
    }

    /// Replaces the published snapshot with `s`, whole.
    pub fn publish(&mut self, s: Snapshot)
        ensures
            final(self).spec_current() == s,
    {
        self.current = s;
    }

    /// The published snapshot, served regardless of any scan in progress.
    pub fn current(&self) -> (r: &Snapshot)
        ensures
            *r == self.spec_current(),
    {
        &self.current
    }

    /// Records a failed cycle: the prior readings stay published unchanged;
    /// only capture time, duration and the success marker change.
    pub fn record_failure(&mut self, captured_at_micros: u64, scan_duration_micros: u64)
        ensures
            final(self).spec_current().readings@ == old(self).spec_current().readings@,
            final(self).spec_current().captured_at_micros == captured_at_micros,
            final(self).spec_current().scan_duration_micros == scan_duration_micros,
            !final(self).spec_current().success,
    {
        self.current.captured_at_micros = captured_at_micros;
        self.current.scan_duration_micros = scan_duration_micros;
        self.current.success = false;
    }
}

/// Completes one cycle against the cache. A gather that produced
/// candidates publishes a fresh snapshot built from them; a failed gather
/// (`None`) or one that produced no candidates keeps the prior readings
/// published and only records the failed attempt's bookkeeping. Returns
/// whether a new snapshot was published.
pub fn complete_cycle(
    cache: &mut SnapshotCache,
    gathered: Option<Vec<MemoryReading>>,
    fp: &FilterPolicy,
    rp: &RankingPolicy,
    captured_at_micros: u64,
    scan_duration_micros: u64,
) -> (published: bool)
    ensures
        match gathered {
            Some(c) => {
                if c@.len() > 0 {
                    &&& published
                    &&& final(cache).spec_current().readings@ == selected(c@, *fp, *rp)
                    &&& final(cache).spec_current().success
                } else {
                    &&& !published
                    &&& final(cache).spec_current().readings@ == old(
                        cache,
                    ).spec_current().readings@
                    &&& !final(cache).spec_current().success
                }
            },
            None => {
                &&& !published
                &&& final(cache).spec_current().readings@ == old(cache).spec_current().readings@
                &&& !final(cache).spec_current().success
            },
        },
        final(cache).spec_current().captured_at_micros == captured_at_micros,
        final(cache).spec_current().scan_duration_micros == scan_duration_micros,
{
    match gathered {
        Some(candidates) => {
            if candidates.len() > 0 {
                let s = build_snapshot(candidates, fp, rp, captured_at_micros, scan_duration_micros);
                cache.publish(s);
                true
            } else {
                cache.record_failure(captured_at_micros, scan_duration_micros);
                false
            }
        },
        None => {
            cache.record_failure(captured_at_micros, scan_duration_micros);
            false
        },
    }
}

proof fn lemma_filtered_accepts(s: Seq<MemoryReading>, p: FilterPolicy)
    ensures
        forall|i: int|
            0 <= i < filtered(s, p).len() ==> accepts(
                p,
                (#[trigger] filtered(s, p)[i]).name@,
                filtered(s, p)[i].uss,
            ),
    decreases s.len(),
{
    if s.len() > 0 {
        let d = s.drop_last();
        lemma_filtered_accepts(d, p);
        let fd = filtered(d, p);
        let r = filtered(s, p);
        assert forall|i: int| 0 <= i < r.len() implies accepts(
            p,
            (#[trigger] r[i]).name@,
            r[i].uss,
        ) by {
            if i < fd.len() {
                assert(r[i] == fd[i]);
            } else {
                assert(r[i] == s.last());
            }
        }
    }
}

proof fn lemma_filtered_membership(s: Seq<MemoryReading>, p: FilterPolicy)
    ensures
        filtered(s, p).len() <= s.len(),
        forall|i: int| 0 <= i < filtered(s, p).len() ==> s.contains(#[trigger] filtered(s, p)[i]),
    decreases s.len(),
{
    if s.len() > 0 {
        let d = s.drop_last();
        lemma_filtered_membership(d, p);
        assert forall|x: MemoryReading| d.contains(x) implies s.contains(x) by {
            let w = choose|w: int| 0 <= w < d.len() && d[w] == x;
            assert(s[w] == x);
        }
        assert(s[s.len() - 1] == s.last());
        assert(s.contains(s.last()));
    }
}

/// Every reading of a published cycle obeys the filter policy: none matches
/// an exclude pattern; when the include list is non-empty each matches one
/// of its patterns; and each meets the unique-set threshold.
pub proof fn lemma_published_respect_filter(
    c: Seq<MemoryReading>,
    fp: FilterPolicy,
    rp: RankingPolicy,
)
    ensures
        forall|i: int|
            0 <= i < selected(c, fp, rp).len() ==> !matches_any_spec(
                (#[trigger] selected(c, fp, rp)[i]).name@,
                fp.exclude_patterns@,
            ),
        forall|i: int|
            0 <= i < selected(c, fp, rp).len() && fp.include_patterns@.len() > 0
                ==> matches_any_spec(
                (#[trigger] selected(c, fp, rp)[i]).name@,
                fp.include_patterns@,
            ),
        forall|i: int|
            0 <= i < selected(c, fp, rp).len() ==> (#[trigger] selected(c, fp, rp)[i]).uss
                >= fp.min_unique_bytes,
{
    let f = filtered(c, fp);
    lemma_filtered_accepts(c, fp);
    lemma_rank_order_valid(f, rp.sort_key);
    lemma_rank_spec_properties(f, rp.sort_key, rp.top_n as int);
    assert forall|i: int| 0 <= i < selected(c, fp, rp).len() implies accepts(
        fp,
        (#[trigger] selected(c, fp, rp)[i]).name@,
        selected(c, fp, rp)[i].uss,
    ) by {
        assert(selected(c, fp, rp)[i] == f[rank_order(f, rp.sort_key)[i]]);
    }
}

/// A published cycle never holds more than the policy's top N readings, and
/// holds exactly `min(number that pass the filter, top N)` of them.
pub proof fn lemma_selected_bounded(c: Seq<MemoryReading>, fp: FilterPolicy, rp: RankingPolicy)
    ensures
        selected(c, fp, rp).len() <= rp.top_n,
        selected(c, fp, rp).len() == if rp.top_n <= filtered(c, fp).len() {
            rp.top_n as int
        } else {
            filtered(c, fp).len() as int
        },
{
    lemma_rank_spec_properties(filtered(c, fp), rp.sort_key, rp.top_n as int);
}

/// Process identifiers are pairwise distinct.
pub open spec fn distinct_pids(s: Seq<MemoryReading>) -> bool {
    forall|i: int, j: int|
        0 <= i < j < s.len() ==> (#[trigger] s[i]).pid@ != (#[trigger] s[j]).pid@
}

proof fn lemma_filtered_distinct(s: Seq<MemoryReading>, p: FilterPolicy)
    requires
        distinct_pids(s),
    ensures
        distinct_pids(filtered(s, p)),
    decreases s.len(),
{
    if s.len() > 0 {
        let d = s.drop_last();
        lemma_filtered_distinct(d, p);
        lemma_filtered_membership(d, p);
        if accepts(p, s.last().name@, s.last().uss) {
            let fd = filtered(d, p);
            let r = filtered(s, p);
            assert forall|i: int, j: int| 0 <= i < j < r.len() implies (#[trigger] r[i]).pid@ != (
            #[trigger] r[j]).pid@ by {
                if j < fd.len() {
                    assert(r[i] == fd[i] && r[j] == fd[j]);
                } else {
                    assert(r[j] == s.last());
                    assert(r[i] == fd[i]);
                    assert(d.contains(fd[i]));
                    let w = choose|w: int| 0 <= w < d.len() && d[w] == fd[i];
                    assert(s[w] == fd[i]);
                    assert(s[w].pid@ != s[s.len() - 1].pid@);
                }
            }
        }
    }
}

/// When the enumerated candidates carry distinct process identifiers, so
/// does every published cycle — the readings form a map keyed by pid.
pub proof fn lemma_selected_distinct_pids(
    c: Seq<MemoryReading>,
    fp: FilterPolicy,
    rp: RankingPolicy,
)
    requires
        distinct_pids(c),
    ensures
        distinct_pids(selected(c, fp, rp)),
{
    let f = filtered(c, fp);
    let k = rp.sort_key;
    lemma_filtered_distinct(c, fp);
    lemma_rank_order_valid(f, k);
    lemma_rank_spec_properties(f, k, rp.top_n as int);
    let r = selected(c, fp, rp);
    let ord = rank_order(f, k);
    assert forall|i: int, j: int| 0 <= i < j < r.len() implies (#[trigger] r[i]).pid@ != (
    #[trigger] r[j]).pid@ by {
        assert(r[i] == f[ord[i]]);
        assert(r[j] == f[ord[j]]);
        assert(ord[i] != ord[j]);
        if ord[i] < ord[j] {
            assert(f[ord[i]].pid@ != f[ord[j]].pid@);
        } else {
            assert(f[ord[j]].pid@ != f[ord[i]].pid@);
        }
    }
}

/// Publishing the same scan twice in a row — the same candidates under the
/// same policies — yields identical snapshot contents; only the capture
/// time and scan duration bookkeeping may differ between the two snapshots.
pub proof fn lemma_republish_identical(
    c: Seq<MemoryReading>,
    fp: FilterPolicy,
    rp: RankingPolicy,
    s1: Snapshot,
    s2: Snapshot,
)
    requires
        s1.readings@ == selected(c, fp, rp),
        s2.readings@ == selected(c, fp, rp),
        s1.success,
        s2.success,
    ensures
        s1.readings@ == s2.readings@,
        s1.success == s2.success,
{
}

} // verus!
