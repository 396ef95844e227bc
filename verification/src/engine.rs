//! The scan engine.
//!
//! Control runs `IDLE → PARTITIONING → SCANNING → AGGREGATING → REPORTING
//! → DONE`, no state skipped and no retry.  `SCANNING` is the only state
//! with internal concurrency; the shell owns the threads and the probes,
//! and `run_scan` is the engine run against their outcomes: it partitions
//! the range, applies every worker's filter, aggregates and sorts.  Its
//! contract pins the result to the open ports of the range, ascending,
//! independent of worker count and arrival order.

use vstd::prelude::*;
use vstd::seq_lib::lemma_sorted_unique;
use crate::aggregate::{aggregate, lemma_aggregation_lossless, lemma_concat_views_membership};
use crate::ordering::{
    ascending_of, lemma_ascending_of_ensures, lemma_port_le_total, lemma_same_members_equal,
    lemma_sorted_iff_sorted_by, lemma_sorted_no_dup_strict, lemma_strictly_ascending_no_dup,
    port_le, sort_ports, sorted, strictly_ascending,
};
use crate::partition::{covered, lemma_partition_complete, partition, partition_post};
use crate::report::{line_of, render};
use crate::request::ScanRequest;
use crate::worker::{collect_open, lemma_open_filter_props, open_filter};

verus! {

/// The engine's control states, in the order they are entered.
#[derive(Clone, Copy, Debug, PartialEq, Eq, Structural)]
pub enum ScanState {
    Idle,
    Partitioning,
    Scanning,
    Aggregating,
    Reporting,
    Done,
}

/// The one transition out of each state.  A finished scan stays finished:
/// a scan runs exactly once per invocation.
pub open spec fn next_state(s: ScanState) -> ScanState {
    match s {
        ScanState::Idle => ScanState::Partitioning,
        ScanState::Partitioning => ScanState::Scanning,
        ScanState::Scanning => ScanState::Aggregating,
        ScanState::Aggregating => ScanState::Reporting,
        ScanState::Reporting => ScanState::Done,
        ScanState::Done => ScanState::Done,
    }
}

/// Advances the engine by one state.
pub fn advance(s: ScanState) -> (r: ScanState)
    ensures
        r == next_state(s),
{
    match s {
        ScanState::Idle => ScanState::Partitioning,
        ScanState::Partitioning => ScanState::Scanning,
        ScanState::Scanning => ScanState::Aggregating,
        ScanState::Aggregating => ScanState::Reporting,
        ScanState::Reporting => ScanState::Done,
        ScanState::Done => ScanState::Done,
    }
}

/// From `Idle` the engine reaches `Done` after five transitions, visiting
/// every state once and skipping none.
pub proof fn lemma_scan_reaches_done()
    ensures
        next_state(ScanState::Idle) == ScanState::Partitioning,
        next_state(next_state(ScanState::Idle)) == ScanState::Scanning,
        next_state(next_state(next_state(ScanState::Idle))) == ScanState::Aggregating,
        next_state(next_state(next_state(next_state(ScanState::Idle)))) == ScanState::Reporting,
        next_state(next_state(next_state(next_state(next_state(ScanState::Idle)))))
            == ScanState::Done,
{
}

/// The ports of the inclusive range `[start, end]`, ascending.
pub open spec fn range_seq(start: u16, end: u16) -> Seq<u16> {
    if start <= end {
        Seq::new((end - start + 1) as nat, |n: int| (start + n) as u16)
    } else {
        Seq::empty()
    }
}

pub proof fn lemma_range_seq_props(start: u16, end: u16)
    ensures
        strictly_ascending(range_seq(start, end)),
        forall|p: u16| #[trigger] range_seq(start, end).contains(p) <==> start <= p <= end,
{
    let r = range_seq(start, end);
    assert forall|p: u16| #[trigger] r.contains(p) <==> start <= p <= end by {
        if start <= p <= end {
            assert(r[p as int - start as int] == p);
        }
        if r.contains(p) {
            let n = choose|n: int| 0 <= n < r.len() && r[n] == p;
            assert(r[n] == (start + n) as u16);
        }
    }
}

/// The answer a scan owes: the ports of the range whose probe outcome was
/// open, in ascending order.
pub open spec fn scan_spec(req: ScanRequest, open: Seq<bool>) -> Seq<u16> {
    open_filter(range_seq(req.start, req.end), open)
}

pub proof fn lemma_scan_spec_props(req: ScanRequest, open: Seq<bool>)
    requires
        (req.end as int) < open.len(),
    ensures
        strictly_ascending(scan_spec(req, open)),
        forall|p: u16|
            #[trigger] scan_spec(req, open).contains(p) <==> (req.start <= p <= req.end
                && open[p as int]),
{
    lemma_range_seq_props(req.start, req.end);
    lemma_open_filter_props(range_seq(req.start, req.end), open);
}

/// The final result of one scan: the open ports, strictly ascending, no
/// duplicates; rendered once by the reporter and then discarded.
pub struct ScanOutcome {
    pub ports: Vec<u16>,
}

impl ScanOutcome {
    /// Strictly ascending, hence free of duplicates.
    pub open spec fn wf(self) -> bool {
        strictly_ascending(self.ports@)
    }
}

/// Runs the whole engine against a table of probe outcomes: partitions the
/// range among the workers, collects every worker's open ports, aggregates
/// and sorts them.  The result is exactly the open ports of the range,
/// ascending — every open port exactly once, nothing else.
pub fn run_scan(req: &ScanRequest, outcomes: &Vec<bool>) -> (r: ScanOutcome)
    requires
        req.wf(),
        (req.end as int) < outcomes@.len(),
    ensures
        r.ports@ == scan_spec(*req, outcomes@),
        r.wf(),
        forall|p: u16|
            #[trigger] r.ports@.contains(p) <==> (req.start <= p <= req.end && outcomes@[p as int]),
{
    let assignments = partition(req);
    let mut parts: Vec<Vec<u16>> = Vec::new();
    let mut i: usize = 0;
    while i < assignments.len()
        invariant
            req.wf(),
            (req.end as int) < outcomes@.len(),
            partition_post(*req, assignments@),
            i <= assignments@.len(),
            parts@.len() == i,
            forall|x: int|
                0 <= x < i ==> (#[trigger] parts@[x])@ == open_filter(
                    assignments@[x].ports@,
                    outcomes@,
                ),
        decreases assignments@.len() - i,
    {
        proof {
            assert(assignments@[i as int].wf(*req));
        }
        let part = collect_open(&assignments[i].ports, outcomes);
        parts.push(part);
        i = i + 1;
    }
    let mut all = aggregate(&parts);
    let ghost agg = all@;
    proof {
        lemma_partition_complete(*req, assignments@);
        assert forall|x: int| 0 <= x < parts@.len() implies (
        #[trigger] parts@[x])@.no_duplicates() by {
            lemma_open_filter_props(assignments@[x].ports@, outcomes@);
            lemma_strictly_ascending_no_dup(parts@[x]@);
        }
        assert forall|i1: int, i2: int, p: u16|
            0 <= i1 < parts@.len() && 0 <= i2 < parts@.len() && i1 != i2 && (
            #[trigger] parts@[i1]@.contains(p)) implies !(#[trigger] parts@[i2]@.contains(
            p,
        )) by {
            lemma_open_filter_props(assignments@[i1].ports@, outcomes@);
            lemma_open_filter_props(assignments@[i2].ports@, outcomes@);
            if parts@[i2]@.contains(p) {
                assert(assignments@[i1].ports@.contains(p));
                assert(assignments@[i2].ports@.contains(p));
            }
        }
        lemma_aggregation_lossless(parts@);
        lemma_concat_views_membership(parts@);
        // membership of the aggregate, in terms of range and outcomes
        assert forall|p: u16| #[trigger]
            agg.contains(p) <==> (req.start <= p <= req.end && outcomes@[p as int]) by {
            if agg.contains(p) {
                let x = choose|x: int|
                    0 <= x < parts@.len() && (#[trigger] parts@[x]@.contains(p));
                lemma_open_filter_props(assignments@[x].ports@, outcomes@);
                assert(assignments@[x].ports@.contains(p));
            }
            if req.start <= p <= req.end && outcomes@[p as int] {
                assert(covered(assignments@, p));
                let x = choose|x: int|
                    0 <= x < assignments@.len() && (#[trigger] assignments@[x].ports@.contains(p));
                lemma_open_filter_props(assignments@[x].ports@, outcomes@);
                assert(assignments@[x].wf(*req));
                assert(parts@[x]@.contains(p));
            }
        }
    }
    sort_ports(&mut all);
    proof {
        agg.to_multiset_ensures();
        all@.to_multiset_ensures();
        // sorting keeps membership and multiplicities
        assert forall|p: u16| #[trigger]
            all@.contains(p) <==> (req.start <= p <= req.end && outcomes@[p as int]) by {
            assert(all@.contains(p) <==> all@.to_multiset().count(p) > 0);
            assert(agg.contains(p) <==> agg.to_multiset().count(p) > 0);
        }
        agg.lemma_multiset_has_no_duplicates();
        all@.lemma_multiset_has_no_duplicates_conv();
        lemma_sorted_no_dup_strict(all@);
        lemma_scan_spec_props(*req, outcomes@);
        lemma_same_members_equal(all@, scan_spec(*req, outcomes@));
    }
    ScanOutcome { ports: all }
}

/// The whole scan, probe outcomes in, report lines out: one line
/// `"<port> is open"` per open port of the range, ascending.
pub fn scan_report(req: &ScanRequest, outcomes: &Vec<bool>) -> (lines: Vec<String>)
    requires
        req.wf(),
        (req.end as int) < outcomes@.len(),
    ensures
        lines@.len() == scan_spec(*req, outcomes@).len(),
        forall|i: int|
            0 <= i < lines@.len() ==> (#[trigger] lines@[i])@ == line_of(
                scan_spec(*req, outcomes@)[i],
            ),
{
    let outcome = run_scan(req, outcomes);
    let lines = render(&outcome.ports);
    proof {
        // the outcome is already sorted, so rendering reorders nothing
        lemma_ascending_of_ensures(outcome.ports@);
        lemma_port_le_total();
        lemma_sorted_iff_sorted_by(outcome.ports@);
        lemma_sorted_iff_sorted_by(ascending_of(outcome.ports@));
        lemma_sorted_unique(ascending_of(outcome.ports@), outcome.ports@, port_le());
        assert(ascending_of(outcome.ports@) =~= outcome.ports@);
    }
    lines
}

/// A port is reported open exactly when its probe came back open and it
/// lies inside the scanned range: aggregation and rendering introduce no
/// false positives and lose no true ones.
pub proof fn lemma_no_false_positives(req: ScanRequest, open: Seq<bool>, p: u16)
    requires
        (req.end as int) < open.len(),
    ensures
        scan_spec(req, open).contains(p) <==> (req.start <= p <= req.end && open[p as int]),
{
    lemma_scan_spec_props(req, open);
}

/// The outcome of a scan depends on the range and the probe outcomes
/// alone, never on how many workers shared the work: one worker behaves
/// exactly as any number.
pub proof fn lemma_worker_count_irrelevant(a: ScanRequest, b: ScanRequest, open: Seq<bool>)
    requires
        a.start == b.start,
        a.end == b.end,
    ensures
        scan_spec(a, open) == scan_spec(b, open),
{
}

} // verus!
