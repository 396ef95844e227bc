//! Striped work partitioning.
//!
//! Worker `i` of `k` receives ports `start + i`, `start + i + k`,
//! `start + i + 2*k`, ... capped at `end`.  Striping spreads the
//! low-numbered ports evenly across workers and needs no shared state to
//! compute.  A worker count larger than the range simply leaves the excess
//! workers with empty assignments.

use vstd::prelude::*;
use vstd::arithmetic::div_mod::{
    lemma_fundamental_div_mod, lemma_fundamental_div_mod_converse_div,
    lemma_fundamental_div_mod_converse_mod, lemma_div_is_ordered, lemma_div_pos_is_pos,
    lemma_mod_bound,
};
use vstd::arithmetic::mul::lemma_mul_strict_inequality;
use crate::ordering::strictly_ascending;
use crate::request::ScanRequest;

verus! {

/// One worker's share of the range: the ports it alone will probe, in
/// ascending order.
#[derive(Clone, Debug)]
pub struct WorkerAssignment {
    pub worker_id: u16,
    pub ports: Vec<u16>,
}

/// How many ports of `[start, end]` fall on worker `i`'s stripe of stride
/// `k`.
pub open spec fn stripe_len(start: int, end: int, k: int, i: int) -> int {
    if start + i > end {
        0
    } else {
        (end - start - i) / k + 1
    }
}

/// The port at position `j` of worker `i`'s stripe.
pub open spec fn stripe_port(start: int, k: int, i: int, j: int) -> int {
    start + i + j * k
}

impl WorkerAssignment {
    /// The assignment worker `worker_id` must receive for request `req`:
    /// exactly its stripe, in ascending order, every port inside the range.
    pub open spec fn wf(self, req: ScanRequest) -> bool {
        &&& self.worker_id < req.workers
        &&& self.ports@.len() == stripe_len(
            req.start as int,
            req.end as int,
            req.workers as int,
            self.worker_id as int,
        )
        &&& forall|j: int|
            0 <= j < self.ports@.len() ==> (#[trigger] self.ports@[j]) as int == stripe_port(
                req.start as int,
                req.workers as int,
                self.worker_id as int,
                j,
            )
        &&& forall|j: int|
            0 <= j < self.ports@.len() ==> req.start <= #[trigger] self.ports@[j] <= req.end
        &&& strictly_ascending(self.ports@)
    }
}

/// Whether some assignment of the sequence holds port `p`.
pub open spec fn covered(asg: Seq<WorkerAssignment>, p: u16) -> bool {
    exists|i: int| 0 <= i < asg.len() && (#[trigger] asg[i].ports@.contains(p))
}

/// What `partition` promises: one assignment per worker, each worker's own
/// stripe.
pub open spec fn partition_post(req: ScanRequest, asg: Seq<WorkerAssignment>) -> bool {
    &&& asg.len() == req.workers
    &&& forall|i: int|
        0 <= i < asg.len() ==> (#[trigger] asg[i]).worker_id == i && asg[i].wf(req)
}

/// Builds worker `i`'s stripe of the range.
fn stripe(req: &ScanRequest, i: u16) -> (ports: Vec<u16>)
    requires
        req.wf(),
        i < req.workers,
    ensures
        (WorkerAssignment { worker_id: i, ports }).wf(*req),
{
    let start = req.start as u32;
    let end = req.end as u32;
    let k = req.workers as u32;
    let mut ports: Vec<u16> = Vec::new();
    let mut cur: u32 = start + i as u32;
    proof {
        // the stripe is empty so far: the position formula starts at zero
        assert((ports@.len() as int) * (k as int) == 0);
    }
    while cur <= end
        invariant
            start == req.start,
            end == req.end,
            k == req.workers,
            req.wf(),
            i < req.workers,
            cur as int == start as int + i as int + (ports@.len() as int) * (k as int),
            forall|j: int|
                0 <= j < ports@.len() ==> (#[trigger] ports@[j]) as int == stripe_port(
                    start as int,
                    k as int,
                    i as int,
                    j,
                ),
            forall|j: int| 0 <= j < ports@.len() ==> start <= #[trigger] ports@[j] <= end,
            ports@.len() > 0 ==> cur as int - k as int <= end as int,
            forall|j: int|
                0 <= j < ports@.len() ==> (#[trigger] ports@[j]) as int <= cur as int - k as int,
        decreases end + k - cur,
    {
        proof {
            assert((ports@.len() + 1) * k == ports@.len() * k + k) by (nonlinear_arith);
        }
        ports.push(cur as u16);
        cur = cur + k;
    }
    proof {
        let s = start as int;
        let e = end as int;
        let ki = k as int;
        let ii = i as int;
        let len = ports@.len() as int;
        if s + ii > e {
            if len > 0 {
                assert(ports@[0] as int == stripe_port(s, ki, ii, 0));
                assert(ports@[0] <= end);
            }
            assert(len == 0);
        } else {
            assert(len > 0);
            assert((len - 1) * ki == len * ki - ki) by (nonlinear_arith);
            let n = e - s - ii;
            // the last pushed port is within the range and the next one is
            // past it, so len - 1 is the quotient of n by k
            assert(s + ii + (len - 1) * ki <= e);
            assert(s + ii + len * ki > e);
            lemma_fundamental_div_mod_converse_div(n, ki, len - 1, n - (len - 1) * ki);
            assert(len == stripe_len(s, e, ki, ii));
        }
        assert forall|j1: int, j2: int| 0 <= j1 < j2 < ports@.len() implies ports@[j1]
            < ports@[j2] by {
            assert(ports@[j1] as int == stripe_port(s, ki, ii, j1));
            assert(ports@[j2] as int == stripe_port(s, ki, ii, j2));
            lemma_mul_strict_inequality(j1, j2, ki);
        }
    }
    ports
}

/// Divides the request's range among its workers, one striped assignment
/// each.
pub fn partition(req: &ScanRequest) -> (r: Vec<WorkerAssignment>)
    requires
        req.wf(),
    ensures
        partition_post(*req, r@),
{
    let mut r: Vec<WorkerAssignment> = Vec::new();
    let mut i: u16 = 0;
    while i < req.workers
        invariant
            req.wf(),
            i <= req.workers,
            r@.len() == i,
            forall|x: int|
                0 <= x < i ==> (#[trigger] r@[x]).worker_id == x && r@[x].wf(*req),
        decreases req.workers - i,
    {
        let ports = stripe(req, i);
        r.push(WorkerAssignment { worker_id: i, ports });
        i = i + 1;
    }
    r
}

/// Striped partitioning is a true partition of the range: every port of
/// `[start, end]` lands in some worker's assignment, no two workers share
/// a port, and no assignment reaches outside the range.
pub proof fn lemma_partition_complete(req: ScanRequest, asg: Seq<WorkerAssignment>)
    requires
        req.wf(),
        partition_post(req, asg),
    ensures
        forall|p: u16| req.start <= p <= req.end ==> #[trigger] covered(asg, p),
        forall|i: int, p: u16|
            0 <= i < asg.len() && (#[trigger] asg[i].ports@.contains(p)) ==> req.start <= p
                <= req.end,
        forall|i1: int, i2: int, p: u16|
            0 <= i1 < asg.len() && 0 <= i2 < asg.len() && (#[trigger] asg[i1].ports@.contains(p))
                && (#[trigger] asg[i2].ports@.contains(p)) ==> i1 == i2,
{
    let s = req.start as int;
    let e = req.end as int;
    let k = req.workers as int;
    assert forall|p: u16| req.start <= p <= req.end implies #[trigger] covered(asg, p) by {
        let d = p as int - s;
        lemma_fundamental_div_mod(d, k);
        lemma_mod_bound(d, k);
        lemma_div_pos_is_pos(d, k);
        let i = d % k;
        let j = d / k;
        assert(p as int == stripe_port(s, k, i, j));
        // j is small enough to be a position in stripe i: j * k <= e - s - i
        assert(j * k == d - i);
        lemma_div_is_ordered(j * k, e - s - i, k);
        lemma_fundamental_div_mod_converse_div(j * k, k, j, 0);
        assert(j <= (e - s - i) / k);
        assert(0 <= j < stripe_len(s, e, k, i));
        assert(asg[i].ports@[j] == p);
        assert(asg[i].ports@.contains(p));
    }
    assert forall|i1: int, i2: int, p: u16|
        0 <= i1 < asg.len() && 0 <= i2 < asg.len() && (#[trigger] asg[i1].ports@.contains(p)) && (
        #[trigger] asg[i2].ports@.contains(p)) implies i1 == i2 by {
        let j1 = choose|j: int| 0 <= j < asg[i1].ports@.len() && asg[i1].ports@[j] == p;
        let j2 = choose|j: int| 0 <= j < asg[i2].ports@.len() && asg[i2].ports@[j] == p;
        assert(p as int == s + i1 + j1 * k);
        assert(p as int == s + i2 + j2 * k);
        lemma_fundamental_div_mod_converse_mod(p as int - s, k, j1, i1);
        lemma_fundamental_div_mod_converse_mod(p as int - s, k, j2, i2);
    }
}

} // verus!
