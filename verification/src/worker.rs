//! A worker's decision logic.
//!
//! A worker probes every port of its assignment in ascending order and
//! publishes exactly the open ones.  The probe itself is a network call
//! made by the shell; its outcomes reach the library as a table of
//! booleans, entry `p` saying whether port `p` accepted a connection.
//! `collect_open` is the worker's whole decision: which probed ports are
//! published.

use vstd::prelude::*;
use crate::ordering::strictly_ascending;

verus! {

/// The subsequence of `ports` whose probe outcome in `open` is true.
pub open spec fn open_filter(ports: Seq<u16>, open: Seq<bool>) -> Seq<u16>
    decreases ports.len(),
{
    if ports.len() == 0 {
        Seq::empty()
    } else {
        let rest = open_filter(ports.drop_last(), open);
        if ports.last() < open.len() && open[ports.last() as int] {
            rest.push(ports.last())
        } else {
            rest
        }
    }
}

/// Filtering keeps exactly the open members, preserves ascending order,
/// and invents no ports.
pub proof fn lemma_open_filter_props(ports: Seq<u16>, open: Seq<bool>)
    ensures
        forall|p: u16|
            #[trigger] open_filter(ports, open).contains(p) <==> (ports.contains(p) && p
                < open.len() && open[p as int]),
        strictly_ascending(ports) ==> strictly_ascending(open_filter(ports, open)),
    decreases ports.len(),
{
    if ports.len() == 0 {
        assert forall|p: u16| #[trigger]
            open_filter(ports, open).contains(p) <==> (ports.contains(p) && p < open.len()
                && open[p as int]) by {
            assert(!ports.contains(p));
            assert(!open_filter(ports, open).contains(p));
        }
    } else {
        let head = ports.drop_last();
        let last = ports.last();
        lemma_open_filter_props(head, open);
        let rest = open_filter(head, open);
        assert forall|p: u16| #[trigger]
            open_filter(ports, open).contains(p) <==> (ports.contains(p) && p < open.len()
                && open[p as int]) by {
            assert(ports.contains(p) <==> (head.contains(p) || last == p)) by {
                if ports.contains(p) {
                    let j = choose|j: int| 0 <= j < ports.len() && ports[j] == p;
                    if j < ports.len() - 1 {
                        assert(head[j] == p);
                    }
                }
                if head.contains(p) {
                    let j = choose|j: int| 0 <= j < head.len() && head[j] == p;
                    assert(ports[j] == p);
                }
                assert(ports[ports.len() - 1] == last);
            }
            if last < open.len() && open[last as int] {
                assert(open_filter(ports, open) == rest.push(last));
                assert(open_filter(ports, open).contains(p) <==> (rest.contains(p) || last
                    == p)) by {
                    if rest.push(last).contains(p) {
                        let j = choose|j: int|
                            0 <= j < rest.push(last).len() && rest.push(last)[j] == p;
                        if j < rest.len() {
                            assert(rest[j] == p);
                        }
                    }
                    if rest.contains(p) {
                        let j = choose|j: int| 0 <= j < rest.len() && rest[j] == p;
                        assert(rest.push(last)[j] == p);
                    }
                    assert(rest.push(last)[rest.len() as int] == last);
                }
            }
        }
        if strictly_ascending(ports) {
            assert(strictly_ascending(head));
            if last < open.len() && open[last as int] {
                assert forall|p: u16| rest.contains(p) implies p < last by {
                    assert(head.contains(p));
                    let j = choose|j: int| 0 <= j < head.len() && head[j] == p;
                    assert(ports[j] < ports[ports.len() - 1]);
                }
                assert forall|i: int, j: int|
                    0 <= i < j < rest.push(last).len() implies rest.push(last)[i] < rest.push(
                    last,
                )[j] by {
                    if j < rest.len() {
                    } else {
                        assert(rest.contains(rest[i]));
                    }
                }
            }
        }
    }
}

/// Probes an assignment against the outcome table: returns the open ports,
/// in the order probed.
pub fn collect_open(ports: &Vec<u16>, outcomes: &Vec<bool>) -> (r: Vec<u16>)
    requires
        forall|j: int| 0 <= j < ports@.len() ==> (#[trigger] ports@[j]) < outcomes@.len(),
    ensures
        r@ == open_filter(ports@, outcomes@),
{
    let mut r: Vec<u16> = Vec::new();
    let mut idx: usize = 0;
    proof {
        assert(ports@.take(0) =~= Seq::<u16>::empty());
        assert(r@ =~= open_filter(ports@.take(0), outcomes@));
    }
    while idx < ports.len()
        invariant
            idx <= ports@.len(),
            forall|j: int| 0 <= j < ports@.len() ==> (#[trigger] ports@[j]) < outcomes@.len(),
            r@ == open_filter(ports@.take(idx as int), outcomes@),
        decreases ports@.len() - idx,
    {
        let p = ports[idx];
        proof {
            let t = ports@.take(idx as int + 1);
            assert(t.drop_last() =~= ports@.take(idx as int));
            assert(t.last() == ports@[idx as int]);
        }
        if outcomes[p as usize] {
            r.push(p);
        }
        idx = idx + 1;
    }
    proof {
        assert(ports@.take(ports@.len() as int) =~= ports@);
    }
    r
}

} // verus!
