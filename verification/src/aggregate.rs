//! Fan-in of worker results.
//!
//! Many workers publish open ports onto one sink; the aggregator drains it
//! after every worker has finished.  Order of arrival is not promised, so
//! the aggregate is specified up to concatenation of the per-worker lists;
//! losing or duplicating a result is what the lemma below rules out.

use vstd::prelude::*;
use vstd::seq_lib::lemma_no_dup_in_concat;

verus! {

/// All per-worker result lists, joined in worker order.
pub open spec fn concat_views(parts: Seq<Vec<u16>>) -> Seq<u16>
    decreases parts.len(),
{
    if parts.len() == 0 {
        Seq::empty()
    } else {
        concat_views(parts.drop_last()) + parts.last()@
    }
}

/// A port is in the aggregate exactly when some worker reported it.
pub proof fn lemma_concat_views_membership(parts: Seq<Vec<u16>>)
    ensures
        forall|p: u16|
            #[trigger] concat_views(parts).contains(p) <==> exists|i: int|
                0 <= i < parts.len() && (#[trigger] parts[i]@.contains(p)),
    decreases parts.len(),
{
    if parts.len() == 0 {
        assert(concat_views(parts) =~= Seq::<u16>::empty());
    } else {
        let head = parts.drop_last();
        let last = parts.last();
        lemma_concat_views_membership(head);
        assert forall|p: u16| #[trigger]
            concat_views(parts).contains(p) <==> exists|i: int|
                0 <= i < parts.len() && (#[trigger] parts[i]@.contains(p)) by {
            assert(concat_views(parts) == concat_views(head) + last@);
            assert(concat_views(parts).contains(p) <==> (concat_views(head).contains(p)
                || last@.contains(p))) by {
                let joined = concat_views(head) + last@;
                if joined.contains(p) {
                    let j = choose|j: int| 0 <= j < joined.len() && joined[j] == p;
                    if j < concat_views(head).len() {
                        assert(concat_views(head)[j] == p);
                    } else {
                        assert(last@[j - concat_views(head).len()] == p);
                    }
                }
                if concat_views(head).contains(p) {
                    let j = choose|j: int|
                        0 <= j < concat_views(head).len() && concat_views(head)[j] == p;
                    assert(joined[j] == p);
                }
                if last@.contains(p) {
                    let j = choose|j: int| 0 <= j < last@.len() && last@[j] == p;
                    assert(joined[concat_views(head).len() + j] == p);
                }
            }
            if concat_views(head).contains(p) {
                let i = choose|i: int| 0 <= i < head.len() && (#[trigger] head[i]@.contains(p));
                assert(parts[i]@.contains(p));
            }
            if last@.contains(p) {
                assert(parts[parts.len() - 1]@.contains(p));
            }
            if exists|i: int| 0 <= i < parts.len() && (#[trigger] parts[i]@.contains(p)) {
                let i = choose|i: int| 0 <= i < parts.len() && (#[trigger] parts[i]@.contains(p));
                if i < parts.len() - 1 {
                    assert(head[i]@.contains(p));
                }
            }
        }
    }
}

/// Fan-in is lossless: with pairwise-disjoint, duplicate-free worker
/// results — which disjoint assignments guarantee — every reported port
/// appears exactly once in the aggregate, and nothing else appears.
pub proof fn lemma_aggregation_lossless(parts: Seq<Vec<u16>>)
    requires
        forall|i: int| 0 <= i < parts.len() ==> (#[trigger] parts[i])@.no_duplicates(),
        forall|i1: int, i2: int, p: u16|
            0 <= i1 < parts.len() && 0 <= i2 < parts.len() && i1 != i2 && (
            #[trigger] parts[i1]@.contains(p)) ==> !(#[trigger] parts[i2]@.contains(p)),
    ensures
        concat_views(parts).no_duplicates(),
        forall|p: u16|
            (exists|i: int| 0 <= i < parts.len() && (#[trigger] parts[i]@.contains(p)))
                ==> #[trigger] concat_views(parts).to_multiset().count(p) == 1,
    decreases parts.len(),
{
    lemma_concat_views_membership(parts);
    if parts.len() == 0 {
    } else {
        let head = parts.drop_last();
        let last = parts.last();
        lemma_aggregation_lossless(head);
        lemma_concat_views_membership(head);
        assert forall|i: int, j: int|
            0 <= i < concat_views(head).len() && 0 <= j < last@.len() implies concat_views(head)[i]
            != last@[j] by {
            let p = concat_views(head)[i];
            assert(concat_views(head).contains(p));
            let x = choose|x: int| 0 <= x < head.len() && (#[trigger] head[x]@.contains(p));
            assert(parts[x]@.contains(p));
            assert(parts[parts.len() - 1]@ == last@);
            if last@[j] == p {
                assert(parts[parts.len() - 1]@.contains(p));
            }
        }
        lemma_no_dup_in_concat(concat_views(head), last@);
        assert(concat_views(parts) == concat_views(head) + last@);
    }
    concat_views(parts).lemma_multiset_has_no_duplicates();
    concat_views(parts).to_multiset_ensures();
}

/// Drains the per-worker results into one list, in worker order.  Arrival
/// order during a real scan differs run to run; the reporter sorts, so any
/// order aggregates to the same final report.
pub fn aggregate(results: &Vec<Vec<u16>>) -> (r: Vec<u16>)
    ensures
        r@ == concat_views(results@),
{
    let mut r: Vec<u16> = Vec::new();
    let mut i: usize = 0;
    proof {
        assert(results@.take(0) =~= Seq::<Vec<u16>>::empty());
        assert(r@ =~= concat_views(results@.take(0)));
    }
    while i < results.len()
        invariant
            i <= results@.len(),
            r@ == concat_views(results@.take(i as int)),
        decreases results@.len() - i,
    {
        let part = &results[i];
        let mut j: usize = 0;
        proof {
            assert(part@.take(0) =~= Seq::<u16>::empty());
            assert(r@ + part@.take(0) =~= r@);
        }
        while j < part.len()
            invariant
                j <= part@.len(),
                part@ == results@[i as int]@,
                i < results@.len(),
                r@ == concat_views(results@.take(i as int)) + part@.take(j as int),
            decreases part@.len() - j,
        {
            r.push(part[j]);
            proof {
                assert(part@.take(j as int + 1) =~= part@.take(j as int).push(part@[j as int]));
                assert(concat_views(results@.take(i as int)) + part@.take(j as int + 1)
                    =~= (concat_views(results@.take(i as int)) + part@.take(j as int)).push(
                    part@[j as int],
                ));
            }
            j = j + 1;
        }
        proof {
            let t = results@.take(i as int + 1);
            assert(t.drop_last() =~= results@.take(i as int));
            assert(t.last() == results@[i as int]);
            assert(part@.take(part@.len() as int) =~= part@);
        }
        i = i + 1;
    }
    proof {
        assert(results@.take(results@.len() as int) =~= results@);
    }
    r
}

} // verus!
