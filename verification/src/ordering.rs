//! Ordering of port sequences.
//!
//! The reporter promises ascending output whatever order results arrived
//! in; this module holds the sortedness vocabulary, a verified sort, and
//! the lemma that a strictly ascending sequence is determined by its
//! members alone.

use vstd::prelude::*;
use vstd::multiset::Multiset;
use vstd::relations::{sorted_by, total_ordering};
use vstd::seq_lib::lemma_sorted_unique;

verus! {

/// Non-decreasing order.
pub open spec fn sorted(s: Seq<u16>) -> bool {
    forall|i: int, j: int| 0 <= i < j < s.len() ==> s[i] <= s[j]
}

/// Strictly increasing order: sorted and free of duplicates.
pub open spec fn strictly_ascending(s: Seq<u16>) -> bool {
    forall|i: int, j: int| 0 <= i < j < s.len() ==> s[i] < s[j]
}

/// The order the reporter sorts by.
pub open spec fn port_le() -> spec_fn(u16, u16) -> bool {
    |x: u16, y: u16| x <= y
}

/// The ascending rearrangement of a sequence of ports.
pub open spec fn ascending_of(s: Seq<u16>) -> Seq<u16> {
    s.sort_by(port_le())
}

pub proof fn lemma_port_le_total()
    ensures
        total_ordering(port_le()),
{
}

pub proof fn lemma_sorted_iff_sorted_by(s: Seq<u16>)
    ensures
        sorted(s) <==> sorted_by(s, port_le()),
{
    if sorted(s) {
        assert forall|i: int, j: int| 0 <= i < j < s.len() implies #[trigger] (port_le())(
            s[i],
            s[j],
        ) by {
            assert(s[i] <= s[j]);
        }
    }
    if sorted_by(s, port_le()) {
        assert forall|i: int, j: int| 0 <= i < j < s.len() implies s[i] <= s[j] by {
            assert((port_le())(s[i], s[j]));
        }
    }
}

/// What sorting guarantees: same members with the same multiplicities, in
/// non-decreasing order.
pub proof fn lemma_ascending_of_ensures(s: Seq<u16>)
    ensures
        ascending_of(s).to_multiset() == s.to_multiset(),
        sorted(ascending_of(s)),
        ascending_of(s).len() == s.len(),
{
    lemma_port_le_total();
    s.lemma_sort_by_ensures(port_le());
    lemma_sorted_iff_sorted_by(ascending_of(s));
    assert(ascending_of(s).to_multiset() =~= s.to_multiset());
    s.to_multiset_ensures();
    ascending_of(s).to_multiset_ensures();
}

pub proof fn lemma_strictly_ascending_no_dup(s: Seq<u16>)
    requires
        strictly_ascending(s),
    ensures
        s.no_duplicates(),
{
    assert forall|i: int, j: int| 0 <= i < s.len() && 0 <= j < s.len() && i != j implies s[i]
        != s[j] by {
        if i < j {
            assert(s[i] < s[j]);
        } else {
            assert(s[j] < s[i]);
        }
    }
}

pub proof fn lemma_sorted_no_dup_strict(s: Seq<u16>)
    requires
        sorted(s),
        s.no_duplicates(),
    ensures
        strictly_ascending(s),
{
}

/// A strictly ascending sequence is fixed by its set of members: two such
/// sequences holding the same ports are the same sequence.
pub proof fn lemma_same_members_equal(a: Seq<u16>, b: Seq<u16>)
    requires
        strictly_ascending(a),
        strictly_ascending(b),
        forall|p: u16| a.contains(p) <==> b.contains(p),
    ensures
        a == b,
{
    lemma_strictly_ascending_no_dup(a);
    lemma_strictly_ascending_no_dup(b);
    a.lemma_multiset_has_no_duplicates();
    b.lemma_multiset_has_no_duplicates();
    a.to_multiset_ensures();
    b.to_multiset_ensures();
    assert forall|p: u16| a.to_multiset().count(p) == b.to_multiset().count(p) by {
        if a.contains(p) {
            assert(a.to_multiset().count(p) == 1);
            assert(b.to_multiset().count(p) == 1);
        } else {
            assert(a.to_multiset().count(p) == 0);
            assert(b.to_multiset().count(p) == 0);
        }
    }
    assert(a.to_multiset() =~= b.to_multiset());
    lemma_port_le_total();
    lemma_sorted_iff_sorted_by(a);
    lemma_sorted_iff_sorted_by(b);
    lemma_sorted_unique(a, b, port_le());
    assert(a =~= b);
}

/// Where `x` belongs in the sorted sequence `v`: the index of the first
/// element larger than `x`.
fn insertion_point(v: &Vec<u16>, x: u16) -> (pos: usize)
    requires
        sorted(v@),
    ensures
        pos <= v@.len(),
        forall|m: int| 0 <= m < pos ==> v@[m] <= x,
        forall|m: int| pos <= m < v@.len() ==> v@[m] > x,
{
    let mut pos: usize = 0;
    while pos < v.len() && v[pos] <= x
        invariant
            pos <= v@.len(),
            sorted(v@),
            forall|m: int| 0 <= m < pos ==> v@[m] <= x,
        decreases v@.len() - pos,
    {
        pos = pos + 1;
    }
    pos
}

proof fn lemma_insert_multiset(s: Seq<u16>, i: int, x: u16)
    requires
        0 <= i <= s.len(),
    ensures
        s.insert(i, x).to_multiset() == s.to_multiset().insert(x),
{
    broadcast use vstd::seq_lib::group_seq_properties;
    broadcast use vstd::multiset::group_multiset_axioms;

    let prefix = s.subrange(0, i);
    let suffix = s.subrange(i, s.len() as int);
    assert(s =~= prefix + suffix);
    assert(s.insert(i, x) =~= prefix + seq![x] + suffix);
    vstd::seq_lib::lemma_multiset_commutative(prefix, suffix);
    vstd::seq_lib::lemma_multiset_commutative(prefix + seq![x], suffix);
    vstd::seq_lib::lemma_multiset_commutative(prefix, seq![x]);
    assert(seq![x] =~= Seq::<u16>::empty().push(x));
    Seq::<u16>::empty().to_multiset_ensures();
    assert(Seq::<u16>::empty().to_multiset() =~= Multiset::<u16>::empty());
    assert(seq![x].to_multiset() =~= Multiset::<u16>::empty().insert(x));
    assert(s.insert(i, x).to_multiset() =~= s.to_multiset().insert(x));
}

/// Sorts the ports in place, ascending.  The result is exactly the
/// ascending rearrangement of the input.
pub fn sort_ports(v: &mut Vec<u16>)
    ensures
        final(v)@ == ascending_of(old(v)@),
        sorted(final(v)@),
        final(v)@.to_multiset() == old(v)@.to_multiset(),
{
    let mut out: Vec<u16> = Vec::new();
    let mut idx: usize = 0;
    proof {
        assert(out@ =~= v@.take(0));
    }
    while idx < v.len()
        invariant
            idx <= v@.len(),
            sorted(out@),
            out@.to_multiset() == v@.take(idx as int).to_multiset(),
        decreases v@.len() - idx,
    {
        let x = v[idx];
        let pos = insertion_point(&out, x);
        let ghost before = out@;
        out.insert(pos, x);
        proof {
            before.insert_ensures(pos as int, x);
            lemma_insert_multiset(before, pos as int, x);
            assert(v@.take(idx as int + 1) =~= v@.take(idx as int).push(v@[idx as int]));
            v@.take(idx as int).to_multiset_ensures();
        }
        idx = idx + 1;
    }
    proof {
        assert(v@.take(v@.len() as int) =~= v@);
    }
    proof {
        lemma_ascending_of_ensures(v@);
        lemma_port_le_total();
        lemma_sorted_iff_sorted_by(out@);
        lemma_sorted_iff_sorted_by(ascending_of(v@));
        lemma_sorted_unique(out@, ascending_of(v@), port_le());
        assert(out@ =~= ascending_of(v@));
    }
    *v = out;
}

} // verus!
