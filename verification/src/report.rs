//! The reporter.
//!
//! Sorts the aggregated open ports ascending and renders one line per
//! port, in the fixed form `"<port> is open"`.  Rendering is deterministic
//! in the set of ports: arrival order during the scan leaves no trace.

use vstd::prelude::*;
use vstd::seq_lib::lemma_sorted_unique;
use vstd::string::StringExecFns;
use crate::ordering::{
    ascending_of, lemma_ascending_of_ensures, lemma_port_le_total, lemma_sorted_iff_sorted_by,
    lemma_sorted_no_dup_strict, port_le, sort_ports, sorted, strictly_ascending,
};

verus! {

/// The decimal digit character for `d`.
pub open spec fn digit_char(d: int) -> char {
    if d == 0 {
        '0'
    } else if d == 1 {
        '1'
    } else if d == 2 {
        '2'
    } else if d == 3 {
        '3'
    } else if d == 4 {
        '4'
    } else if d == 5 {
        '5'
    } else if d == 6 {
        '6'
    } else if d == 7 {
        '7'
    } else if d == 8 {
        '8'
    } else {
        '9'
    }
}

/// The decimal numeral of `n`, most significant digit first, no leading
/// zeros.
pub open spec fn dec_rep(n: nat) -> Seq<char>
    decreases n,
{
    if n < 10 {
        seq![digit_char(n as int)]
    } else {
        dec_rep(n / 10).push(digit_char((n % 10) as int))
    }
}

/// The reported line for one open port.
pub open spec fn line_of(p: u16) -> Seq<char> {
    dec_rep(p as nat) + " is open"@
}

/// The one-character string for a decimal digit.
fn digit_str(d: u16) -> (r: &'static str)
    requires
        d < 10,
    ensures
        r@ == seq![digit_char(d as int)],
{
    proof {
        reveal_strlit("0");
        reveal_strlit("1");
        reveal_strlit("2");
        reveal_strlit("3");
        reveal_strlit("4");
        reveal_strlit("5");
        reveal_strlit("6");
        reveal_strlit("7");
        reveal_strlit("8");
        reveal_strlit("9");
    }
    let r = if d == 0 {
        "0"
    } else if d == 1 {
        "1"
    } else if d == 2 {
        "2"
    } else if d == 3 {
        "3"
    } else if d == 4 {
        "4"
    } else if d == 5 {
        "5"
    } else if d == 6 {
        "6"
    } else if d == 7 {
        "7"
    } else if d == 8 {
        "8"
    } else {
        "9"
    };
    proof {
        assert(r@ =~= seq![digit_char(d as int)]);
    }
    r
}

/// Renders a port number in decimal.
pub fn u16_to_decimal(n: u16) -> (r: String)
    ensures
        r@ == dec_rep(n as nat),
    decreases n,
{
    if n < 10 {
        String::from_str(digit_str(n))
    } else {
        let prefix = u16_to_decimal(n / 10);
        let r = prefix.concat(digit_str(n % 10));
        proof {
            assert(r@ =~= dec_rep((n / 10) as nat).push(digit_char((n % 10) as int)));
        }
        r
    }
}

/// Renders the fixed report line for one open port.
pub fn port_line(p: u16) -> (r: String)
    ensures
        r@ == line_of(p),
{
    let num = u16_to_decimal(p);
    num.concat(" is open")
}

/// Sorts the open ports ascending and renders one line per port.
/// Deterministic in the set of ports handed in.
pub fn render(open: &Vec<u16>) -> (lines: Vec<String>)
    ensures
        lines@.len() == open@.len(),
        forall|i: int|
            0 <= i < lines@.len() ==> (#[trigger] lines@[i])@ == line_of(ascending_of(open@)[i]),
{
    let mut sorted_ports: Vec<u16> = Vec::new();
    let mut i: usize = 0;
    while i < open.len()
        invariant
            i <= open@.len(),
            sorted_ports@ == open@.take(i as int),
        decreases open@.len() - i,
    {
        sorted_ports.push(open[i]);
        proof {
            assert(open@.take(i as int + 1) =~= open@.take(i as int).push(open@[i as int]));
        }
        i = i + 1;
    }
    proof {
        assert(open@.take(open@.len() as int) =~= open@);
    }
    sort_ports(&mut sorted_ports);
    proof {
        lemma_ascending_of_ensures(open@);
    }
    let mut lines: Vec<String> = Vec::new();
    let mut j: usize = 0;
    while j < sorted_ports.len()
        invariant
            j <= sorted_ports@.len(),
            sorted_ports@ == ascending_of(open@),
            lines@.len() == j,
            forall|x: int|
                0 <= x < j ==> (#[trigger] lines@[x])@ == line_of(ascending_of(open@)[x]),
        decreases sorted_ports@.len() - j,
    {
        lines.push(port_line(sorted_ports[j]));
        j = j + 1;
    }
    lines
}

/// The ordering guarantee of the reporter: whatever order results arrived
/// in, the rendered sequence is the same, in ascending port order — and
/// strictly ascending whenever no port was reported twice.
pub proof fn lemma_output_ordering(a: Seq<u16>, b: Seq<u16>)
    requires
        a.to_multiset() == b.to_multiset(),
    ensures
        ascending_of(a) == ascending_of(b),
        sorted(ascending_of(a)),
        a.no_duplicates() ==> strictly_ascending(ascending_of(a)),
{
    lemma_ascending_of_ensures(a);
    lemma_ascending_of_ensures(b);
    lemma_port_le_total();
    lemma_sorted_iff_sorted_by(ascending_of(a));
    lemma_sorted_iff_sorted_by(ascending_of(b));
    lemma_sorted_unique(ascending_of(a), ascending_of(b), port_le());
    assert(ascending_of(a) =~= ascending_of(b));
    if a.no_duplicates() {
        a.lemma_multiset_has_no_duplicates();
        a.to_multiset_ensures();
        ascending_of(a).to_multiset_ensures();
        ascending_of(a).lemma_multiset_has_no_duplicates_conv();
        lemma_sorted_no_dup_strict(ascending_of(a));
    }
}

} // verus!
