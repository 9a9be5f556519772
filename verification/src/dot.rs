//! DOT rendering of the reachability graph: one node entry per marking with
//! the marking vector as its label, one edge entry per firing with the
//! transition index as its label.

use vstd::prelude::*;
use vstd::string::StringExecFns;

use crate::net::{as_ints, marking_nonneg};
use crate::reachability::{ReachabilityGraph, RgEdge};

verus! {

/// The decimal digit character for `d`.
pub open spec fn dec_digit(d: int) -> char {
    if d == 0 {
        '0'
    } else if d == 1 {
        '1'
    } else if d == 2 {
        '2'
    } else if d == 3 {
        '3'
    } else if d == 4 {
        '4'
    } else if d == 5 {
        '5'
    } else if d == 6 {
        '6'
    } else if d == 7 {
        '7'
    } else if d == 8 {
        '8'
    } else {
        '9'
    }
}

/// The decimal numeral of `n`, most significant digit first.
pub open spec fn dec_seq(n: nat) -> Seq<char>
    decreases n,
{
    if n < 10 {
        seq![dec_digit(n as int)]
    } else {
        dec_seq(n / 10) + seq![dec_digit((n % 10) as int)]
    }
}

/// The numeric value of a digit character.
pub open spec fn digit_val(c: char) -> int {
    if c == '0' {
        0
    } else if c == '1' {
        1
    } else if c == '2' {
        2
    } else if c == '3' {
        3
    } else if c == '4' {
        4
    } else if c == '5' {
        5
    } else if c == '6' {
        6
    } else if c == '7' {
        7
    } else if c == '8' {
        8
    } else {
        9
    }
}

/// The numeric value of a digit string, most significant digit first: the
/// reading a DOT consumer applies to a rendered numeral.
pub open spec fn digits_val(s: Seq<char>) -> int
    decreases s.len(),
{
    if s.len() == 0 {
        0
    } else {
        digits_val(s.drop_last()) * 10 + digit_val(s.last())
    }
}

/// Reading a rendered numeral gives the number back: rendering loses
/// nothing.
pub proof fn lemma_dec_seq_round_trip(n: nat)
    ensures
        digits_val(dec_seq(n)) == n,
    decreases n,
{
    if n < 10 {
        let s = dec_seq(n);
        assert(s =~= seq![dec_digit(n as int)]);
        assert(s.len() == 1);
        assert(s.drop_last() =~= Seq::<char>::empty());
        assert(digits_val(s.drop_last()) == 0);
        assert(s.last() == dec_digit(n as int));
        assert(digit_val(dec_digit(n as int)) == n);
        assert(digits_val(s) == digits_val(s.drop_last()) * 10 + digit_val(s.last()));
    } else {
        lemma_dec_seq_round_trip(n / 10);
        let s = dec_seq(n);
        assert(s =~= dec_seq(n / 10) + seq![dec_digit((n % 10) as int)]);
        assert(dec_seq(n / 10).len() >= 1);
        assert(s.len() >= 2);
        assert(s.drop_last() =~= dec_seq(n / 10));
        assert(s.last() == dec_digit((n % 10) as int));
        assert(digit_val(dec_digit((n % 10) as int)) == n % 10);
        assert(digits_val(s) == digits_val(s.drop_last()) * 10 + digit_val(s.last()));
        assert(digits_val(s.drop_last()) == n / 10);
        assert((n / 10) * 10 + (n % 10) == n);
    }
}

/// `c` is a decimal digit character.
pub open spec fn is_digit(c: char) -> bool {
    c == '0' || c == '1' || c == '2' || c == '3' || c == '4' || c == '5' || c == '6' || c == '7'
        || c == '8' || c == '9'
}

/// The length of the longest all-digit suffix of `s`: how far back a reader
/// scanning a rendered list can extend the final numeral.
pub open spec fn digit_suffix_len(s: Seq<char>) -> nat
    decreases s.len(),
{
    if s.len() == 0 {
        0
    } else if is_digit(s.last()) {
        1 + digit_suffix_len(s.drop_last())
    } else {
        0
    }
}

/// Read a rendered comma-separated list of numerals back into its numbers:
/// take the maximal digit run at the end as the last entry, strip the
/// separator, and continue on the remainder.
pub open spec fn parse_marking_chars(s: Seq<char>) -> Seq<int>
    decreases s.len(),
    via parse_marking_chars_decreases
{
    if s.len() == 0 {
        Seq::empty()
    } else {
        let d = digit_suffix_len(s);
        let num = digits_val(s.subrange(s.len() - d, s.len() as int));
        let rest = s.take(s.len() - d);
        if rest.len() < 2 {
            seq![num]
        } else {
            parse_marking_chars(rest.take(rest.len() - 2)).push(num)
        }
    }
}

/// A digit suffix never outruns the string.
proof fn lemma_digit_suffix_le(s: Seq<char>)
    ensures
        digit_suffix_len(s) <= s.len(),
    decreases s.len(),
{
    if s.len() > 0 && is_digit(s.last()) {
        lemma_digit_suffix_le(s.drop_last());
    }
}

#[via_fn]
proof fn parse_marking_chars_decreases(s: Seq<char>) {
    lemma_digit_suffix_le(s);
}

/// Every character of a rendered numeral is a digit, and there is at least
/// one.
pub proof fn lemma_dec_seq_digits(n: nat)
    ensures
        dec_seq(n).len() >= 1,
        forall|k: int| 0 <= k < dec_seq(n).len() ==> is_digit(#[trigger] dec_seq(n)[k]),
    decreases n,
{
    if n < 10 {
    } else {
        lemma_dec_seq_digits(n / 10);
        assert forall|k: int| 0 <= k < dec_seq(n).len()
            implies is_digit(#[trigger] dec_seq(n)[k]) by {
            if k < dec_seq(n / 10).len() {
                assert(dec_seq(n)[k] == dec_seq(n / 10)[k]);
            } else {
                assert(dec_seq(n)[k] == dec_digit((n % 10) as int));
            }
        }
    }
}

/// The digit suffix of `a + d` is exactly `d` when `d` is all digits and
/// `a` does not end in one.
proof fn lemma_digit_suffix_of_concat(a: Seq<char>, d: Seq<char>)
    requires
        forall|k: int| 0 <= k < d.len() ==> is_digit(#[trigger] d[k]),
        a.len() == 0 || !is_digit(a.last()),
    ensures
        digit_suffix_len(a + d) == d.len(),
    decreases d.len(),
{
    if d.len() == 0 {
        assert(a + d =~= a);
        if a.len() > 0 {
            assert(digit_suffix_len(a) == 0);
        }
    } else {
        assert((a + d).last() == d.last());
        assert(is_digit(d.last()));
        assert((a + d).drop_last() =~= a + d.drop_last());
        assert forall|k: int| 0 <= k < d.drop_last().len()
            implies is_digit(#[trigger] d.drop_last()[k]) by {
            assert(d.drop_last()[k] == d[k]);
        }
        lemma_digit_suffix_of_concat(a, d.drop_last());
    }
}

/// Reading back the rendered label text of a non-negative marking gives the
/// marking: the DOT node labels lose nothing.
pub proof fn lemma_marking_chars_round_trip(m: Seq<i16>)
    requires
        marking_nonneg(m),
    ensures
        parse_marking_chars(marking_chars(m)) == as_ints(m),
    decreases m.len(),
{
    let s = marking_chars(m);
    if m.len() == 0 {
        assert(parse_marking_chars(s) =~= as_ints(m));
    } else if m.len() == 1 {
        assert(s == dec_seq(m[0] as nat));
        lemma_dec_seq_digits(m[0] as nat);
        assert(s.len() >= 1);
        lemma_digit_suffix_of_concat(Seq::empty(), s);
        assert(Seq::<char>::empty() + s =~= s);
        assert(digit_suffix_len(s) == s.len());
        assert(s.subrange(s.len() - s.len(), s.len() as int) =~= s);
        lemma_dec_seq_round_trip(m[0] as nat);
        assert(digits_val(s) == m[0] as nat);
        assert(s.take(s.len() - s.len()).len() == 0);
        assert(parse_marking_chars(s) =~= seq![m[0] as int]);
        assert(as_ints(m) =~= seq![m[0] as int]);
    } else {
        let front = m.drop_last();
        assert(marking_nonneg(front)) by {
            assert forall|p: int| 0 <= p < front.len() implies 0 <= #[trigger] front[p] by {
                assert(front[p] == m[p]);
            }
        }
        assert(0 <= m.last());
        let num_part = dec_seq(m.last() as nat);
        let a = marking_chars(front) + ", "@;
        assert(s == marking_chars(front) + ", "@ + num_part);
        assert(s =~= a + num_part);
        lemma_dec_seq_digits(m.last() as nat);
        proof_comma_not_digit();
        assert(a.last() == ", "@[1]);
        assert(!is_digit(a.last()));
        assert(a.len() >= 2);
        lemma_digit_suffix_of_concat(a, num_part);
        assert(digit_suffix_len(s) == num_part.len());
        let d = digit_suffix_len(s);
        assert(s.subrange(s.len() - d, s.len() as int) =~= num_part);
        lemma_dec_seq_round_trip(m.last() as nat);
        assert(digits_val(num_part) == m.last() as nat);
        let rest = s.take(s.len() - d);
        assert(rest =~= a);
        assert(rest.len() >= 2);
        assert(rest.take(rest.len() - 2) =~= marking_chars(front));
        lemma_marking_chars_round_trip(front);
        assert(parse_marking_chars(s) == parse_marking_chars(marking_chars(front)).push(
            m.last() as int,
        ));
        assert(as_ints(front).push(m.last() as int) =~= as_ints(m));
    }
}

/// The second separator character is not a digit.
proof fn proof_comma_not_digit()
    ensures
        ", "@.len() == 2,
        !is_digit(", "@[1]),
        !is_digit(", "@[0]),
{
    reveal_strlit(", ");
}

/// Distinct non-negative markings render distinct node labels: a corollary
/// of the round trip, giving the set-level DOT round trip (the parsed node
/// labels of a document are exactly its markings).
pub proof fn lemma_marking_label_injective(a: Seq<i16>, b: Seq<i16>)
    requires
        marking_nonneg(a),
        marking_nonneg(b),
        marking_label(a) == marking_label(b),
    ensures
        a == b,
{
    reveal_strlit("[");
    reveal_strlit("]");
    let la = marking_label(a);
    assert(marking_chars(a) =~= la.subrange(1, la.len() - 1));
    assert(marking_chars(b) =~= la.subrange(1, la.len() - 1));
    lemma_marking_chars_round_trip(a);
    lemma_marking_chars_round_trip(b);
    assert(as_ints(a) == as_ints(b));
    assert(a.len() == as_ints(a).len());
    assert forall|p: int| 0 <= p < a.len() implies a[p] == b[p] by {
        assert(as_ints(a)[p] == a[p] as int);
        assert(as_ints(b)[p] == b[p] as int);
    }
    assert(a =~= b);
}

/// The set-level DOT round trip for nodes: reading every node label text
/// back gives exactly the set of node markings. With one node line per
/// marking in the document, the set of parsed node labels equals the set of
/// markings.
pub proof fn lemma_dot_node_label_set(n: Seq<Seq<i16>>)
    requires
        forall|i: int| 0 <= i < n.len() ==> marking_nonneg(#[trigger] n[i]),
    ensures
        Set::new(
            |m: Seq<int>|
                exists|i: int|
                    0 <= i < n.len() && m == parse_marking_chars(marking_chars(#[trigger] n[i])),
        ) == Set::new(
            |m: Seq<int>| exists|i: int| 0 <= i < n.len() && m == as_ints(#[trigger] n[i]),
        ),
{
    let parsed = Set::new(
        |m: Seq<int>|
            exists|i: int|
                0 <= i < n.len() && m == parse_marking_chars(marking_chars(#[trigger] n[i])),
    );
    let markings = Set::new(
        |m: Seq<int>| exists|i: int| 0 <= i < n.len() && m == as_ints(#[trigger] n[i]),
    );
    assert forall|m: Seq<int>| #[trigger] parsed.contains(m) implies markings.contains(m) by {
        let i = choose|i: int|
            0 <= i < n.len() && m == parse_marking_chars(marking_chars(#[trigger] n[i]));
        lemma_marking_chars_round_trip(n[i]);
        assert(m == as_ints(n[i]));
    }
    assert forall|m: Seq<int>| #[trigger] markings.contains(m) implies parsed.contains(m) by {
        let i = choose|i: int| 0 <= i < n.len() && m == as_ints(#[trigger] n[i]);
        lemma_marking_chars_round_trip(n[i]);
        assert(m == parse_marking_chars(marking_chars(n[i])));
    }
    assert(parsed =~= markings);
}

/// The multiset-level DOT round trip for edges: each edge label renders as
/// `t` followed by the transition index in decimal, so reading the numeral
/// part of every edge label back gives exactly the multiset of fired
/// transition indices.
pub proof fn lemma_dot_edge_label_multiset(es: Seq<RgEdge>)
    requires
        forall|k: int| 0 <= k < es.len() ==> 0 <= (#[trigger] es[k]).label,
    ensures
        Seq::new(es.len(), |k: int| digits_val(dec_seq(es[k].label as nat))).to_multiset()
            == Seq::new(es.len(), |k: int| es[k].label as int).to_multiset(),
{
    let parsed = Seq::new(es.len(), |k: int| digits_val(dec_seq(es[k].label as nat)));
    let labels = Seq::new(es.len(), |k: int| es[k].label as int);
    assert forall|k: int| 0 <= k < es.len() implies parsed[k] == labels[k] by {
        lemma_dec_seq_round_trip(es[k].label as nat);
    }
    assert(parsed =~= labels);
}

/// The label text of a marking without its brackets: the entries in
/// decimal, separated by commas.
pub open spec fn marking_chars(m: Seq<i16>) -> Seq<char>
    decreases m.len(),
{
    if m.len() == 0 {
        Seq::empty()
    } else if m.len() == 1 {
        dec_seq(m[0] as nat)
    } else {
        marking_chars(m.drop_last()) + ", "@ + dec_seq(m.last() as nat)
    }
}

/// The node label of a marking: the vector written as a bracketed,
/// comma-separated list.
pub open spec fn marking_label(m: Seq<i16>) -> Seq<char> {
    "["@ + marking_chars(m) + "]"@
}

/// The DOT line declaring node `i` with its marking label.
pub open spec fn node_line(i: nat, m: Seq<i16>) -> Seq<char> {
    dec_seq(i) + " [ label = \""@ + marking_label(m) + "\" ]\n"@
}

/// The DOT line declaring one edge, labeled `t` and the transition index.
pub open spec fn edge_line(e: RgEdge) -> Seq<char> {
    dec_seq(e.from as nat) + " -> "@ + dec_seq(e.to as nat) + " [ label = \"t"@ + dec_seq(
        e.label as nat,
    ) + "\" ]\n"@
}

/// The node lines of the first `upto` nodes, in order.
pub open spec fn dot_nodes(n: Seq<Seq<i16>>, upto: int) -> Seq<char>
    decreases upto,
{
    if upto <= 0 {
        Seq::empty()
    } else {
        dot_nodes(n, upto - 1) + node_line((upto - 1) as nat, n[upto - 1])
    }
}

/// The edge lines of the first `upto` edges, in order.
pub open spec fn dot_edges(es: Seq<RgEdge>, upto: int) -> Seq<char>
    decreases upto,
{
    if upto <= 0 {
        Seq::empty()
    } else {
        dot_edges(es, upto - 1) + edge_line(es[upto - 1])
    }
}

/// The whole DOT document of a reachability graph.
pub open spec fn dot_of(n: Seq<Seq<i16>>, es: Seq<RgEdge>) -> Seq<char> {
    "digraph {\n"@ + dot_nodes(n, n.len() as int) + dot_edges(es, es.len() as int) + "}\n"@
}

/// The one-character string of a decimal digit.
fn digit_str(d: u64) -> (r: &'static str)
    requires
        d < 10,
    ensures
        r@ == seq![dec_digit(d as int)],
{
    proof {
        reveal_strlit("0");
        reveal_strlit("1");
        reveal_strlit("2");
        reveal_strlit("3");
        reveal_strlit("4");
        reveal_strlit("5");
        reveal_strlit("6");
        reveal_strlit("7");
        reveal_strlit("8");
        reveal_strlit("9");
    }
    let r = match d {
        0 => "0",
        1 => "1",
        2 => "2",
        3 => "3",
        4 => "4",
        5 => "5",
        6 => "6",
        7 => "7",
        8 => "8",
        _ => "9",
    };
    proof {
        assert(r@ =~= seq![dec_digit(d as int)]);
    }
    r
}

/// Render `n` in decimal.
pub fn fmt_u64(n: u64) -> (r: String)
    ensures
        r@ == dec_seq(n as nat),
    decreases n,
{
    if n < 10 {
        let mut s = String::new();
        s.append(digit_str(n));
        proof {
            assert(s@ =~= dec_seq(n as nat));
        }
        s
    } else {
        let mut s = fmt_u64(n / 10);
        s.append(digit_str(n % 10));
        proof {
            assert(s@ =~= dec_seq(n as nat));
        }
        s
    }
}

/// Append the label text of `m` (entries in decimal, comma-separated).
fn append_marking_chars(s: &mut String, m: &Vec<i16>)
    requires
        forall|p: int| 0 <= p < m@.len() ==> 0 <= #[trigger] m@[p],
    ensures
        final(s)@ == old(s)@ + marking_chars(m@),
{
    let ghost base = s@;
    let mut p: usize = 0;
    while p < m.len()
        invariant
            forall|q: int| 0 <= q < m@.len() ==> 0 <= #[trigger] m@[q],
            p <= m@.len(),
            s@ == base + marking_chars(m@.take(p as int)),
        decreases m@.len() - p,
    {
        if p > 0 {
            s.append(", ");
        }
        let d = fmt_u64(m[p] as u64);
        s.append(d.as_str());
        proof {
            assert(m@.take(p + 1).drop_last() =~= m@.take(p as int));
            assert(m@.take(p + 1).last() == m@[p as int]);
            assert(m@[p as int] as u64 as nat == m@[p as int] as nat);
            if p == 0 {
                assert(marking_chars(m@.take(1)) =~= dec_seq(m@[0] as nat));
                assert(s@ =~= base + marking_chars(m@.take(p + 1)));
            } else {
                assert(marking_chars(m@.take(p + 1)) =~= marking_chars(m@.take(p as int)) + ", "@
                    + dec_seq(m@[p as int] as nat));
                assert(s@ =~= base + marking_chars(m@.take(p + 1)));
            }
        }
        p += 1;
    }
    proof {
        assert(m@.take(m@.len() as int) =~= m@);
    }
}

/// Render the reachability graph as a DOT document: one node per marking,
/// labeled with the marking vector, and one edge per firing, labeled with
/// `t` and the transition index.
pub fn create_dot_graph(rg: &ReachabilityGraph) -> (r: String)
    requires
        forall|i: int, p: int|
            0 <= i < rg.nodes@.len() && 0 <= p < rg.nodes.deep_view()[i].len()
                ==> 0 <= #[trigger] rg.nodes.deep_view()[i][p],
        forall|k: int| 0 <= k < rg.edges@.len() ==> 0 <= (#[trigger] rg.edges@[k]).label,
    ensures
        r@ == dot_of(rg.nodes.deep_view(), rg.edges@),
{
    let ghost nv = rg.nodes.deep_view();
    let ghost es = rg.edges@;
    let mut s = String::new();
    s.append("digraph {\n");
    let mut i: usize = 0;
    while i < rg.nodes.len()
        invariant
            nv == rg.nodes.deep_view(),
            forall|i2: int, p: int| 0 <= i2 < nv.len() && 0 <= p < nv[i2].len()
                ==> 0 <= #[trigger] nv[i2][p],
            i <= nv.len(),
            s@ == "digraph {\n"@ + dot_nodes(nv, i as int),
        decreases nv.len() - i,
    {
        proof {
            crate::net::lemma_deep_view_index(&rg.nodes, i as int);
        }
        let idx = fmt_u64(i as u64);
        s.append(idx.as_str());
        s.append(" [ label = \"");
        s.append("[");
        append_marking_chars(&mut s, &rg.nodes[i]);
        s.append("]");
        s.append("\" ]\n");
        proof {
            assert(s@ =~= "digraph {\n"@ + dot_nodes(nv, i + 1));
        }
        i += 1;
    }
    let ghost nodes_done = s@;
    let mut k: usize = 0;
    while k < rg.edges.len()
        invariant
            nv == rg.nodes.deep_view(),
            es == rg.edges@,
            forall|k2: int| 0 <= k2 < es.len() ==> 0 <= (#[trigger] es[k2]).label,
            k <= es.len(),
            nodes_done == "digraph {\n"@ + dot_nodes(nv, nv.len() as int),
            s@ == nodes_done + dot_edges(es, k as int),
        decreases es.len() - k,
    {
        let from = fmt_u64(rg.edges[k].from as u64);
        let to = fmt_u64(rg.edges[k].to as u64);
        let label = fmt_u64(rg.edges[k].label as u64);
        s.append(from.as_str());
        s.append(" -> ");
        s.append(to.as_str());
        s.append(" [ label = \"t");
        s.append(label.as_str());
        s.append("\" ]\n");
        proof {
            assert(es[k as int].label as u64 as nat == es[k as int].label as nat);
            assert(s@ =~= nodes_done + dot_edges(es, k + 1));
        }
        k += 1;
    }
    s.append("}\n");
    proof {
        assert(s@ =~= dot_of(nv, es));
    }
    s
}

} // verus!
