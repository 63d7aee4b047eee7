//! Persistence: a self-describing structured text format for graphs,
//! with a verified encoder and decoder. The text is an object of
//! three named fields — matrix, nodes, edges — whose values are
//! length-prefixed lists; numbers are decimal and end in `:`, text is
//! length-prefixed, and identifier variants carry a one-character
//! tag (`I`/`T` for nodes, `E`/`S` for edges). The decoder accepts
//! exactly the encodings of well-formed graphs.
use vstd::prelude::*;
use crate::graphs::{
    unique_ids, Edge, EdgeIdV, EdgeIdentifier, EdgeV, Graph, GraphV, IdV, Node, NodeIdentifier,
    NodeV,
};
use crate::matrix::{mat_view, mat_width, mat_zeros, mat_set, AdjMatrix};
use crate::GraphError;
use vstd::string::{StrSliceExecFns, StringExecFns};

verus! {

// ---------------------------------------------------------------
// The encoding, as functions of the model
// ---------------------------------------------------------------

/// The character of one decimal digit.
pub open spec fn digit_char(d: nat) -> char {
    seq!['0', '1', '2', '3', '4', '5', '6', '7', '8', '9'][d as int]
}

/// Whether the character is a decimal digit.
pub open spec fn is_digit(c: char) -> bool {
    48 <= c as u32 <= 57
}

/// The value of one digit character.
pub open spec fn digit_val(c: char) -> nat {
    (c as u32 - 48) as nat
}

/// The decimal digits of a number, most significant first.
pub open spec fn dec_digits(n: nat) -> Seq<char>
    decreases n,
{
    if n < 10 {
        seq![digit_char(n)]
    } else {
        dec_digits(n / 10).push(digit_char(n % 10))
    }
}

/// A number: its decimal digits closed by `:`.
pub open spec fn enc_nat(n: nat) -> Seq<char> {
    dec_digits(n).push(':')
}

/// Text: its length, followed by exactly that many characters.
pub open spec fn enc_text(t: Seq<char>) -> Seq<char> {
    enc_nat(t.len()) + t
}

/// A node identifier: tag `I` with a number, or tag `T` with text.
pub open spec fn enc_node_id(id: IdV) -> Seq<char> {
    match id {
        IdV::Int(v) => seq!['I'] + enc_nat(v as nat),
        IdV::Text(t) => seq!['T'] + enc_text(t),
    }
}

/// An edge identifier: tag `E` with a number, or tag `S` with text.
pub open spec fn enc_edge_id(id: EdgeIdV) -> Seq<char> {
    match id {
        EdgeIdV::Int(v) => seq!['E'] + enc_nat(v as nat),
        EdgeIdV::Test(t) => seq!['S'] + enc_text(t),
    }
}

/// One adjacency pair: neighbor identifier, edge identifier.
pub open spec fn enc_adj(p: (IdV, EdgeIdV)) -> Seq<char> {
    enc_node_id(p.0) + enc_edge_id(p.1)
}

/// The elements of a matrix row, concatenated.
pub open spec fn enc_entries(r: Seq<usize>) -> Seq<char>
    decreases r.len(),
{
    if r.len() == 0 {
        Seq::empty()
    } else {
        enc_nat(r[0] as nat) + enc_entries(r.drop_first())
    }
}

/// A matrix row: its length, followed by its entries.
pub open spec fn enc_row(r: Seq<usize>) -> Seq<char> {
    enc_nat(r.len()) + enc_entries(r)
}

/// The rows of a matrix, concatenated.
pub open spec fn enc_rows(m: Seq<Seq<usize>>) -> Seq<char>
    decreases m.len(),
{
    if m.len() == 0 {
        Seq::empty()
    } else {
        enc_row(m[0]) + enc_rows(m.drop_first())
    }
}

/// A matrix: its row count, followed by its rows.
pub open spec fn enc_matrix(m: Seq<Seq<usize>>) -> Seq<char> {
    enc_nat(m.len()) + enc_rows(m)
}

/// The adjacency pairs of a node, concatenated.
pub open spec fn enc_adjs(ps: Seq<(IdV, EdgeIdV)>) -> Seq<char>
    decreases ps.len(),
{
    if ps.len() == 0 {
        Seq::empty()
    } else {
        enc_adj(ps[0]) + enc_adjs(ps.drop_first())
    }
}

/// A node: its identifier, its adjacency count and its pairs.
pub open spec fn enc_node(nd: NodeV) -> Seq<char> {
    enc_node_id(nd.identifier) + enc_nat(nd.edges.len()) + enc_adjs(nd.edges)
}

/// The nodes of the table, concatenated.
pub open spec fn enc_nodes(ns: Seq<NodeV>) -> Seq<char>
    decreases ns.len(),
{
    if ns.len() == 0 {
        Seq::empty()
    } else {
        enc_node(ns[0]) + enc_nodes(ns.drop_first())
    }
}

/// The node table: its size, followed by its nodes.
pub open spec fn enc_node_table(ns: Seq<NodeV>) -> Seq<char> {
    enc_nat(ns.len()) + enc_nodes(ns)
}

/// An edge: its source identifier, its target identifier.
pub open spec fn enc_edge(e: EdgeV) -> Seq<char> {
    enc_node_id(e.source) + enc_node_id(e.target)
}

/// The edges of the list, concatenated.
pub open spec fn enc_edges(es: Seq<EdgeV>) -> Seq<char>
    decreases es.len(),
{
    if es.len() == 0 {
        Seq::empty()
    } else {
        enc_edge(es[0]) + enc_edges(es.drop_first())
    }
}

/// The edge list: its length, followed by its edges.
pub open spec fn enc_edge_list(es: Seq<EdgeV>) -> Seq<char> {
    enc_nat(es.len()) + enc_edges(es)
}

/// A whole graph: the three named fields between `graph{` and `}`.
pub open spec fn enc_graph(g: GraphV) -> Seq<char> {
    "graph{"@ + "matrix:"@ + enc_matrix(g.matrix) + "nodes:"@ + enc_node_table(g.nodes)
        + "edges:"@ + enc_edge_list(g.edges) + "}"@
}

// ---------------------------------------------------------------
// The verified encoder
// ---------------------------------------------------------------

/// The digit characters of digit values, in reverse: the last value
/// comes first.
spec fn rev_chars(ds: Seq<usize>) -> Seq<char>
    decreases ds.len(),
{
    if ds.len() == 0 {
        Seq::empty()
    } else {
        seq![digit_char(ds.last() as nat)] + rev_chars(ds.drop_last())
    }
}

proof fn lemma_rev_chars_index(ds: Seq<usize>)
    ensures
        rev_chars(ds).len() == ds.len(),
        forall|q: int|
            0 <= q < ds.len() ==> rev_chars(ds)[q] == digit_char(
                ds[ds.len() - 1 - q] as nat,
            ),
    decreases ds.len(),
{
    if ds.len() > 0 {
        lemma_rev_chars_index(ds.drop_last());
    }
}

/// Appends one digit character.
fn append_digit(out: &mut String, d: usize)
    requires
        d < 10,
    ensures
        final(out)@ == old(out)@ + seq![digit_char(d as nat)],
{
    proof {
        reveal_strlit("0");
        reveal_strlit("1");
        reveal_strlit("2");
        reveal_strlit("3");
        reveal_strlit("4");
        reveal_strlit("5");
        reveal_strlit("6");
        reveal_strlit("7");
        reveal_strlit("8");
        reveal_strlit("9");
    }
    match d {
        0 => out.append("0"),
        1 => out.append("1"),
        2 => out.append("2"),
        3 => out.append("3"),
        4 => out.append("4"),
        5 => out.append("5"),
        6 => out.append("6"),
        7 => out.append("7"),
        8 => out.append("8"),
        _ => out.append("9"),
    }
    proof {
        assert(final(out)@ =~= old(out)@ + seq![digit_char(d as nat)]);
    }
}

/// Appends a number in the encoding's form: decimal digits, `:`.
fn push_nat(out: &mut String, n: usize)
    ensures
        final(out)@ == old(out)@ + enc_nat(n as nat),
{
    let mut digits: Vec<usize> = Vec::new();
    digits.push(n % 10);
    let mut m: usize = n / 10;
    proof {
        if n < 10 {
            assert(n % 10 == n as int) by (nonlinear_arith)
                requires n < 10;
            assert(n / 10 == 0) by (nonlinear_arith)
                requires n < 10;
            assert(digits@.drop_last() =~= Seq::<usize>::empty());
            assert(rev_chars(Seq::<usize>::empty()) == Seq::<char>::empty());
            assert(digits@.last() == n % 10);
            assert(rev_chars(digits@) =~= seq![digit_char(n as nat)]);
        } else {
            assert(digits@.drop_last() =~= Seq::<usize>::empty());
            assert(rev_chars(Seq::<usize>::empty()) == Seq::<char>::empty());
            assert(digits@.last() == n % 10);
            assert(rev_chars(digits@) =~= seq![digit_char((n % 10) as nat)]);
            assert(dec_digits(n as nat) == dec_digits((n / 10) as nat).push(
                digit_char((n % 10) as nat),
            ));
            assert(dec_digits((n / 10) as nat) + rev_chars(digits@) =~= dec_digits(
                n as nat,
            ));
        }
    }
    while m > 0
        invariant
            digits@.len() >= 1,
            forall|k: int| 0 <= k < digits@.len() ==> digits@[k] < 10,
            dec_digits(n as nat) == (if m > 0 {
                dec_digits(m as nat)
            } else {
                Seq::<char>::empty()
            }) + rev_chars(digits@),
        decreases m,
    {
        let d = m % 10;
        let ghost pre = digits@;
        digits.push(d);
        let m2 = m / 10;
        proof {
            assert(d < 10);
            assert(digits@.drop_last() =~= pre);
            assert(rev_chars(digits@) =~= seq![digit_char(d as nat)] + rev_chars(pre));
            if m < 10 {
                assert(m % 10 == m as int) by (nonlinear_arith)
                    requires m < 10;
                assert(m / 10 == 0) by (nonlinear_arith)
                    requires m < 10;
                assert(dec_digits(m as nat) == seq![digit_char(m as nat)]);
                assert(dec_digits(m as nat) + rev_chars(pre) =~= rev_chars(digits@));
            } else {
                assert(m / 10 >= 1) by (nonlinear_arith)
                    requires m >= 10;
                assert(dec_digits(m as nat) == dec_digits((m / 10) as nat).push(
                    digit_char((m % 10) as nat),
                ));
                assert(dec_digits(m as nat) + rev_chars(pre) =~= dec_digits(
                    (m / 10) as nat,
                ) + rev_chars(digits@));
            }
        }
        m = m2;
    }
    let ghost start = out@;
    let mut t: usize = digits.len();
    proof {
        assert(digits@.skip(t as int) =~= Seq::<usize>::empty());
    }
    while t > 0
        invariant
            t <= digits@.len(),
            forall|k: int| 0 <= k < digits@.len() ==> digits@[k] < 10,
            out@ == start + rev_chars(digits@.skip(t as int)),
        decreases t,
    {
        append_digit(out, digits[t - 1]);
        proof {
            let sk1 = digits@.skip(t as int - 1);
            lemma_rev_chars_index(sk1);
            lemma_rev_chars_index(digits@.skip(t as int));
            assert(rev_chars(sk1) =~= rev_chars(digits@.skip(t as int)) + seq![
                digit_char(digits@[t as int - 1] as nat),
            ]);
        }
        t -= 1;
    }
    proof {
        assert(digits@.skip(0) =~= digits@);
        assert(dec_digits(n as nat) == rev_chars(digits@));
        reveal_strlit(":");
    }
    out.append(":");
    proof {
        assert(final(out)@ =~= old(out)@ + enc_nat(n as nat));
    }
}

/// Appends text in the encoding's form: length, characters.
fn push_text(out: &mut String, s: &String)
    ensures
        final(out)@ == old(out)@ + enc_text(s@),
{
    let l = s.as_str().unicode_len();
    push_nat(out, l);
    out.append(s.as_str());
    proof {
        assert(final(out)@ =~= old(out)@ + enc_text(s@));
    }
}

/// Appends a node identifier.
fn push_node_id(out: &mut String, id: &NodeIdentifier)
    ensures
        final(out)@ == old(out)@ + enc_node_id(id@),
{
    proof {
        reveal_strlit("I");
        reveal_strlit("T");
    }
    match id {
        NodeIdentifier::Int(v) => {
            out.append("I");
            push_nat(out, *v);
        },
        NodeIdentifier::Text(t) => {
            out.append("T");
            push_text(out, t);
        },
    }
    proof {
        assert(final(out)@ =~= old(out)@ + enc_node_id(id@));
    }
}

/// Appends an edge identifier.
fn push_edge_id(out: &mut String, id: &EdgeIdentifier)
    ensures
        final(out)@ == old(out)@ + enc_edge_id(id@),
{
    proof {
        reveal_strlit("E");
        reveal_strlit("S");
    }
    match id {
        EdgeIdentifier::Int(v) => {
            out.append("E");
            push_nat(out, *v);
        },
        EdgeIdentifier::Test(t) => {
            out.append("S");
            push_text(out, t);
        },
    }
    proof {
        assert(final(out)@ =~= old(out)@ + enc_edge_id(id@));
    }
}

proof fn lemma_enc_entries_snoc(r: Seq<usize>, x: usize)
    ensures
        enc_entries(r.push(x)) == enc_entries(r) + enc_nat(x as nat),
    decreases r.len(),
{
    if r.len() == 0 {
        assert(r.push(x).drop_first() =~= Seq::<usize>::empty());
        assert(r.push(x)[0] == x);
        assert(enc_entries(Seq::<usize>::empty()) == Seq::<char>::empty());
        assert(enc_entries(r) == Seq::<char>::empty());
        assert(enc_entries(r.push(x)) =~= enc_entries(r) + enc_nat(x as nat));
    } else {
        assert(r.push(x).drop_first() =~= r.drop_first().push(x));
        assert(r.push(x)[0] == r[0]);
        lemma_enc_entries_snoc(r.drop_first(), x);
        assert(enc_entries(r.push(x)) =~= enc_entries(r) + enc_nat(x as nat));
    }
}

proof fn lemma_enc_rows_snoc(m: Seq<Seq<usize>>, x: Seq<usize>)
    ensures
        enc_rows(m.push(x)) == enc_rows(m) + enc_row(x),
    decreases m.len(),
{
    if m.len() == 0 {
        assert(m.push(x).drop_first() =~= Seq::<Seq<usize>>::empty());
        assert(m.push(x)[0] == x);
        assert(enc_rows(Seq::<Seq<usize>>::empty()) == Seq::<char>::empty());
        assert(enc_rows(m) == Seq::<char>::empty());
        assert(enc_rows(m.push(x)) =~= enc_rows(m) + enc_row(x));
    } else {
        assert(m.push(x).drop_first() =~= m.drop_first().push(x));
        assert(m.push(x)[0] == m[0]);
        lemma_enc_rows_snoc(m.drop_first(), x);
        assert(enc_rows(m.push(x)) =~= enc_rows(m) + enc_row(x));
    }
}

proof fn lemma_enc_adjs_snoc(ps: Seq<(IdV, EdgeIdV)>, x: (IdV, EdgeIdV))
    ensures
        enc_adjs(ps.push(x)) == enc_adjs(ps) + enc_adj(x),
    decreases ps.len(),
{
    if ps.len() == 0 {
        assert(ps.push(x).drop_first() =~= Seq::<(IdV, EdgeIdV)>::empty());
        assert(ps.push(x)[0] == x);
        assert(enc_adjs(Seq::<(IdV, EdgeIdV)>::empty()) == Seq::<char>::empty());
        assert(enc_adjs(ps) == Seq::<char>::empty());
        assert(enc_adjs(ps.push(x)) =~= enc_adjs(ps) + enc_adj(x));
    } else {
        assert(ps.push(x).drop_first() =~= ps.drop_first().push(x));
        assert(ps.push(x)[0] == ps[0]);
        lemma_enc_adjs_snoc(ps.drop_first(), x);
        assert(enc_adjs(ps.push(x)) =~= enc_adjs(ps) + enc_adj(x));
    }
}

proof fn lemma_enc_nodes_snoc(ns: Seq<NodeV>, x: NodeV)
    ensures
        enc_nodes(ns.push(x)) == enc_nodes(ns) + enc_node(x),
    decreases ns.len(),
{
    if ns.len() == 0 {
        assert(ns.push(x).drop_first() =~= Seq::<NodeV>::empty());
        assert(ns.push(x)[0] == x);
        assert(enc_nodes(Seq::<NodeV>::empty()) == Seq::<char>::empty());
        assert(enc_nodes(ns) == Seq::<char>::empty());
        assert(enc_nodes(ns.push(x)) =~= enc_nodes(ns) + enc_node(x));
    } else {
        assert(ns.push(x).drop_first() =~= ns.drop_first().push(x));
        assert(ns.push(x)[0] == ns[0]);
        lemma_enc_nodes_snoc(ns.drop_first(), x);
        assert(enc_nodes(ns.push(x)) =~= enc_nodes(ns) + enc_node(x));
    }
}

proof fn lemma_enc_edges_snoc(es: Seq<EdgeV>, x: EdgeV)
    ensures
        enc_edges(es.push(x)) == enc_edges(es) + enc_edge(x),
    decreases es.len(),
{
    if es.len() == 0 {
        assert(es.push(x).drop_first() =~= Seq::<EdgeV>::empty());
        assert(es.push(x)[0] == x);
        assert(enc_edges(Seq::<EdgeV>::empty()) == Seq::<char>::empty());
        assert(enc_edges(es) == Seq::<char>::empty());
        assert(enc_edges(es.push(x)) =~= enc_edges(es) + enc_edge(x));
    } else {
        assert(es.push(x).drop_first() =~= es.drop_first().push(x));
        assert(es.push(x)[0] == es[0]);
        lemma_enc_edges_snoc(es.drop_first(), x);
        assert(enc_edges(es.push(x)) =~= enc_edges(es) + enc_edge(x));
    }
}

/// Appends a node: identifier, adjacency count, pairs.
fn push_node(out: &mut String, nd: &Node)
    ensures
        final(out)@ == old(out)@ + enc_node(nd@),
{
    push_node_id(out, &nd.identifier);
    push_nat(out, nd.edges.len());
    let ghost base = out@;
    let mut k: usize = 0;
    while k < nd.edges.len()
        invariant
            k <= nd.edges@.len(),
            out@ == base + enc_adjs(nd@.edges.take(k as int)),
        decreases nd.edges@.len() - k,
    {
        push_node_id(out, &nd.edges[k].0);
        push_edge_id(out, &nd.edges[k].1);
        proof {
            lemma_enc_adjs_snoc(nd@.edges.take(k as int), nd@.edges[k as int]);
            assert(nd@.edges.take(k as int).push(nd@.edges[k as int]) =~= nd@.edges.take(
                k as int + 1,
            ));
            assert(enc_adj(nd@.edges[k as int]) == enc_node_id(nd@.edges[k as int].0)
                + enc_edge_id(nd@.edges[k as int].1));
        }
        k += 1;
    }
    proof {
        assert(nd@.edges.take(nd.edges@.len() as int) =~= nd@.edges);
        assert(final(out)@ =~= old(out)@ + enc_node(nd@));
    }
}

impl Graph {
    /// Serializes the whole graph to its structured text form. Total
    /// over every graph value: nothing of the data model is
    /// unrepresentable.
    pub fn save_to_buffer(&self) -> (out: String)
        ensures
            out@ == enc_graph(self@),
    {
        let mut out = String::new();
        out.append("graph{");
        out.append("matrix:");
        let rows = self.adjacency_matrix.nrows();
        let cols = self.adjacency_matrix.ncols();
        push_nat(&mut out, rows);
        let ghost mv = mat_view(self.adjacency_matrix);
        let ghost base_m = out@;
        let mut r: usize = 0;
        while r < rows
            invariant
                r <= rows,
                rows == mv.len(),
                forall|q: int| 0 <= q < mv.len() ==> (#[trigger] mv[q]).len() == cols,
                mv == mat_view(self.adjacency_matrix),
                out@ == base_m + enc_rows(mv.take(r as int)),
            decreases rows - r,
        {
            push_nat(&mut out, cols);
            let ghost base_r = out@;
            let mut c: usize = 0;
            while c < cols
                invariant
                    c <= cols,
                    r < rows,
                    rows == mv.len(),
                    forall|q: int| 0 <= q < mv.len() ==> (#[trigger] mv[q]).len() == cols,
                    mv == mat_view(self.adjacency_matrix),
                    out@ == base_r + enc_entries(mv[r as int].take(c as int)),
                decreases cols - c,
            {
                let v = self.adjacency_matrix.entry(r, c);
                push_nat(&mut out, v);
                proof {
                    lemma_enc_entries_snoc(
                        mv[r as int].take(c as int),
                        mv[r as int][c as int],
                    );
                    assert(mv[r as int].take(c as int).push(mv[r as int][c as int])
                        =~= mv[r as int].take(c as int + 1));
                }
                c += 1;
            }
            proof {
                assert(mv[r as int].take(cols as int) =~= mv[r as int]);
                lemma_enc_rows_snoc(mv.take(r as int), mv[r as int]);
                assert(mv.take(r as int).push(mv[r as int]) =~= mv.take(r as int + 1));
                assert(out@ =~= base_m + enc_rows(mv.take(r as int + 1)));
            }
            r += 1;
        }
        proof {
            assert(mv.take(rows as int) =~= mv);
        }
        out.append("nodes:");
        push_nat(&mut out, self.nodes.len());
        let ghost nv = self@.nodes;
        let ghost base_n = out@;
        let mut i: usize = 0;
        while i < self.nodes.len()
            invariant
                i <= self.nodes@.len(),
                nv == self@.nodes,
                nv.len() == self.nodes@.len(),
                out@ == base_n + enc_nodes(nv.take(i as int)),
            decreases self.nodes@.len() - i,
        {
            push_node(&mut out, &self.nodes[i]);
            proof {
                lemma_enc_nodes_snoc(nv.take(i as int), nv[i as int]);
                assert(nv.take(i as int).push(nv[i as int]) =~= nv.take(i as int + 1));
            }
            i += 1;
        }
        proof {
            assert(nv.take(self.nodes@.len() as int) =~= nv);
        }
        out.append("edges:");
        push_nat(&mut out, self.edges.len());
        let ghost ev = self@.edges;
        let ghost base_e = out@;
        let mut j: usize = 0;
        while j < self.edges.len()
            invariant
                j <= self.edges@.len(),
                ev == self@.edges,
                ev.len() == self.edges@.len(),
                out@ == base_e + enc_edges(ev.take(j as int)),
            decreases self.edges@.len() - j,
        {
            push_node_id(&mut out, &self.edges[j].source);
            push_node_id(&mut out, &self.edges[j].target);
            proof {
                lemma_enc_edges_snoc(ev.take(j as int), ev[j as int]);
                assert(ev.take(j as int).push(ev[j as int]) =~= ev.take(j as int + 1));
                assert(enc_edge(ev[j as int]) == enc_node_id(ev[j as int].source)
                    + enc_node_id(ev[j as int].target));
            }
            j += 1;
        }
        proof {
            assert(ev.take(self.edges@.len() as int) =~= ev);
        }
        out.append("}");
        proof {
            assert(out@ =~= enc_graph(self@));
        }
        out
    }
}

// ---------------------------------------------------------------
// The decoding, as functions of the model
// ---------------------------------------------------------------

/// The first position at or after `i` that does not hold a digit.
pub open spec fn digit_run_end(s: Seq<char>, i: int) -> int
    decreases s.len() - i when 0 <= i <= s.len()
{
    if i < s.len() && is_digit(s[i]) {
        digit_run_end(s, i + 1)
    } else {
        i
    }
}

/// The value of a digit string, most significant first.
pub open spec fn val_of(ds: Seq<char>) -> nat
    decreases ds.len(),
{
    if ds.len() == 0 {
        0
    } else {
        val_of(ds.drop_last()) * 10 + digit_val(ds.last())
    }
}

/// A number: a canonical digit run (no leading zero) whose value
/// fits the machine word, closed by `:`.
pub open spec fn parse_nat_s(s: Seq<char>, i: int) -> Option<(usize, int)> {
    let e = digit_run_end(s, i);
    let ds = s.subrange(i, e);
    if e == i {
        None
    } else if ds[0] == '0' && e > i + 1 {
        None
    } else if val_of(ds) > usize::MAX {
        None
    } else if e < s.len() && s[e] == ':' {
        Some((val_of(ds) as usize, e + 1))
    } else {
        None
    }
}

/// Text: a length, followed by exactly that many characters.
pub open spec fn parse_text_s(s: Seq<char>, i: int) -> Option<(Seq<char>, int)> {
    match parse_nat_s(s, i) {
        None => None,
        Some((k, j)) => if j + k <= s.len() {
            Some((s.subrange(j, j + k), j + k))
        } else {
            None
        },
    }
}

/// A node identifier: `I` with a number or `T` with text.
pub open spec fn parse_node_id_s(s: Seq<char>, i: int) -> Option<(IdV, int)> {
    if i < s.len() && s[i] == 'I' {
        match parse_nat_s(s, i + 1) {
            None => None,
            Some((v, j)) => Some((IdV::Int(v), j)),
        }
    } else if i < s.len() && s[i] == 'T' {
        match parse_text_s(s, i + 1) {
            None => None,
            Some((t, j)) => Some((IdV::Text(t), j)),
        }
    } else {
        None
    }
}

/// An edge identifier: `E` with a number or `S` with text.
pub open spec fn parse_edge_id_s(s: Seq<char>, i: int) -> Option<(EdgeIdV, int)> {
    if i < s.len() && s[i] == 'E' {
        match parse_nat_s(s, i + 1) {
            None => None,
            Some((v, j)) => Some((EdgeIdV::Int(v), j)),
        }
    } else if i < s.len() && s[i] == 'S' {
        match parse_text_s(s, i + 1) {
            None => None,
            Some((t, j)) => Some((EdgeIdV::Test(t), j)),
        }
    } else {
        None
    }
}

/// One adjacency pair.
pub open spec fn parse_adj_s(s: Seq<char>, i: int) -> Option<((IdV, EdgeIdV), int)> {
    match parse_node_id_s(s, i) {
        None => None,
        Some((nid, j)) => match parse_edge_id_s(s, j) {
            None => None,
            Some((eid, k)) => Some(((nid, eid), k)),
        },
    }
}

/// `count` numbers, one after the other.
pub open spec fn nat_items(s: Seq<char>, i: int, count: nat) -> Option<(Seq<usize>, int)>
    decreases count,
{
    if count == 0 {
        Some((Seq::empty(), i))
    } else {
        match parse_nat_s(s, i) {
            None => None,
            Some((v, j)) => match nat_items(s, j, (count - 1) as nat) {
                None => None,
                Some((vs, e)) => Some((seq![v] + vs, e)),
            },
        }
    }
}

/// A matrix row: its length, followed by its entries.
pub open spec fn parse_row_s(s: Seq<char>, i: int) -> Option<(Seq<usize>, int)> {
    match parse_nat_s(s, i) {
        None => None,
        Some((c, j)) => nat_items(s, j, c as nat),
    }
}

/// `count` rows, one after the other.
pub open spec fn row_items(s: Seq<char>, i: int, count: nat) -> Option<
    (Seq<Seq<usize>>, int),
>
    decreases count,
{
    if count == 0 {
        Some((Seq::empty(), i))
    } else {
        match parse_row_s(s, i) {
            None => None,
            Some((v, j)) => match row_items(s, j, (count - 1) as nat) {
                None => None,
                Some((vs, e)) => Some((seq![v] + vs, e)),
            },
        }
    }
}

/// A matrix: its row count, followed by its rows.
pub open spec fn parse_matrix_s(s: Seq<char>, i: int) -> Option<(Seq<Seq<usize>>, int)> {
    match parse_nat_s(s, i) {
        None => None,
        Some((c, j)) => row_items(s, j, c as nat),
    }
}

/// `count` adjacency pairs, one after the other.
pub open spec fn adj_items(s: Seq<char>, i: int, count: nat) -> Option<
    (Seq<(IdV, EdgeIdV)>, int),
>
    decreases count,
{
    if count == 0 {
        Some((Seq::empty(), i))
    } else {
        match parse_adj_s(s, i) {
            None => None,
            Some((v, j)) => match adj_items(s, j, (count - 1) as nat) {
                None => None,
                Some((vs, e)) => Some((seq![v] + vs, e)),
            },
        }
    }
}

/// A node: its identifier, its adjacency count and its pairs.
pub open spec fn parse_node_s(s: Seq<char>, i: int) -> Option<(NodeV, int)> {
    match parse_node_id_s(s, i) {
        None => None,
        Some((nid, j)) => match parse_nat_s(s, j) {
            None => None,
            Some((c, k)) => match adj_items(s, k, c as nat) {
                None => None,
                Some((ps, e)) => Some((NodeV { identifier: nid, edges: ps }, e)),
            },
        },
    }
}

/// `count` nodes, one after the other.
pub open spec fn node_items(s: Seq<char>, i: int, count: nat) -> Option<(Seq<NodeV>, int)>
    decreases count,
{
    if count == 0 {
        Some((Seq::empty(), i))
    } else {
        match parse_node_s(s, i) {
            None => None,
            Some((v, j)) => match node_items(s, j, (count - 1) as nat) {
                None => None,
                Some((vs, e)) => Some((seq![v] + vs, e)),
            },
        }
    }
}

/// An edge: its source identifier, its target identifier.
pub open spec fn parse_edge_s(s: Seq<char>, i: int) -> Option<(EdgeV, int)> {
    match parse_node_id_s(s, i) {
        None => None,
        Some((src, j)) => match parse_node_id_s(s, j) {
            None => None,
            Some((tgt, k)) => Some((EdgeV { source: src, target: tgt }, k)),
        },
    }
}

/// `count` edges, one after the other.
pub open spec fn edge_items(s: Seq<char>, i: int, count: nat) -> Option<(Seq<EdgeV>, int)>
    decreases count,
{
    if count == 0 {
        Some((Seq::empty(), i))
    } else {
        match parse_edge_s(s, i) {
            None => None,
            Some((v, j)) => match edge_items(s, j, (count - 1) as nat) {
                None => None,
                Some((vs, e)) => Some((seq![v] + vs, e)),
            },
        }
    }
}

/// The fixed text `t` at position `i`.
pub open spec fn expect_s(s: Seq<char>, i: int, t: Seq<char>) -> Option<int> {
    if i + t.len() <= s.len() && s.subrange(i, i + t.len()) == t {
        Some(i + t.len())
    } else {
        None
    }
}

/// A decoded matrix matches the expected shape: square, and small
/// enough to build.
pub open spec fn square_fits(m: Seq<Seq<usize>>) -> bool {
    &&& forall|r: int| 0 <= r < m.len() ==> (#[trigger] m[r]).len() == m.len()
    &&& m.len() * m.len() <= isize::MAX
}

/// A whole graph: the three named fields between `graph{` and `}`,
/// the whole input consumed, the matrix square, the node-table keys
/// unique.
pub open spec fn parse_graph_s(s: Seq<char>) -> Option<GraphV> {
    match expect_s(s, 0, "graph{"@) {
        None => None,
        Some(i1) => match expect_s(s, i1, "matrix:"@) {
            None => None,
            Some(i2) => match parse_matrix_s(s, i2) {
                None => None,
                Some((rows, i3)) => match expect_s(s, i3, "nodes:"@) {
                    None => None,
                    Some(i4) => match parse_nat_s(s, i4) {
                        None => None,
                        Some((nc, i4b)) => match node_items(s, i4b, nc as nat) {
                            None => None,
                            Some((nodes, i5)) => match expect_s(s, i5, "edges:"@) {
                                None => None,
                                Some(i6) => match parse_nat_s(s, i6) {
                                    None => None,
                                    Some((ec, i6b)) => match edge_items(s, i6b, ec as nat) {
                                        None => None,
                                        Some((edges, i7)) => match expect_s(s, i7, "}"@) {
                                            None => None,
                                            Some(i8) => if i8 == s.len() && square_fits(rows)
                                                && unique_ids(nodes) {
                                                Some(
                                                    GraphV {
                                                        matrix: rows,
                                                        width: rows.len() as nat,
                                                        nodes: nodes,
                                                        edges: edges,
                                                    },
                                                )
                                            } else {
                                                None
                                            },
                                        },
                                    },
                                },
                            },
                        },
                    },
                },
            },
        },
    }
}

// ---------------------------------------------------------------
// The verified decoder
// ---------------------------------------------------------------

/// A run of digits up to `e`, closed by the string's end or a
/// non-digit, ends exactly at `e`.
proof fn lemma_digit_run(s: Seq<char>, i: int, e: int)
    requires
        0 <= i <= e <= s.len(),
        forall|k: int| i <= k < e ==> is_digit(#[trigger] s[k]),
        e == s.len() || !is_digit(s[e]),
    ensures
        digit_run_end(s, i) == e,
    decreases e - i,
{
    if i < e {
        lemma_digit_run(s, i + 1, e);
    }
}

/// The value of a digit string is at least the value of any prefix.
proof fn lemma_val_prefix(ds: Seq<char>, m: int)
    requires
        0 <= m <= ds.len(),
    ensures
        val_of(ds.take(m)) <= val_of(ds),
    decreases ds.len() - m,
{
    if m == ds.len() {
        assert(ds.take(m) =~= ds);
    } else {
        assert(ds.take(m + 1).drop_last() =~= ds.take(m));
        assert(ds.take(m + 1).last() == ds[m]);
        assert(val_of(ds.take(m)) <= val_of(ds.take(m + 1)));
        lemma_val_prefix(ds, m + 1);
    }
}

fn is_digit_e(c: char) -> (r: bool)
    ensures
        r == is_digit(c),
{
    let u = c as u32;
    48 <= u && u <= 57
}

fn digit_value(c: char) -> (d: usize)
    requires
        is_digit(c),
    ensures
        d == digit_val(c),
        d < 10,
{
    ((c as u32) - 48) as usize
}

/// Reads a number: a canonical digit run closed by `:`.
fn p_nat(s: &str, i: usize) -> (r: Option<(usize, usize)>)
    requires
        i <= s@.len(),
    ensures
        match r {
            Some(p) => parse_nat_s(s@, i as int) == Some((p.0, p.1 as int)) && i < p.1
                <= s@.len(),
            None => parse_nat_s(s@, i as int) is None,
        },
{
    let n = s.unicode_len();
    let mut e = i;
    while e < n && is_digit_e(s.get_char(e))
        invariant
            i <= e <= n,
            n == s@.len(),
            forall|k: int| i <= k < e ==> is_digit(#[trigger] s@[k]),
        decreases n - e,
    {
        e += 1;
    }
    proof {
        lemma_digit_run(s@, i as int, e as int);
    }
    if e == i {
        return None;
    }
    let c0 = s.get_char(i);
    let ghost ds = s@.subrange(i as int, e as int);
    proof {
        assert(ds[0] == s@[i as int]);
    }
    if c0 == '0' && e > i + 1 {
        return None;
    }
    let mut v: usize = 0;
    let mut k = i;
    while k < e
        invariant
            i <= k <= e <= n,
            n == s@.len(),
            ds == s@.subrange(i as int, e as int),
            forall|q: int| i <= q < e ==> is_digit(#[trigger] s@[q]),
            digit_run_end(s@, i as int) == e,
            v == val_of(s@.subrange(i as int, k as int)),
        decreases e - k,
    {
        let c = s.get_char(k);
        let d = digit_value(c);
        let ghost pre = s@.subrange(i as int, k as int);
        let ghost cur = s@.subrange(i as int, k as int + 1);
        proof {
            assert(cur.drop_last() =~= pre);
            assert(cur.last() == s@[k as int]);
            assert(val_of(cur) == val_of(pre) * 10 + digit_val(s@[k as int]));
        }
        if v > (usize::MAX - d) / 10 {
            proof {
                assert(v * 10 + d > usize::MAX) by (nonlinear_arith)
                    requires
                        v > (usize::MAX - d) / 10,
                        d < 10,
                        v >= 0,
                ;
                assert(val_of(cur) > usize::MAX);
                assert(ds.take(k as int + 1 - i) =~= cur);
                lemma_val_prefix(ds, k as int + 1 - i);
                assert(val_of(ds) > usize::MAX);
            }
            return None;
        }
        v = v * 10 + d;
        k += 1;
    }
    proof {
        assert(s@.subrange(i as int, e as int) == ds);
        assert(val_of(ds) == v);
    }
    if e < n {
        if s.get_char(e) == ':' {
            return Some((v, e + 1));
        }
    }
    None
}

/// Reads text: a length, followed by exactly that many characters.
fn p_text(s: &str, i: usize) -> (r: Option<(String, usize)>)
    requires
        i <= s@.len(),
    ensures
        match r {
            Some(p) => parse_text_s(s@, i as int) == Some((p.0@, p.1 as int)) && p.1
                <= s@.len(),
            None => parse_text_s(s@, i as int) is None,
        },
{
    let n = s.unicode_len();
    match p_nat(s, i) {
        None => None,
        Some((k, j)) => {
            if k <= n - j {
                let sub = s.substring_char(j, j + k);
                let t = String::from_str(sub);
                Some((t, j + k))
            } else {
                None
            }
        },
    }
}

/// Reads a node identifier: `I` with a number or `T` with text.
fn p_node_id(s: &str, i: usize) -> (r: Option<(NodeIdentifier, usize)>)
    requires
        i <= s@.len(),
    ensures
        match r {
            Some(p) => parse_node_id_s(s@, i as int) == Some((p.0@, p.1 as int)) && p.1
                <= s@.len(),
            None => parse_node_id_s(s@, i as int) is None,
        },
{
    let n = s.unicode_len();
    if i < n {
        let c = s.get_char(i);
        if c == 'I' {
            match p_nat(s, i + 1) {
                None => None,
                Some((v, j)) => Some((NodeIdentifier::Int(v), j)),
            }
        } else if c == 'T' {
            match p_text(s, i + 1) {
                None => None,
                Some((t, j)) => Some((NodeIdentifier::Text(t), j)),
            }
        } else {
            None
        }
    } else {
        None
    }
}

/// Reads an edge identifier: `E` with a number or `S` with text.
fn p_edge_id(s: &str, i: usize) -> (r: Option<(EdgeIdentifier, usize)>)
    requires
        i <= s@.len(),
    ensures
        match r {
            Some(p) => parse_edge_id_s(s@, i as int) == Some((p.0@, p.1 as int)) && p.1
                <= s@.len(),
            None => parse_edge_id_s(s@, i as int) is None,
        },
{
    let n = s.unicode_len();
    if i < n {
        let c = s.get_char(i);
        if c == 'E' {
            match p_nat(s, i + 1) {
                None => None,
                Some((v, j)) => Some((EdgeIdentifier::Int(v), j)),
            }
        } else if c == 'S' {
            match p_text(s, i + 1) {
                None => None,
                Some((t, j)) => Some((EdgeIdentifier::Test(t), j)),
            }
        } else {
            None
        }
    } else {
        None
    }
}

/// Reads the fixed text `tag` at position `i`.
fn expect_tag(s: &str, i: usize, tag: &str) -> (r: Option<usize>)
    requires
        i <= s@.len(),
    ensures
        match r {
            Some(j) => expect_s(s@, i as int, tag@) == Some(j as int) && i <= j
                <= s@.len(),
            None => expect_s(s@, i as int, tag@) is None,
        },
{
    let n = s.unicode_len();
    let tl = tag.unicode_len();
    if tl > n - i {
        return None;
    }
    let mut k: usize = 0;
    while k < tl
        invariant
            k <= tl,
            i + tl <= n,
            n == s@.len(),
            tl == tag@.len(),
            forall|q: int| 0 <= q < k ==> s@[i + q] == tag@[q],
        decreases tl - k,
    {
        if s.get_char(i + k) != tag.get_char(k) {
            proof {
                let sub = s@.subrange(i as int, i as int + tag@.len() as int);
                assert(sub[k as int] != tag@[k as int]);
            }
            return None;
        }
        k += 1;
    }
    proof {
        assert(s@.subrange(i as int, i as int + tag@.len() as int) =~= tag@);
    }
    Some(i + tl)
}

/// Reads a matrix row: its length, followed by its entries.
fn p_row(s: &str, i: usize) -> (r: Option<(Vec<usize>, usize)>)
    requires
        i <= s@.len(),
    ensures
        match r {
            Some(p) => parse_row_s(s@, i as int) == Some((p.0@, p.1 as int)) && p.1
                <= s@.len(),
            None => parse_row_s(s@, i as int) is None,
        },
{
    match p_nat(s, i) {
        None => None,
        Some((cnt, j0)) => {
            let mut acc: Vec<usize> = Vec::new();
            let mut cur = j0;
            let mut m: usize = 0;
            while m < cnt
                invariant
                    m <= cnt,
                    cur <= s@.len(),
                    i <= s@.len(),
                    parse_row_s(s@, i as int) == nat_items(s@, j0 as int, cnt as nat),
                    match nat_items(s@, cur as int, (cnt - m) as nat) {
                        None => nat_items(s@, j0 as int, cnt as nat) is None,
                        Some(q) => nat_items(s@, j0 as int, cnt as nat) == Some(
                            (acc@ + q.0, q.1),
                        ),
                    },
                decreases cnt - m,
            {
                let ghost rem = (cnt - m) as nat;
                match p_nat(s, cur) {
                    None => {
                        proof {
                            assert(nat_items(s@, cur as int, rem) is None);
                            assert(nat_items(s@, j0 as int, cnt as nat) is None);
                            assert(parse_row_s(s@, i as int) is None);
                        }
                        return None;
                    },
                    Some((v, nx)) => {
                        proof {
                            let tail = nat_items(s@, nx as int, (rem - 1) as nat);
                            if tail is Some {
                                let q = tail->Some_0;
                                assert(nat_items(s@, cur as int, rem) == Some(
                                    (seq![v] + q.0, q.1),
                                ));
                                assert(acc@ + (seq![v] + q.0) =~= acc@.push(v) + q.0);
                            } else {
                                assert(nat_items(s@, cur as int, rem) is None);
                            }
                        }
                        acc.push(v);
                        cur = nx;
                    },
                }
                m += 1;
            }
            proof {
                assert(nat_items(s@, cur as int, 0) == Some(
                    (Seq::<usize>::empty(), cur as int),
                ));
                assert(acc@ + Seq::<usize>::empty() =~= acc@);
            }
            Some((acc, cur))
        },
    }
}

/// Reads a matrix: its row count, followed by its rows.
fn p_matrix(s: &str, i: usize) -> (r: Option<(Vec<Vec<usize>>, usize)>)
    requires
        i <= s@.len(),
    ensures
        match r {
            Some(p) => parse_matrix_s(s@, i as int) == Some(
                (p.0@.map_values(|v: Vec<usize>| v@), p.1 as int),
            ) && p.1 <= s@.len(),
            None => parse_matrix_s(s@, i as int) is None,
        },
{
    match p_nat(s, i) {
        None => None,
        Some((cnt, j0)) => {
            let mut acc: Vec<Vec<usize>> = Vec::new();
            let mut cur = j0;
            let mut m: usize = 0;
            while m < cnt
                invariant
                    m <= cnt,
                    cur <= s@.len(),
                    parse_matrix_s(s@, i as int) == row_items(s@, j0 as int, cnt as nat),
                    match row_items(s@, cur as int, (cnt - m) as nat) {
                        None => row_items(s@, j0 as int, cnt as nat) is None,
                        Some(q) => row_items(s@, j0 as int, cnt as nat) == Some(
                            (acc@.map_values(|v: Vec<usize>| v@) + q.0, q.1),
                        ),
                    },
                decreases cnt - m,
            {
                let ghost rem = (cnt - m) as nat;
                let ghost av = acc@.map_values(|v: Vec<usize>| v@);
                match p_row(s, cur) {
                    None => {
                        proof {
                            assert(row_items(s@, cur as int, rem) is None);
                            assert(row_items(s@, j0 as int, cnt as nat) is None);
                            assert(parse_matrix_s(s@, i as int) is None);
                        }
                        return None;
                    },
                    Some((row, nx)) => {
                        let ghost rv = row@;
                        proof {
                            let tail = row_items(s@, nx as int, (rem - 1) as nat);
                            if tail is Some {
                                let q = tail->Some_0;
                                assert(row_items(s@, cur as int, rem) == Some(
                                    (seq![rv] + q.0, q.1),
                                ));
                                assert(av + (seq![rv] + q.0) =~= av.push(rv) + q.0);
                            } else {
                                assert(row_items(s@, cur as int, rem) is None);
                            }
                        }
                        acc.push(row);
                        cur = nx;
                        proof {
                            assert(acc@.map_values(|v: Vec<usize>| v@) =~= av.push(rv));
                        }
                    },
                }
                m += 1;
            }
            proof {
                assert(row_items(s@, cur as int, 0) == Some(
                    (Seq::<Seq<usize>>::empty(), cur as int),
                ));
                assert(acc@.map_values(|v: Vec<usize>| v@) + Seq::<Seq<usize>>::empty()
                    =~= acc@.map_values(|v: Vec<usize>| v@));
            }
            Some((acc, cur))
        },
    }
}

/// Reads a node: its identifier, its adjacency count and its pairs.
fn p_node(s: &str, i: usize) -> (r: Option<(Node, usize)>)
    requires
        i <= s@.len(),
    ensures
        match r {
            Some(p) => parse_node_s(s@, i as int) == Some((p.0@, p.1 as int)) && p.1
                <= s@.len(),
            None => parse_node_s(s@, i as int) is None,
        },
{
    match p_node_id(s, i) {
        None => None,
        Some((nid, j)) => {
            match p_nat(s, j) {
                None => None,
                Some((cnt, k0)) => {
                    let ghost nidv = nid@;
                    let mut acc: Vec<(NodeIdentifier, EdgeIdentifier)> = Vec::new();
                    let mut cur = k0;
                    let mut m: usize = 0;
                    while m < cnt
                        invariant
                            m <= cnt,
                            cur <= s@.len(),
                            match adj_items(s@, k0 as int, cnt as nat) {
                                None => parse_node_s(s@, i as int) is None,
                                Some(w) => parse_node_s(s@, i as int) == Some(
                                    (NodeV { identifier: nidv, edges: w.0 }, w.1),
                                ),
                            },
                            match adj_items(s@, cur as int, (cnt - m) as nat) {
                                None => adj_items(s@, k0 as int, cnt as nat) is None,
                                Some(q) => adj_items(s@, k0 as int, cnt as nat) == Some(
                                    (
                                        acc@.map_values(
                                            |p: (NodeIdentifier, EdgeIdentifier)|
                                                (p.0@, p.1@),
                                        ) + q.0,
                                        q.1,
                                    ),
                                ),
                            },
                        decreases cnt - m,
                    {
                        let ghost rem = (cnt - m) as nat;
                        let ghost av = acc@.map_values(
                            |p: (NodeIdentifier, EdgeIdentifier)| (p.0@, p.1@),
                        );
                        match p_node_id(s, cur) {
                            None => {
                                proof {
                                    assert(parse_adj_s(s@, cur as int) is None);
                                    assert(adj_items(s@, cur as int, rem) is None);
                                    assert(adj_items(s@, k0 as int, cnt as nat) is None);
                                }
                                return None;
                            },
                            Some((aid, mid)) => {
                                match p_edge_id(s, mid) {
                                    None => {
                                        proof {
                                            assert(parse_adj_s(s@, cur as int) is None);
                                            assert(adj_items(s@, cur as int, rem) is None);
                                            assert(adj_items(
                                                s@,
                                                k0 as int,
                                                cnt as nat,
                                            ) is None);
                                        }
                                        return None;
                                    },
                                    Some((eid, nx)) => {
                                        let ghost pv = (aid@, eid@);
                                        proof {
                                            assert(parse_adj_s(s@, cur as int) == Some(
                                                (pv, nx as int),
                                            ));
                                            let tail = adj_items(
                                                s@,
                                                nx as int,
                                                (rem - 1) as nat,
                                            );
                                            if tail is Some {
                                                let q = tail->Some_0;
                                                assert(adj_items(s@, cur as int, rem)
                                                    == Some((seq![pv] + q.0, q.1)));
                                                assert(av + (seq![pv] + q.0) =~= av.push(
                                                    pv,
                                                ) + q.0);
                                            } else {
                                                assert(adj_items(
                                                    s@,
                                                    cur as int,
                                                    rem,
                                                ) is None);
                                            }
                                        }
                                        acc.push((aid, eid));
                                        cur = nx;
                                        proof {
                                            assert(acc@.map_values(
                                                |p: (NodeIdentifier, EdgeIdentifier)|
                                                    (p.0@, p.1@),
                                            ) =~= av.push(pv));
                                        }
                                    },
                                }
                            },
                        }
                        m += 1;
                    }
                    proof {
                        assert(adj_items(s@, cur as int, 0) == Some(
                            (Seq::<(IdV, EdgeIdV)>::empty(), cur as int),
                        ));
                        assert(acc@.map_values(
                            |p: (NodeIdentifier, EdgeIdentifier)| (p.0@, p.1@),
                        ) + Seq::<(IdV, EdgeIdV)>::empty() =~= acc@.map_values(
                            |p: (NodeIdentifier, EdgeIdentifier)| (p.0@, p.1@),
                        ));
                    }
                    let node = Node { identifier: nid, edges: acc };
                    Some((node, cur))
                },
            }
        },
    }
}

/// Reads `cnt` nodes, one after the other.
fn p_node_items(s: &str, i: usize, cnt: usize) -> (r: Option<(Vec<Node>, usize)>)
    requires
        i <= s@.len(),
    ensures
        match r {
            Some(p) => node_items(s@, i as int, cnt as nat) == Some(
                (p.0@.map_values(|n: Node| n@), p.1 as int),
            ) && p.1 <= s@.len(),
            None => node_items(s@, i as int, cnt as nat) is None,
        },
{
    let mut acc: Vec<Node> = Vec::new();
    let mut cur = i;
    let mut m: usize = 0;
    while m < cnt
        invariant
            m <= cnt,
            cur <= s@.len(),
            match node_items(s@, cur as int, (cnt - m) as nat) {
                None => node_items(s@, i as int, cnt as nat) is None,
                Some(q) => node_items(s@, i as int, cnt as nat) == Some(
                    (acc@.map_values(|n: Node| n@) + q.0, q.1),
                ),
            },
        decreases cnt - m,
    {
        let ghost rem = (cnt - m) as nat;
        let ghost av = acc@.map_values(|n: Node| n@);
        match p_node(s, cur) {
            None => {
                proof {
                    assert(node_items(s@, cur as int, rem) is None);
                }
                return None;
            },
            Some((nd, nx)) => {
                let ghost nv = nd@;
                proof {
                    let tail = node_items(s@, nx as int, (rem - 1) as nat);
                    if tail is Some {
                        let q = tail->Some_0;
                        assert(node_items(s@, cur as int, rem) == Some(
                            (seq![nv] + q.0, q.1),
                        ));
                        assert(av + (seq![nv] + q.0) =~= av.push(nv) + q.0);
                    } else {
                        assert(node_items(s@, cur as int, rem) is None);
                    }
                }
                acc.push(nd);
                cur = nx;
                proof {
                    assert(acc@.map_values(|n: Node| n@) =~= av.push(nv));
                }
            },
        }
        m += 1;
    }
    proof {
        assert(node_items(s@, cur as int, 0) == Some((Seq::<NodeV>::empty(), cur as int)));
        assert(acc@.map_values(|n: Node| n@) + Seq::<NodeV>::empty() =~= acc@.map_values(
            |n: Node| n@,
        ));
    }
    Some((acc, cur))
}

/// Reads `cnt` edges, one after the other.
fn p_edge_items(s: &str, i: usize, cnt: usize) -> (r: Option<(Vec<Edge>, usize)>)
    requires
        i <= s@.len(),
    ensures
        match r {
            Some(p) => edge_items(s@, i as int, cnt as nat) == Some(
                (p.0@.map_values(|e: Edge| e@), p.1 as int),
            ) && p.1 <= s@.len(),
            None => edge_items(s@, i as int, cnt as nat) is None,
        },
{
    let mut acc: Vec<Edge> = Vec::new();
    let mut cur = i;
    let mut m: usize = 0;
    while m < cnt
        invariant
            m <= cnt,
            cur <= s@.len(),
            match edge_items(s@, cur as int, (cnt - m) as nat) {
                None => edge_items(s@, i as int, cnt as nat) is None,
                Some(q) => edge_items(s@, i as int, cnt as nat) == Some(
                    (acc@.map_values(|e: Edge| e@) + q.0, q.1),
                ),
            },
        decreases cnt - m,
    {
        let ghost rem = (cnt - m) as nat;
        let ghost av = acc@.map_values(|e: Edge| e@);
        match p_node_id(s, cur) {
            None => {
                proof {
                    assert(parse_edge_s(s@, cur as int) is None);
                    assert(edge_items(s@, cur as int, rem) is None);
                }
                return None;
            },
            Some((src, mid)) => {
                match p_node_id(s, mid) {
                    None => {
                        proof {
                            assert(parse_edge_s(s@, cur as int) is None);
                            assert(edge_items(s@, cur as int, rem) is None);
                        }
                        return None;
                    },
                    Some((tgt, nx)) => {
                        let e = Edge { source: src, target: tgt };
                        let ghost evw = e@;
                        proof {
                            assert(parse_edge_s(s@, cur as int) == Some((evw, nx as int)));
                            let tail = edge_items(s@, nx as int, (rem - 1) as nat);
                            if tail is Some {
                                let q = tail->Some_0;
                                assert(edge_items(s@, cur as int, rem) == Some(
                                    (seq![evw] + q.0, q.1),
                                ));
                                assert(av + (seq![evw] + q.0) =~= av.push(evw) + q.0);
                            } else {
                                assert(edge_items(s@, cur as int, rem) is None);
                            }
                        }
                        acc.push(e);
                        cur = nx;
                        proof {
                            assert(acc@.map_values(|e2: Edge| e2@) =~= av.push(evw));
                        }
                    },
                }
            },
        }
        m += 1;
    }
    proof {
        assert(edge_items(s@, cur as int, 0) == Some((Seq::<EdgeV>::empty(), cur as int)));
        assert(acc@.map_values(|e2: Edge| e2@) + Seq::<EdgeV>::empty() =~= acc@.map_values(
            |e2: Edge| e2@,
        ));
    }
    Some((acc, cur))
}

/// Whether every row of the decoded matrix has the row count as its
/// length.
fn check_square(rows: &Vec<Vec<usize>>) -> (b: bool)
    ensures
        b == (forall|q: int|
            0 <= q < rows@.len() ==> (#[trigger] rows@[q])@.len() == rows@.len()),
{
    let l = rows.len();
    let mut q: usize = 0;
    while q < l
        invariant
            q <= l,
            l == rows@.len(),
            forall|k: int| 0 <= k < q ==> (#[trigger] rows@[k])@.len() == rows@.len(),
        decreases l - q,
    {
        if rows[q].len() != l {
            return false;
        }
        q += 1;
    }
    true
}

/// Whether a square matrix of this dimension can be allocated.
fn check_fits(l: usize) -> (b: bool)
    ensures
        b == (l as int * l as int <= isize::MAX as int),
{
    match l.checked_mul(l) {
        Some(p) => p <= (isize::MAX as usize),
        None => false,
    }
}

/// Whether the decoded node table has pairwise distinct identifiers.
fn check_unique(nodes: &Vec<Node>) -> (b: bool)
    ensures
        b == unique_ids(nodes@.map_values(|n: Node| n@)),
{
    let ghost nv = nodes@.map_values(|n: Node| n@);
    let l = nodes.len();
    let mut a: usize = 0;
    while a < l
        invariant
            a <= l,
            l == nodes@.len(),
            nv == nodes@.map_values(|n: Node| n@),
            forall|x: int, y: int|
                0 <= x < y < l && x < a ==> nv[x].identifier != nv[y].identifier,
        decreases l - a,
    {
        let mut b: usize = a + 1;
        while b < l
            invariant
                a < b <= l || (a + 1 == b && b > l),
                a < l,
                l == nodes@.len(),
                nv == nodes@.map_values(|n: Node| n@),
                forall|x: int, y: int|
                    0 <= x < y < l && x < a ==> nv[x].identifier != nv[y].identifier,
                forall|y: int| a < y < b ==> nv[a as int].identifier != nv[y].identifier,
            decreases l - b,
        {
            if nodes[a].identifier.eq_id(&nodes[b].identifier) {
                proof {
                    assert(nv[a as int].identifier == nv[b as int].identifier);
                    assert(!unique_ids(nv));
                }
                return false;
            }
            b += 1;
        }
        a += 1;
    }
    true
}

/// Builds the adjacency matrix holding exactly the decoded rows.
fn build_matrix(rows: &Vec<Vec<usize>>) -> (m: AdjMatrix)
    requires
        forall|q: int| 0 <= q < rows@.len() ==> (#[trigger] rows@[q])@.len() == rows@.len(),
        rows@.len() * rows@.len() <= isize::MAX,
    ensures
        mat_view(m) == rows@.map_values(|v: Vec<usize>| v@),
        mat_width(m) == rows@.len(),
{
    let l = rows.len();
    proof {
        assert(l >= 1 ==> l <= l * l) by (nonlinear_arith);
    }
    let mut m = mat_zeros(l, l);
    let mut r: usize = 0;
    while r < l
        invariant
            r <= l,
            l == rows@.len(),
            forall|q: int| 0 <= q < l ==> (#[trigger] rows@[q])@.len() == l,
            mat_view(m).len() == l,
            mat_width(m) == l,
            forall|q: int| 0 <= q < l ==> (#[trigger] mat_view(m)[q]).len() == l,
            forall|x: int, y: int| #![trigger mat_view(m)[x][y]]
                0 <= x < r && 0 <= y < l ==> mat_view(m)[x][y] == rows@[x]@[y],
        decreases l - r,
    {
        let mut c: usize = 0;
        while c < l
            invariant
                c <= l,
                r < l,
                l == rows@.len(),
                forall|q: int| 0 <= q < l ==> (#[trigger] rows@[q])@.len() == l,
                mat_view(m).len() == l,
                mat_width(m) == l,
                forall|q: int| 0 <= q < l ==> (#[trigger] mat_view(m)[q]).len() == l,
                forall|x: int, y: int| #![trigger mat_view(m)[x][y]]
                    0 <= x < r && 0 <= y < l ==> mat_view(m)[x][y] == rows@[x]@[y],
                forall|y: int|
                    0 <= y < c ==> mat_view(m)[r as int][y] == rows@[r as int]@[y],
            decreases l - c,
        {
            let v = rows[r][c];
            mat_set(&mut m, r, c, v);
            c += 1;
        }
        r += 1;
    }
    proof {
        let rv = rows@.map_values(|v: Vec<usize>| v@);
        assert forall|a: int| 0 <= a < l implies mat_view(m)[a] == rv[a] by {
            assert(mat_view(m)[a] =~= rows@[a]@);
        }
        assert(mat_view(m) =~= rv);
    }
    m
}

/// Reconstructs a graph from its structured text form. Fails with
/// `DecodeFailure` exactly when the content is not the encoding of a
/// well-formed graph: malformed text, trailing content, a matrix
/// that is not square or too large to allocate, or duplicate node
/// identifiers.
pub fn load_graph(s: &str) -> (r: Result<Graph, GraphError>)
    ensures
        match r {
            Ok(g) => parse_graph_s(s@) == Some(g@) && g.wf(),
            Err(e) => e == GraphError::DecodeFailure && parse_graph_s(s@) is None,
        },
{
    let n = s.unicode_len();
    let i1 = match expect_tag(s, 0, "graph{") {
        None => {
            return Err(GraphError::DecodeFailure);
        },
        Some(x) => x,
    };
    let i2 = match expect_tag(s, i1, "matrix:") {
        None => {
            return Err(GraphError::DecodeFailure);
        },
        Some(x) => x,
    };
    let (rows, i3) = match p_matrix(s, i2) {
        None => {
            return Err(GraphError::DecodeFailure);
        },
        Some(x) => x,
    };
    let i4 = match expect_tag(s, i3, "nodes:") {
        None => {
            return Err(GraphError::DecodeFailure);
        },
        Some(x) => x,
    };
    let (nc, i4b) = match p_nat(s, i4) {
        None => {
            return Err(GraphError::DecodeFailure);
        },
        Some(x) => x,
    };
    let (nodes, i5) = match p_node_items(s, i4b, nc) {
        None => {
            return Err(GraphError::DecodeFailure);
        },
        Some(x) => x,
    };
    let i6 = match expect_tag(s, i5, "edges:") {
        None => {
            return Err(GraphError::DecodeFailure);
        },
        Some(x) => x,
    };
    let (ec, i6b) = match p_nat(s, i6) {
        None => {
            return Err(GraphError::DecodeFailure);
        },
        Some(x) => x,
    };
    let (edges, i7) = match p_edge_items(s, i6b, ec) {
        None => {
            return Err(GraphError::DecodeFailure);
        },
        Some(x) => x,
    };
    let i8 = match expect_tag(s, i7, "}") {
        None => {
            return Err(GraphError::DecodeFailure);
        },
        Some(x) => x,
    };
    if i8 != n {
        return Err(GraphError::DecodeFailure);
    }
    let sq = check_square(&rows);
    let fits = check_fits(rows.len());
    proof {
        let rv = rows@.map_values(|v: Vec<usize>| v@);
        assert(rv.len() == rows@.len());
        if sq && fits {
            assert forall|q: int| 0 <= q < rv.len() implies (#[trigger] rv[q]).len()
                == rv.len() by {
                assert(rows@[q]@.len() == rows@.len());
            }
            assert(square_fits(rv));
        }
        if square_fits(rv) {
            assert forall|q: int|
                0 <= q < rows@.len() implies (#[trigger] rows@[q])@.len()
                == rows@.len() by {
                assert(rv[q].len() == rv.len());
            }
            assert(sq);
            assert(fits);
        }
    }
    if !sq || !fits {
        return Err(GraphError::DecodeFailure);
    }
    let uq = check_unique(&nodes);
    if !uq {
        return Err(GraphError::DecodeFailure);
    }
    let matrix = build_matrix(&rows);
    let g = Graph { adjacency_matrix: matrix, nodes, edges };
    proof {
        assert(g@.matrix == rows@.map_values(|v: Vec<usize>| v@));
        assert(g.wf());
    }
    Ok(g)
}

// ---------------------------------------------------------------
// The round trip: decoding an encoding gives the graph back
// ---------------------------------------------------------------

/// Every count and every text length of the graph fits the machine
/// word, and the matrix is small enough to allocate; this holds of
/// every graph that exists in memory.
pub open spec fn bounded_id(id: IdV) -> bool {
    match id {
        IdV::Int(_) => true,
        IdV::Text(t) => t.len() <= usize::MAX,
    }
}

/// See `bounded_id`.
pub open spec fn bounded_eid(id: EdgeIdV) -> bool {
    match id {
        EdgeIdV::Int(_) => true,
        EdgeIdV::Test(t) => t.len() <= usize::MAX,
    }
}

/// See `bounded_id`.
pub open spec fn bounded_node(nd: NodeV) -> bool {
    &&& bounded_id(nd.identifier)
    &&& nd.edges.len() <= usize::MAX
    &&& forall|k: int|
        0 <= k < nd.edges.len() ==> bounded_id(#[trigger] nd.edges[k].0) && bounded_eid(
            nd.edges[k].1,
        )
}

/// See `bounded_id`.
pub open spec fn bounded_graph(g: GraphV) -> bool {
    &&& g.matrix.len() <= usize::MAX
    &&& forall|r: int| 0 <= r < g.matrix.len() ==> (#[trigger] g.matrix[r]).len()
        <= usize::MAX
    &&& g.matrix.len() * g.matrix.len() <= isize::MAX
    &&& g.nodes.len() <= usize::MAX
    &&& forall|k: int| 0 <= k < g.nodes.len() ==> bounded_node(#[trigger] g.nodes[k])
    &&& g.edges.len() <= usize::MAX
    &&& forall|k: int|
        0 <= k < g.edges.len() ==> bounded_id((#[trigger] g.edges[k]).source) && bounded_id(
            g.edges[k].target,
        )
}

proof fn lemma_digit_char(d: nat)
    requires
        d < 10,
    ensures
        is_digit(digit_char(d)),
        digit_val(digit_char(d)) == d,
        digit_char(d) == '0' <==> d == 0,
        digit_char(d) != ':',
{
    if d == 0 {
    } else if d == 1 {
    } else if d == 2 {
    } else if d == 3 {
    } else if d == 4 {
    } else if d == 5 {
    } else if d == 6 {
    } else if d == 7 {
    } else if d == 8 {
    } else {
        assert(d == 9);
    }
}

proof fn lemma_dec_digits_facts(n: nat)
    ensures
        dec_digits(n).len() >= 1,
        forall|k: int| 0 <= k < dec_digits(n).len() ==> is_digit(#[trigger] dec_digits(n)[k]),
        forall|k: int| 0 <= k < dec_digits(n).len() ==> dec_digits(n)[k] != ':',
        n >= 1 ==> dec_digits(n)[0] != '0',
        n == 0 ==> dec_digits(n).len() == 1,
        val_of(dec_digits(n)) == n,
    decreases n,
{
    if n < 10 {
        lemma_digit_char(n);
        assert(dec_digits(n) == seq![digit_char(n)]);
        assert(dec_digits(n).drop_last() =~= Seq::<char>::empty());
        assert(val_of(dec_digits(n)) == val_of(Seq::<char>::empty()) * 10 + digit_val(
            digit_char(n),
        ));
        assert(val_of(Seq::<char>::empty()) == 0);
    } else {
        lemma_dec_digits_facts(n / 10);
        lemma_digit_char(n % 10);
        let dd = dec_digits(n / 10);
        assert(dec_digits(n) == dd.push(digit_char(n % 10)));
        assert(dec_digits(n).drop_last() =~= dd);
        assert(val_of(dec_digits(n)) == val_of(dd) * 10 + (n % 10));
        assert(n / 10 >= 1) by (nonlinear_arith)
            requires n >= 10;
        assert(n / 10 * 10 + n % 10 == n);
        assert(dec_digits(n)[0] == dd[0]);
    }
}

/// Decoding a number at the start of its encoding yields the number
/// and stops right after the `:`.
proof fn lemma_parse_enc_nat(s: Seq<char>, i: int, v: usize)
    requires
        0 <= i,
        i + enc_nat(v as nat).len() <= s.len(),
        s.subrange(i, i + enc_nat(v as nat).len()) == enc_nat(v as nat),
    ensures
        parse_nat_s(s, i) == Some((v, i + enc_nat(v as nat).len())),
{
    let dd = dec_digits(v as nat);
    let ll = dd.len() as int;
    let el = ll + 1;
    lemma_dec_digits_facts(v as nat);
    assert(enc_nat(v as nat) == dd.push(':'));
    assert forall|k: int| i <= k < i + ll implies is_digit(#[trigger] s[k]) by {
        assert(s.subrange(i, i + el)[k - i] == enc_nat(v as nat)[k - i]);
        assert(dd.push(':')[k - i] == dd[k - i]);
    }
    assert(s.subrange(i, i + el)[ll] == enc_nat(v as nat)[ll]);
    assert(s[i + ll] == ':');
    assert(!is_digit(':'));
    lemma_digit_run(s, i, i + ll);
    let ds = s.subrange(i, i + ll);
    assert forall|k: int| 0 <= k < ll implies ds[k] == dd[k] by {
        assert(s.subrange(i, i + el)[k] == enc_nat(v as nat)[k]);
    }
    assert(ds =~= dd);
    if v == 0 {
        assert(ll == 1);
    } else {
        assert(ds[0] != '0');
    }
    assert(val_of(ds) == v as nat);
    assert(i + ll < s.len());
    assert(parse_nat_s(s, i) == Some((v, i + ll + 1)));
}

/// Decoding text at the start of its encoding yields the text.
proof fn lemma_parse_enc_text(s: Seq<char>, i: int, t: Seq<char>)
    requires
        0 <= i,
        t.len() <= usize::MAX,
        i + enc_text(t).len() <= s.len(),
        s.subrange(i, i + enc_text(t).len()) == enc_text(t),
    ensures
        parse_text_s(s, i) == Some((t, i + enc_text(t).len())),
{
    let v = t.len() as usize;
    let h = enc_nat(t.len());
    assert(enc_text(t) == h + t);
    lemma_region_split(s, i, h, t);
    lemma_parse_enc_nat(s, i, v);
    let j = i + h.len();
    assert(j + v <= s.len());
}

/// Decoding a node identifier at the start of its encoding yields
/// the identifier.
proof fn lemma_parse_enc_node_id(s: Seq<char>, i: int, id: IdV)
    requires
        0 <= i,
        bounded_id(id),
        i + enc_node_id(id).len() <= s.len(),
        s.subrange(i, i + enc_node_id(id).len()) == enc_node_id(id),
    ensures
        parse_node_id_s(s, i) == Some((id, i + enc_node_id(id).len())),
{
    match id {
        IdV::Int(v) => {
            let tag = seq!['I'];
            assert(enc_node_id(id) == tag + enc_nat(v as nat));
            lemma_region_split(s, i, tag, enc_nat(v as nat));
            assert(s.subrange(i, i + 1)[0] == 'I');
            assert(s[i] == 'I');
            lemma_parse_enc_nat(s, i + 1, v);
        },
        IdV::Text(t) => {
            let tag = seq!['T'];
            assert(enc_node_id(id) == tag + enc_text(t));
            lemma_region_split(s, i, tag, enc_text(t));
            assert(s.subrange(i, i + 1)[0] == 'T');
            assert(s[i] == 'T');
            lemma_parse_enc_text(s, i + 1, t);
        },
    }
}

/// Decoding an edge identifier at the start of its encoding yields
/// the identifier.
proof fn lemma_parse_enc_edge_id(s: Seq<char>, i: int, id: EdgeIdV)
    requires
        0 <= i,
        bounded_eid(id),
        i + enc_edge_id(id).len() <= s.len(),
        s.subrange(i, i + enc_edge_id(id).len()) == enc_edge_id(id),
    ensures
        parse_edge_id_s(s, i) == Some((id, i + enc_edge_id(id).len())),
{
    match id {
        EdgeIdV::Int(v) => {
            let tag = seq!['E'];
            assert(enc_edge_id(id) == tag + enc_nat(v as nat));
            lemma_region_split(s, i, tag, enc_nat(v as nat));
            assert(s.subrange(i, i + 1)[0] == 'E');
            assert(s[i] == 'E');
            lemma_parse_enc_nat(s, i + 1, v);
        },
        EdgeIdV::Test(t) => {
            let tag = seq!['S'];
            assert(enc_edge_id(id) == tag + enc_text(t));
            lemma_region_split(s, i, tag, enc_text(t));
            assert(s.subrange(i, i + 1)[0] == 'S');
            assert(s[i] == 'S');
            lemma_parse_enc_text(s, i + 1, t);
        },
    }
}

/// A region that holds `x + y` splits into a region for `x` and a
/// region for `y`.
proof fn lemma_region_split(s: Seq<char>, i: int, x: Seq<char>, y: Seq<char>)
    requires
        0 <= i,
        i + x.len() + y.len() <= s.len(),
        s.subrange(i, i + x.len() + y.len()) == x + y,
    ensures
        s.subrange(i, i + x.len()) == x,
        s.subrange(i + x.len(), i + x.len() + y.len()) == y,
{
    let xl = x.len() as int;
    let yl = y.len() as int;
    assert forall|k: int| 0 <= k < xl implies s.subrange(i, i + xl)[k] == x[k] by {
        assert(s.subrange(i, i + xl + yl)[k] == (x + y)[k]);
        assert(s[i + k] == x[k]);
    }
    assert(s.subrange(i, i + xl) =~= x);
    assert forall|k: int|
        0 <= k < yl implies s.subrange(i + xl, i + xl + yl)[k] == y[k] by {
        assert(s.subrange(i, i + xl + yl)[xl + k] == (x + y)[xl + k]);
        assert(s[i + xl + k] == y[k]);
    }
    assert(s.subrange(i + xl, i + xl + yl) =~= y);
}

/// Decoding `r.len()` numbers at the start of their encoding yields
/// the row entries.
proof fn lemma_nat_items_enc(s: Seq<char>, i: int, r: Seq<usize>)
    requires
        0 <= i,
        i + enc_entries(r).len() <= s.len(),
        s.subrange(i, i + enc_entries(r).len()) == enc_entries(r),
    ensures
        nat_items(s, i, r.len()) == Some((r, i + enc_entries(r).len())),
    decreases r.len(),
{
    if r.len() == 0 {
        assert(r =~= Seq::<usize>::empty());
    } else {
        let h = enc_nat(r[0] as nat);
        let rest = enc_entries(r.drop_first());
        assert(enc_entries(r) == h + rest);
        lemma_region_split(s, i, h, rest);
        lemma_parse_enc_nat(s, i, r[0]);
        let j = i + h.len();
        lemma_nat_items_enc(s, j, r.drop_first());
        assert(seq![r[0]] + r.drop_first() =~= r);
    }
}

/// Decoding a row at the start of its encoding yields the row.
proof fn lemma_parse_enc_row(s: Seq<char>, i: int, r: Seq<usize>)
    requires
        0 <= i,
        r.len() <= usize::MAX,
        i + enc_row(r).len() <= s.len(),
        s.subrange(i, i + enc_row(r).len()) == enc_row(r),
    ensures
        parse_row_s(s, i) == Some((r, i + enc_row(r).len())),
{
    let h = enc_nat(r.len());
    let rest = enc_entries(r);
    assert(enc_row(r) == h + rest);
    lemma_region_split(s, i, h, rest);
    lemma_parse_enc_nat(s, i, r.len() as usize);
    lemma_nat_items_enc(s, i + h.len(), r);
}

/// Decoding `m.len()` rows at the start of their encoding yields the
/// rows.
proof fn lemma_row_items_enc(s: Seq<char>, i: int, m: Seq<Seq<usize>>)
    requires
        0 <= i,
        forall|q: int| 0 <= q < m.len() ==> (#[trigger] m[q]).len() <= usize::MAX,
        i + enc_rows(m).len() <= s.len(),
        s.subrange(i, i + enc_rows(m).len()) == enc_rows(m),
    ensures
        row_items(s, i, m.len()) == Some((m, i + enc_rows(m).len())),
    decreases m.len(),
{
    if m.len() == 0 {
        assert(m =~= Seq::<Seq<usize>>::empty());
    } else {
        let h = enc_row(m[0]);
        let rest = enc_rows(m.drop_first());
        assert(enc_rows(m) == h + rest);
        lemma_region_split(s, i, h, rest);
        lemma_parse_enc_row(s, i, m[0]);
        lemma_row_items_enc(s, i + h.len(), m.drop_first());
        assert(seq![m[0]] + m.drop_first() =~= m);
    }
}

/// Decoding an adjacency pair at the start of its encoding yields
/// the pair.
proof fn lemma_parse_enc_adj(s: Seq<char>, i: int, p: (IdV, EdgeIdV))
    requires
        0 <= i,
        bounded_id(p.0),
        bounded_eid(p.1),
        i + enc_adj(p).len() <= s.len(),
        s.subrange(i, i + enc_adj(p).len()) == enc_adj(p),
    ensures
        parse_adj_s(s, i) == Some((p, i + enc_adj(p).len())),
{
    let h = enc_node_id(p.0);
    let rest = enc_edge_id(p.1);
    assert(enc_adj(p) == h + rest);
    lemma_region_split(s, i, h, rest);
    lemma_parse_enc_node_id(s, i, p.0);
    lemma_parse_enc_edge_id(s, i + h.len(), p.1);
}

/// Decoding `ps.len()` adjacency pairs at the start of their
/// encoding yields the pairs.
proof fn lemma_adj_items_enc(s: Seq<char>, i: int, ps: Seq<(IdV, EdgeIdV)>)
    requires
        0 <= i,
        forall|q: int|
            0 <= q < ps.len() ==> bounded_id(#[trigger] ps[q].0) && bounded_eid(ps[q].1),
        i + enc_adjs(ps).len() <= s.len(),
        s.subrange(i, i + enc_adjs(ps).len()) == enc_adjs(ps),
    ensures
        adj_items(s, i, ps.len()) == Some((ps, i + enc_adjs(ps).len())),
    decreases ps.len(),
{
    if ps.len() == 0 {
        assert(ps =~= Seq::<(IdV, EdgeIdV)>::empty());
    } else {
        let h = enc_adj(ps[0]);
        let rest = enc_adjs(ps.drop_first());
        assert(enc_adjs(ps) == h + rest);
        lemma_region_split(s, i, h, rest);
        lemma_parse_enc_adj(s, i, ps[0]);
        lemma_adj_items_enc(s, i + h.len(), ps.drop_first());
        assert(seq![ps[0]] + ps.drop_first() =~= ps);
    }
}

/// Decoding a node at the start of its encoding yields the node.
proof fn lemma_parse_enc_node(s: Seq<char>, i: int, nd: NodeV)
    requires
        0 <= i,
        bounded_node(nd),
        i + enc_node(nd).len() <= s.len(),
        s.subrange(i, i + enc_node(nd).len()) == enc_node(nd),
    ensures
        parse_node_s(s, i) == Some((nd, i + enc_node(nd).len())),
{
    let h = enc_node_id(nd.identifier);
    let c = enc_nat(nd.edges.len());
    let rest = enc_adjs(nd.edges);
    assert(enc_node(nd) == h + (c + rest)) by {
        assert(h + c + rest =~= h + (c + rest));
    }
    lemma_region_split(s, i, h, c + rest);
    lemma_parse_enc_node_id(s, i, nd.identifier);
    lemma_region_split(s, i + h.len(), c, rest);
    lemma_parse_enc_nat(s, i + h.len(), nd.edges.len() as usize);
    lemma_adj_items_enc(s, i + h.len() + c.len(), nd.edges);
    assert(NodeV { identifier: nd.identifier, edges: nd.edges } =~= nd);
}

/// Decoding `ns.len()` nodes at the start of their encoding yields
/// the nodes.
proof fn lemma_node_items_enc(s: Seq<char>, i: int, ns: Seq<NodeV>)
    requires
        0 <= i,
        forall|q: int| 0 <= q < ns.len() ==> bounded_node(#[trigger] ns[q]),
        i + enc_nodes(ns).len() <= s.len(),
        s.subrange(i, i + enc_nodes(ns).len()) == enc_nodes(ns),
    ensures
        node_items(s, i, ns.len()) == Some((ns, i + enc_nodes(ns).len())),
    decreases ns.len(),
{
    if ns.len() == 0 {
        assert(ns =~= Seq::<NodeV>::empty());
    } else {
        let h = enc_node(ns[0]);
        let rest = enc_nodes(ns.drop_first());
        assert(enc_nodes(ns) == h + rest);
        lemma_region_split(s, i, h, rest);
        lemma_parse_enc_node(s, i, ns[0]);
        lemma_node_items_enc(s, i + h.len(), ns.drop_first());
        assert(seq![ns[0]] + ns.drop_first() =~= ns);
    }
}

/// Decoding an edge at the start of its encoding yields the edge.
proof fn lemma_parse_enc_edge(s: Seq<char>, i: int, e: EdgeV)
    requires
        0 <= i,
        bounded_id(e.source),
        bounded_id(e.target),
        i + enc_edge(e).len() <= s.len(),
        s.subrange(i, i + enc_edge(e).len()) == enc_edge(e),
    ensures
        parse_edge_s(s, i) == Some((e, i + enc_edge(e).len())),
{
    let h = enc_node_id(e.source);
    let rest = enc_node_id(e.target);
    assert(enc_edge(e) == h + rest);
    lemma_region_split(s, i, h, rest);
    lemma_parse_enc_node_id(s, i, e.source);
    lemma_parse_enc_node_id(s, i + h.len(), e.target);
    assert(EdgeV { source: e.source, target: e.target } == e);
}

/// Decoding `es.len()` edges at the start of their encoding yields
/// the edges.
proof fn lemma_edge_items_enc(s: Seq<char>, i: int, es: Seq<EdgeV>)
    requires
        0 <= i,
        forall|q: int|
            0 <= q < es.len() ==> bounded_id((#[trigger] es[q]).source) && bounded_id(
                es[q].target,
            ),
        i + enc_edges(es).len() <= s.len(),
        s.subrange(i, i + enc_edges(es).len()) == enc_edges(es),
    ensures
        edge_items(s, i, es.len()) == Some((es, i + enc_edges(es).len())),
    decreases es.len(),
{
    if es.len() == 0 {
        assert(es =~= Seq::<EdgeV>::empty());
    } else {
        let h = enc_edge(es[0]);
        let rest = enc_edges(es.drop_first());
        assert(enc_edges(es) == h + rest);
        lemma_region_split(s, i, h, rest);
        lemma_parse_enc_edge(s, i, es[0]);
        lemma_edge_items_enc(s, i + h.len(), es.drop_first());
        assert(seq![es[0]] + es.drop_first() =~= es);
    }
}

/// The round trip: decoding the encoding of a well-formed,
/// machine-representable graph yields exactly that graph. Together
/// with the contracts of `save_to_buffer` and `load_graph`, loading
/// what was saved reproduces the matrix contents, the node table and
/// the edge list.
#[verifier::rlimit(100)]
pub proof fn lemma_round_trip(gv: GraphV)
    requires
        gv.wf(),
        bounded_graph(gv),
    ensures
        parse_graph_s(enc_graph(gv)) == Some(gv),
{
    let s = enc_graph(gv);
    let t1 = "graph{"@;
    let t2 = "matrix:"@;
    let m1 = enc_nat(gv.matrix.len());
    let m2 = enc_rows(gv.matrix);
    let t3 = "nodes:"@;
    let n1 = enc_nat(gv.nodes.len());
    let n2 = enc_nodes(gv.nodes);
    let t4 = "edges:"@;
    let e1 = enc_nat(gv.edges.len());
    let e2 = enc_edges(gv.edges);
    let t5 = "}"@;
    let r9 = e2 + t5;
    let r8 = e1 + r9;
    let r7 = t4 + r8;
    let r6 = n2 + r7;
    let r5 = n1 + r6;
    let r4 = t3 + r5;
    let r3 = m2 + r4;
    let r2 = m1 + r3;
    let r1 = t2 + r2;
    assert(s =~= t1 + r1);
    assert(s.subrange(0, s.len() as int) =~= s);
    let o0: int = 0;
    lemma_region_split(s, o0, t1, r1);
    let o1 = o0 + t1.len();
    lemma_region_split(s, o1, t2, r2);
    let o2 = o1 + t2.len();
    lemma_region_split(s, o2, m1, r3);
    let o3 = o2 + m1.len();
    lemma_region_split(s, o3, m2, r4);
    let o4 = o3 + m2.len();
    lemma_region_split(s, o4, t3, r5);
    let o5 = o4 + t3.len();
    lemma_region_split(s, o5, n1, r6);
    let o6 = o5 + n1.len();
    lemma_region_split(s, o6, n2, r7);
    let o7 = o6 + n2.len();
    lemma_region_split(s, o7, t4, r8);
    let o8 = o7 + t4.len();
    lemma_region_split(s, o8, e1, r9);
    let o9 = o8 + e1.len();
    lemma_region_split(s, o9, e2, t5);
    let o10 = o9 + e2.len();
    // the tags
    assert(expect_s(s, o0, t1) == Some(o1));
    assert(expect_s(s, o1, t2) == Some(o2));
    assert(expect_s(s, o4, t3) == Some(o5));
    assert(expect_s(s, o7, t4) == Some(o8));
    assert(expect_s(s, o10, t5) == Some(o10 + t5.len()));
    // the matrix
    lemma_parse_enc_nat(s, o2, gv.matrix.len() as usize);
    lemma_row_items_enc(s, o3, gv.matrix);
    // the node table
    lemma_parse_enc_nat(s, o5, gv.nodes.len() as usize);
    lemma_node_items_enc(s, o6, gv.nodes);
    // the edge list
    lemma_parse_enc_nat(s, o8, gv.edges.len() as usize);
    lemma_edge_items_enc(s, o9, gv.edges);
    // the closing checks
    assert(o10 + t5.len() == s.len());
    assert(square_fits(gv.matrix));
    assert(parse_graph_s(s) == Some(
        GraphV {
            matrix: gv.matrix,
            width: gv.matrix.len() as nat,
            nodes: gv.nodes,
            edges: gv.edges,
        },
    ));
    assert(GraphV {
        matrix: gv.matrix,
        width: gv.matrix.len() as nat,
        nodes: gv.nodes,
        edges: gv.edges,
    } =~= gv);
}

} // verus!
