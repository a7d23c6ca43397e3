//! Rendering the tree as a graph description.
//!
//! The tree is walked depth-first, read-only, and handed to petgraph node
//! by node: children in order, each labeled with its token, and nodes at
//! the configured depth labeled with token and count.  The DOT text for the
//! finished graph comes from petgraph as well.

use vstd::prelude::*;

use crate::trie::NGramTrie;
use crate::trie::TrieNode;
use petgraph::Directed;
use petgraph::dot::Config;
use petgraph::dot::Dot;
use petgraph::graph::Graph;
use petgraph::graph::NodeIndex;

verus! {

broadcast use vstd::string::to_string_from_display_ensures_for_str;

#[verifier::external_type_specification]
#[verifier::external_body]
#[verifier::reject_recursive_types(N)]
#[verifier::reject_recursive_types(E)]
#[verifier::reject_recursive_types(Ty)]
#[verifier::reject_recursive_types(Ix)]
pub struct ExGraph<N, E, Ty, Ix>(Graph<N, E, Ty, Ix>);

#[verifier::external_type_specification]
#[verifier::external_body]
pub struct ExDirected(Directed);

/// The labels of the graph's nodes, in order of creation (the node with
/// index `i` carries the label at position `i`).
pub uninterp spec fn g_nodes(g: Graph<String, String, Directed, usize>) -> Seq<Seq<char>>;

/// The graph's edges, in order of creation, each as source index, target
/// index and label.
pub uninterp spec fn g_edges(g: Graph<String, String, Directed, usize>) -> Seq<
    (int, int, Seq<char>),
>;

/// The DOT text petgraph renders for a graph with the given nodes and
/// edges; it depends on nothing else.
pub uninterp spec fn dot_text(nodes: Seq<Seq<char>>, edges: Seq<(int, int, Seq<char>)>) -> Seq<
    char,
>;

/// Relies on petgraph's `Graph::with_capacity`: a graph with no nodes and
/// no edges.
#[verifier::external_body]
fn graph_new() -> (g: Graph<String, String, Directed, usize>)
    ensures
        g_nodes(g) == Seq::<Seq<char>>::empty(),
        g_edges(g) == Seq::<(int, int, Seq<char>)>::empty(),
{
    Graph::with_capacity(0, 0)
}

/// Relies on petgraph's `Graph::add_node`: appends one node and returns its
/// index, the node count so far; with a `usize` index there is no index
/// limit to run into.
#[verifier::external_body]
fn graph_add_node(g: &mut Graph<String, String, Directed, usize>, label: String) -> (ix: usize)
    ensures
        g_nodes(*final(g)) == g_nodes(*old(g)).push(label@),
        g_edges(*final(g)) == g_edges(*old(g)),
        ix == g_nodes(*old(g)).len(),
{
    g.add_node(label).index()
}

/// Relies on petgraph's `Graph::add_edge`: appends one edge from `a` to
/// `b`.  It panics when an endpoint is absent, which the precondition rules
/// out; with a `usize` index there is no edge limit to run into.
#[verifier::external_body]
fn graph_add_edge(g: &mut Graph<String, String, Directed, usize>, a: usize, b: usize, label: String)
    requires
        a < g_nodes(*old(g)).len(),
        b < g_nodes(*old(g)).len(),
    ensures
        g_nodes(*final(g)) == g_nodes(*old(g)),
        g_edges(*final(g)) == g_edges(*old(g)).push((a as int, b as int, label@)),
{
    g.add_edge(NodeIndex::new(a), NodeIndex::new(b), label);
}

/// Relies on petgraph's `Dot` with `EdgeNoLabel`: the text is computed from
/// the graph's nodes and edges alone, in index order.
#[verifier::external_body]
fn graph_to_dot(g: &Graph<String, String, Directed, usize>) -> (s: String)
    ensures
        s@ == dot_text(g_nodes(*g), g_edges(*g)),
{
    format!("{:?}", Dot::with_config(g, &[Config::EdgeNoLabel]))
}

/// The character for one decimal digit.
pub open spec fn digit_char(d: nat) -> char {
    ((48 + d) as u8) as char
}

/// The decimal digits of `n`, most significant first.
pub open spec fn decimal_digits(n: nat) -> Seq<char>
    decreases n,
{
    if n < 10 {
        seq![digit_char(n)]
    } else {
        decimal_digits(n / 10).push(digit_char(n % 10))
    }
}

/// The usual decimal rendering of an integer: a minus sign for negative
/// values, then the digits without leading zeros.
pub open spec fn spec_decimal(i: int) -> Seq<char> {
    if i < 0 {
        seq!['-'] + decimal_digits((-i) as nat)
    } else {
        decimal_digits(i as nat)
    }
}

/// Relies on std's `String::push`: appends the given character.
pub assume_specification[ String::push ](s: &mut String, ch: char)
    ensures
        final(s)@ == old(s)@.push(ch),
;

/// Append the decimal digits of `n` to `s`, most significant first.
fn push_decimal_digits(n: u64, s: &mut String)
    ensures
        final(s)@ == old(s)@ + decimal_digits(n as nat),
    decreases n,
{
    if n < 10 {
        let ch: char = (48u8 + (n as u8)) as char;
        s.push(ch);
        proof {
            assert(s@ =~= old(s)@ + seq![digit_char(n as nat)]);
        }
    } else {
        push_decimal_digits(n / 10, s);
        let ch: char = (48u8 + ((n % 10) as u8)) as char;
        s.push(ch);
        proof {
            assert(s@ =~= old(s)@ + decimal_digits(n as nat));
        }
    }
}

/// The decimal rendering of a token, sign included.
fn format_token(tok: i32) -> (s: String)
    ensures
        s@ == spec_decimal(tok as int),
{
    let mut s = String::new();
    if tok < 0 {
        s.push('-');
        let magnitude: u64 = (-(tok as i64)) as u64;
        push_decimal_digits(magnitude, &mut s);
        proof {
            assert(s@ =~= seq!['-'] + decimal_digits((-(tok as int)) as nat));
        }
    } else {
        push_decimal_digits(tok as u64, &mut s);
        proof {
            assert(s@ =~= decimal_digits(tok as nat));
        }
    }
    s
}

/// The decimal rendering of a count.
fn format_count(cnt: u64) -> (s: String)
    ensures
        s@ == spec_decimal(cnt as int),
{
    let mut s = String::new();
    push_decimal_digits(cnt, &mut s);
    proof {
        assert(s@ =~= decimal_digits(cnt as nat));
    }
    s
}

/// The label a child node gets: token and count at the deepest level
/// (`rem == 1`), the bare token above it.
pub open spec fn child_label(tok: i32, cnt: u64, rem: nat) -> Seq<char> {
    if rem == 1 {
        spec_decimal(tok as int) + seq![' ', '('] + spec_decimal(cnt as int) + seq![')']
    } else {
        spec_decimal(tok as int)
    }
}

/// The exec counterpart of `child_label`.
fn make_child_label(tok: i32, cnt: u64, rem: usize) -> (s: String)
    requires
        rem >= 1,
    ensures
        s@ == child_label(tok, cnt, rem as nat),
{
    let mut s = format_token(tok);
    if rem == 1 {
        let c = format_count(cnt);
        s.append(" (");
        s.append(c.as_str());
        s.append(")");
        proof {
            reveal_strlit(" (");
            reveal_strlit(")");
            assert(" ("@ =~= seq![' ', '(']);
            assert(")"@ =~= seq![')']);
            assert(s@ =~= child_label(tok, cnt, rem as nat));
        }
    }
    s
}

/// The nodes and edges a depth-first walk appends to the graph, starting at
/// entry `j` of the child list `cs`, whose parent sits at index `parent`,
/// when the next created node gets index `start` and `rem` levels remain.
/// Each child contributes its label, an edge from its parent, and (while
/// levels remain) its own children in turn.
pub open spec fn dfs_from(
    cs: Seq<(i32, Box<TrieNode>)>,
    j: int,
    parent: int,
    start: int,
    rem: nat,
) -> (Seq<Seq<char>>, Seq<(int, int, Seq<char>)>)
    decreases rem, cs.len() - j,
{
    if j < 0 || j >= cs.len() || rem == 0 {
        (Seq::<Seq<char>>::empty(), Seq::<(int, int, Seq<char>)>::empty())
    } else {
        let lab = child_label(cs[j].0, cs[j].1.count, rem);
        let sub = dfs_from(cs[j].1.children@, 0, start, start + 1, (rem - 1) as nat);
        let rest = dfs_from(cs, j + 1, parent, start + 1 + sub.0.len(), rem);
        (
            seq![lab] + sub.0 + rest.0,
            seq![(parent, start, Seq::<char>::empty())] + sub.1 + rest.1,
        )
    }
}

/// The full graph description of a trie: a root node labeled `root`, then
/// the depth-first walk of the tree below it.
pub open spec fn trie_graph(t: NGramTrie) -> (Seq<Seq<char>>, Seq<(int, int, Seq<char>)>) {
    let dfs = dfs_from(t.spec_root().children@, 0, 0, 1, t.spec_len());
    (seq!["root"@] + dfs.0, dfs.1)
}

/// Append the children of one node (from entry `j` on) to the graph, depth
/// first, exactly as `dfs_from` describes.
fn add_children_to_graph(
    cs: &Vec<(i32, Box<TrieNode>)>,
    j: usize,
    graph: &mut Graph<String, String, Directed, usize>,
    parent: usize,
    rem: usize,
)
    requires
        j <= cs@.len(),
        parent < g_nodes(*old(graph)).len(),
    ensures
        g_nodes(*final(graph)) == g_nodes(*old(graph)) + dfs_from(
            cs@,
            j as int,
            parent as int,
            g_nodes(*old(graph)).len() as int,
            rem as nat,
        ).0,
        g_edges(*final(graph)) == g_edges(*old(graph)) + dfs_from(
            cs@,
            j as int,
            parent as int,
            g_nodes(*old(graph)).len() as int,
            rem as nat,
        ).1,
    decreases rem, cs@.len() - j,
{
    if rem == 0 || j == cs.len() {
        proof {
            assert(g_nodes(*graph) + Seq::<Seq<char>>::empty() =~= g_nodes(*graph));
            assert(g_edges(*graph) + Seq::<(int, int, Seq<char>)>::empty() =~= g_edges(*graph));
        }
        return;
    }
    let ghost n0 = g_nodes(*old(graph));
    let ghost e0 = g_edges(*old(graph));
    let ghost lab = child_label(cs@[j as int].0, cs@[j as int].1.count, rem as nat);
    let ghost sub = dfs_from(cs@[j as int].1.children@, 0, n0.len() as int, n0.len() as int + 1, (
    rem - 1) as nat);
    let ghost rest = dfs_from(cs@, j as int + 1, parent as int, n0.len() as int + 1 + sub.0.len(),
        rem as nat);
    let tok = cs[j].0;
    let cnt = cs[j].1.count;
    let label = make_child_label(tok, cnt, rem);
    let ix = graph_add_node(graph, label);
    graph_add_edge(graph, parent, ix, String::new());
    add_children_to_graph(&cs[j].1.children, 0, graph, ix, rem - 1);
    add_children_to_graph(cs, j + 1, graph, parent, rem);
    proof {
        assert(g_nodes(*graph) =~= n0 + (seq![lab] + sub.0 + rest.0));
        assert(g_edges(*graph) =~= e0 + (seq![
            (parent as int, n0.len() as int, Seq::<char>::empty()),
        ] + sub.1 + rest.1));
    }
}

impl NGramTrie {
    /// Build the petgraph graph of the tree: one node labeled `root`, then
    /// the whole tree below it, depth first, children in insertion order.
    /// Returns the graph and the root's index.  The walk is read-only.
    pub fn create_graph(&self) -> (r: (Graph<String, String, Directed, usize>, usize))
        ensures
            g_nodes(r.0) == trie_graph(*self).0,
            g_edges(r.0) == trie_graph(*self).1,
            r.1 == 0,
    {
        let mut graph = graph_new();
        let root_label: String = "root".to_string();
        let root_ix = graph_add_node(&mut graph, root_label);
        let root = self.root();
        add_children_to_graph(&root.children, 0, &mut graph, root_ix, self.ngram_len());
        proof {
            assert(Seq::<Seq<char>>::empty().push("root"@) =~= seq!["root"@]);
            assert(seq!["root"@] + dfs_from(self.spec_root().children@, 0, 0, 1, self.spec_len()).0
                =~= g_nodes(graph));
            assert(Seq::<(int, int, Seq<char>)>::empty() + dfs_from(
                self.spec_root().children@,
                0,
                0,
                1,
                self.spec_len(),
            ).1 =~= g_edges(graph));
        }
        (graph, root_ix)
    }

    /// The DOT text of the tree's graph, ready to hand to a layout tool.
    pub fn to_dot(&self) -> (s: String)
        ensures
            s@ == dot_text(trie_graph(*self).0, trie_graph(*self).1),
    {
        let (graph, _root_ix) = self.create_graph();
        graph_to_dot(&graph)
    }
}

} // verus!
