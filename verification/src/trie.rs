//! The prefix tree that counts fixed-length token sequences.

use vstd::prelude::*;

verus! {

/// One position in the prefix tree.
///
/// `count` is the number of inserted sequences whose path passes through or
/// ends at this node; `children` maps a token to the exclusively owned child
/// reached by consuming that token.
pub struct TrieNode {
    /// How many insertions have passed through or ended at this node.
    pub count: u64,
    /// The outgoing (token, child) pairs; walks use the earliest entry for
    /// a token, and this library's operations never create a second one.
    pub children: Vec<(i32, Box<TrieNode>)>,
}

/// The index of the first child entry carrying `tok`, or `-1` if none does.
pub open spec fn first_idx(cs: Seq<(i32, Box<TrieNode>)>, tok: i32) -> int
    decreases cs.len(),
{
    if cs.len() == 0 {
        -1
    } else if cs[0].0 == tok {
        0
    } else {
        let r = first_idx(cs.drop_first(), tok);
        if r == -1 {
            -1
        } else {
            r + 1
        }
    }
}

/// The count stored at the node reached from `node` by consuming `path`
/// token by token, or `0` when the path leaves the tree.
pub open spec fn node_count_at(node: TrieNode, path: Seq<i32>) -> nat
    decreases path.len(),
{
    if path.len() == 0 {
        node.count as nat
    } else {
        let j = first_idx(node.children@, path[0]);
        if j >= 0 {
            node_count_at(*node.children@[j].1, path.drop_first())
        } else {
            0
        }
    }
}

/// No two child entries of any node in the tree carry the same token.
pub open spec fn tokens_unique(node: TrieNode) -> bool
    decreases node,
{
    &&& forall|a: int, b: int|
        0 <= a < b < node.children@.len() ==> node.children@[a].0 != node.children@[b].0
    &&& forall|k: int|
        0 <= k < node.children@.len() ==> tokens_unique(#[trigger] *node.children@[k].1)
}

/// `p` is a non-empty prefix of `s` (possibly all of `s`).
pub open spec fn is_nonempty_prefix_of(p: Seq<i32>, s: Seq<i32>) -> bool {
    1 <= p.len() <= s.len() && p == s.subrange(0, p.len() as int)
}

/// The counts of a trie into which nothing has been inserted.
pub open spec fn zero_counts() -> Map<Seq<i32>, nat> {
    Map::new(|p: Seq<i32>| true, |p: Seq<i32>| 0nat)
}

/// The counts after one insertion of `s`: every non-empty prefix of `s`
/// gains one, every other path keeps its count.
pub open spec fn insert_model(m: Map<Seq<i32>, nat>, s: Seq<i32>) -> Map<Seq<i32>, nat> {
    Map::new(
        |p: Seq<i32>| true,
        |p: Seq<i32>|
            m[p] + if is_nonempty_prefix_of(p, s) {
                1nat
            } else {
                0nat
            },
    )
}

/// The error returned when a sequence does not have the configured length.
#[derive(Clone, Copy, PartialEq, Eq, Structural, Debug)]
pub enum TrieError {
    /// The sequence handed to `insert` or `search` has the wrong length.
    LengthMismatch,
}

impl TrieNode {
    /// A fresh node: count zero, no children.
    pub fn new() -> (node: TrieNode)
        ensures
            node.count == 0,
            node.children@ == Seq::<(i32, Box<TrieNode>)>::empty(),
            forall|p: Seq<i32>| node_count_at(node, p) == 0,
            tokens_unique(node),
    {
        let node = TrieNode { count: 0, children: Vec::new() };
        proof {
            assert forall|p: Seq<i32>| node_count_at(node, p) == 0 by {
                if p.len() != 0 {
                    assert(first_idx(node.children@, p[0]) == -1);
                }
            }
        }
        node
    }
}

/// A prefix tree that counts insertions of token sequences of one fixed
/// length, chosen at construction.
pub struct NGramTrie {
    root: TrieNode,
    ngram_length: usize,
    total: u64,
}

impl NGramTrie {
    /// The root node of the tree.
    pub closed spec fn spec_root(&self) -> TrieNode {
        self.root
    }

    /// The configured sequence length.
    pub closed spec fn spec_len(&self) -> nat {
        self.ngram_length as nat
    }

    /// How many sequences have been inserted so far.
    pub closed spec fn spec_total(&self) -> nat {
        self.total as nat
    }

    /// The count recorded for the path `p` (a prefix count for short `p`,
    /// the full sequence count when `p` has the configured length).
    pub open spec fn count_of(&self, p: Seq<i32>) -> nat {
        node_count_at(self.spec_root(), p)
    }

    /// The length is positive, no count can outrun the number of
    /// insertions (so one more insertion cannot overflow any counter), and
    /// no node carries two children under the same token.
    pub closed spec fn wf(&self) -> bool {
        &&& self.ngram_length >= 1
        &&& forall|p: Seq<i32>| node_count_at(self.root, p) <= self.total
        &&& tokens_unique(self.root)
    }

    /// A fresh trie for sequences of length `ngram_length`: an empty root
    /// and a count of zero for every path.
    pub fn new(ngram_length: usize) -> (trie: NGramTrie)
        requires
            ngram_length >= 1,
        ensures
            trie.wf(),
            trie.spec_len() == ngram_length,
            trie.spec_total() == 0,
            trie@ == zero_counts(),
    {
        let trie = NGramTrie { root: TrieNode::new(), ngram_length, total: 0 };
        proof {
            assert(trie@ =~= zero_counts());
        }
        trie
    }
}

/// `first_idx` returns `-1` exactly when no entry carries `tok`; otherwise
/// it returns the position of the earliest entry that does.
proof fn lemma_first_idx_props(cs: Seq<(i32, Box<TrieNode>)>, tok: i32)
    ensures
        first_idx(cs, tok) == -1 ==> forall|k: int| 0 <= k < cs.len() ==> cs[k].0 != tok,
        first_idx(cs, tok) != -1 ==> {
            let r = first_idx(cs, tok);
            &&& 0 <= r < cs.len()
            &&& cs[r].0 == tok
            &&& forall|k: int| 0 <= k < r ==> cs[k].0 != tok
        },
    decreases cs.len(),
{
    if cs.len() == 0 {
    } else if cs[0].0 == tok {
    } else {
        lemma_first_idx_props(cs.drop_first(), tok);
        assert forall|k: int| 0 <= k < cs.len() implies cs[k].0 == cs.drop_first()[k - 1].0
            || k == 0 by {
            if k > 0 {
                assert(cs.drop_first()[k - 1] == cs[k]);
            }
        }
    }
}

/// Appending an entry never displaces an earlier match: the first index for
/// `tok` is unchanged when one existed, and otherwise points at the new
/// entry exactly when that entry carries `tok`.
proof fn lemma_first_idx_push(cs: Seq<(i32, Box<TrieNode>)>, entry: (i32, Box<TrieNode>), tok: i32)
    ensures
        first_idx(cs.push(entry), tok) == if first_idx(cs, tok) != -1 {
            first_idx(cs, tok)
        } else if entry.0 == tok {
            cs.len() as int
        } else {
            -1
        },
    decreases cs.len(),
{
    if cs.len() == 0 {
        assert(cs.push(entry)[0] == entry);
        assert(cs.push(entry).drop_first() =~= Seq::<(i32, Box<TrieNode>)>::empty());
        assert(first_idx(Seq::<(i32, Box<TrieNode>)>::empty(), tok) == -1);
    } else {
        assert(cs.push(entry)[0] == cs[0]);
        if cs[0].0 != tok {
            assert(cs.push(entry).drop_first() =~= cs.drop_first().push(entry));
            lemma_first_idx_push(cs.drop_first(), entry, tok);
            lemma_first_idx_props(cs.drop_first(), tok);
        }
    }
}

/// Replacing an entry by one carrying the same token leaves every first
/// index unchanged.
proof fn lemma_first_idx_update(
    cs: Seq<(i32, Box<TrieNode>)>,
    j: int,
    entry: (i32, Box<TrieNode>),
    tok: i32,
)
    requires
        0 <= j < cs.len(),
        entry.0 == cs[j].0,
    ensures
        first_idx(cs.update(j, entry), tok) == first_idx(cs, tok),
    decreases cs.len(),
{
    let cs2 = cs.update(j, entry);
    assert(cs2[0].0 == cs[0].0);
    if cs[0].0 != tok {
        if j == 0 {
            assert(cs2.drop_first() =~= cs.drop_first());
        } else {
            assert(cs2.drop_first() =~= cs.drop_first().update(j - 1, entry));
            lemma_first_idx_update(cs.drop_first(), j - 1, entry, tok);
        }
    }
}

/// Adding a child whose whole subtree counts zero, under a token that was
/// absent, changes no count anywhere.
proof fn lemma_counts_push_zero_child(node0: TrieNode, node1: TrieNode, tok: i32, z: TrieNode)
    requires
        node1.count == node0.count,
        node1.children@.len() == node0.children@.len() + 1,
        node1.children@ == node0.children@.push((node1.children@.last().0, node1.children@.last().1)),
        node1.children@.last().0 == tok,
        *node1.children@.last().1 == z,
        first_idx(node0.children@, tok) == -1,
        forall|q: Seq<i32>| node_count_at(z, q) == 0,
    ensures
        forall|p: Seq<i32>| node_count_at(node1, p) == node_count_at(node0, p),
{
    let cs0 = node0.children@;
    let cs1 = node1.children@;
    let entry = cs1.last();
    assert(cs1 == cs0.push(entry));
    assert forall|p: Seq<i32>| node_count_at(node1, p) == node_count_at(node0, p) by {
        if p.len() > 0 {
            let t0 = p[0];
            lemma_first_idx_push(cs0, entry, t0);
            let r = first_idx(cs0, t0);
            if r != -1 {
                lemma_first_idx_props(cs0, t0);
                assert(cs1[r] == cs0[r]);
            } else if t0 == tok {
                assert(first_idx(cs1, t0) == cs0.len() as int);
                assert(node_count_at(node1, p) == node_count_at(*entry.1, p.drop_first()));
                assert(node_count_at(*entry.1, p.drop_first()) == 0);
            }
        }
    }
}

/// The position of the found entry: it carries `tok` and no earlier entry
/// does, so it is exactly `first_idx`.
fn find_child(cs: &Vec<(i32, Box<TrieNode>)>, tok: i32) -> (r: Option<usize>)
    ensures
        match r {
            Some(j) => j < cs@.len() && cs@[j as int].0 == tok && first_idx(cs@, tok) == j,
            None => first_idx(cs@, tok) == -1,
        },
{
    let n = cs.len();
    let mut k: usize = 0;
    while k < n
        invariant
            n == cs@.len(),
            k <= n,
            forall|m: int| 0 <= m < k ==> cs@[m].0 != tok,
        decreases n - k,
    {
        if cs[k].0 == tok {
            proof {
                lemma_first_idx_props(cs@, tok);
            }
            return Some(k);
        }
        k = k + 1;
    }
    proof {
        lemma_first_idx_props(cs@, tok);
    }
    None
}

/// Walk the rest of `ngram` (positions `i` and onward) below `node`,
/// creating missing children and incrementing the count of every node the
/// walk reaches: exactly the non-empty prefixes of that remainder gain one.
fn insert_at(node: &mut TrieNode, ngram: &[i32], i: usize)
    requires
        i < ngram@.len(),
        tokens_unique(*old(node)),
        forall|p: Seq<i32>|
            is_nonempty_prefix_of(p, ngram@.subrange(i as int, ngram@.len() as int))
                ==> #[trigger] node_count_at(*old(node), p) < u64::MAX,
    ensures
        tokens_unique(*final(node)),
        forall|p: Seq<i32>| #[trigger] node_count_at(*final(node), p) == node_count_at(
            *old(node),
            p,
        ) + (if is_nonempty_prefix_of(p, ngram@.subrange(i as int, ngram@.len() as int)) {
            1nat
        } else {
            0nat
        }),
    decreases ngram@.len() - i,
{
    let ghost suffix = ngram@.subrange(i as int, ngram@.len() as int);
    let ghost node0 = *node;
    let tok = ngram[i];
    proof {
        assert(suffix.len() >= 1);
        assert(suffix[0] == ngram@[i as int]);
    }
    let j: usize;
    match find_child(&node.children, tok) {
        Some(jj) => {
            j = jj;
        },
        None => {
            j = node.children.len();
            node.children.push((tok, Box::new(TrieNode::new())));
            proof {
                let entry = node.children@.last();
                lemma_first_idx_push(node0.children@, entry, tok);
                lemma_counts_push_zero_child(node0, *node, tok, *entry.1);
                lemma_first_idx_props(node0.children@, tok);
                let cs0 = node0.children@;
                let cs1 = node.children@;
                assert forall|a: int, b: int| 0 <= a < b < cs1.len() implies cs1[a].0
                    != cs1[b].0 by {
                    if b < cs0.len() {
                        assert(cs1[a] == cs0[a]);
                        assert(cs1[b] == cs0[b]);
                    } else {
                        assert(cs1[a] == cs0[a]);
                        assert(cs0[a].0 != tok);
                    }
                }
                assert forall|k: int| 0 <= k < cs1.len() implies tokens_unique(
                    #[trigger] *cs1[k].1,
                ) by {
                    if k < cs0.len() {
                        assert(cs1[k] == cs0[k]);
                        assert(tokens_unique(*cs0[k].1));
                    }
                }
                assert(tokens_unique(*node));
            }
        },
    }
    let ghost node1 = *node;
    proof {
        assert(first_idx(node1.children@, tok) == j as int);
        assert(node1.children@[j as int].0 == tok);
        assert(forall|p: Seq<i32>| node_count_at(node1, p) == node_count_at(node0, p));
        assert(node1.count == node0.count);
        assert(tokens_unique(node1));
        assert(tokens_unique(*node1.children@[j as int].1));
    }
    let (ctok, mut child) = node.children.remove(j);
    let ghost child0 = *child;
    proof {
        assert(ctok == tok);
        // The walked child's own count is `node1`'s count at the path [tok].
        assert(seq![tok] =~= suffix.subrange(0, 1));
        assert(is_nonempty_prefix_of(seq![tok], suffix));
        assert(seq![tok].drop_first() =~= Seq::<i32>::empty());
        assert(node_count_at(node1, seq![tok]) == node_count_at(child0, Seq::<i32>::empty()));
        assert(node_count_at(node0, seq![tok]) < u64::MAX);
        assert(child0.count < u64::MAX);
    }
    child.count = child.count + 1;
    let ghost child_a = *child;
    proof {
        assert(child_a.children@ == child0.children@);
        assert(tokens_unique(child0));
        assert(tokens_unique(child_a));
        assert forall|q: Seq<i32>| #[trigger] node_count_at(child_a, q) == node_count_at(
            child0,
            q,
        ) + (if q.len() == 0 {
            1nat
        } else {
            0nat
        }) by {
            if q.len() != 0 {
                assert(child_a.children@ == child0.children@);
            }
        }
        // Counts below the child are counts of `node1` along [tok] + q.
        assert forall|q: Seq<i32>| q.len() >= 1 implies #[trigger] node_count_at(child0, q)
            == node_count_at(node1, seq![tok] + q) by {
            let pq = seq![tok] + q;
            assert(pq[0] == tok);
            assert(pq.drop_first() =~= q);
            assert(node_count_at(node1, pq) == node_count_at(child0, q));
        }
    }
    let ghost suffix2 = ngram@.subrange(i as int + 1, ngram@.len() as int);
    proof {
        assert(suffix.drop_first() =~= suffix2);
        // A non-empty prefix of the shorter remainder extends to one of the
        // full remainder by putting `tok` in front.
        assert forall|q: Seq<i32>| is_nonempty_prefix_of(q, suffix2) implies is_nonempty_prefix_of(
            seq![tok] + q,
            suffix,
        ) by {
            assert((seq![tok] + q) =~= suffix.subrange(0, q.len() as int + 1));
        }
    }
    if i + 1 < ngram.len() {
        proof {
            assert forall|q: Seq<i32>| is_nonempty_prefix_of(q, suffix2)
                implies #[trigger] node_count_at(child_a, q) < u64::MAX by {
                assert(node_count_at(child_a, q) == node_count_at(child0, q));
                assert(node_count_at(child0, q) == node_count_at(node1, seq![tok] + q));
                assert(is_nonempty_prefix_of(seq![tok] + q, suffix));
                assert(node_count_at(node0, seq![tok] + q) < u64::MAX);
            }
        }
        insert_at(&mut *child, ngram, i + 1);
    }
    let ghost child_b = *child;
    proof {
        assert forall|q: Seq<i32>| #[trigger] node_count_at(child_b, q) == node_count_at(
            child0,
            q,
        ) + (if q.len() == 0 {
            1nat
        } else {
            0nat
        }) + (if is_nonempty_prefix_of(q, suffix2) {
            1nat
        } else {
            0nat
        }) by {
            if i + 1 == ngram@.len() {
                assert(suffix2.len() == 0);
                assert(!is_nonempty_prefix_of(q, suffix2));
            }
        }
    }
    node.children.insert(j, (ctok, child));
    proof {
        let node2 = *node;
        let cs1 = node1.children@;
        let cs2 = node2.children@;
        assert(cs2 =~= cs1.update(j as int, (tok, child)));
        assert(node2.count == node1.count);
        assert(*cs2[j as int].1 == child_b);
        assert forall|a: int, b: int| 0 <= a < b < cs2.len() implies cs2[a].0 != cs2[b].0 by {
            assert(cs2[a].0 == cs1[a].0);
            assert(cs2[b].0 == cs1[b].0);
        }
        assert forall|k: int| 0 <= k < cs2.len() implies tokens_unique(#[trigger] *cs2[k].1) by {
            if k == j as int {
                assert(*cs2[k].1 == child_b);
            } else {
                assert(cs2[k] == cs1[k]);
                assert(tokens_unique(*cs1[k].1));
            }
        }
        assert(tokens_unique(node2));
        assert forall|p: Seq<i32>| #[trigger] node_count_at(node2, p) == node_count_at(
            node0,
            p,
        ) + (if is_nonempty_prefix_of(p, suffix) {
            1nat
        } else {
            0nat
        }) by {
            if p.len() == 0 {
                assert(!is_nonempty_prefix_of(p, suffix));
            } else {
                let t0 = p[0];
                let rest = p.drop_first();
                lemma_first_idx_update(cs1, j as int, (tok, child), t0);
                if t0 == tok {
                    assert(first_idx(cs2, t0) == j as int);
                    assert(node_count_at(node2, p) == node_count_at(child_b, rest));
                    assert(node_count_at(node1, p) == node_count_at(child0, rest));
                    if rest.len() == 0 {
                        assert(p =~= seq![tok]);
                        assert(is_nonempty_prefix_of(p, suffix));
                        assert(!is_nonempty_prefix_of(rest, suffix2));
                    } else {
                        // p prefixes the remainder exactly when its tail
                        // prefixes the shorter remainder.
                        if is_nonempty_prefix_of(p, suffix) {
                            assert(rest =~= suffix2.subrange(0, rest.len() as int));
                            assert(is_nonempty_prefix_of(rest, suffix2));
                        }
                        if is_nonempty_prefix_of(rest, suffix2) {
                            assert(p =~= suffix.subrange(0, p.len() as int));
                            assert(is_nonempty_prefix_of(p, suffix));
                        }
                    }
                } else {
                    if is_nonempty_prefix_of(p, suffix) {
                        assert(p[0] == suffix[0]);
                    }
                    assert(!is_nonempty_prefix_of(p, suffix));
                    let r = first_idx(cs1, t0);
                    lemma_first_idx_props(cs1, t0);
                    if r != -1 {
                        assert(cs1[r].0 == t0);
                        assert(r != j as int);
                        assert(cs2[r] == cs1[r]);
                        assert(node_count_at(node2, p) == node_count_at(*cs1[r].1, rest));
                        assert(node_count_at(node1, p) == node_count_at(*cs1[r].1, rest));
                    } else {
                        assert(node_count_at(node2, p) == 0);
                        assert(node_count_at(node1, p) == 0);
                    }
                }
            }
        }
    }
}

/// The count at the node reached from `node` by the rest of `ngram`
/// (positions `i` and onward), without touching the tree.
fn count_at_node(node: &TrieNode, ngram: &[i32], i: usize) -> (c: u64)
    requires
        i <= ngram@.len(),
    ensures
        c as nat == node_count_at(*node, ngram@.subrange(i as int, ngram@.len() as int)),
    decreases ngram@.len() - i,
{
    let ghost suffix = ngram@.subrange(i as int, ngram@.len() as int);
    if i == ngram.len() {
        assert(suffix.len() == 0);
        node.count
    } else {
        assert(suffix[0] == ngram@[i as int]);
        match find_child(&node.children, ngram[i]) {
            None => 0,
            Some(j) => {
                let c = count_at_node(&*node.children[j].1, ngram, i + 1);
                proof {
                    assert(suffix.drop_first() =~= ngram@.subrange(
                        i + 1,
                        ngram@.len() as int,
                    ));
                }
                c
            },
        }
    }
}

impl NGramTrie {
    /// Record one occurrence of `ngram`.
    ///
    /// Succeeds exactly when `ngram` has the configured length; the walk
    /// then creates any missing nodes and raises the count of every node on
    /// the path by one, so every non-empty prefix of `ngram` gains one and
    /// no other path changes.  A sequence of the wrong length is rejected
    /// untouched.
    pub fn insert(&mut self, ngram: &[i32]) -> (r: Result<(), TrieError>)
        requires
            old(self).wf(),
            ngram@.len() == old(self).spec_len() ==> old(self).spec_total() < u64::MAX,
        ensures
            final(self).wf(),
            final(self).spec_len() == old(self).spec_len(),
            match r {
                Ok(_) => {
                    &&& ngram@.len() == old(self).spec_len()
                    &&& final(self)@ == insert_model(old(self)@, ngram@)
                    &&& final(self).spec_total() == old(self).spec_total() + 1
                },
                Err(e) => {
                    &&& ngram@.len() != old(self).spec_len()
                    &&& e == TrieError::LengthMismatch
                    &&& *final(self) == *old(self)
                },
            },
    {
        if ngram.len() != self.ngram_length {
            return Err(TrieError::LengthMismatch);
        }
        proof {
            assert(ngram@.subrange(0, ngram@.len() as int) =~= ngram@);
            assert forall|p: Seq<i32>|
                is_nonempty_prefix_of(p, ngram@.subrange(0, ngram@.len() as int))
                    implies #[trigger] node_count_at(old(self).spec_root(), p)
                < u64::MAX by {
                assert(node_count_at(old(self).spec_root(), p) <= old(self).spec_total());
            }
        }
        insert_at(&mut self.root, ngram, 0);
        self.total = self.total + 1;
        proof {
            assert forall|p: Seq<i32>| #[trigger] node_count_at(self.root, p)
                <= self.total by {
                assert(node_count_at(old(self).spec_root(), p) <= old(self).spec_total());
                assert(node_count_at(self.root, p) <= node_count_at(old(self).spec_root(), p)
                    + 1);
            }
            assert(self@ =~= insert_model(old(self)@, ngram@));
        }
        Ok(())
    }

    /// Look up the exact count of `ngram`.
    ///
    /// Succeeds exactly when `ngram` has the configured length, returning
    /// the number of times that exact sequence has been inserted (`0` when
    /// its path does not exist); otherwise reports the mismatch.  Takes the
    /// tree by shared reference, so it can never mutate it.
    pub fn search(&self, ngram: &[i32]) -> (r: Result<u64, TrieError>)
        ensures
            match r {
                Ok(c) => {
                    &&& ngram@.len() == self.spec_len()
                    &&& c as nat == self.count_of(ngram@)
                    &&& c as nat == self@[ngram@]
                },
                Err(e) => {
                    &&& ngram@.len() != self.spec_len()
                    &&& e == TrieError::LengthMismatch
                },
            },
    {
        if ngram.len() != self.ngram_length {
            return Err(TrieError::LengthMismatch);
        }
        let c = count_at_node(&self.root, ngram, 0);
        proof {
            assert(ngram@.subrange(0, ngram@.len() as int) =~= ngram@);
        }
        Ok(c)
    }
}

impl View for NGramTrie {
    type V = Map<Seq<i32>, nat>;

    /// The trie seen abstractly: the count of every token path.
    open spec fn view(&self) -> Map<Seq<i32>, nat> {
        Map::new(|p: Seq<i32>| true, |p: Seq<i32>| self.count_of(p))
    }
}

impl NGramTrie {
    /// The root node, handed out read-only so a visitor (such as the graph
    /// renderer) can walk the tree without being able to change it.
    pub fn root(&self) -> (r: &TrieNode)
        ensures
            *r == self.spec_root(),
    {
        &self.root
    }

    /// The configured sequence length.
    pub fn ngram_len(&self) -> (n: usize)
        ensures
            n as nat == self.spec_len(),
    {
        self.ngram_length
    }

    /// How many sequences have been inserted so far.
    pub fn insertions(&self) -> (t: u64)
        ensures
            t as nat == self.spec_total(),
    {
        self.total
    }
}

/// A well-formed trie's configured length is positive, as construction
/// demands.
pub proof fn lemma_wf_len(t: &NGramTrie)
    requires
        t.wf(),
    ensures
        t.spec_len() >= 1,
{
}

/// The counts after inserting `s` exactly `k` times in a row.
pub open spec fn insert_model_times(m: Map<Seq<i32>, nat>, s: Seq<i32>, k: nat) -> Map<
    Seq<i32>,
    nat,
>
    decreases k,
{
    if k == 0 {
        m
    } else {
        insert_model(insert_model_times(m, s, (k - 1) as nat), s)
    }
}

/// Law: a sequence never inserted is counted zero times; in particular a
/// search on a fresh trie returns zero for every path.
pub proof fn lemma_fresh_counts_zero(s: Seq<i32>)
    ensures
        zero_counts()[s] == 0,
{
}

/// Law: inserting a sequence raises its own count by exactly one.
pub proof fn lemma_insert_counts_self(m: Map<Seq<i32>, nat>, s: Seq<i32>)
    requires
        s.len() >= 1,
    ensures
        insert_model(m, s)[s] == m[s] + 1,
{
    assert(s =~= s.subrange(0, s.len() as int));
    assert(is_nonempty_prefix_of(s, s));
}

/// Law: inserting a sequence `k` times raises its own count by exactly `k`,
/// so `k` insertions into a fresh trie make its count exactly `k`.
pub proof fn lemma_repeated_insert_counts_self(m: Map<Seq<i32>, nat>, s: Seq<i32>, k: nat)
    requires
        s.len() >= 1,
    ensures
        insert_model_times(m, s, k)[s] == m[s] + k,
    decreases k,
{
    if k > 0 {
        lemma_repeated_insert_counts_self(m, s, (k - 1) as nat);
        lemma_insert_counts_self(insert_model_times(m, s, (k - 1) as nat), s);
    }
}

/// Law: insertions commute; the counts after inserting `a` then `b` are the
/// counts after inserting `b` then `a`, whatever was inserted before.
pub proof fn lemma_insert_commutes(m: Map<Seq<i32>, nat>, a: Seq<i32>, b: Seq<i32>)
    ensures
        insert_model(insert_model(m, a), b) == insert_model(insert_model(m, b), a),
{
    assert(insert_model(insert_model(m, a), b) =~= insert_model(insert_model(m, b), a));
}

/// Law: sequences of the same length count independently; inserting one
/// leaves the count of every other sequence of that length unchanged.
pub proof fn lemma_insert_leaves_others(m: Map<Seq<i32>, nat>, s: Seq<i32>, t: Seq<i32>)
    requires
        t.len() == s.len(),
        t != s,
    ensures
        insert_model(m, s)[t] == m[t],
{
    if is_nonempty_prefix_of(t, s) {
        assert(t =~= s);
    }
}

} // verus!
