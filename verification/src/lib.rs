//! Streaming multi-pattern matching with an Aho-Corasick automaton.
//!
//! `Automation::build` turns a finite collection of patterns into an
//! immutable trie annotated with failure links and closure-complete output
//! sets. `AutomationSearch` consumes the automaton one symbol at a time and
//! reports every pattern occurrence ending at the position just consumed.
#![allow(unused_imports)]
use vstd::prelude::*;

mod dump;

pub use dump::AutomationDump;
pub use dump::AutomationDumpNode;
pub use dump::EdTarget;

verus! {

/// One trie state. `goto` maps a symbol to a child node index (keys unique),
/// `failure` is the node reached by the longest proper suffix of this node's
/// path that is itself a path from the root, and `outputs` lists the pattern
/// identities ending here, closed over the failure chain after construction.
pub struct AutomationNode {
    pub goto: Vec<(char, usize)>,
    pub failure: usize,
    pub outputs: Vec<usize>,
    /// The symbol sequence spelled by the unique path from the root.
    pub path: Ghost<Seq<char>>,
}

/// The value `lookup_edge(g, c)` is the child index that the edge list `g`
/// associates with the symbol `c`, if any. Later entries win, matching an
/// executable scan that checks the most recently added edge first; edge
/// lists with unique keys make the order irrelevant.
pub open spec fn lookup_edge(g: Seq<(char, usize)>, c: char) -> Option<usize>
    decreases g.len(),
{
    if g.len() == 0 {
        None
    } else if g.last().0 == c {
        Some(g.last().1)
    } else {
        lookup_edge(g.drop_last(), c)
    }
}

impl AutomationNode {
    /// A fresh node with no edges, no outputs, failure at the root, and an
    /// empty path (the root itself is created this way).
    pub fn new() -> (r: Self)
        ensures
            r.goto@ == Seq::<(char, usize)>::empty(),
            r.failure == 0,
            r.outputs@ == Seq::<usize>::empty(),
            r.path@ == Seq::<char>::empty(),
    {
        Self { goto: Vec::new(), failure: 0, outputs: Vec::new(), path: Ghost(Seq::empty()) }
    }

    /// Whether an edge for `c` leaves this node.
    pub fn contains(&self, c: char) -> (r: bool)
        ensures
            r == (lookup_edge(self.goto@, c) is Some),
    {
        let mut idx: usize = self.goto.len();
        proof {
            assert(self.goto@.subrange(0, idx as int) =~= self.goto@);
        }
        while idx > 0
            invariant
                idx <= self.goto@.len(),
                lookup_edge(self.goto@, c) == lookup_edge(self.goto@.subrange(0, idx as int), c),
            decreases idx,
        {
            idx = idx - 1;
            let (ec, _) = self.goto[idx];
            if ec == c {
                proof {
                    assert(self.goto@.subrange(0, idx as int + 1).last() == self.goto@[idx as int]);
                }
                return true;
            }
            proof {
                assert(self.goto@.subrange(0, idx as int + 1).drop_last() =~= self.goto@.subrange(
                    0,
                    idx as int,
                ));
            }
        }
        proof {
            assert(self.goto@.subrange(0, 0) =~= Seq::<(char, usize)>::empty());
        }
        false
    }

    /// The child reached from this node by the symbol `c`, if any.
    pub fn enter_child(&self, c: char) -> (r: Option<usize>)
        ensures
            r == lookup_edge(self.goto@, c),
    {
        let mut idx: usize = self.goto.len();
        proof {
            assert(self.goto@.subrange(0, idx as int) =~= self.goto@);
        }
        while idx > 0
            invariant
                idx <= self.goto@.len(),
                lookup_edge(self.goto@, c) == lookup_edge(self.goto@.subrange(0, idx as int), c),
            decreases idx,
        {
            idx = idx - 1;
            let (ec, et) = self.goto[idx];
            if ec == c {
                proof {
                    assert(self.goto@.subrange(0, idx as int + 1).last() == self.goto@[idx as int]);
                }
                return Some(et);
            }
            proof {
                assert(self.goto@.subrange(0, idx as int + 1).drop_last() =~= self.goto@.subrange(
                    0,
                    idx as int,
                ));
            }
        }
        proof {
            assert(self.goto@.subrange(0, 0) =~= Seq::<(char, usize)>::empty());
        }
        None
    }

    /// Record an edge for `c` leading to the node at `node_idx`.
    pub fn add_child(&mut self, c: char, node_idx: usize)
        ensures
            final(self).goto@ == old(self).goto@.push((c, node_idx)),
            final(self).failure == old(self).failure,
            final(self).outputs@ == old(self).outputs@,
            final(self).path@ == old(self).path@,
    {
        self.goto.push((c, node_idx));
    }

    /// Append a pattern identity to this node's output set.
    pub fn add_output(&mut self, output: usize)
        ensures
            final(self).outputs@ == old(self).outputs@.push(output),
            final(self).goto@ == old(self).goto@,
            final(self).failure == old(self).failure,
            final(self).path@ == old(self).path@,
    {
        self.outputs.push(output);
    }

    /// Whether `output` is already recorded in this node's output set.
    pub fn has_output(&self, output: usize) -> (r: bool)
        ensures
            r == self.outputs@.contains(output),
    {
        let mut k: usize = 0;
        while k < self.outputs.len()
            invariant
                k <= self.outputs@.len(),
                forall|m: int| 0 <= m < k ==> self.outputs@[m] != output,
            decreases self.outputs@.len() - k,
        {
            if self.outputs[k] == output {
                return true;
            }
            k = k + 1;
        }
        false
    }
}

/// `s` is a strictly shorter suffix of `t`.
pub open spec fn is_proper_suffix(s: Seq<char>, t: Seq<char>) -> bool {
    s.len() < t.len() && s == t.subrange(t.len() - s.len(), t.len() as int)
}

proof fn lemma_proper_suffix_trans(a: Seq<char>, b: Seq<char>, c: Seq<char>)
    requires
        is_proper_suffix(a, b),
        is_proper_suffix(b, c),
    ensures
        is_proper_suffix(a, c),
{
    assert(a =~= c.subrange(c.len() - a.len(), c.len() as int));
}

proof fn lemma_proper_suffix_push(a: Seq<char>, b: Seq<char>, c: char)
    requires
        is_proper_suffix(a, b),
    ensures
        is_proper_suffix(a.push(c), b.push(c)),
{
    assert(a.push(c) =~= b.push(c).subrange(
        b.len() + 1 - (a.len() + 1),
        b.len() + 1 as int,
    ));
}

/// Edge `j` of node `i` is well formed: its target lies strictly above `i`
/// and below the arena bound, and the target's path extends `i`'s path by
/// the edge symbol.
pub open spec fn edge_wf(ns: Seq<AutomationNode>, i: int, j: int) -> bool {
    let e = ns[i].goto@[j];
    &&& i < e.1 < ns.len()
    &&& ns[e.1 as int].path@ == ns[i].path@.push(e.0)
}

/// All edges of node `i` are well formed and carry pairwise distinct symbols.
pub open spec fn node_edges_wf(ns: Seq<AutomationNode>, i: int) -> bool {
    &&& forall|j: int| 0 <= j < ns[i].goto@.len() ==> edge_wf(ns, i, j)
    &&& forall|j1: int, j2: int|
        0 <= j1 < j2 < ns[i].goto@.len() ==> (#[trigger] ns[i].goto@[j1]).0 != (
        #[trigger] ns[i].goto@[j2]).0
}

/// Every node is the target of at most one edge in the whole trie.
pub open spec fn unique_parents(ns: Seq<AutomationNode>) -> bool {
    forall|i1: int, j1: int, i2: int, j2: int|
        0 <= i1 < ns.len() && 0 <= j1 < ns[i1].goto@.len() && 0 <= i2 < ns.len() && 0 <= j2
            < ns[i2].goto@.len() && (#[trigger] ns[i1].goto@[j1]).1 == (
        #[trigger] ns[i2].goto@[j2]).1 ==> i1 == i2 && j1 == j2
}

/// Some edge of the trie has node `t` as its target.
pub open spec fn has_parent(ns: Seq<AutomationNode>, t: int) -> bool {
    exists|i: int, j: int|
        0 <= i < ns.len() && 0 <= j < ns[i].goto@.len() && (#[trigger] ns[i].goto@[j]).1 == t
}

/// Every node other than the root is the target of some edge.
pub open spec fn all_parented(ns: Seq<AutomationNode>) -> bool {
    forall|t: int| 1 <= t < ns.len() ==> #[trigger] has_parent(ns, t)
}

/// The trie structure is well formed: node 0 is the root with the empty
/// path, edges are consistent with paths, symbols at a node are unique, and
/// every non-root node hangs off exactly one edge.
pub open spec fn trie_wf(ns: Seq<AutomationNode>) -> bool {
    &&& 1 <= ns.len()
    &&& ns[0].path@ == Seq::<char>::empty()
    &&& forall|i: int| 0 <= i < ns.len() ==> node_edges_wf(ns, i)
    &&& unique_parents(ns)
    &&& all_parented(ns)
}

/// The failure annotation of node `i` is final: it points inside the arena,
/// at a node whose path is a strictly shorter suffix of `i`'s path (the
/// root points at itself), and `i`'s output set has no duplicates and
/// contains every output of its failure target.
pub open spec fn node_fail_wf(ns: Seq<AutomationNode>, i: int) -> bool {
    let f = ns[i].failure as int;
    &&& 0 <= f < ns.len()
    &&& i == 0 ==> f == 0
    &&& i != 0 ==> is_proper_suffix(ns[f].path@, ns[i].path@)
    &&& ns[i].outputs@.no_duplicates()
    &&& forall|k: int|
        0 <= k < ns[f].outputs@.len() ==> ns[i].outputs@.contains(#[trigger] ns[f].outputs@[k])
}

/// Follow `s` symbol by symbol from node `from` along `goto` edges.
pub open spec fn follow(ns: Seq<AutomationNode>, from: int, s: Seq<char>) -> Option<int>
    decreases s.len(),
{
    if s.len() == 0 {
        Some(from)
    } else {
        match lookup_edge(ns[from].goto@, s[0]) {
            Some(t) => follow(ns, t as int, s.drop_first()),
            None => None,
        }
    }
}

/// The part of well-formedness that the search step relies on: failure
/// links stay in bounds and strictly shorten the path.
pub open spec fn searchable(ns: Seq<AutomationNode>) -> bool {
    &&& 1 <= ns.len()
    &&& forall|i: int|
        0 <= i < ns.len() ==> {
            &&& 0 <= #[trigger] ns[i].failure < ns.len()
            &&& i == 0 ==> ns[i].failure == 0
            &&& i != 0 ==> ns[ns[i].failure as int].path@.len() < ns[i].path@.len()
        }
}

/// The state reached from `s` on symbol `c`: follow an edge if one exists,
/// otherwise retry from the failure target, falling back to the root.
pub open spec fn step_spec(ns: Seq<AutomationNode>, s: int, c: char) -> int
    decreases ns[s].path@.len()
        when searchable(ns) && 0 <= s < ns.len()
{
    match lookup_edge(ns[s].goto@, c) {
        Some(t) => t as int,
        None => if s == 0 {
            0
        } else {
            step_spec(ns, ns[s].failure as int, c)
        },
    }
}

/// A `None` lookup means no entry at all carries the symbol.
proof fn lemma_lookup_none(g: Seq<(char, usize)>, c: char)
    ensures
        (lookup_edge(g, c) is None) <==> (forall|j: int| 0 <= j < g.len() ==> g[j].0 != c),
    decreases g.len(),
{
    if g.len() > 0 {
        lemma_lookup_none(g.drop_last(), c);
        assert(forall|j: int| 0 <= j < g.len() - 1 ==> g.drop_last()[j] == g[j]);
        assert(g.last() == g[g.len() - 1]);
    }
}

/// A successful lookup names an actual entry of the edge list.
proof fn lemma_lookup_is_edge(g: Seq<(char, usize)>, c: char, t: usize)
    requires
        lookup_edge(g, c) == Some(t),
    ensures
        exists|j: int| 0 <= j < g.len() && g[j] == (c, t),
    decreases g.len(),
{
    if g.last().0 == c {
        assert(g[g.len() - 1] == (c, t));
    } else {
        lemma_lookup_is_edge(g.drop_last(), c, t);
        let j = choose|j: int| 0 <= j < g.len() - 1 && g.drop_last()[j] == (c, t);
        assert(g[j] == (c, t));
    }
}

/// Looking a symbol up in a concatenation prefers the appended entries.
proof fn lemma_lookup_append(a: Seq<(char, usize)>, b: Seq<(char, usize)>, c: char)
    ensures
        lookup_edge(a + b, c) == if lookup_edge(b, c) is Some {
            lookup_edge(b, c)
        } else {
            lookup_edge(a, c)
        },
    decreases b.len(),
{
    if b.len() == 0 {
        assert(a + b =~= a);
    } else {
        assert((a + b).last() == b.last());
        assert((a + b).drop_last() =~= a + b.drop_last());
        lemma_lookup_append(a, b.drop_last(), c);
    }
}

/// All failure links still hold the initial value, as they do between trie
/// insertion and failure construction.
pub open spec fn failures_zero(ns: Seq<AutomationNode>) -> bool {
    forall|i: int| 0 <= i < ns.len() ==> (#[trigger] ns[i].failure) == 0
}

/// Every node's output set is duplicate-free and mentions only pattern
/// identities below `n`.
pub open spec fn outputs_bounded(ns: Seq<AutomationNode>, n: int) -> bool {
    forall|i: int|
        0 <= i < ns.len() ==> {
            &&& (#[trigger] ns[i].outputs@).no_duplicates()
            &&& forall|k: int| 0 <= k < ns[i].outputs@.len() ==> (#[trigger] ns[i].outputs@[k]) < n
        }
}

/// `n` grows the trie `o` without disturbing it: old nodes keep their paths,
/// their edge lists are extended only by symbols they did not carry, and
/// their output sets are extended at the end only.
pub open spec fn trie_extends(o: Seq<AutomationNode>, n: Seq<AutomationNode>) -> bool {
    &&& o.len() <= n.len()
    &&& forall|i: int|
        0 <= i < o.len() ==> {
            &&& (#[trigger] n[i]).path@ == o[i].path@
            &&& o[i].goto@.len() <= n[i].goto@.len()
            &&& o[i].goto@ == n[i].goto@.subrange(0, o[i].goto@.len() as int)
            &&& forall|j: int|
                o[i].goto@.len() <= j < n[i].goto@.len() ==> lookup_edge(
                    o[i].goto@,
                    (#[trigger] n[i].goto@[j]).0,
                ) is None
            &&& o[i].outputs@.len() <= n[i].outputs@.len()
            &&& o[i].outputs@ == n[i].outputs@.subrange(0, o[i].outputs@.len() as int)
        }
}

proof fn lemma_extends_refl(ns: Seq<AutomationNode>)
    ensures
        trie_extends(ns, ns),
{
    assert forall|i: int| 0 <= i < ns.len() implies {
        &&& (#[trigger] ns[i]).path@ == ns[i].path@
        &&& ns[i].goto@.len() <= ns[i].goto@.len()
        &&& ns[i].goto@ == ns[i].goto@.subrange(0, ns[i].goto@.len() as int)
        &&& forall|j: int|
            ns[i].goto@.len() <= j < ns[i].goto@.len() ==> lookup_edge(
                ns[i].goto@,
                (#[trigger] ns[i].goto@[j]).0,
            ) is None
        &&& ns[i].outputs@.len() <= ns[i].outputs@.len()
        &&& ns[i].outputs@ == ns[i].outputs@.subrange(0, ns[i].outputs@.len() as int)
    } by {
        assert(ns[i].goto@ =~= ns[i].goto@.subrange(0, ns[i].goto@.len() as int));
        assert(ns[i].outputs@ =~= ns[i].outputs@.subrange(0, ns[i].outputs@.len() as int));
    }
}

proof fn lemma_extends_trans(a: Seq<AutomationNode>, b: Seq<AutomationNode>, c: Seq<AutomationNode>)
    requires
        trie_extends(a, b),
        trie_extends(b, c),
    ensures
        trie_extends(a, c),
{
    assert forall|i: int| 0 <= i < a.len() implies {
        &&& (#[trigger] c[i]).path@ == a[i].path@
        &&& a[i].goto@.len() <= c[i].goto@.len()
        &&& a[i].goto@ == c[i].goto@.subrange(0, a[i].goto@.len() as int)
        &&& forall|j: int|
            a[i].goto@.len() <= j < c[i].goto@.len() ==> lookup_edge(
                a[i].goto@,
                (#[trigger] c[i].goto@[j]).0,
            ) is None
        &&& a[i].outputs@.len() <= c[i].outputs@.len()
        &&& a[i].outputs@ == c[i].outputs@.subrange(0, a[i].outputs@.len() as int)
    } by {
        let la = a[i].goto@.len() as int;
        let lb = b[i].goto@.len() as int;
        assert(a[i].goto@ =~= c[i].goto@.subrange(0, la));
        assert(a[i].outputs@ =~= c[i].outputs@.subrange(0, a[i].outputs@.len() as int));
        assert forall|j: int| la <= j < c[i].goto@.len() implies lookup_edge(
            a[i].goto@,
            (#[trigger] c[i].goto@[j]).0,
        ) is None by {
            if j < lb {
                assert(b[i].goto@[j] == c[i].goto@[j]);
                assert(lookup_edge(a[i].goto@, b[i].goto@[j].0) is None);
            } else {
                let ch = c[i].goto@[j].0;
                assert(lookup_edge(b[i].goto@, ch) is None);
                let extra = b[i].goto@.subrange(la, lb);
                assert(b[i].goto@ =~= a[i].goto@ + extra);
                lemma_lookup_append(a[i].goto@, extra, ch);
            }
        }
    }
}

/// Membership in an old node's output set survives an extension.
proof fn lemma_outputs_extend(o: Seq<AutomationNode>, n: Seq<AutomationNode>, i: int, x: usize)
    requires
        trie_extends(o, n),
        0 <= i < o.len(),
        o[i].outputs@.contains(x),
    ensures
        n[i].outputs@.contains(x),
{
    let k = choose|k: int| 0 <= k < o[i].outputs@.len() && o[i].outputs@[k] == x;
    assert(n[i].outputs@[k] == o[i].outputs@.subrange(0, o[i].outputs@.len() as int)[k]);
}

/// A path that exists in the old trie leads to the same node in the
/// extended one.
proof fn lemma_follow_extends(
    o: Seq<AutomationNode>,
    n: Seq<AutomationNode>,
    from: int,
    s: Seq<char>,
    t: int,
)
    requires
        trie_wf(o),
        trie_extends(o, n),
        0 <= from < o.len(),
        follow(o, from, s) == Some(t),
    ensures
        follow(n, from, s) == Some(t),
    decreases s.len(),
{
    if s.len() > 0 {
        let c = s[0];
        let og = o[from].goto@;
        let ng = n[from].goto@;
        match lookup_edge(og, c) {
            Some(t1) => {
                let extra = ng.subrange(og.len() as int, ng.len() as int);
                assert(ng =~= og + extra);
                assert forall|j: int| 0 <= j < extra.len() implies extra[j].0 != c by {
                    assert(extra[j] == ng[og.len() + j]);
                    assert(lookup_edge(og, ng[og.len() + j].0) is None);
                }
                lemma_lookup_none(extra, c);
                lemma_lookup_append(og, extra, c);
                assert(lookup_edge(ng, c) == Some(t1));
                lemma_lookup_is_edge(og, c, t1);
                let j = choose|j: int| 0 <= j < og.len() && og[j] == (c, t1);
                assert(node_edges_wf(o, from));
                assert(edge_wf(o, from, j));
                lemma_follow_extends(o, n, t1 as int, s.drop_first(), t);
            },
            None => {},
        }
    }
}

/// Following a sequence extended by one symbol first follows the sequence,
/// then takes one edge.
proof fn lemma_follow_snoc(ns: Seq<AutomationNode>, from: int, s: Seq<char>, c: char)
    ensures
        follow(ns, from, s.push(c)) == match follow(ns, from, s) {
            Some(t) => match lookup_edge(ns[t].goto@, c) {
                Some(u) => Some(u as int),
                None => None::<int>,
            },
            None => None::<int>,
        },
    decreases s.len(),
{
    if s.len() == 0 {
        assert(s.push(c)[0] == c);
        assert(s.push(c).drop_first() =~= Seq::<char>::empty());
        assert(follow(ns, from, s) == Some(from));
        match lookup_edge(ns[from].goto@, c) {
            Some(u) => {
                assert(follow(ns, u as int, s.push(c).drop_first()) == Some(u as int));
                assert(follow(ns, from, s.push(c)) == Some(u as int));
            },
            None => {
                assert(follow(ns, from, s.push(c)) is None);
            },
        }
    } else {
        assert(s.push(c)[0] == s[0]);
        assert(s.push(c).drop_first() =~= s.drop_first().push(c));
        match lookup_edge(ns[from].goto@, s[0]) {
            Some(t1) => {
                lemma_follow_snoc(ns, t1 as int, s.drop_first(), c);
                assert(follow(ns, from, s.push(c)) == follow(ns, t1 as int, s.drop_first().push(c)));
                assert(follow(ns, from, s) == follow(ns, t1 as int, s.drop_first()));
            },
            None => {
                assert(follow(ns, from, s.push(c)) is None);
                assert(follow(ns, from, s) is None);
            },
        }
    }
}

/// `a` and `b` are node arenas of the same shape: equal length, and equal
/// edge lists and paths node for node (outputs and failures may differ).
pub open spec fn structure_same(a: Seq<AutomationNode>, b: Seq<AutomationNode>) -> bool {
    &&& a.len() == b.len()
    &&& forall|i: int|
        0 <= i < a.len() ==> (#[trigger] b[i]).goto@ == a[i].goto@ && b[i].path@ == a[i].path@
}

/// Node for node, the output sets of `a` are prefixes of those of `b`.
pub open spec fn outputs_prefix(a: Seq<AutomationNode>, b: Seq<AutomationNode>) -> bool {
    forall|i: int|
        0 <= i < a.len() ==> {
            &&& a[i].outputs@.len() <= (#[trigger] b[i]).outputs@.len()
            &&& a[i].outputs@ == b[i].outputs@.subrange(0, a[i].outputs@.len() as int)
        }
}

proof fn lemma_trie_wf_same_structure(a: Seq<AutomationNode>, b: Seq<AutomationNode>)
    requires
        trie_wf(a),
        structure_same(a, b),
    ensures
        trie_wf(b),
{
    assert forall|i: int| 0 <= i < b.len() implies node_edges_wf(b, i) by {
        assert(node_edges_wf(a, i));
        assert forall|j: int| 0 <= j < b[i].goto@.len() implies edge_wf(b, i, j) by {
            assert(edge_wf(a, i, j));
        }
    }
    assert forall|i1: int, j1: int, i2: int, j2: int|
        0 <= i1 < b.len() && 0 <= j1 < b[i1].goto@.len() && 0 <= i2 < b.len() && 0 <= j2
            < b[i2].goto@.len() && (#[trigger] b[i1].goto@[j1]).1 == (
    #[trigger] b[i2].goto@[j2]).1 implies i1 == i2 && j1 == j2 by {
        assert(b[i1].goto@[j1] == a[i1].goto@[j1]);
        assert(b[i2].goto@[j2] == a[i2].goto@[j2]);
        assert(unique_parents(a));
    }
    assert forall|t: int| 1 <= t < b.len() implies #[trigger] has_parent(b, t) by {
        assert(has_parent(a, t));
        let (pi, pj) = choose|pi: int, pj: int|
            0 <= pi < a.len() && 0 <= pj < a[pi].goto@.len() && (#[trigger] a[pi].goto@[pj]).1 == t;
        assert(b[pi].goto@[pj] == a[pi].goto@[pj]);
    }
}

/// A duplicate-free sequence of indices below `n` has at most `n` entries.
proof fn lemma_nodup_len_bound(s: Seq<usize>, n: nat)
    requires
        s.no_duplicates(),
        forall|k: int| 0 <= k < s.len() ==> (s[k] as nat) < n,
    ensures
        s.len() <= n,
{
    broadcast use vstd::set::group_set_axioms;

    let t = s.map_values(|x: usize| x as int);
    assert forall|k1: int, k2: int| 0 <= k1 < k2 < t.len() implies t[k1] != t[k2] by {
        assert(s[k1] != s[k2]);
    }
    t.unique_seq_to_set();
    let r = vstd::set_lib::set_int_range(0, n as int);
    vstd::set_lib::lemma_int_range(0, n as int);
    assert forall|x: int| t.to_set().contains(x) implies r.contains(x) by {
        let k = choose|k: int| 0 <= k < t.len() && t[k] == x;
        assert((s[k] as nat) < n);
    }
    vstd::set_lib::lemma_len_subset(t.to_set(), r);
}

/// The failure annotation of node `x` is finished: it points at a
/// discovered node on a strictly shorter suffix path, and `x`'s output set
/// covers its failure target's.
pub open spec fn fail_done(ns: Seq<AutomationNode>, q: Seq<usize>, x: int) -> bool {
    let f = ns[x].failure as int;
    &&& 0 <= f < ns.len()
    &&& q.contains(ns[x].failure)
    &&& is_proper_suffix(ns[f].path@, ns[x].path@)
    &&& forall|m: int|
        0 <= m < ns[f].outputs@.len() ==> ns[x].outputs@.contains(#[trigger] ns[f].outputs@[m])
}

/// Node `t` was discovered by an edge already visited: one leaving a node
/// processed before position `qi`, or one of the first `jcur` edges of the
/// node at position `qi`.
pub open spec fn discovered(
    ns: Seq<AutomationNode>,
    q: Seq<usize>,
    qi: int,
    jcur: int,
    t: int,
) -> bool {
    exists|p: int, j: int|
        0 <= p < q.len() && 0 <= j < ns[q[p] as int].goto@.len() && (
        #[trigger] ns[q[p] as int].goto@[j]).1 == t && (p < qi || (p == qi && j < jcur))
}

/// Every edge already visited has its target in the queue.
pub open spec fn children_done(
    ns: Seq<AutomationNode>,
    q: Seq<usize>,
    qi: int,
    jcur: int,
) -> bool {
    forall|p: int, j: int|
        0 <= p < q.len() && 0 <= j < ns[q[p] as int].goto@.len() && (p < qi || (p == qi && j
            < jcur)) ==> q.contains((#[trigger] ns[q[p] as int].goto@[j]).1)
}

/// The standing facts of the breadth-first failure construction: the queue
/// starts at the root, holds distinct valid indices in order of
/// nondecreasing path length, every discovered non-root node is finished,
/// and the root's failure stays at the root.
pub open spec fn bfs_inv(ns: Seq<AutomationNode>, q: Seq<usize>) -> bool {
    &&& 1 <= q.len() <= ns.len()
    &&& q[0] == 0
    &&& forall|k: int| 0 <= k < q.len() ==> (#[trigger] q[k] as int) < ns.len()
    &&& q.no_duplicates()
    &&& forall|k: int| 1 <= k < q.len() ==> fail_done(ns, q, #[trigger] q[k] as int)
    &&& ns[0].failure == 0
    &&& forall|k1: int, k2: int|
        0 <= k1 <= k2 < q.len() ==> (#[trigger] ns[q[k1] as int].path@).len() <= (
        #[trigger] ns[q[k2] as int].path@).len()
}

/// A queue member on a path strictly shorter than the member at position
/// `qi` sits at a position before `qi`.
proof fn lemma_shallower_is_processed(ns: Seq<AutomationNode>, q: Seq<usize>, qi: int, w: usize)
    requires
        bfs_inv(ns, q),
        0 <= qi < q.len(),
        q.contains(w),
        ns[w as int].path@.len() < ns[q[qi] as int].path@.len(),
    ensures
        exists|k: int| 0 <= k < qi && q[k] == w,
{
    let k = choose|k: int| 0 <= k < q.len() && q[k] == w;
    if k >= qi {
        assert(ns[q[qi] as int].path@.len() <= ns[q[k] as int].path@.len());
        assert(false);
    }
}

/// Facts of `bfs_inv` survive a change to the failure or output set of a
/// single node that the queue has not discovered.
proof fn lemma_bfs_untouched(
    a: Seq<AutomationNode>,
    b: Seq<AutomationNode>,
    q: Seq<usize>,
    v: usize,
)
    requires
        bfs_inv(a, q),
        b.len() == a.len(),
        0 <= v < a.len(),
        v != 0,
        !q.contains(v),
        forall|i: int| 0 <= i < a.len() && i != v ==> a[i] == (#[trigger] b[i]),
        b[v as int].goto@ == a[v as int].goto@,
        b[v as int].path@ == a[v as int].path@,
    ensures
        bfs_inv(b, q),
        structure_same(a, b),
{
    assert forall|k: int| 1 <= k < q.len() implies fail_done(b, q, #[trigger] q[k] as int) by {
        assert(fail_done(a, q, q[k] as int));
        let x = q[k] as int;
        assert(x != v);
        let f = a[x].failure as int;
        assert(q.contains(a[x].failure));
        assert(f != v);
        assert(b[x] == a[x]);
        assert(b[f] == a[f]);
    }
    assert forall|k1: int, k2: int| 0 <= k1 <= k2 < q.len() implies (
    #[trigger] b[q[k1] as int].path@).len() <= (#[trigger] b[q[k2] as int].path@).len() by {
        assert(b[q[k1] as int].path@ == a[q[k1] as int].path@);
        assert(b[q[k2] as int].path@ == a[q[k2] as int].path@);
        assert(a[q[k1] as int].path@.len() <= a[q[k2] as int].path@.len());
    }
    assert forall|i: int| 0 <= i < a.len() implies (#[trigger] b[i]).goto@ == a[i].goto@
        && b[i].path@ == a[i].path@ by {
        if i != v {
            assert(b[i] == a[i]);
        }
    }
}

/// At the end of the traversal every node has been discovered: its unique
/// parent chain consists of nodes with smaller indices, all processed.
proof fn lemma_all_discovered(ns: Seq<AutomationNode>, q: Seq<usize>, t: int)
    requires
        trie_wf(ns),
        bfs_inv(ns, q),
        children_done(ns, q, q.len() as int, 0),
        0 <= t < ns.len(),
    ensures
        q.contains(t as usize),
    decreases t,
{
    if t == 0 {
        assert(q[0] == 0);
    } else {
        assert(has_parent(ns, t));
        let (pi, pj) = choose|pi: int, pj: int|
            0 <= pi < ns.len() && 0 <= pj < ns[pi].goto@.len() && (#[trigger] ns[pi].goto@[pj]).1
                == t;
        assert(node_edges_wf(ns, pi));
        assert(edge_wf(ns, pi, pj));
        assert(pi < t);
        lemma_all_discovered(ns, q, pi);
        let k = choose|k: int| 0 <= k < q.len() && q[k] == pi as usize;
        assert(ns[q[k] as int].goto@[pj].1 == t as usize);
        assert(q.contains(ns[q[k] as int].goto@[pj].1));
    }
}

/// `s` is a suffix of `t` (possibly all of `t`).
pub open spec fn is_suffix_of(s: Seq<char>, t: Seq<char>) -> bool {
    s.len() <= t.len() && s == t.subrange(t.len() - s.len(), t.len() as int)
}

proof fn lemma_suffix_of_trans(a: Seq<char>, b: Seq<char>, c: Seq<char>)
    requires
        is_suffix_of(a, b),
        is_suffix_of(b, c),
    ensures
        is_suffix_of(a, c),
{
    assert(a =~= c.subrange(c.len() - a.len(), c.len() as int));
}

/// Of two suffixes of one sequence, the shorter is a suffix of the longer.
proof fn lemma_suffix_of_same(a: Seq<char>, b: Seq<char>, t: Seq<char>)
    requires
        is_suffix_of(a, t),
        is_suffix_of(b, t),
        a.len() <= b.len(),
    ensures
        is_suffix_of(a, b),
{
    assert(a =~= b.subrange(b.len() - a.len(), b.len() as int));
}

/// A nonempty suffix of `t.push(c)` ends in `c` and its front is a suffix
/// of `t`.
proof fn lemma_suffix_push_decomp(s: Seq<char>, t: Seq<char>, c: char)
    requires
        is_suffix_of(s, t.push(c)),
        s.len() >= 1,
    ensures
        s.last() == c,
        is_suffix_of(s.drop_last(), t),
        s == s.drop_last().push(c),
{
    assert(s.last() == t.push(c).last());
    assert(s.drop_last() =~= t.subrange(t.len() - (s.len() - 1), t.len() as int));
    assert(s =~= s.drop_last().push(c));
}

/// With pairwise distinct symbols, a lookup returns the one matching edge.
proof fn lemma_lookup_unique(g: Seq<(char, usize)>, c: char, j: int)
    requires
        forall|j1: int, j2: int| 0 <= j1 < j2 < g.len() ==> (#[trigger] g[j1]).0 != (#[trigger] g[j2]).0,
        0 <= j < g.len(),
        g[j].0 == c,
    ensures
        lookup_edge(g, c) == Some(g[j].1),
    decreases g.len(),
{
    if j == g.len() - 1 {
    } else {
        assert(g.last().0 != c);
        assert(g.drop_last()[j] == g[j]);
        lemma_lookup_unique(g.drop_last(), c, j);
    }
}

/// `follow` reads only the edge lists, so arenas with equal edge lists
/// agree on it.
proof fn lemma_follow_eq_structure(
    a: Seq<AutomationNode>,
    b: Seq<AutomationNode>,
    from: int,
    s: Seq<char>,
)
    requires
        trie_wf(a),
        a.len() == b.len(),
        forall|i: int| 0 <= i < a.len() ==> (#[trigger] b[i]).goto@ == a[i].goto@,
        0 <= from < a.len(),
    ensures
        follow(a, from, s) == follow(b, from, s),
    decreases s.len(),
{
    if s.len() > 0 {
        match lookup_edge(a[from].goto@, s[0]) {
            Some(t) => {
                lemma_lookup_is_edge(a[from].goto@, s[0], t);
                let j = choose|j: int| 0 <= j < a[from].goto@.len() && a[from].goto@[j] == (s[0], t);
                assert(node_edges_wf(a, from));
                assert(edge_wf(a, from, j));
                lemma_follow_eq_structure(a, b, t as int, s.drop_first());
            },
            None => {},
        }
    }
}

/// Every prefix of a resident path is resident.
pub proof fn lemma_follow_take(ns: Seq<AutomationNode>, from: int, s: Seq<char>, i: int)
    requires
        follow(ns, from, s) is Some,
        0 <= i <= s.len(),
    ensures
        follow(ns, from, s.take(i)) is Some,
    decreases s.len(),
{
    if i == 0 {
        assert(s.take(0) =~= Seq::<char>::empty());
    } else {
        let t = lookup_edge(ns[from].goto@, s[0])->0;
        assert(s.take(i)[0] == s[0]);
        assert(s.take(i).drop_first() =~= s.drop_first().take(i - 1));
        lemma_follow_take(ns, t as int, s.drop_first(), i - 1);
    }
}

/// Following `s` from a node appends `s` to that node's path.
proof fn lemma_follow_path(ns: Seq<AutomationNode>, from: int, s: Seq<char>, t: int)
    requires
        trie_wf(ns),
        0 <= from < ns.len(),
        follow(ns, from, s) == Some(t),
    ensures
        0 <= t < ns.len(),
        ns[t].path@ == ns[from].path@ + s,
    decreases s.len(),
{
    if s.len() == 0 {
        assert(ns[t].path@ =~= ns[from].path@ + s);
    } else {
        let t1 = lookup_edge(ns[from].goto@, s[0])->0;
        lemma_lookup_is_edge(ns[from].goto@, s[0], t1);
        let j = choose|j: int| 0 <= j < ns[from].goto@.len() && ns[from].goto@[j] == (s[0], t1);
        assert(node_edges_wf(ns, from));
        assert(edge_wf(ns, from, j));
        lemma_follow_path(ns, t1 as int, s.drop_first(), t);
        assert(ns[t].path@ =~= ns[from].path@ + s);
    }
}

proof fn lemma_path_faithful_at(ns: Seq<AutomationNode>, n: int)
    requires
        trie_wf(ns),
        0 <= n < ns.len(),
    ensures
        follow(ns, 0, ns[n].path@) == Some(n),
    decreases n,
{
    if n == 0 {
    } else {
        assert(has_parent(ns, n));
        let (pi, pj) = choose|pi: int, pj: int|
            0 <= pi < ns.len() && 0 <= pj < ns[pi].goto@.len() && (#[trigger] ns[pi].goto@[pj]).1
                == n;
        assert(node_edges_wf(ns, pi));
        assert(edge_wf(ns, pi, pj));
        lemma_path_faithful_at(ns, pi);
        let c = ns[pi].goto@[pj].0;
        lemma_lookup_unique(ns[pi].goto@, c, pj);
        lemma_follow_snoc(ns, 0, ns[pi].path@, c);
    }
}

/// Paths are faithful: each node is reached by following its own path, so
/// distinct nodes carry distinct paths.
pub proof fn lemma_paths_faithful(ns: Seq<AutomationNode>)
    requires
        trie_wf(ns),
    ensures
        forall|n: int| 0 <= n < ns.len() ==> follow(ns, 0, (#[trigger] ns[n].path@)) == Some(n),
{
    assert forall|n: int| 0 <= n < ns.len() implies follow(ns, 0, (#[trigger] ns[n].path@)) == Some(
        n,
    ) by {
        lemma_path_faithful_at(ns, n);
    }
}

proof fn lemma_push_contains(s: Seq<usize>, y: usize, x: usize)
    ensures
        s.push(y).contains(x) <==> (s.contains(x) || x == y),
{
    if s.contains(x) {
        let k = choose|k: int| 0 <= k < s.len() && s[k] == x;
        assert(s.push(y)[k] == x);
    }
    if x == y {
        assert(s.push(y)[s.len() as int] == x);
    }
    if s.push(y).contains(x) {
        let k = choose|k: int| 0 <= k < s.push(y).len() && s.push(y)[k] == x;
        if k < s.len() {
            assert(s[k] == x);
        }
    }
}

proof fn lemma_concat_contains(a: Seq<usize>, b: Seq<usize>, x: usize)
    ensures
        (a + b).contains(x) <==> (a.contains(x) || b.contains(x)),
{
    if a.contains(x) {
        let k = choose|k: int| 0 <= k < a.len() && a[k] == x;
        assert((a + b)[k] == x);
    }
    if b.contains(x) {
        let k = choose|k: int| 0 <= k < b.len() && b[k] == x;
        assert((a + b)[a.len() + k] == x);
    }
    if (a + b).contains(x) {
        let k = choose|k: int| 0 <= k < (a + b).len() && (a + b)[k] == x;
        if k < a.len() {
            assert(a[k] == x);
        } else {
            assert(b[k - a.len()] == x);
        }
    }
}

/// The pattern identities below `n` whose pattern equals `p`, in
/// ascending order: the outputs a node owns after trie insertion.
pub open spec fn own_ids(catalog: Seq<Vec<char>>, p: Seq<char>, n: int) -> Seq<usize>
    decreases n,
{
    if n <= 0 {
        Seq::empty()
    } else {
        let r = own_ids(catalog, p, n - 1);
        if catalog[n - 1]@ == p {
            r.push((n - 1) as usize)
        } else {
            r
        }
    }
}

/// The entries of `inherited` not present in `present`, kept in order:
/// what merging appends to a node's own outputs.
pub open spec fn kept(inherited: Seq<usize>, present: Seq<usize>) -> Seq<usize>
    decreases inherited.len(),
{
    if inherited.len() == 0 {
        Seq::empty()
    } else {
        let r = kept(inherited.drop_last(), present);
        if present.contains(inherited.last()) {
            r
        } else {
            r.push(inherited.last())
        }
    }
}

proof fn lemma_own_ids_contains(catalog: Seq<Vec<char>>, p: Seq<char>, n: int, x: usize)
    requires
        n <= catalog.len(),
        catalog.len() <= usize::MAX,
    ensures
        own_ids(catalog, p, n).contains(x) <==> (0 <= (x as int) < n && catalog[x as int]@ == p),
    decreases n,
{
    if n > 0 {
        lemma_own_ids_contains(catalog, p, n - 1, x);
        if catalog[n - 1]@ == p {
            lemma_push_contains(own_ids(catalog, p, n - 1), (n - 1) as usize, x);
        }
    }
}

proof fn lemma_own_ids_empty(catalog: Seq<Vec<char>>, p: Seq<char>, n: int)
    requires
        forall|k: int| 0 <= k < n ==> (#[trigger] catalog[k])@ != p,
    ensures
        own_ids(catalog, p, n) == Seq::<usize>::empty(),
    decreases n,
{
    if n > 0 {
        lemma_own_ids_empty(catalog, p, n - 1);
    }
}

proof fn lemma_own_ids_prefix(cat1: Seq<Vec<char>>, cat2: Seq<Vec<char>>, p: Seq<char>, n: int)
    requires
        n <= cat1.len(),
        n <= cat2.len(),
        forall|k: int| 0 <= k < n ==> (#[trigger] cat1[k]) == cat2[k],
    ensures
        own_ids(cat1, p, n) == own_ids(cat2, p, n),
    decreases n,
{
    if n > 0 {
        lemma_own_ids_prefix(cat1, cat2, p, n - 1);
    }
}

proof fn lemma_kept_contains(inherited: Seq<usize>, present: Seq<usize>, x: usize)
    ensures
        kept(inherited, present).contains(x) <==> (inherited.contains(x) && !present.contains(x)),
    decreases inherited.len(),
{
    if inherited.len() > 0 {
        lemma_kept_contains(inherited.drop_last(), present, x);
        let r = kept(inherited.drop_last(), present);
        if !present.contains(inherited.last()) {
            lemma_push_contains(r, inherited.last(), x);
        }
        if inherited.contains(x) {
            let k = choose|k: int| 0 <= k < inherited.len() && inherited[k] == x;
            if k < inherited.len() - 1 {
                assert(inherited.drop_last()[k] == x);
            }
        }
        if inherited.drop_last().contains(x) {
            let k = choose|k: int| 0 <= k < inherited.len() - 1 && inherited.drop_last()[k] == x;
            assert(inherited[k] == x);
        }
    }
}

/// The failure link of node `i` is optimal: no strictly longer proper
/// suffix of `i`'s path is resident in the trie.
pub open spec fn failure_longest_at(ns: Seq<AutomationNode>, i: int) -> bool {
    forall|s: Seq<char>|
        is_proper_suffix(s, ns[i].path@) && (#[trigger] follow(ns, 0, s)) is Some ==> s.len()
            <= ns[ns[i].failure as int].path@.len()
}

/// The output set of node `i` holds exactly the identities of the patterns
/// that are suffixes of `i`'s path.
pub open spec fn outputs_exact_at(ns: Seq<AutomationNode>, catalog: Seq<Vec<char>>, i: int) -> bool {
    forall|x: usize|
        #[trigger] ns[i].outputs@.contains(x) <==> ((x as int) < catalog.len() && is_suffix_of(
            catalog[x as int]@,
            ns[i].path@,
        ))
}

/// The output list of node `i` is its own identities in insertion order,
/// then those inherited from its failure target in their order, skipping
/// values already present.
pub open spec fn outputs_ordered_at(
    ns: Seq<AutomationNode>,
    catalog: Seq<Vec<char>>,
    i: int,
) -> bool {
    if i == 0 {
        ns[0].outputs@ == own_ids(catalog, ns[0].path@, catalog.len() as int)
    } else {
        ns[i].outputs@ == own_ids(catalog, ns[i].path@, catalog.len() as int) + kept(
            ns[ns[i].failure as int].outputs@,
            own_ids(catalog, ns[i].path@, catalog.len() as int),
        )
    }
}

/// Node `i` carries exactly its own identities, as after trie insertion.
pub open spec fn own_only_at(ns: Seq<AutomationNode>, catalog: Seq<Vec<char>>, i: int) -> bool {
    ns[i].outputs@ == own_ids(catalog, ns[i].path@, catalog.len() as int)
}

/// Every catalogued pattern spells a resident path.
pub open spec fn patterns_present(ns: Seq<AutomationNode>, catalog: Seq<Vec<char>>) -> bool {
    forall|k: int| 0 <= k < catalog.len() ==> follow(ns, 0, (#[trigger] catalog[k])@) is Some
}

/// No junk nodes: every non-root node's path is a nonempty prefix of some
/// catalogued pattern.
pub open spec fn path_in_catalog(ns: Seq<AutomationNode>, catalog: Seq<Vec<char>>, n: int) -> bool {
    exists|k: int|
        0 <= k < catalog.len() && 1 <= ns[n].path@.len() <= (#[trigger] catalog[k])@.len()
            && ns[n].path@ == catalog[k]@.take(ns[n].path@.len() as int)
}

pub open spec fn paths_within(ns: Seq<AutomationNode>, catalog: Seq<Vec<char>>) -> bool {
    forall|n: int| 1 <= n < ns.len() ==> #[trigger] path_in_catalog(ns, catalog, n)
}

/// The length of the longest prefix of `s` that is resident in the trie.
pub open spec fn present_len(ns: Seq<AutomationNode>, s: Seq<char>) -> int
    decreases s.len(),
{
    if follow(ns, 0, s) is Some {
        s.len() as int
    } else {
        present_len(ns, s.drop_last())
    }
}

proof fn lemma_present_len(ns: Seq<AutomationNode>, s: Seq<char>)
    ensures
        0 <= present_len(ns, s) <= s.len(),
        follow(ns, 0, s.take(present_len(ns, s))) is Some,
        forall|i: int| present_len(ns, s) < i <= s.len() ==> follow(ns, 0, #[trigger] s.take(i)) is None,
    decreases s.len(),
{
    if follow(ns, 0, s) is Some {
        assert(s.take(s.len() as int) =~= s);
    } else {
        lemma_present_len(ns, s.drop_last());
        let pl = present_len(ns, s);
        assert(s.drop_last() =~= s.take(s.len() - 1));
        assert forall|i: int| 0 <= i <= s.len() - 1 implies s.drop_last().take(i) =~= s.take(i) by {}
        assert(follow(ns, 0, s.take(pl)) is Some);
        assert forall|i: int| pl < i <= s.len() implies follow(ns, 0, #[trigger] s.take(i)) is None by {
            if i <= s.len() - 1 {
                assert(follow(ns, 0, s.drop_last().take(i)) is None);
            } else {
                assert(s.take(i) =~= s);
            }
        }
    }
}

/// A pattern: a finite ordered sequence of symbols.
pub trait Pattern {
    /// The symbol sequence this pattern stands for.
    spec fn symbols(&self) -> Seq<char>;

    /// The symbols, in order.
    fn iter(&self) -> (r: Vec<char>)
        ensures
            r@ == self.symbols(),
    ;
}

impl Pattern for Vec<char> {
    open spec fn symbols(&self) -> Seq<char> {
        self@
    }

    fn iter(&self) -> (r: Vec<char>) {
        let mut out: Vec<char> = Vec::new();
        let mut k: usize = 0;
        while k < self.len()
            invariant
                k <= self@.len(),
                out@ == self@.take(k as int),
            decreases self@.len() - k,
        {
            out.push(self[k]);
            proof {
                assert(self@.take(k + 1 as int) =~= self@.take(k as int).push(self@[k as int]));
            }
            k = k + 1;
        }
        proof {
            assert(self@.take(self@.len() as int) =~= self@);
        }
        out
    }
}

/// The finished automaton: the node arena (node 0 is the root) and the
/// catalog mapping each pattern identity to the pattern it was assigned for.
pub struct Automation {
    pub nodes: Vec<AutomationNode>,
    pub outputs: Vec<Vec<char>>,
}

impl Automation {
    /// Everything construction guarantees: a well-formed trie whose failure
    /// links point at strictly shorter suffix paths and whose output sets
    /// are duplicate-free, closed over the failure links, and in range.
    pub open spec fn wf(&self) -> bool {
        &&& trie_wf(self.nodes@)
        &&& forall|i: int| 0 <= i < self.nodes@.len() ==> node_fail_wf(self.nodes@, i)
        &&& outputs_bounded(self.nodes@, self.outputs@.len() as int)
        &&& forall|i: int| 1 <= i < self.nodes@.len() ==> #[trigger] failure_longest_at(self.nodes@, i)
        &&& forall|i: int|
            0 <= i < self.nodes@.len() ==> #[trigger] outputs_exact_at(self.nodes@, self.outputs@, i)
        &&& forall|i: int|
            0 <= i < self.nodes@.len() ==> #[trigger] outputs_ordered_at(
                self.nodes@,
                self.outputs@,
                i,
            )
        &&& patterns_present(self.nodes@, self.outputs@)
        &&& paths_within(self.nodes@, self.outputs@)
    }

    /// Insert one pattern: walk the trie from the root, allocating fresh
    /// nodes where no edge exists, then record a fresh pattern identity at
    /// the terminal node and the pattern itself in the catalog.
    fn add_item<P: Pattern>(&mut self, item: &P)
        requires
            trie_wf(old(self).nodes@),
            failures_zero(old(self).nodes@),
            outputs_bounded(old(self).nodes@, old(self).outputs@.len() as int),
            forall|i: int|
                0 <= i < old(self).nodes@.len() ==> #[trigger] own_only_at(
                    old(self).nodes@,
                    old(self).outputs@,
                    i,
                ),
            patterns_present(old(self).nodes@, old(self).outputs@),
            paths_within(old(self).nodes@, old(self).outputs@),
        ensures
            trie_wf(final(self).nodes@),
            failures_zero(final(self).nodes@),
            outputs_bounded(final(self).nodes@, final(self).outputs@.len() as int),
            trie_extends(old(self).nodes@, final(self).nodes@),
            forall|i: int|
                0 <= i < final(self).nodes@.len() ==> #[trigger] own_only_at(
                    final(self).nodes@,
                    final(self).outputs@,
                    i,
                ),
            patterns_present(final(self).nodes@, final(self).outputs@),
            paths_within(final(self).nodes@, final(self).outputs@),
            final(self).outputs@.len() == old(self).outputs@.len() + 1,
            final(self).nodes@.len() == old(self).nodes@.len() + item.symbols().len()
                - present_len(old(self).nodes@, item.symbols()),
            forall|k: int| 0 <= k < old(self).outputs@.len() ==> final(self).outputs@[k] == old(
                self,
            ).outputs@[k],
            final(self).outputs@.last()@ == item.symbols(),
            ({
                let t = follow(final(self).nodes@, 0, item.symbols());
                &&& t is Some
                &&& 0 <= t->0 < final(self).nodes@.len()
                &&& final(self).nodes@[t->0].outputs@.contains(
                    (final(self).outputs@.len() - 1) as usize,
                )
            }),
    {
        let syms = item.iter();
        let ghost orig = self.nodes@;
        let ghost origout = self.outputs@;
        let ghost pl = present_len(orig, syms@);
        let mut node_idx: usize = 0;
        let mut pos: usize = 0;
        proof {
            assert(syms@.take(0) =~= Seq::<char>::empty());
            lemma_extends_refl(orig);
            lemma_present_len(orig, syms@);
        }
        while pos < syms.len()
            invariant
                pos <= syms@.len(),
                trie_wf(self.nodes@),
                failures_zero(self.nodes@),
                outputs_bounded(self.nodes@, origout.len() as int),
                trie_extends(orig, self.nodes@),
                self.outputs@ == origout,
                node_idx < self.nodes@.len(),
                follow(self.nodes@, 0, syms@.take(pos as int)) == Some(node_idx as int),
                self.nodes@[node_idx as int].path@ == syms@.take(pos as int),
                forall|i: int|
                    0 <= i < self.nodes@.len() ==> #[trigger] own_only_at(
                        self.nodes@,
                        origout,
                        i,
                    ),
                patterns_present(self.nodes@, origout),
                forall|n: int|
                    1 <= n < self.nodes@.len() ==> path_in_catalog(self.nodes@, origout, n) || (1
                        <= (#[trigger] self.nodes@[n].path@).len() <= pos && self.nodes@[n].path@
                        == syms@.take(self.nodes@[n].path@.len() as int)),
                pl == present_len(orig, syms@),
                0 <= pl <= syms@.len(),
                follow(orig, 0, syms@.take(pl)) is Some,
                forall|i: int|
                    pl < i <= syms@.len() ==> follow(orig, 0, #[trigger] syms@.take(i)) is None,
                pos <= pl ==> self.nodes@ == orig,
                pos > pl ==> self.nodes@.len() == orig.len() + pos - pl && node_idx as int
                    == self.nodes@.len() - 1 && self.nodes@[node_idx as int].goto@.len() == 0,
            decreases syms@.len() - pos,
        {
            let c = syms[pos];
            let ghost pre = self.nodes@;
            match self.nodes[node_idx].enter_child(c) {
                Some(n) => {
                    proof {
                        // an edge was found, so the walk is still inside the
                        // resident prefix
                        if pos > pl {
                            assert(pre[node_idx as int].goto@ =~= Seq::<(char, usize)>::empty());
                            assert(false);
                        }
                        if pos == pl {
                            lemma_follow_snoc(pre, 0, syms@.take(pos as int), c);
                            assert(syms@.take(pos as int + 1) =~= syms@.take(pos as int).push(c));
                            assert(follow(orig, 0, syms@.take(pos as int + 1)) is Some);
                            assert(follow(orig, 0, syms@.take(pl + 1)) is None);
                            assert(false);
                        }
                        lemma_lookup_is_edge(pre[node_idx as int].goto@, c, n);
                        let j = choose|j: int|
                            0 <= j < pre[node_idx as int].goto@.len() && pre[node_idx
                                as int].goto@[j] == (c, n);
                        assert(node_edges_wf(pre, node_idx as int));
                        assert(edge_wf(pre, node_idx as int, j));
                        lemma_follow_snoc(pre, 0, syms@.take(pos as int), c);
                        assert(syms@.take(pos as int + 1) =~= syms@.take(pos as int).push(c));
                    }
                    node_idx = n;
                },
                None => {
                    proof {
                        // no edge: the resident prefix ends here or earlier
                        if pos < pl {
                            lemma_follow_take(orig, 0, syms@.take(pl), pos as int + 1);
                            assert(syms@.take(pl).take(pos as int + 1) =~= syms@.take(
                                pos as int + 1,
                            ));
                            lemma_follow_snoc(pre, 0, syms@.take(pos as int), c);
                            assert(syms@.take(pos as int + 1) =~= syms@.take(pos as int).push(c));
                            assert(follow(pre, 0, syms@.take(pos as int + 1)) is None);
                            assert(false);
                        }
                    }
                    let new_idx = self.nodes.len();
                    let ghost parent_path = self.nodes@[node_idx as int].path@;
                    let mut node = AutomationNode::new();
                    node.path = Ghost(parent_path.push(c));
                    self.nodes.push(node);
                    self.nodes[node_idx].add_child(c, new_idx);
                    proof {
                        let ns = self.nodes@;
                        lemma_lookup_none(pre[node_idx as int].goto@, c);
                        // the one changed node keeps everything but one new edge
                        assert(ns[node_idx as int].goto@ == pre[node_idx as int].goto@.push(
                            (c, new_idx as usize),
                        ));
                        assert(forall|i: int|
                            0 <= i < pre.len() && i != node_idx ==> ns[i] == pre[i]);
                        assert(ns[new_idx as int].goto@ =~= Seq::<(char, usize)>::empty());
                        assert(ns[new_idx as int].path@ == parent_path.push(c));
                        // the trie is still well formed
                        assert forall|i: int| 0 <= i < ns.len() implies node_edges_wf(ns, i) by {
                            if i < pre.len() {
                                assert(node_edges_wf(pre, i));
                                if i == node_idx {
                                    assert(forall|j: int|
                                        0 <= j < pre[i].goto@.len() ==> ns[i].goto@[j] == pre[i].goto@[j]);
                                    assert forall|j: int|
                                        0 <= j < ns[i].goto@.len() implies edge_wf(ns, i, j) by {
                                        if j < pre[i].goto@.len() {
                                            assert(edge_wf(pre, i, j));
                                        }
                                    }
                                } else {
                                    assert forall|j: int|
                                        0 <= j < ns[i].goto@.len() implies edge_wf(ns, i, j) by {
                                        assert(edge_wf(pre, i, j));
                                    }
                                }
                            }
                        }
                        assert forall|i1: int, j1: int, i2: int, j2: int|
                            0 <= i1 < ns.len() && 0 <= j1 < ns[i1].goto@.len() && 0 <= i2
                                < ns.len() && 0 <= j2 < ns[i2].goto@.len() && (
                            #[trigger] ns[i1].goto@[j1]).1 == (#[trigger] ns[i2].goto@[j2]).1
                            implies i1 == i2 && j1 == j2 by {
                            let new_edge = (i1 == node_idx && j1 == pre[node_idx as int].goto@.len());
                            let new_edge2 = (i2 == node_idx && j2 == pre[node_idx
                                as int].goto@.len());
                            assert(i1 < pre.len());
                            assert(i2 < pre.len());
                            if !new_edge {
                                assert(ns[i1].goto@[j1] == pre[i1].goto@[j1]);
                                assert(node_edges_wf(pre, i1));
                                assert(edge_wf(pre, i1, j1));
                            }
                            if !new_edge2 {
                                assert(ns[i2].goto@[j2] == pre[i2].goto@[j2]);
                                assert(node_edges_wf(pre, i2));
                                assert(edge_wf(pre, i2, j2));
                            }
                            if new_edge && new_edge2 {
                            } else if !new_edge && !new_edge2 {
                                assert(unique_parents(pre));
                            } else {
                                // one is the fresh edge targeting new_idx, the other
                                // an old edge whose target is below new_idx
                                assert(false);
                            }
                        }
                        assert forall|t: int| 1 <= t < ns.len() implies #[trigger] has_parent(
                            ns,
                            t,
                        ) by {
                            if t < pre.len() {
                                assert(has_parent(pre, t));
                                let (pi, pj) = choose|pi: int, pj: int|
                                    0 <= pi < pre.len() && 0 <= pj < pre[pi].goto@.len() && (
                                    #[trigger] pre[pi].goto@[pj]).1 == t;
                                assert(ns[pi].goto@[pj] == pre[pi].goto@[pj]);
                                assert(has_parent(ns, t));
                            } else {
                                assert(ns[node_idx as int].goto@[pre[node_idx
                                    as int].goto@.len() as int].1 == t);
                                assert(has_parent(ns, t));
                            }
                        }
                        assert(trie_wf(ns));
                        // extension from the state at loop entry
                        assert forall|i: int| 0 <= i < pre.len() implies {
                            &&& (#[trigger] ns[i]).path@ == pre[i].path@
                            &&& pre[i].goto@.len() <= ns[i].goto@.len()
                            &&& pre[i].goto@ == ns[i].goto@.subrange(0, pre[i].goto@.len() as int)
                            &&& forall|j: int|
                                pre[i].goto@.len() <= j < ns[i].goto@.len() ==> lookup_edge(
                                    pre[i].goto@,
                                    (#[trigger] ns[i].goto@[j]).0,
                                ) is None
                            &&& pre[i].outputs@.len() <= ns[i].outputs@.len()
                            &&& pre[i].outputs@ == ns[i].outputs@.subrange(
                                0,
                                pre[i].outputs@.len() as int,
                            )
                        } by {
                            assert(pre[i].goto@ =~= ns[i].goto@.subrange(
                                0,
                                pre[i].goto@.len() as int,
                            ));
                            assert(pre[i].outputs@ =~= ns[i].outputs@.subrange(
                                0,
                                pre[i].outputs@.len() as int,
                            ));
                        }
                        assert(trie_extends(pre, ns));
                        lemma_extends_trans(orig, pre, ns);
                        // the walk invariant advances by the fresh edge
                        lemma_follow_extends(pre, ns, 0, syms@.take(pos as int), node_idx as int);
                        lemma_follow_snoc(ns, 0, syms@.take(pos as int), c);
                        assert(lookup_edge(ns[node_idx as int].goto@, c) == Some(new_idx as usize));
                        assert(syms@.take(pos as int + 1) =~= syms@.take(pos as int).push(c));
                        // the fresh node owns no identity: its path is new
                        let newpath = parent_path.push(c);
                        assert(newpath == syms@.take(pos as int + 1));
                        assert forall|k: int| 0 <= k < origout.len() implies (
                        #[trigger] origout[k])@ != newpath by {
                            if origout[k]@ == newpath {
                                assert(follow(pre, 0, origout[k]@) is Some);
                                lemma_follow_snoc(pre, 0, syms@.take(pos as int), c);
                                assert(follow(pre, 0, newpath) is None);
                            }
                        }
                        lemma_own_ids_empty(origout, newpath, origout.len() as int);
                        assert forall|i: int| 0 <= i < ns.len() implies #[trigger] own_only_at(
                            ns,
                            origout,
                            i,
                        ) by {
                            if i < pre.len() {
                                assert(own_only_at(pre, origout, i));
                                assert(ns[i].outputs@ == pre[i].outputs@);
                                assert(ns[i].path@ == pre[i].path@);
                            } else {
                                assert(ns[i].outputs@ == Seq::<usize>::empty());
                                assert(ns[i].path@ == newpath);
                            }
                        }
                        assert forall|k: int| 0 <= k < origout.len() implies follow(
                            ns,
                            0,
                            (#[trigger] origout[k])@,
                        ) is Some by {
                            let t = follow(pre, 0, origout[k]@)->0;
                            lemma_follow_extends(pre, ns, 0, origout[k]@, t);
                        }
                        assert forall|n: int| 1 <= n < ns.len() implies path_in_catalog(
                            ns,
                            origout,
                            n,
                        ) || (1 <= (#[trigger] ns[n].path@).len() <= pos + 1 && ns[n].path@
                            == syms@.take(ns[n].path@.len() as int)) by {
                            if n < pre.len() {
                                assert(ns[n].path@ == pre[n].path@);
                                if path_in_catalog(pre, origout, n) {
                                    let k = choose|k: int|
                                        0 <= k < origout.len() && 1 <= pre[n].path@.len()
                                            <= (#[trigger] origout[k])@.len() && pre[n].path@
                                            == origout[k]@.take(pre[n].path@.len() as int);
                                    assert(path_in_catalog(ns, origout, n));
                                }
                            } else {
                                assert(ns[n].path@ == syms@.take(pos as int + 1));
                                assert(ns[n].path@.len() == pos + 1);
                            }
                        }
                    }
                    node_idx = new_idx;
                },
            }
            pos = pos + 1;
        }
        proof {
            assert(syms@.take(syms@.len() as int) =~= syms@);
        }
        let oid = self.outputs.len();
        let ghost pre = self.nodes@;
        self.nodes[node_idx].add_output(oid);
        self.outputs.push(syms);
        proof {
            let ns = self.nodes@;
            assert(forall|i: int| 0 <= i < pre.len() && i != node_idx ==> ns[i] == pre[i]);
            assert(ns[node_idx as int].goto@ == pre[node_idx as int].goto@);
            assert(ns[node_idx as int].path@ == pre[node_idx as int].path@);
            assert(ns[node_idx as int].outputs@ == pre[node_idx as int].outputs@.push(oid));
            assert forall|i: int| 0 <= i < ns.len() implies node_edges_wf(ns, i) by {
                assert(node_edges_wf(pre, i));
                assert forall|j: int| 0 <= j < ns[i].goto@.len() implies edge_wf(ns, i, j) by {
                    assert(edge_wf(pre, i, j));
                }
            }
            assert forall|i1: int, j1: int, i2: int, j2: int|
                0 <= i1 < ns.len() && 0 <= j1 < ns[i1].goto@.len() && 0 <= i2 < ns.len() && 0 <= j2
                    < ns[i2].goto@.len() && (#[trigger] ns[i1].goto@[j1]).1 == (
            #[trigger] ns[i2].goto@[j2]).1 implies i1 == i2 && j1 == j2 by {
                assert(ns[i1].goto@[j1] == pre[i1].goto@[j1]);
                assert(ns[i2].goto@[j2] == pre[i2].goto@[j2]);
                assert(unique_parents(pre));
            }
            assert forall|t: int| 1 <= t < ns.len() implies #[trigger] has_parent(ns, t) by {
                assert(has_parent(pre, t));
                let (pi, pj) = choose|pi: int, pj: int|
                    0 <= pi < pre.len() && 0 <= pj < pre[pi].goto@.len() && (
                    #[trigger] pre[pi].goto@[pj]).1 == t;
                assert(ns[pi].goto@[pj] == pre[pi].goto@[pj]);
                assert(has_parent(ns, t));
            }
            assert(trie_wf(ns));
            // output sets stay duplicate-free and within the enlarged bound
            assert forall|i: int| 0 <= i < ns.len() implies {
                &&& (#[trigger] ns[i].outputs@).no_duplicates()
                &&& forall|k: int|
                    0 <= k < ns[i].outputs@.len() ==> (#[trigger] ns[i].outputs@[k]) < origout.len()
                        + 1
            } by {
                if i == node_idx {
                    let po = pre[node_idx as int].outputs@;
                    assert(forall|k: int| 0 <= k < po.len() ==> (#[trigger] po[k]) < origout.len());
                    assert(!po.contains(oid));
                    assert forall|k1: int, k2: int|
                        0 <= k1 < k2 < ns[i].outputs@.len() implies ns[i].outputs@[k1] != ns[i].outputs@[k2] by {
                        if k2 == po.len() {
                            assert(ns[i].outputs@[k1] == po[k1]);
                            assert(!po.contains(oid));
                            if po[k1] == oid {
                                assert(po.contains(oid));
                            }
                        }
                    }
                }
            }
            assert(outputs_bounded(ns, origout.len() as int + 1));
            // extension, and the terminal node carries the fresh identity
            assert forall|i: int| 0 <= i < pre.len() implies {
                &&& (#[trigger] ns[i]).path@ == pre[i].path@
                &&& pre[i].goto@.len() <= ns[i].goto@.len()
                &&& pre[i].goto@ == ns[i].goto@.subrange(0, pre[i].goto@.len() as int)
                &&& forall|j: int|
                    pre[i].goto@.len() <= j < ns[i].goto@.len() ==> lookup_edge(
                        pre[i].goto@,
                        (#[trigger] ns[i].goto@[j]).0,
                    ) is None
                &&& pre[i].outputs@.len() <= ns[i].outputs@.len()
                &&& pre[i].outputs@ == ns[i].outputs@.subrange(0, pre[i].outputs@.len() as int)
            } by {
                assert(pre[i].goto@ =~= ns[i].goto@.subrange(0, pre[i].goto@.len() as int));
                assert(pre[i].outputs@ =~= ns[i].outputs@.subrange(0, pre[i].outputs@.len() as int));
            }
            assert(trie_extends(pre, ns));
            lemma_extends_trans(orig, pre, ns);
            lemma_follow_extends(pre, ns, 0, syms@, node_idx as int);
            assert(ns[node_idx as int].outputs@.last() == oid);
            assert(ns[node_idx as int].outputs@.contains(oid));
            // the catalog gained this pattern; each node still owns exactly
            // the identities of the patterns equal to its path
            let cat2 = self.outputs@;
            assert(cat2 == origout.push(syms));
            assert(cat2[origout.len() as int]@ == syms@);
            lemma_paths_faithful(ns);
            assert forall|i: int| 0 <= i < ns.len() implies #[trigger] own_only_at(
                ns,
                cat2,
                i,
            ) by {
                assert(own_only_at(pre, origout, i));
                lemma_own_ids_prefix(origout, cat2, ns[i].path@, origout.len() as int);
                if i == node_idx {
                    assert(ns[i].path@ == syms@);
                    assert(own_ids(cat2, ns[i].path@, cat2.len() as int) == own_ids(
                        cat2,
                        ns[i].path@,
                        origout.len() as int,
                    ).push(oid));
                } else {
                    assert(follow(ns, 0, ns[i].path@) == Some(i));
                    assert(follow(ns, 0, ns[node_idx as int].path@) == Some(node_idx as int));
                    assert(ns[node_idx as int].path@ == syms@);
                    assert(ns[i].path@ != syms@);
                    assert(own_ids(cat2, ns[i].path@, cat2.len() as int) == own_ids(
                        cat2,
                        ns[i].path@,
                        origout.len() as int,
                    ));
                    assert(ns[i].outputs@ == pre[i].outputs@);
                }
            }
            assert forall|k: int| 0 <= k < cat2.len() implies follow(
                ns,
                0,
                (#[trigger] cat2[k])@,
            ) is Some by {
                if k < origout.len() {
                    let t = follow(pre, 0, origout[k]@)->0;
                    lemma_follow_extends(pre, ns, 0, origout[k]@, t);
                } else {
                    assert(cat2[k]@ == syms@);
                }
            }
            assert forall|n: int| 1 <= n < ns.len() implies path_in_catalog(ns, cat2, n) by {
                assert(ns[n].path@ == pre[n].path@);
                if path_in_catalog(pre, origout, n) {
                    let k = choose|k: int|
                        0 <= k < origout.len() && 1 <= pre[n].path@.len() <= (
                        #[trigger] origout[k])@.len() && pre[n].path@ == origout[k]@.take(
                            pre[n].path@.len() as int,
                        );
                    assert(cat2[k] == origout[k]);
                    assert(path_in_catalog(ns, cat2, n));
                } else {
                    assert(1 <= ns[n].path@.len() <= syms@.len() && ns[n].path@ == syms@.take(
                        ns[n].path@.len() as int,
                    ));
                    assert(cat2[origout.len() as int]@ == syms@);
                    assert(syms@.take(syms@.len() as int) =~= syms@);
                    assert(path_in_catalog(ns, cat2, n));
                }
            }
        }
    }

    /// Insert every pattern of the collection, in order; pattern `k` is
    /// assigned the identity `k` past the identities already in the catalog.
    fn add_items<P: Pattern>(&mut self, items: &Vec<P>)
        requires
            trie_wf(old(self).nodes@),
            failures_zero(old(self).nodes@),
            outputs_bounded(old(self).nodes@, old(self).outputs@.len() as int),
            forall|i: int|
                0 <= i < old(self).nodes@.len() ==> #[trigger] own_only_at(
                    old(self).nodes@,
                    old(self).outputs@,
                    i,
                ),
            patterns_present(old(self).nodes@, old(self).outputs@),
            paths_within(old(self).nodes@, old(self).outputs@),
        ensures
            trie_wf(final(self).nodes@),
            failures_zero(final(self).nodes@),
            outputs_bounded(final(self).nodes@, final(self).outputs@.len() as int),
            trie_extends(old(self).nodes@, final(self).nodes@),
            forall|i: int|
                0 <= i < final(self).nodes@.len() ==> #[trigger] own_only_at(
                    final(self).nodes@,
                    final(self).outputs@,
                    i,
                ),
            patterns_present(final(self).nodes@, final(self).outputs@),
            paths_within(final(self).nodes@, final(self).outputs@),
            final(self).outputs@.len() == old(self).outputs@.len() + items@.len(),
            forall|k: int|
                0 <= k < items@.len() ==> (#[trigger] final(self).outputs@[old(
                    self,
                ).outputs@.len() + k])@ == items@[k].symbols(),
            forall|k: int|
                0 <= k < items@.len() ==> {
                    let t = follow(final(self).nodes@, 0, #[trigger] items@[k].symbols());
                    &&& t is Some
                    &&& 0 <= t->0 < final(self).nodes@.len()
                    &&& final(self).nodes@[t->0].outputs@.contains(
                        (old(self).outputs@.len() + k) as usize,
                    )
                },
    {
        let ghost base = self.outputs@.len() as int;
        let mut idx: usize = 0;
        proof {
            lemma_extends_refl(self.nodes@);
        }
        while idx < items.len()
            invariant
                idx <= items@.len(),
                base == old(self).outputs@.len(),
                trie_wf(self.nodes@),
                failures_zero(self.nodes@),
                outputs_bounded(self.nodes@, self.outputs@.len() as int),
                trie_extends(old(self).nodes@, self.nodes@),
                forall|i: int|
                    0 <= i < self.nodes@.len() ==> #[trigger] own_only_at(
                        self.nodes@,
                        self.outputs@,
                        i,
                    ),
                patterns_present(self.nodes@, self.outputs@),
                paths_within(self.nodes@, self.outputs@),
                self.outputs@.len() == base + idx,
                forall|k: int|
                    0 <= k < idx ==> (#[trigger] self.outputs@[base + k])@ == items@[k].symbols(),
                forall|k: int|
                    0 <= k < idx ==> {
                        let t = follow(self.nodes@, 0, #[trigger] items@[k].symbols());
                        &&& t is Some
                        &&& 0 <= t->0 < self.nodes@.len()
                        &&& self.nodes@[t->0].outputs@.contains((base + k) as usize)
                    },
            decreases items@.len() - idx,
        {
            let ghost pre = self.nodes@;
            let ghost preout = self.outputs@;
            self.add_item(&items[idx]);
            proof {
                lemma_extends_trans(old(self).nodes@, pre, self.nodes@);
                assert(self.outputs@.len() == base + idx + 1);
                assert((items@[idx as int]).symbols() == items@[idx as int].symbols());
                assert(self.outputs@[base + idx]@ == items@[idx as int].symbols());
                assert forall|k: int| 0 <= k < idx implies #[trigger] self.outputs@[base + k]
                    == preout[base + k] by {
                    let kk = base + k;
                    assert(0 <= kk < preout.len());
                    assert(self.outputs@[kk] == preout[kk]);
                }
                assert forall|k: int| 0 <= k < idx + 1 implies {
                    let t = follow(self.nodes@, 0, #[trigger] items@[k].symbols());
                    &&& t is Some
                    &&& 0 <= t->0 < self.nodes@.len()
                    &&& self.nodes@[t->0].outputs@.contains((base + k) as usize)
                } by {
                    if k < idx {
                        let t = follow(pre, 0, items@[k].symbols());
                        lemma_follow_extends(pre, self.nodes@, 0, items@[k].symbols(), t->0);
                        lemma_outputs_extend(pre, self.nodes@, t->0, (base + k) as usize);
                    } else {
                        assert(items@[k].symbols() == items@[idx as int].symbols());
                    }
                }
            }
            idx = idx + 1;
        }
    }

}

/// Pushing a value not yet present keeps a sequence duplicate-free.
proof fn lemma_nodup_push(s: Seq<usize>, x: usize)
    requires
        s.no_duplicates(),
        !s.contains(x),
    ensures
        s.push(x).no_duplicates(),
{
    assert forall|k1: int, k2: int| 0 <= k1 < k2 < s.push(x).len() implies s.push(x)[k1] != s.push(
        x,
    )[k2] by {
        if k2 == s.len() {
            if s[k1] == x {
                assert(s.contains(x));
            }
        }
    }
}

/// A node with the empty path and only its own identities reports exactly
/// the empty patterns.
proof fn lemma_exact_root(ns: Seq<AutomationNode>, catalog: Seq<Vec<char>>)
    requires
        1 <= ns.len(),
        catalog.len() <= usize::MAX,
        own_only_at(ns, catalog, 0),
        ns[0].path@ == Seq::<char>::empty(),
    ensures
        outputs_exact_at(ns, catalog, 0),
{
    assert forall|x: usize| #[trigger] ns[0].outputs@.contains(x) <==> ((x as int) < catalog.len()
        && is_suffix_of(catalog[x as int]@, ns[0].path@)) by {
        lemma_own_ids_contains(catalog, ns[0].path@, catalog.len() as int, x);
        if (x as int) < catalog.len() && is_suffix_of(catalog[x as int]@, ns[0].path@) {
            assert(catalog[x as int]@ =~= Seq::<char>::empty());
        }
        if (x as int) < catalog.len() && catalog[x as int]@ == ns[0].path@ {
            assert(is_suffix_of(catalog[x as int]@, ns[0].path@)) by {
                assert(catalog[x as int]@ =~= ns[0].path@.subrange(0, 0));
            }
        }
    }
}

/// After merging, a node reports exactly the patterns that are suffixes of
/// its path: its own matches, and by optimality of the failure link every
/// strictly shorter resident suffix match comes through the failure target.
proof fn lemma_exact_merge(ns: Seq<AutomationNode>, catalog: Seq<Vec<char>>, v: int, f: int)
    requires
        0 <= v < ns.len(),
        0 <= f < ns.len(),
        catalog.len() <= usize::MAX,
        ns[v].failure as int == f,
        ns[v].outputs@ == own_ids(catalog, ns[v].path@, catalog.len() as int) + kept(
            ns[f].outputs@,
            own_ids(catalog, ns[v].path@, catalog.len() as int),
        ),
        outputs_exact_at(ns, catalog, f),
        is_proper_suffix(ns[f].path@, ns[v].path@),
        failure_longest_at(ns, v),
        patterns_present(ns, catalog),
    ensures
        outputs_exact_at(ns, catalog, v),
{
    let own = own_ids(catalog, ns[v].path@, catalog.len() as int);
    let inh = kept(ns[f].outputs@, own);
    assert forall|x: usize| #[trigger] ns[v].outputs@.contains(x) <==> ((x as int) < catalog.len()
        && is_suffix_of(catalog[x as int]@, ns[v].path@)) by {
        lemma_concat_contains(own, inh, x);
        lemma_kept_contains(ns[f].outputs@, own, x);
        lemma_own_ids_contains(catalog, ns[v].path@, catalog.len() as int, x);
        if ns[v].outputs@.contains(x) {
            if own.contains(x) {
                assert(catalog[x as int]@ == ns[v].path@);
                assert(is_suffix_of(catalog[x as int]@, ns[v].path@)) by {
                    assert(catalog[x as int]@ =~= ns[v].path@.subrange(0, ns[v].path@.len() as int));
                }
            } else {
                assert(ns[f].outputs@.contains(x));
                assert(is_suffix_of(catalog[x as int]@, ns[f].path@));
                lemma_suffix_of_trans(catalog[x as int]@, ns[f].path@, ns[v].path@);
            }
        }
        if (x as int) < catalog.len() && is_suffix_of(catalog[x as int]@, ns[v].path@) {
            let p = catalog[x as int]@;
            if p == ns[v].path@ {
                assert(own.contains(x));
            } else {
                assert(p.len() < ns[v].path@.len()) by {
                    if p.len() == ns[v].path@.len() {
                        assert(p =~= ns[v].path@);
                    }
                }
                assert(is_proper_suffix(p, ns[v].path@));
                assert(follow(ns, 0, p) is Some);
                assert(p.len() <= ns[f].path@.len());
                lemma_suffix_of_same(p, ns[f].path@, ns[v].path@);
                assert(ns[f].outputs@.contains(x));
                if !own.contains(x) {
                    assert(inh.contains(x));
                }
            }
        }
    }
}

/// The semantic facts of the traversal: every discovered non-root node
/// already has an optimal failure link and an exact, ordered output set,
/// and the root still owns exactly its own identities.
pub open spec fn sem_inv(ns: Seq<AutomationNode>, catalog: Seq<Vec<char>>, q: Seq<usize>) -> bool {
    &&& forall|k: int|
        1 <= k < q.len() ==> {
            let x = #[trigger] q[k] as int;
            &&& failure_longest_at(ns, x)
            &&& outputs_exact_at(ns, catalog, x)
            &&& outputs_ordered_at(ns, catalog, x)
        }
    &&& own_only_at(ns, catalog, 0)
}

/// Every node the queue has not discovered, except possibly `v`, still
/// owns exactly its own identities.
pub open spec fn pristine_except(
    ns: Seq<AutomationNode>,
    catalog: Seq<Vec<char>>,
    q: Seq<usize>,
    v: int,
) -> bool {
    forall|x: int|
        0 <= x < ns.len() && !q.contains(x as usize) && x != v ==> #[trigger] own_only_at(
            ns,
            catalog,
            x,
        )
}

/// All standing facts of the traversal survive a change confined to the
/// failure link or output set of one undiscovered node `v`.
proof fn lemma_phase_untouched(
    ns0: Seq<AutomationNode>,
    a: Seq<AutomationNode>,
    b: Seq<AutomationNode>,
    catalog: Seq<Vec<char>>,
    q: Seq<usize>,
    qi: int,
    j: int,
    v: usize,
    bound: int,
)
    requires
        trie_wf(ns0),
        sem_inv(a, catalog, q),
        pristine_except(a, catalog, q, v as int),
        patterns_present(a, catalog),
        paths_within(a, catalog),
        bfs_inv(a, q),
        structure_same(ns0, a),
        outputs_prefix(ns0, a),
        outputs_bounded(a, bound),
        b.len() == a.len(),
        0 <= v < a.len(),
        v != 0,
        !q.contains(v),
        forall|i: int| 0 <= i < a.len() && i != v ==> a[i] == (#[trigger] b[i]),
        b[v as int].goto@ == a[v as int].goto@,
        b[v as int].path@ == a[v as int].path@,
        a[v as int].outputs@.len() <= b[v as int].outputs@.len(),
        a[v as int].outputs@ == b[v as int].outputs@.subrange(
            0,
            a[v as int].outputs@.len() as int,
        ),
        b[v as int].outputs@.no_duplicates(),
        forall|m: int| 0 <= m < b[v as int].outputs@.len() ==> (#[trigger] b[v
            as int].outputs@[m]) < bound,
        children_done(a, q, qi, j),
        forall|k: int| 1 <= k < q.len() ==> discovered(a, q, qi, j, #[trigger] q[k] as int),
    ensures
        bfs_inv(b, q),
        structure_same(ns0, b),
        outputs_prefix(ns0, b),
        outputs_bounded(b, bound),
        trie_wf(b),
        children_done(b, q, qi, j),
        forall|k: int| 1 <= k < q.len() ==> discovered(b, q, qi, j, #[trigger] q[k] as int),
        forall|s: Seq<char>| #[trigger] follow(b, 0, s) == follow(a, 0, s),
        sem_inv(b, catalog, q),
        pristine_except(b, catalog, q, v as int),
        patterns_present(b, catalog),
        paths_within(b, catalog),
{
    lemma_bfs_untouched(a, b, q, v);
    lemma_trie_wf_same_structure(ns0, a);
    assert forall|s: Seq<char>| #[trigger] follow(b, 0, s) == follow(a, 0, s) by {
        assert(forall|i: int| 0 <= i < a.len() ==> (#[trigger] b[i]).goto@ == a[i].goto@);
        lemma_follow_eq_structure(a, b, 0, s);
    }
    assert(sem_inv(b, catalog, q)) by {
        assert forall|k: int| 1 <= k < q.len() implies {
            let x = #[trigger] q[k] as int;
            &&& failure_longest_at(b, x)
            &&& outputs_exact_at(b, catalog, x)
            &&& outputs_ordered_at(b, catalog, x)
        } by {
            let x = q[k] as int;
            assert(x != v);
            assert(b[x] == a[x]);
            assert(q.contains(a[x].failure));
            let f = a[x].failure as int;
            assert(f != v);
            assert(b[f] == a[f]);
            assert(failure_longest_at(a, x));
            assert forall|s: Seq<char>|
                is_proper_suffix(s, b[x].path@) && (#[trigger] follow(b, 0, s)) is Some implies s.len()
                    <= b[b[x].failure as int].path@.len() by {
                assert(follow(a, 0, s) is Some);
            }
            assert(outputs_exact_at(a, catalog, x));
            assert(outputs_ordered_at(a, catalog, x));
        }
        assert(b[0] == a[0]) by {
            assert(q[0] == 0usize);
            assert(q.contains(0usize));
        }
    }
    assert forall|x: int|
        0 <= x < b.len() && !q.contains(x as usize) && x != v implies #[trigger] own_only_at(
        b,
        catalog,
        x,
    ) by {
        assert(own_only_at(a, catalog, x));
        assert(b[x] == a[x]);
    }
    assert forall|k: int| 0 <= k < catalog.len() implies follow(
        b,
        0,
        (#[trigger] catalog[k])@,
    ) is Some by {
        assert(follow(a, 0, catalog[k]@) is Some);
    }
    assert forall|n: int| 1 <= n < b.len() implies #[trigger] path_in_catalog(b, catalog, n) by {
        assert(path_in_catalog(a, catalog, n));
        let k = choose|k: int|
            0 <= k < catalog.len() && 1 <= a[n].path@.len() <= (#[trigger] catalog[k])@.len()
                && a[n].path@ == catalog[k]@.take(a[n].path@.len() as int);
        assert(b[n].path@ == a[n].path@);
    }
    assert(structure_same(ns0, b)) by {
        assert forall|i: int| 0 <= i < ns0.len() implies (#[trigger] b[i]).goto@ == ns0[i].goto@
            && b[i].path@ == ns0[i].path@ by {
            assert(a[i].goto@ == ns0[i].goto@ && a[i].path@ == ns0[i].path@);
        }
    }
    lemma_trie_wf_same_structure(ns0, b);
    assert(outputs_prefix(ns0, b)) by {
        assert forall|i: int| 0 <= i < ns0.len() implies {
            &&& ns0[i].outputs@.len() <= (#[trigger] b[i]).outputs@.len()
            &&& ns0[i].outputs@ == b[i].outputs@.subrange(0, ns0[i].outputs@.len() as int)
        } by {
            if i == v {
                assert(ns0[i].outputs@ == a[i].outputs@.subrange(0, ns0[i].outputs@.len() as int));
                assert(ns0[i].outputs@ =~= b[i].outputs@.subrange(0, ns0[i].outputs@.len() as int));
            } else {
                assert(b[i].outputs@ == a[i].outputs@);
            }
        }
    }
    assert(outputs_bounded(b, bound)) by {
        assert forall|i: int| 0 <= i < b.len() implies {
            &&& (#[trigger] b[i].outputs@).no_duplicates()
            &&& forall|m: int| 0 <= m < b[i].outputs@.len() ==> (#[trigger] b[i].outputs@[m])
                < bound
        } by {
            if i != v {
                assert(b[i].outputs@ == a[i].outputs@);
            }
        }
    }
    assert(children_done(b, q, qi, j)) by {
        assert forall|p: int, jj: int|
            0 <= p < q.len() && 0 <= jj < b[q[p] as int].goto@.len() && (p < qi || (p == qi && jj
                < j)) implies q.contains((#[trigger] b[q[p] as int].goto@[jj]).1) by {
            assert(b[q[p] as int].goto@ == a[q[p] as int].goto@);
            assert(q.contains((a[q[p] as int].goto@[jj]).1));
        }
    }
    assert forall|k: int| 1 <= k < q.len() implies discovered(b, q, qi, j, #[trigger] q[k] as int)
        by {
        assert(discovered(a, q, qi, j, q[k] as int));
        let (p, jj) = choose|p: int, jj: int|
            0 <= p < q.len() && 0 <= jj < a[q[p] as int].goto@.len() && (#[trigger] a[q[p]
                as int].goto@[jj]).1 == q[k] as int && (p < qi || (p == qi && jj < j));
        assert((b[q[p] as int].goto@[jj]).1 == q[k] as int);
    }
}

/// The target of the edge being visited cannot be in the queue yet: it has
/// exactly one incoming edge, and that edge has not been visited before.
proof fn lemma_fresh_target(
    ns: Seq<AutomationNode>,
    q: Seq<usize>,
    qi: int,
    j: int,
    u: usize,
    v: usize,
)
    requires
        trie_wf(ns),
        bfs_inv(ns, q),
        0 <= qi < q.len(),
        q[qi] == u,
        0 <= j < ns[u as int].goto@.len(),
        (ns[u as int].goto@[j]).1 == v,
        (u as int) < (v as int) < ns.len(),
        forall|k: int| 1 <= k < q.len() ==> discovered(ns, q, qi, j, #[trigger] q[k] as int),
    ensures
        !q.contains(v),
{
    if q.contains(v) {
        let kv = choose|kv: int| 0 <= kv < q.len() && q[kv] == v;
        assert(kv != 0) by {
            if kv == 0 {
                assert(q[0] == 0usize);
            }
        }
        assert(discovered(ns, q, qi, j, q[kv] as int));
        let (p, jj) = choose|p: int, jj: int|
            0 <= p < q.len() && 0 <= jj < ns[q[p] as int].goto@.len() && (#[trigger] ns[q[p]
                as int].goto@[jj]).1 == v as int && (p < qi || (p == qi && jj < j));
        assert((ns[q[p] as int].goto@[jj]).1 == (ns[u as int].goto@[j]).1);
        assert(q[p] as int == u as int && jj == j);
        assert(p == qi) by {
            if p != qi {
                assert(q[p] != q[qi]);
            }
        }
        assert(false);
    }
}

/// Enqueueing the freshly finished node `v` preserves every standing fact
/// of the traversal and marks the visited edge as done.
proof fn lemma_bfs_push(
    ns: Seq<AutomationNode>,
    catalog: Seq<Vec<char>>,
    q: Seq<usize>,
    qi: int,
    j: int,
    u: usize,
    v: usize,
    f: usize,
)
    requires
        trie_wf(ns),
        bfs_inv(ns, q),
        sem_inv(ns, catalog, q),
        pristine_except(ns, catalog, q, v as int),
        failure_longest_at(ns, v as int),
        outputs_exact_at(ns, catalog, v as int),
        outputs_ordered_at(ns, catalog, v as int),
        0 <= qi < q.len(),
        q[qi] == u,
        0 <= j < ns[u as int].goto@.len(),
        (ns[u as int].goto@[j]).1 == v,
        (u as int) < (v as int) < ns.len(),
        v != 0,
        !q.contains(v),
        ns[v as int].failure == f,
        q.contains(f),
        is_proper_suffix(ns[f as int].path@, ns[v as int].path@),
        forall|m: int|
            0 <= m < ns[f as int].outputs@.len() ==> ns[v as int].outputs@.contains(
                #[trigger] ns[f as int].outputs@[m],
            ),
        children_done(ns, q, qi, j),
        forall|k: int| 1 <= k < q.len() ==> discovered(ns, q, qi, j, #[trigger] q[k] as int),
        forall|k: int|
            qi <= k < q.len() ==> (#[trigger] ns[q[k] as int].path@).len() <= ns[q[qi]
                as int].path@.len() + 1,
    ensures
        bfs_inv(ns, q.push(v)),
        sem_inv(ns, catalog, q.push(v)),
        pristine_except(ns, catalog, q.push(v), -1),
        children_done(ns, q.push(v), qi, j + 1),
        forall|k: int|
            1 <= k < q.push(v).len() ==> discovered(ns, q.push(v), qi, j + 1, #[trigger] q.push(
                v,
            )[k] as int),
        forall|k: int|
            qi <= k < q.push(v).len() ==> (#[trigger] ns[q.push(v)[k] as int].path@).len()
                <= ns[q.push(v)[qi] as int].path@.len() + 1,
{
    let q2 = q.push(v);
    assert(sem_inv(ns, catalog, q2)) by {
        assert forall|k: int| 1 <= k < q2.len() implies {
            let x = #[trigger] q2[k] as int;
            &&& failure_longest_at(ns, x)
            &&& outputs_exact_at(ns, catalog, x)
            &&& outputs_ordered_at(ns, catalog, x)
        } by {
            if k < q.len() {
                assert(q2[k] == q[k]);
            } else {
                assert(q2[k] == v);
            }
        }
    }
    assert forall|x: int|
        0 <= x < ns.len() && !q2.contains(x as usize) && x != -1 implies #[trigger] own_only_at(
        ns,
        catalog,
        x,
    ) by {
        assert forall|w: usize| q.contains(w) implies q2.contains(w) by {
            let kw = choose|kw: int| 0 <= kw < q.len() && q[kw] == w;
            assert(q2[kw] == w);
        }
        assert(q2[q.len() as int] == v);
        assert(x != v);
        assert(!q.contains(x as usize));
    }
    assert(node_edges_wf(ns, u as int));
    assert(edge_wf(ns, u as int, j));
    assert(ns[v as int].path@.len() == ns[u as int].path@.len() + 1);
    assert(q2[0] == 0usize);
    assert forall|kk: int| 0 <= kk < q2.len() implies (#[trigger] q2[kk] as int) < ns.len() by {
        if kk < q.len() {
            assert(q2[kk] == q[kk]);
        }
    }
    lemma_nodup_push(q, v);
    lemma_nodup_len_bound(q2, ns.len() as nat);
    assert forall|w: usize| q.contains(w) implies q2.contains(w) by {
        let kw = choose|kw: int| 0 <= kw < q.len() && q[kw] == w;
        assert(q2[kw] == w);
    }
    assert forall|kk: int| 1 <= kk < q2.len() implies fail_done(ns, q2, #[trigger] q2[kk] as int)
        by {
        if kk < q.len() {
            assert(fail_done(ns, q, q[kk] as int));
            assert(q.contains(ns[q[kk] as int].failure));
            assert(q2[kk] == q[kk]);
        } else {
            assert(q2[kk] == v);
            assert(fail_done(ns, q2, v as int));
        }
    }
    assert forall|k1: int, k2: int| 0 <= k1 <= k2 < q2.len() implies (
    #[trigger] ns[q2[k1] as int].path@).len() <= (#[trigger] ns[q2[k2] as int].path@).len() by {
        if k2 == q.len() {
            if k1 < k2 {
                assert(q2[k1] == q[k1]);
                if k1 <= qi {
                    assert(ns[q[k1] as int].path@.len() <= ns[q[qi] as int].path@.len());
                } else {
                    assert(ns[q[k1] as int].path@.len() <= ns[q[qi] as int].path@.len() + 1);
                }
            }
        } else {
            assert(q2[k1] == q[k1] && q2[k2] == q[k2]);
        }
    }
    assert(bfs_inv(ns, q2));
    assert forall|kk: int| qi <= kk < q2.len() implies (#[trigger] ns[q2[kk] as int].path@).len()
        <= ns[q2[qi] as int].path@.len() + 1 by {
        if kk < q.len() {
            assert(q2[kk] == q[kk]);
        }
        assert(q2[qi] == q[qi]);
    }
    assert(children_done(ns, q2, qi, j + 1)) by {
        assert forall|p: int, jj: int|
            0 <= p < q2.len() && 0 <= jj < ns[q2[p] as int].goto@.len() && (p < qi || (p == qi && jj
                < j + 1)) implies q2.contains((#[trigger] ns[q2[p] as int].goto@[jj]).1) by {
            if p < q.len() {
                assert(q2[p] == q[p]);
                if p < qi || (p == qi && jj < j) {
                    assert(q.contains((ns[q[p] as int].goto@[jj]).1));
                } else {
                    assert(p == qi && jj == j);
                    assert((ns[q2[p] as int].goto@[jj]).1 == v);
                    assert(q2[q2.len() - 1] == v);
                }
            } else {
                assert(p == q2.len() - 1);
                assert(false);
            }
        }
    }
    assert forall|kk: int| 1 <= kk < q2.len() implies discovered(
        ns,
        q2,
        qi,
        j + 1,
        #[trigger] q2[kk] as int,
    ) by {
        if kk < q.len() {
            assert(discovered(ns, q, qi, j, q[kk] as int));
            let (p, jj) = choose|p: int, jj: int|
                0 <= p < q.len() && 0 <= jj < ns[q[p] as int].goto@.len() && (#[trigger] ns[q[p]
                    as int].goto@[jj]).1 == q[kk] as int && (p < qi || (p == qi && jj < j));
            assert(q2[p] == q[p]);
            assert((ns[q2[p] as int].goto@[jj]).1 == q2[kk] as int);
        } else {
            assert(q2[kk] == v);
            assert(q2[qi] == u);
            assert((ns[q2[qi] as int].goto@[j]).1 == v as int);
        }
    }
}

/// When the queue has been fully processed, every node is discovered and
/// its failure annotation final.
proof fn lemma_finish(ns: Seq<AutomationNode>, catalog: Seq<Vec<char>>, q: Seq<usize>, bound: int)
    requires
        ns.len() <= usize::MAX,
        catalog.len() <= usize::MAX,
        trie_wf(ns),
        bfs_inv(ns, q),
        sem_inv(ns, catalog, q),
        children_done(ns, q, q.len() as int, 0),
        outputs_bounded(ns, bound),
        ns[0].path@ == Seq::<char>::empty(),
    ensures
        forall|i: int| 0 <= i < ns.len() ==> node_fail_wf(ns, i),
        forall|i: int| 1 <= i < ns.len() ==> #[trigger] failure_longest_at(ns, i),
        forall|i: int| 0 <= i < ns.len() ==> #[trigger] outputs_exact_at(ns, catalog, i),
        forall|i: int| 0 <= i < ns.len() ==> #[trigger] outputs_ordered_at(ns, catalog, i),
{
    lemma_exact_root(ns, catalog);
    assert forall|i: int| 1 <= i < ns.len() implies #[trigger] failure_longest_at(ns, i) by {
        lemma_all_discovered(ns, q, i);
        let k = choose|k: int| 0 <= k < q.len() && q[k] == i as usize;
        assert(k != 0) by {
            if k == 0 {
                assert(q[0] == 0usize);
                assert(i == 0);
            }
        }
        assert(q[k] as int == i);
    }
    assert forall|i: int| 0 <= i < ns.len() implies #[trigger] outputs_exact_at(
        ns,
        catalog,
        i,
    ) by {
        if i != 0 {
            lemma_all_discovered(ns, q, i);
            let k = choose|k: int| 0 <= k < q.len() && q[k] == i as usize;
            assert(k != 0) by {
                if k == 0 {
                    assert(q[0] == 0usize);
                    assert(i == 0);
                }
            }
            assert(q[k] as int == i);
        }
    }
    assert forall|i: int| 0 <= i < ns.len() implies #[trigger] outputs_ordered_at(
        ns,
        catalog,
        i,
    ) by {
        if i != 0 {
            lemma_all_discovered(ns, q, i);
            let k = choose|k: int| 0 <= k < q.len() && q[k] == i as usize;
            assert(k != 0) by {
                if k == 0 {
                    assert(q[0] == 0usize);
                    assert(i == 0);
                }
            }
            assert(q[k] as int == i);
        }
    }
    assert forall|i: int| 0 <= i < ns.len() implies node_fail_wf(ns, i) by {
        lemma_all_discovered(ns, q, i);
        if i == 0 {
            assert(ns[0].failure == 0);
            assert forall|m: int| 0 <= m < ns[0].outputs@.len() implies ns[0].outputs@.contains(
                #[trigger] ns[0].outputs@[m],
            ) by {}
        } else {
            assert(q.contains(i as usize));
            assert(exists|k: int| 0 <= k < q.len() && q[k] == i as usize);
            let k = choose|k: int| 0 <= k < q.len() && q[k] == i as usize;
            assert(q[k] == i as usize);
            assert(k != 0) by {
                if k == 0 {
                    assert(q[0] == 0usize);
                    assert(i as usize == 0usize);
                }
            }
            assert(fail_done(ns, q, q[k] as int));
            assert(q[k] as int == i);
        }
    }
}


impl Automation {
    /// Resolve the failure target for the child reached by `c` from `u`:
    /// walk `u`'s failure chain until a node with a `c` edge (or the root)
    /// is found. The result is a discovered node whose path is a strictly
    /// shorter suffix of `u`'s path extended by `c`.
    fn resolve_failure(&self, u: usize, c: char, qi: usize, queue: &Vec<usize>) -> (f: usize)
        requires
            trie_wf(self.nodes@),
            bfs_inv(self.nodes@, queue@),
            qi < queue@.len(),
            queue@[qi as int] == u,
            (u as int) < self.nodes@.len(),
            children_done(self.nodes@, queue@, qi as int, 0),
            forall|k: int|
                1 <= k < queue@.len() ==> failure_longest_at(
                    self.nodes@,
                    #[trigger] queue@[k] as int,
                ),
        ensures
            (f as int) < self.nodes@.len(),
            queue@.contains(f),
            is_proper_suffix(self.nodes@[f as int].path@, self.nodes@[u as int].path@.push(c)),
            forall|s: Seq<char>|
                is_proper_suffix(s, self.nodes@[u as int].path@.push(c)) && (#[trigger] follow(
                    self.nodes@,
                    0,
                    s,
                )) is Some ==> s.len() <= self.nodes@[f as int].path@.len(),
    {
        proof {
            lemma_paths_faithful(self.nodes@);
        }
        let ghost vpath = self.nodes@[u as int].path@.push(c);
        if u == 0 {
            proof {
                assert(self.nodes@[0].path@ =~= vpath.subrange(
                    vpath.len() as int,
                    vpath.len() as int,
                ));
                assert(queue@.contains(0usize)) by {
                    assert(queue@[0] == 0usize);
                }
                assert(vpath.len() == 1);
                assert forall|s: Seq<char>|
                    is_proper_suffix(s, vpath) && (#[trigger] follow(self.nodes@, 0, s)) is Some
                    implies s.len() <= self.nodes@[0].path@.len() by {
                    assert(s.len() < 1);
                }
            }
            return 0;
        }
        proof {
            assert(qi != 0) by {
                if qi == 0 {
                    assert(queue@[0] == 0usize);
                }
            }
            assert(fail_done(self.nodes@, queue@, u as int));
        }
        let mut lps = self.nodes[u].failure;
        proof {
            lemma_shallower_is_processed(self.nodes@, queue@, qi as int, lps);
            assert(failure_longest_at(self.nodes@, u as int));
            assert forall|s: Seq<char>|
                is_proper_suffix(s, self.nodes@[u as int].path@) && (#[trigger] follow(
                    self.nodes@,
                    0,
                    s.push(c),
                )) is Some implies s.len() <= self.nodes@[lps as int].path@.len() by {
                lemma_follow_snoc(self.nodes@, 0, s, c);
                assert(follow(self.nodes@, 0, s) is Some);
            }
        }
        while lps != 0 && !self.nodes[lps].contains(c)
            invariant
                trie_wf(self.nodes@),
                bfs_inv(self.nodes@, queue@),
                qi < queue@.len(),
                u == queue@[qi as int],
                (u as int) != 0,
                (u as int) < self.nodes@.len(),
                (lps as int) < self.nodes@.len(),
                is_proper_suffix(self.nodes@[lps as int].path@, self.nodes@[u as int].path@),
                exists|k: int| 0 <= k < qi && queue@[k] == lps,
                forall|k: int|
                    1 <= k < queue@.len() ==> failure_longest_at(
                        self.nodes@,
                        #[trigger] queue@[k] as int,
                    ),
                forall|n: int|
                    0 <= n < self.nodes@.len() ==> follow(
                        self.nodes@,
                        0,
                        (#[trigger] self.nodes@[n].path@),
                    ) == Some(n),
                forall|s: Seq<char>|
                    is_proper_suffix(s, self.nodes@[u as int].path@) && (#[trigger] follow(
                        self.nodes@,
                        0,
                        s.push(c),
                    )) is Some ==> s.len() <= self.nodes@[lps as int].path@.len(),
            decreases self.nodes@[lps as int].path@.len(),
        {
            proof {
                let k = choose|k: int| 0 <= k < qi && queue@[k] == lps;
                assert(queue@.contains(lps));
                assert(fail_done(self.nodes@, queue@, lps as int));
                assert(k != 0) by {
                    if k == 0 {
                        assert(queue@[0] == 0usize);
                    }
                }
                assert(failure_longest_at(self.nodes@, lps as int));
            }
            let ghost oldlps = lps;
            lps = self.nodes[lps].failure;
            proof {
                let ns = self.nodes@;
                lemma_proper_suffix_trans(
                    ns[lps as int].path@,
                    ns[oldlps as int].path@,
                    ns[u as int].path@,
                );
                lemma_shallower_is_processed(ns, queue@, qi as int, lps);
                // any candidate at least as long as the abandoned chain node
                // would equal its path, which lacks a `c` edge
                assert forall|s: Seq<char>|
                    is_proper_suffix(s, ns[u as int].path@) && (#[trigger] follow(
                        ns,
                        0,
                        s.push(c),
                    )) is Some implies s.len() <= ns[lps as int].path@.len() by {
                    assert(s.len() <= ns[oldlps as int].path@.len());
                    lemma_follow_snoc(ns, 0, s, c);
                    assert(follow(ns, 0, s) is Some);
                    if s.len() == ns[oldlps as int].path@.len() {
                        assert(s =~= ns[oldlps as int].path@);
                        assert(follow(ns, 0, s) == Some(oldlps as int));
                        assert(lookup_edge(ns[oldlps as int].goto@, c) is Some);
                        assert(false);
                    } else {
                        assert(is_proper_suffix(s, ns[oldlps as int].path@)) by {
                            lemma_suffix_of_same(
                                s,
                                ns[oldlps as int].path@,
                                ns[u as int].path@,
                            );
                        }
                        assert(failure_longest_at(ns, oldlps as int));
                    }
                }
            }
        }
        match self.nodes[lps].enter_child(c) {
            Some(t) => {
                proof {
                    lemma_lookup_is_edge(self.nodes@[lps as int].goto@, c, t);
                    let jj = choose|jj: int|
                        0 <= jj < self.nodes@[lps as int].goto@.len() && self.nodes@[lps
                            as int].goto@[jj] == (c, t);
                    assert(node_edges_wf(self.nodes@, lps as int));
                    assert(edge_wf(self.nodes@, lps as int, jj));
                    lemma_proper_suffix_push(
                        self.nodes@[lps as int].path@,
                        self.nodes@[u as int].path@,
                        c,
                    );
                    let k = choose|k: int| 0 <= k < qi && queue@[k] == lps;
                    assert(queue@.contains(
                        (#[trigger] self.nodes@[queue@[k] as int].goto@[jj]).1,
                    ));
                    let ns = self.nodes@;
                    assert(ns[t as int].path@ == ns[lps as int].path@.push(c));
                    assert forall|s: Seq<char>|
                        is_proper_suffix(s, vpath) && (#[trigger] follow(ns, 0, s)) is Some
                        implies s.len() <= ns[t as int].path@.len() by {
                        if s.len() >= 1 {
                            lemma_suffix_push_decomp(s, ns[u as int].path@, c);
                            let s2 = s.drop_last();
                            assert(is_proper_suffix(s2, ns[u as int].path@));
                            assert(follow(ns, 0, s2.push(c)) is Some);
                            assert(s2.len() <= ns[lps as int].path@.len());
                        }
                    }
                }
                t
            },
            None => {
                proof {
                    assert(lps == 0);
                    assert(self.nodes@[0].path@ =~= vpath.subrange(
                        vpath.len() as int,
                        vpath.len() as int,
                    ));
                    assert(is_proper_suffix(self.nodes@[0].path@, vpath));
                    assert(queue@.contains(0usize)) by {
                        assert(queue@[0] == 0usize);
                    }
                    let ns = self.nodes@;
                    assert forall|s: Seq<char>|
                        is_proper_suffix(s, vpath) && (#[trigger] follow(ns, 0, s)) is Some
                        implies s.len() <= ns[0].path@.len() by {
                        if s.len() >= 1 {
                            lemma_suffix_push_decomp(s, ns[u as int].path@, c);
                            let s2 = s.drop_last();
                            assert(is_proper_suffix(s2, ns[u as int].path@));
                            assert(follow(ns, 0, s2.push(c)) is Some);
                            assert(s2.len() <= 0);
                            assert(s2 =~= Seq::<char>::empty());
                            lemma_follow_snoc(ns, 0, s2, c);
                            assert(follow(ns, 0, s2) == Some(0int));
                            assert(lookup_edge(ns[0].goto@, c) is Some);
                            assert(false);
                        }
                    }
                }
                0
            },
        }
    }

    /// Append to `v`'s output set every output of its failure target `f`
    /// that it does not already carry, keeping the set duplicate-free.
    #[verifier::rlimit(100)]
    fn merge_from(
        &mut self,
        v: usize,
        f: usize,
        qi: usize,
        queue: &Vec<usize>,
        Ghost(ns0): Ghost<Seq<AutomationNode>>,
        Ghost(origout): Ghost<Seq<Vec<char>>>,
        Ghost(j): Ghost<int>,
    )
        requires
            trie_wf(ns0),
            trie_wf(old(self).nodes@),
            origout == old(self).outputs@,
            structure_same(ns0, old(self).nodes@),
            outputs_prefix(ns0, old(self).nodes@),
            outputs_bounded(old(self).nodes@, origout.len() as int),
            bfs_inv(old(self).nodes@, queue@),
            qi < queue@.len(),
            0 <= j < old(self).nodes@[queue@[qi as int] as int].goto@.len(),
            children_done(old(self).nodes@, queue@, qi as int, j),
            forall|k: int|
                1 <= k < queue@.len() ==> discovered(
                    old(self).nodes@,
                    queue@,
                    qi as int,
                    j,
                    #[trigger] queue@[k] as int,
                ),
            forall|k: int|
                qi <= k < queue@.len() ==> (
                #[trigger] old(self).nodes@[queue@[k] as int].path@).len() <= old(self).nodes@[queue@[qi as int] as int].path@.len() + 1,
            (v as int) < old(self).nodes@.len(),
            (f as int) < old(self).nodes@.len(),
            f != v,
            v != 0,
            !queue@.contains(v),
            queue@.contains(f),
            old(self).nodes@[v as int].failure == f,
            is_proper_suffix(
                old(self).nodes@[f as int].path@,
                old(self).nodes@[v as int].path@,
            ),
            sem_inv(old(self).nodes@, origout, queue@),
            pristine_except(old(self).nodes@, origout, queue@, v as int),
            patterns_present(old(self).nodes@, origout),
            paths_within(old(self).nodes@, origout),
        ensures
            trie_wf(final(self).nodes@),
            origout == final(self).outputs@,
            structure_same(ns0, final(self).nodes@),
            outputs_prefix(ns0, final(self).nodes@),
            outputs_bounded(final(self).nodes@, origout.len() as int),
            bfs_inv(final(self).nodes@, queue@),
            children_done(final(self).nodes@, queue@, qi as int, j),
            sem_inv(final(self).nodes@, origout, queue@),
            pristine_except(final(self).nodes@, origout, queue@, v as int),
            patterns_present(final(self).nodes@, origout),
            paths_within(final(self).nodes@, origout),
            final(self).nodes@[v as int].outputs@ == old(self).nodes@[v as int].outputs@ + kept(
                old(self).nodes@[f as int].outputs@,
                old(self).nodes@[v as int].outputs@,
            ),
            final(self).nodes@[f as int].outputs@ == old(self).nodes@[f as int].outputs@,
            forall|s: Seq<char>| #[trigger] follow(final(self).nodes@, 0, s) == follow(
                old(self).nodes@,
                0,
                s,
            ),
            forall|k: int|
                1 <= k < queue@.len() ==> discovered(
                    final(self).nodes@,
                    queue@,
                    qi as int,
                    j,
                    #[trigger] queue@[k] as int,
                ),
            forall|k: int|
                qi <= k < queue@.len() ==> (
                #[trigger] final(self).nodes@[queue@[k] as int].path@).len() <= final(self).nodes@[queue@[qi as int] as int].path@.len() + 1,
            final(self).nodes@[v as int].failure == f,
            is_proper_suffix(
                final(self).nodes@[f as int].path@,
                final(self).nodes@[v as int].path@,
            ),
            forall|m: int|
                0 <= m < final(self).nodes@[f as int].outputs@.len() ==> final(self).nodes@[v
                    as int].outputs@.contains(#[trigger] final(self).nodes@[f as int].outputs@[m]),
    {
        let ghost vout0 = self.nodes@[v as int].outputs@;
        let ghost f0 = self.nodes@[f as int].outputs@;
        let ghost ns_entry = self.nodes@;
        proof {
            assert(vout0 + kept(f0.subrange(0, 0), vout0) =~= vout0);
            assert(f0.subrange(0, 0) =~= Seq::<usize>::empty());
            lemma_extends_refl(self.nodes@);
        }
        let fl = self.nodes[f].outputs.len();
        let mut k: usize = 0;
        while k < fl
            invariant
                trie_wf(ns0),
                trie_wf(self.nodes@),
                origout == self.outputs@,
                structure_same(ns0, self.nodes@),
                outputs_prefix(ns0, self.nodes@),
                outputs_bounded(self.nodes@, origout.len() as int),
                bfs_inv(self.nodes@, queue@),
                qi < queue@.len(),
                0 <= j < self.nodes@[queue@[qi as int] as int].goto@.len(),
                children_done(self.nodes@, queue@, qi as int, j),
                forall|kk: int|
                    1 <= kk < queue@.len() ==> discovered(
                        self.nodes@,
                        queue@,
                        qi as int,
                        j,
                        #[trigger] queue@[kk] as int,
                    ),
                forall|kk: int|
                    qi <= kk < queue@.len() ==> (
                    #[trigger] self.nodes@[queue@[kk] as int].path@).len()
                        <= self.nodes@[queue@[qi as int] as int].path@.len() + 1,
                (v as int) < self.nodes@.len(),
                (f as int) < self.nodes@.len(),
                f != v,
                v != 0,
                !queue@.contains(v),
                queue@.contains(f),
                self.nodes@[v as int].failure == f,
                is_proper_suffix(self.nodes@[f as int].path@, self.nodes@[v as int].path@),
                k <= fl,
                fl == self.nodes@[f as int].outputs@.len(),
                forall|m: int|
                    0 <= m < k ==> self.nodes@[v as int].outputs@.contains(
                        #[trigger] self.nodes@[f as int].outputs@[m],
                    ),
                sem_inv(self.nodes@, origout, queue@),
                pristine_except(self.nodes@, origout, queue@, v as int),
                patterns_present(self.nodes@, origout),
                paths_within(self.nodes@, origout),
                self.nodes@[f as int].outputs@ == f0,
                self.nodes@[v as int].outputs@ == vout0 + kept(f0.subrange(0, k as int), vout0),
                forall|s: Seq<char>| #[trigger] follow(self.nodes@, 0, s) == follow(ns_entry, 0, s),
            decreases fl - k,
        {
            let x = self.nodes[f].outputs[k];
            if !self.nodes[v].has_output(x) {
                let ghost ns_b = self.nodes@;
                self.nodes[v].outputs.push(x);
                proof {
                    assert(ns_b[v as int].outputs@ =~= self.nodes@[v as int].outputs@.subrange(
                        0,
                        ns_b[v as int].outputs@.len() as int,
                    ));
                    lemma_nodup_push(ns_b[v as int].outputs@, x);
                    assert(x < origout.len());
                    lemma_phase_untouched(
                        ns0,
                        ns_b,
                        self.nodes@,
                        origout,
                        queue@,
                        qi as int,
                        j,
                        v,
                        origout.len() as int,
                    );
                    // the skipped-or-kept list advances by exactly this entry
                    assert(!vout0.contains(x)) by {
                        if vout0.contains(x) {
                            lemma_concat_contains(vout0, kept(f0.subrange(0, k as int), vout0), x);
                            assert(ns_b[v as int].outputs@.contains(x));
                        }
                    }
                    assert(f0.subrange(0, k as int + 1).drop_last() =~= f0.subrange(0, k as int));
                    assert(f0.subrange(0, k as int + 1).last() == f0[k as int]);
                    assert(kept(f0.subrange(0, k as int + 1), vout0) == kept(
                        f0.subrange(0, k as int),
                        vout0,
                    ).push(x));
                    assert(self.nodes@[v as int].outputs@ =~= vout0 + kept(
                        f0.subrange(0, k as int + 1),
                        vout0,
                    ));
                    assert(self.nodes@[v as int].outputs@.last() == x);
                    assert forall|m: int| 0 <= m < k + 1 implies self.nodes@[v
                        as int].outputs@.contains(
                        #[trigger] self.nodes@[f as int].outputs@[m],
                    ) by {
                        if m < k {
                            let y = ns_b[f as int].outputs@[m];
                            let my = choose|my: int|
                                0 <= my < ns_b[v as int].outputs@.len() && ns_b[v
                                    as int].outputs@[my] == y;
                            assert(self.nodes@[v as int].outputs@[my] == y);
                        } else {
                            assert(self.nodes@[v as int].outputs@.contains(x));
                        }
                    }
                }
            } else {
                proof {
                    assert forall|m: int| 0 <= m < k + 1 implies self.nodes@[v
                        as int].outputs@.contains(
                        #[trigger] self.nodes@[f as int].outputs@[m],
                    ) by {}
                    // an entry already present was already owned: inherited
                    // entries are pairwise distinct, so it cannot have been
                    // appended during this merge
                    assert(vout0.contains(x)) by {
                        lemma_concat_contains(vout0, kept(f0.subrange(0, k as int), vout0), x);
                        if kept(f0.subrange(0, k as int), vout0).contains(x) {
                            lemma_kept_contains(f0.subrange(0, k as int), vout0, x);
                            let m = choose|m: int|
                                0 <= m < k && f0.subrange(0, k as int)[m] == x;
                            assert(f0[m] == x);
                            assert(f0[k as int] == x);
                            assert(f0.no_duplicates());
                            assert(false);
                        }
                    }
                    assert(f0.subrange(0, k as int + 1).drop_last() =~= f0.subrange(0, k as int));
                    assert(f0.subrange(0, k as int + 1).last() == f0[k as int]);
                    assert(kept(f0.subrange(0, k as int + 1), vout0) == kept(
                        f0.subrange(0, k as int),
                        vout0,
                    ));
                }
            }
            k = k + 1;
        }
        proof {
            assert(f0.subrange(0, fl as int) =~= f0);
        }
    }

    /// Finish the child reached by edge `j` of the node `u` at queue
    /// position `qi`: resolve its failure link, close its output set over
    /// the failure target's, and enqueue it.
    #[verifier::rlimit(100)]
    fn process_edge(
        &mut self,
        u: usize,
        j: usize,
        qi: usize,
        queue: &mut Vec<usize>,
        Ghost(ns0): Ghost<Seq<AutomationNode>>,
        Ghost(origout): Ghost<Seq<Vec<char>>>,
    )
        requires
            trie_wf(ns0),
            trie_wf(old(self).nodes@),
            origout == old(self).outputs@,
            structure_same(ns0, old(self).nodes@),
            outputs_prefix(ns0, old(self).nodes@),
            outputs_bounded(old(self).nodes@, origout.len() as int),
            bfs_inv(old(self).nodes@, old(queue)@),
            qi < old(queue)@.len(),
            old(queue)@[qi as int] == u,
            (u as int) < old(self).nodes@.len(),
            (j as int) < old(self).nodes@[u as int].goto@.len(),
            children_done(old(self).nodes@, old(queue)@, qi as int, j as int),
            sem_inv(old(self).nodes@, origout, old(queue)@),
            pristine_except(old(self).nodes@, origout, old(queue)@, -1),
            patterns_present(old(self).nodes@, origout),
            paths_within(old(self).nodes@, origout),
            forall|k: int|
                1 <= k < old(queue)@.len() ==> discovered(
                    old(self).nodes@,
                    old(queue)@,
                    qi as int,
                    j as int,
                    #[trigger] old(queue)@[k] as int,
                ),
            forall|k: int|
                qi <= k < old(queue)@.len() ==> (
                #[trigger] old(self).nodes@[old(queue)@[k] as int].path@).len() <= old(
                    self,
                ).nodes@[old(queue)@[qi as int] as int].path@.len() + 1,
        ensures
            final(self).outputs@ == old(self).outputs@,
            trie_wf(final(self).nodes@),
            structure_same(ns0, final(self).nodes@),
            outputs_prefix(ns0, final(self).nodes@),
            outputs_bounded(final(self).nodes@, origout.len() as int),
            final(queue)@ == old(queue)@.push(
                (old(self).nodes@[u as int].goto@[j as int]).1,
            ),
            bfs_inv(final(self).nodes@, final(queue)@),
            sem_inv(final(self).nodes@, origout, final(queue)@),
            pristine_except(final(self).nodes@, origout, final(queue)@, -1),
            patterns_present(final(self).nodes@, origout),
            paths_within(final(self).nodes@, origout),
            children_done(final(self).nodes@, final(queue)@, qi as int, j as int + 1),
            forall|k: int|
                1 <= k < final(queue)@.len() ==> discovered(
                    final(self).nodes@,
                    final(queue)@,
                    qi as int,
                    j as int + 1,
                    #[trigger] final(queue)@[k] as int,
                ),
            forall|k: int|
                qi <= k < final(queue)@.len() ==> (
                #[trigger] final(self).nodes@[final(queue)@[k] as int].path@).len() <= final(self).nodes@[final(queue)@[qi as int] as int].path@.len() + 1,
    {
        let (c, v) = self.nodes[u].goto[j];
        proof {
            assert(node_edges_wf(self.nodes@, u as int));
            assert(edge_wf(self.nodes@, u as int, j as int));
            assert((u as int) < (v as int) < self.nodes@.len());
            assert(self.nodes@[v as int].path@ == self.nodes@[u as int].path@.push(c));
        }
        proof {
            assert(children_done(self.nodes@, queue@, qi as int, 0)) by {
                assert forall|p: int, jj: int|
                    0 <= p < queue@.len() && 0 <= jj < self.nodes@[queue@[p]
                        as int].goto@.len() && (p < qi || (p == qi && jj < 0)) implies queue@.contains(
                    (#[trigger] self.nodes@[queue@[p] as int].goto@[jj]).1,
                ) by {
                    assert(p < qi || (p == qi && jj < j));
                }
            }
        }
        proof {
            assert forall|k: int| 1 <= k < queue@.len() implies failure_longest_at(
                self.nodes@,
                #[trigger] queue@[k] as int,
            ) by {}
        }
        let f = self.resolve_failure(u, c, qi, queue);
        let plen = self.outputs.len();
        proof {
            assert(f != v);
            assert(v != 0);
            lemma_fresh_target(self.nodes@, queue@, qi as int, j as int, u, v);
            assert(origout.len() == plen);
        }
        let ghost ns_a = self.nodes@;
        let ghost vout0 = self.nodes@[v as int].outputs@;
        proof {
            assert(own_only_at(ns_a, origout, v as int));
            assert(pristine_except(ns_a, origout, queue@, v as int));
        }
        self.nodes[v].failure = f;
        proof {
            assert(self.nodes@[v as int].outputs@ =~= ns_a[v as int].outputs@.subrange(
                0,
                ns_a[v as int].outputs@.len() as int,
            ));
            lemma_phase_untouched(
                ns0,
                ns_a,
                self.nodes@,
                origout,
                queue@,
                qi as int,
                j as int,
                v,
                origout.len() as int,
            );
        }
        let ghost ns_m = self.nodes@;
        self.merge_from(v, f, qi, queue, Ghost(ns0), Ghost(origout), Ghost(j as int));
        proof {
            let ns = self.nodes@;
            assert(ns[u as int].goto@[j as int] == (c, v)) by {
                assert(ns[u as int].goto@ == ns0[u as int].goto@);
                assert(ns_a[u as int].goto@ == ns0[u as int].goto@);
            }
            // the arena agrees with the one the failure link was resolved
            // against on everything `follow` and paths read
            assert forall|s: Seq<char>| #[trigger] follow(ns, 0, s) == follow(ns_a, 0, s) by {
                assert(follow(ns, 0, s) == follow(ns_m, 0, s));
                assert(follow(ns_m, 0, s) == follow(ns_a, 0, s));
            }
            assert(ns[v as int].path@ == ns_a[v as int].path@);
            assert(ns[v as int].path@ == ns[u as int].path@.push(c));
            assert(ns[v as int].failure == f);
            // the fresh node's failure link is optimal
            assert(failure_longest_at(ns, v as int)) by {
                assert forall|s: Seq<char>|
                    is_proper_suffix(s, ns[v as int].path@) && (#[trigger] follow(
                        ns,
                        0,
                        s,
                    )) is Some implies s.len() <= ns[ns[v as int].failure as int].path@.len() by {
                    assert(follow(ns_a, 0, s) is Some);
                    assert(is_proper_suffix(s, ns_a[u as int].path@.push(c)));
                    assert(s.len() <= ns_a[f as int].path@.len());
                }
            }
            // its output list is its own identities plus the inherited ones
            assert(outputs_ordered_at(ns, origout, v as int)) by {
                assert(ns[v as int].outputs@ == vout0 + kept(ns_m[f as int].outputs@, vout0));
                assert(ns_m[f as int].outputs@ == ns[f as int].outputs@);
                assert(vout0 == own_ids(origout, ns[v as int].path@, origout.len() as int));
            }
            // and therefore reports exactly the suffix matches of its path
            assert(outputs_exact_at(ns, origout, f as int)) by {
                let kf = choose|kf: int| 0 <= kf < queue@.len() && queue@[kf] == f;
                assert(queue@.contains(f));
                if kf == 0 {
                    assert(queue@[0] == 0usize);
                    assert(ns[0].path@ == ns0[0].path@);
                    lemma_exact_root(ns, origout);
                } else {
                    assert(queue@[kf] as int == f as int);
                }
            }
            lemma_exact_merge(ns, origout, v as int, f as int);
        }
        let ghost q_old = queue@;
        queue.push(v);
        proof {
            lemma_bfs_push(self.nodes@, origout, q_old, qi as int, j as int, u, v, f);
            assert(q_old.push(v) == queue@);
        }
    }

    /// Compute every failure link and close every output set over it, by a
    /// breadth-first traversal from the root. When a node is taken from the
    /// queue its own failure link is already final, so the links of its
    /// children can be resolved by walking its failure chain.
    fn build_failure(&mut self)
        requires
            trie_wf(old(self).nodes@),
            failures_zero(old(self).nodes@),
            outputs_bounded(old(self).nodes@, old(self).outputs@.len() as int),
            forall|i: int|
                0 <= i < old(self).nodes@.len() ==> #[trigger] own_only_at(
                    old(self).nodes@,
                    old(self).outputs@,
                    i,
                ),
            patterns_present(old(self).nodes@, old(self).outputs@),
            paths_within(old(self).nodes@, old(self).outputs@),
        ensures
            final(self).outputs@ == old(self).outputs@,
            structure_same(old(self).nodes@, final(self).nodes@),
            outputs_prefix(old(self).nodes@, final(self).nodes@),
            final(self).wf(),
    {
        let ghost ns0 = self.nodes@;
        let ghost origout = self.outputs@;
        let mut queue: Vec<usize> = Vec::new();
        queue.push(0);
        let mut qi: usize = 0;
        proof {
            assert forall|i: int| 0 <= i < ns0.len() implies {
                &&& ns0[i].outputs@.len() <= (#[trigger] self.nodes@[i]).outputs@.len()
                &&& ns0[i].outputs@ == self.nodes@[i].outputs@.subrange(
                    0,
                    ns0[i].outputs@.len() as int,
                )
            } by {
                assert(ns0[i].outputs@ =~= self.nodes@[i].outputs@.subrange(
                    0,
                    ns0[i].outputs@.len() as int,
                ));
            }
            assert(queue@[0] == 0usize);
            assert(queue@.no_duplicates());
            assert(bfs_inv(self.nodes@, queue@));
            assert(sem_inv(self.nodes@, origout, queue@));
            assert(pristine_except(self.nodes@, origout, queue@, -1));
        }
        while qi < queue.len()
            invariant
                trie_wf(ns0),
                origout == self.outputs@,
                structure_same(ns0, self.nodes@),
                outputs_prefix(ns0, self.nodes@),
                outputs_bounded(self.nodes@, origout.len() as int),
                bfs_inv(self.nodes@, queue@),
                sem_inv(self.nodes@, origout, queue@),
                pristine_except(self.nodes@, origout, queue@, -1),
                patterns_present(self.nodes@, origout),
                paths_within(self.nodes@, origout),
                ns0[0].path@ == Seq::<char>::empty(),
                qi <= queue@.len(),
                children_done(self.nodes@, queue@, qi as int, 0),
                forall|k: int|
                    1 <= k < queue@.len() ==> discovered(
                        self.nodes@,
                        queue@,
                        qi as int,
                        0,
                        #[trigger] queue@[k] as int,
                    ),
                forall|k: int|
                    qi < queue@.len() && qi <= k < queue@.len() ==> (
                    #[trigger] self.nodes@[queue@[k] as int].path@).len() <= self.nodes@[queue@[qi
                        as int] as int].path@.len() + 1,
            decreases self.nodes@.len() - qi,
        {
            let u = queue[qi];
            proof {
                lemma_trie_wf_same_structure(ns0, self.nodes@);
            }
            let goto_len = self.nodes[u].goto.len();
            let mut j: usize = 0;
            while j < goto_len
                invariant
                    trie_wf(ns0),
                    trie_wf(self.nodes@),
                    origout == self.outputs@,
                    structure_same(ns0, self.nodes@),
                    outputs_prefix(ns0, self.nodes@),
                    outputs_bounded(self.nodes@, origout.len() as int),
                    bfs_inv(self.nodes@, queue@),
                    sem_inv(self.nodes@, origout, queue@),
                    pristine_except(self.nodes@, origout, queue@, -1),
                    patterns_present(self.nodes@, origout),
                    paths_within(self.nodes@, origout),
                    qi < queue@.len(),
                    u == queue@[qi as int],
                    (u as int) < self.nodes@.len(),
                    goto_len == self.nodes@[u as int].goto@.len(),
                    j <= goto_len,
                    children_done(self.nodes@, queue@, qi as int, j as int),
                    forall|k: int|
                        1 <= k < queue@.len() ==> discovered(
                            self.nodes@,
                            queue@,
                            qi as int,
                            j as int,
                            #[trigger] queue@[k] as int,
                        ),
                    forall|k: int|
                        qi <= k < queue@.len() ==> (
                        #[trigger] self.nodes@[queue@[k] as int].path@).len()
                            <= self.nodes@[queue@[qi as int] as int].path@.len() + 1,
                decreases goto_len - j,
            {
                self.process_edge(u, j, qi, &mut queue, Ghost(ns0), Ghost(origout));
                proof {
                    assert(goto_len == self.nodes@[u as int].goto@.len()) by {
                        assert(self.nodes@[u as int].goto@ == ns0[u as int].goto@);
                    }
                }
                j = j + 1;
            }
            proof {
                let ns = self.nodes@;
                let q = queue@;
                assert(children_done(ns, q, qi as int + 1, 0)) by {
                    assert forall|p: int, jj: int|
                        0 <= p < q.len() && 0 <= jj < ns[q[p] as int].goto@.len() && (p < qi + 1
                            || (p == qi + 1 && jj < 0)) implies q.contains(
                        (#[trigger] ns[q[p] as int].goto@[jj]).1,
                    ) by {
                        if p < qi {
                        } else {
                            assert(p == qi);
                            assert(jj < goto_len);
                        }
                    }
                }
                assert forall|kk: int| 1 <= kk < q.len() implies discovered(
                    ns,
                    q,
                    qi as int + 1,
                    0,
                    #[trigger] q[kk] as int,
                ) by {
                    assert(discovered(ns, q, qi as int, goto_len as int, q[kk] as int));
                    let (p, jj) = choose|p: int, jj: int|
                        0 <= p < q.len() && 0 <= jj < ns[q[p] as int].goto@.len() && (
                        #[trigger] ns[q[p] as int].goto@[jj]).1 == q[kk] as int && (p < qi || (p
                            == qi && jj < goto_len));
                    assert(p < qi + 1);
                }
                assert forall|kk: int|
                    qi + 1 < q.len() && qi + 1 <= kk < q.len() implies (
                #[trigger] ns[q[kk] as int].path@).len() <= ns[q[qi as int + 1]
                    as int].path@.len() + 1 by {
                    assert(ns[q[kk] as int].path@.len() <= ns[q[qi as int] as int].path@.len()
                        + 1);
                    assert(ns[q[qi as int] as int].path@.len() <= ns[q[qi as int + 1]
                        as int].path@.len());
                }
            }
            qi = qi + 1;
        }
        let cap = self.nodes.len();
        let plen = self.outputs.len();
        proof {
            assert(self.nodes@.len() == cap);
            assert(origout.len() == plen);
            lemma_trie_wf_same_structure(ns0, self.nodes@);
            assert(self.nodes@[0].path@ == ns0[0].path@);
            lemma_finish(self.nodes@, origout, queue@, origout.len() as int);
        }
    }
}


impl Automation {
    /// Build the automaton for a pattern collection: insert every pattern
    /// into a trie, then compute failure links and closed output sets. The
    /// result is well formed: every failure link points at the longest
    /// resident proper suffix of its node's path, and every node reports
    /// exactly the patterns that are suffixes of its path, its own matches
    /// first, then the inherited ones in order, without duplicates.
    /// Pattern `k` of the collection receives pattern identity `k`; walking
    /// the finished trie along pattern `k` reaches a node whose output set
    /// reports `k`. An empty pattern attaches its output to the root, so it
    /// is reported at every position of every stream.
    pub fn build<P: Pattern>(items: &Vec<P>) -> (r: Automation)
        ensures
            r.wf(),
            r.outputs@.len() == items@.len(),
            items@.len() == 0 ==> r.nodes@.len() == 1,
            forall|k: int|
                0 <= k < items@.len() ==> (#[trigger] r.outputs@[k])@ == items@[k].symbols(),
            forall|k: int|
                0 <= k < items@.len() ==> {
                    let t = follow(r.nodes@, 0, #[trigger] items@[k].symbols());
                    &&& t is Some
                    &&& 0 <= t->0 < r.nodes@.len()
                    &&& r.nodes@[t->0].outputs@.contains(k as usize)
                },
    {
        let mut automation = Automation { nodes: Vec::new(), outputs: Vec::new() };
        automation.nodes.push(AutomationNode::new());
        proof {
            let ns = automation.nodes@;
            assert(ns.len() == 1);
            assert(ns[0].goto@.len() == 0);
            assert(trie_wf(ns));
            assert(failures_zero(ns));
            assert(outputs_bounded(ns, 0));
            assert(own_only_at(ns, automation.outputs@, 0));
            assert(patterns_present(ns, automation.outputs@));
            assert(paths_within(ns, automation.outputs@));
        }
        automation.add_items(items);
        let ghost mid = automation;
        automation.build_failure();
        proof {
            // failure construction leaves paths, edges and recorded
            // outputs in place, so the trie facts carry over
            let a = mid.nodes@;
            let b = automation.nodes@;
            assert(trie_extends(a, b)) by {
                assert forall|i: int| 0 <= i < a.len() implies {
                    &&& (#[trigger] b[i]).path@ == a[i].path@
                    &&& a[i].goto@.len() <= b[i].goto@.len()
                    &&& a[i].goto@ == b[i].goto@.subrange(0, a[i].goto@.len() as int)
                    &&& forall|j: int|
                        a[i].goto@.len() <= j < b[i].goto@.len() ==> lookup_edge(
                            a[i].goto@,
                            (#[trigger] b[i].goto@[j]).0,
                        ) is None
                    &&& a[i].outputs@.len() <= b[i].outputs@.len()
                    &&& a[i].outputs@ == b[i].outputs@.subrange(0, a[i].outputs@.len() as int)
                } by {
                    assert(b[i].goto@ == a[i].goto@);
                    assert(a[i].goto@ =~= b[i].goto@.subrange(0, a[i].goto@.len() as int));
                }
            }
            assert forall|k: int| 0 <= k < items@.len() implies {
                let t = follow(automation.nodes@, 0, #[trigger] items@[k].symbols());
                &&& t is Some
                &&& 0 <= t->0 < automation.nodes@.len()
                &&& automation.nodes@[t->0].outputs@.contains(k as usize)
            } by {
                let t = follow(a, 0, items@[k].symbols());
                lemma_follow_extends(a, b, 0, items@[k].symbols(), t->0);
                lemma_outputs_extend(a, b, t->0, k as usize);
            }
        }
        proof {
            if items@.len() == 0 {
                assert(automation.nodes@.len() == 1) by {
                    if automation.nodes@.len() > 1 {
                        assert(path_in_catalog(automation.nodes@, automation.outputs@, 1));
                    }
                }
            }
        }
        automation
    }

    /// The node stored at `idx`.
    pub fn get_node(&self, idx: usize) -> (r: &AutomationNode)
        requires
            (idx as int) < self.nodes@.len(),
        ensures
            *r == self.nodes@[idx as int],
    {
        &self.nodes[idx]
    }

    /// A fresh cursor over this automaton, positioned at the root.
    pub fn search(&self) -> (r: AutomationSearch<'_>)
        ensures
            r.automation == self,
            r.current == 0,
    {
        AutomationSearch::new(self)
    }
}

/// `states` records a cursor's positions while it consumes `stream` from
/// the root: the start state, then the state after each symbol, each step
/// taken exactly as `next` promises in its contract.
pub open spec fn is_run(ns: Seq<AutomationNode>, stream: Seq<char>, states: Seq<int>) -> bool {
    &&& states.len() == stream.len() + 1
    &&& states[0] == 0
    &&& forall|i: int|
        0 <= i < stream.len() ==> states[i + 1] == step_spec(ns, #[trigger] states[i], stream[i])
}

/// A streaming cursor over a finished automaton: the current node index,
/// advanced one symbol at a time.
pub struct AutomationSearch<'a> {
    pub automation: &'a Automation,
    pub current: usize,
}

impl<'a> AutomationSearch<'a> {
    /// The cursor is usable: its automaton is well formed and its position
    /// a valid node.
    pub open spec fn wf(&self) -> bool {
        &&& self.automation.wf()
        &&& (self.current as int) < self.automation.nodes@.len()
    }

    /// A fresh cursor positioned at the root.
    pub fn new(automation: &'a Automation) -> (r: Self)
        ensures
            r.automation == automation,
            r.current == 0,
    {
        Self { automation, current: 0 }
    }

    /// Consume one symbol: fall back along failure links until an edge for
    /// `c` exists (or the root is reached), take it if possible, and report
    /// every pattern identity whose occurrence ends at the new position.
    /// The new state and the report are a function of the automaton, the
    /// old state and the symbol alone, and the state stays a valid node.
    pub fn next(&mut self, c: char) -> (r: Vec<usize>)
        requires
            old(self).wf(),
        ensures
            final(self).automation == old(self).automation,
            final(self).wf(),
            final(self).current as int == step_spec(
                old(self).automation.nodes@,
                old(self).current as int,
                c,
            ),
            r@ == final(self).automation.nodes@[final(self).current as int].outputs@,
            is_suffix_of(
                final(self).automation.nodes@[final(self).current as int].path@,
                old(self).automation.nodes@[old(self).current as int].path@.push(c),
            ),
            forall|t: Seq<char>|
                is_suffix_of(
                    t,
                    old(self).automation.nodes@[old(self).current as int].path@.push(c),
                ) && (#[trigger] follow(old(self).automation.nodes@, 0, t)) is Some ==> t.len()
                    <= final(self).automation.nodes@[final(self).current as int].path@.len(),
    {
        let ghost ns = self.automation.nodes@;
        let ghost s0 = self.current as int;
        proof {
            lemma_wf_searchable(self.automation);
            lemma_step_longest(self.automation, s0, c);
        }
        while self.current != 0 && !self.automation.get_node(self.current).contains(c)
            invariant
                self.automation.wf(),
                self.automation == old(self).automation,
                (self.current as int) < self.automation.nodes@.len(),
                ns == self.automation.nodes@,
                searchable(ns),
                step_spec(ns, s0, c) == step_spec(ns, self.current as int, c),
            decreases self.automation.nodes@[self.current as int].path@.len(),
        {
            proof {
                assert(node_fail_wf(ns, self.current as int));
            }
            self.current = self.automation.get_node(self.current).failure;
        }
        let node = self.automation.get_node(self.current);
        match node.enter_child(c) {
            Some(t) => {
                proof {
                    lemma_lookup_is_edge(ns[self.current as int].goto@, c, t);
                    let jj = choose|jj: int|
                        0 <= jj < ns[self.current as int].goto@.len() && ns[self.current
                            as int].goto@[jj] == (c, t);
                    assert(node_edges_wf(ns, self.current as int));
                    assert(edge_wf(ns, self.current as int, jj));
                }
                self.current = t;
            },
            None => {
                self.current = 0;
            },
        }
        let outs = &self.automation.get_node(self.current).outputs;
        let mut r: Vec<usize> = Vec::new();
        let mut i: usize = 0;
        while i < outs.len()
            invariant
                i <= outs@.len(),
                r@ == outs@.subrange(0, i as int),
            decreases outs@.len() - i,
        {
            r.push(outs[i]);
            proof {
                assert(outs@.subrange(0, i + 1 as int) =~= outs@.subrange(0, i as int).push(
                    outs@[i as int],
                ));
            }
            i = i + 1;
        }
        proof {
            assert(outs@.subrange(0, outs@.len() as int) =~= outs@);
        }
        r
    }
}

/// A well-formed automaton satisfies the part of well-formedness the
/// search step relies on.
pub proof fn lemma_wf_searchable(a: &Automation)
    requires
        a.wf(),
    ensures
        searchable(a.nodes@),
{
    let ns = a.nodes@;
    assert forall|i: int| 0 <= i < ns.len() implies {
        &&& 0 <= #[trigger] ns[i].failure < ns.len()
        &&& i == 0 ==> ns[i].failure == 0
        &&& i != 0 ==> ns[ns[i].failure as int].path@.len() < ns[i].path@.len()
    } by {
        assert(node_fail_wf(ns, i));
    }
}

/// Closure property: a node's output set contains every output of its
/// failure target, and reports no pattern identity twice.
pub proof fn lemma_output_closure(a: &Automation, n: int)
    requires
        a.wf(),
        0 <= n < a.nodes@.len(),
    ensures
        forall|m: int|
            0 <= m < a.nodes@[a.nodes@[n].failure as int].outputs@.len() ==> a.nodes@[n].outputs@.contains(
                #[trigger] a.nodes@[a.nodes@[n].failure as int].outputs@[m],
            ),
        a.nodes@[n].outputs@.no_duplicates(),
{
    assert(node_fail_wf(a.nodes@, n));
}

/// Failure shortening: a non-root node's failure target lies on a strictly
/// shorter path.
pub proof fn lemma_failure_shortening(a: &Automation, n: int)
    requires
        a.wf(),
        1 <= n < a.nodes@.len(),
    ensures
        a.nodes@[a.nodes@[n].failure as int].path@.len() < a.nodes@[n].path@.len(),
{
    assert(node_fail_wf(a.nodes@, n));
}

/// No self-failure: a non-root node's failure link never points at the
/// node itself.
pub proof fn lemma_no_self_failure(a: &Automation, n: int)
    requires
        a.wf(),
        1 <= n < a.nodes@.len(),
    ensures
        a.nodes@[n].failure != n,
{
    assert(node_fail_wf(a.nodes@, n));
}

/// Search totality: from any valid state, any symbol leads to a valid
/// state again.
pub proof fn lemma_step_valid(ns: Seq<AutomationNode>, s: int, c: char)
    requires
        searchable(ns),
        trie_wf(ns),
        0 <= s < ns.len(),
    ensures
        0 <= step_spec(ns, s, c) < ns.len(),
    decreases ns[s].path@.len(),
{
    match lookup_edge(ns[s].goto@, c) {
        Some(t) => {
            lemma_lookup_is_edge(ns[s].goto@, c, t);
            let jj = choose|jj: int| 0 <= jj < ns[s].goto@.len() && ns[s].goto@[jj] == (c, t);
            assert(node_edges_wf(ns, s));
            assert(edge_wf(ns, s, jj));
        },
        None => {
            if s != 0 {
                lemma_step_valid(ns, ns[s].failure as int, c);
            }
        },
    }
}

/// One search step lands on the longest suffix: the new state's path is a
/// suffix of the old path extended by the symbol, and no longer resident
/// suffix of it exists in the trie.
pub proof fn lemma_step_longest(a: &Automation, s: int, c: char)
    requires
        a.wf(),
        0 <= s < a.nodes@.len(),
    ensures
        ({
            let ns = a.nodes@;
            let n2 = step_spec(ns, s, c);
            &&& 0 <= n2 < ns.len()
            &&& is_suffix_of(ns[n2].path@, ns[s].path@.push(c))
            &&& forall|t: Seq<char>|
                is_suffix_of(t, ns[s].path@.push(c)) && (#[trigger] follow(ns, 0, t)) is Some
                    ==> t.len() <= ns[n2].path@.len()
        }),
    decreases a.nodes@[s].path@.len(),
{
    let ns = a.nodes@;
    lemma_wf_searchable(a);
    lemma_paths_faithful(ns);
    let n2 = step_spec(ns, s, c);
    match lookup_edge(ns[s].goto@, c) {
        Some(t0) => {
            lemma_lookup_is_edge(ns[s].goto@, c, t0);
            let jj = choose|jj: int| 0 <= jj < ns[s].goto@.len() && ns[s].goto@[jj] == (c, t0);
            assert(node_edges_wf(ns, s));
            assert(edge_wf(ns, s, jj));
            assert(ns[n2].path@ == ns[s].path@.push(c));
            assert(is_suffix_of(ns[n2].path@, ns[s].path@.push(c))) by {
                assert(ns[n2].path@ =~= ns[s].path@.push(c).subrange(
                    0,
                    ns[s].path@.push(c).len() as int,
                ));
            }
        },
        None => {
            if s == 0 {
                assert(n2 == 0);
                assert(is_suffix_of(ns[0].path@, ns[0].path@.push(c))) by {
                    assert(ns[0].path@ =~= ns[0].path@.push(c).subrange(1, 1));
                }
                assert forall|t: Seq<char>|
                    is_suffix_of(t, ns[0].path@.push(c)) && (#[trigger] follow(ns, 0, t)) is Some
                    implies t.len() <= ns[0].path@.len() by {
                    if t.len() >= 1 {
                        lemma_suffix_push_decomp(t, ns[0].path@, c);
                        assert(t.drop_last().len() == 0);
                        assert(t.drop_last() =~= Seq::<char>::empty());
                        lemma_follow_snoc(ns, 0, t.drop_last(), c);
                        assert(follow(ns, 0, t.drop_last()) == Some(0int));
                        assert(lookup_edge(ns[0].goto@, c) is Some);
                        assert(false);
                    }
                }
            } else {
                assert(node_fail_wf(ns, s));
                let fs = ns[s].failure as int;
                lemma_step_longest(a, fs, c);
                let m2 = step_spec(ns, fs, c);
                assert(n2 == m2);
                assert(is_proper_suffix(ns[fs].path@, ns[s].path@));
                lemma_proper_suffix_push(ns[fs].path@, ns[s].path@, c);
                lemma_suffix_of_trans(ns[n2].path@, ns[fs].path@.push(c), ns[s].path@.push(c));
                assert forall|t: Seq<char>|
                    is_suffix_of(t, ns[s].path@.push(c)) && (#[trigger] follow(ns, 0, t)) is Some
                    implies t.len() <= ns[n2].path@.len() by {
                    if t.len() >= 1 {
                        lemma_suffix_push_decomp(t, ns[s].path@, c);
                        let t2 = t.drop_last();
                        lemma_follow_snoc(ns, 0, t2, c);
                        assert(follow(ns, 0, t2) is Some);
                        if t2.len() == ns[s].path@.len() {
                            assert(t2 =~= ns[s].path@);
                            assert(follow(ns, 0, t2) == Some(s));
                            assert(lookup_edge(ns[s].goto@, c) is Some);
                            assert(false);
                        } else {
                            assert(is_proper_suffix(t2, ns[s].path@));
                            assert(failure_longest_at(ns, s));
                            assert(t2.len() <= ns[fs].path@.len());
                            lemma_suffix_of_same(t2, ns[fs].path@, ns[s].path@);
                            assert(is_suffix_of(t, ns[fs].path@.push(c))) by {
                                assert(t == t2.push(c));
                                assert(t2.push(c) =~= ns[fs].path@.push(c).subrange(
                                    ns[fs].path@.push(c).len() - t2.push(c).len(),
                                    ns[fs].path@.push(c).len() as int,
                                ));
                            }
                        }
                    }
                }
            }
        },
    }
}

proof fn lemma_run_agree(
    ns: Seq<AutomationNode>,
    stream: Seq<char>,
    states1: Seq<int>,
    states2: Seq<int>,
    i: int,
)
    requires
        is_run(ns, stream, states1),
        is_run(ns, stream, states2),
        0 <= i <= stream.len(),
    ensures
        states1[i] == states2[i],
    decreases i,
{
    if i > 0 {
        lemma_run_agree(ns, stream, states1, states2, i - 1);
    }
}

/// Idempotent restart: any two cursors created fresh over one automaton
/// and fed the same stream pass through the same states, so they report
/// the same output sequence at every step. `next`'s contract makes every
/// cursor's state sequence a run, and runs over one stream are unique.
pub proof fn lemma_idempotent_restart(
    ns: Seq<AutomationNode>,
    stream: Seq<char>,
    states1: Seq<int>,
    states2: Seq<int>,
)
    requires
        is_run(ns, stream, states1),
        is_run(ns, stream, states2),
    ensures
        states1 == states2,
{
    assert forall|i: int| 0 <= i < states1.len() implies states1[i] == states2[i] by {
        lemma_run_agree(ns, stream, states1, states2, i);
    }
    assert(states1 =~= states2);
}

} // verus!
