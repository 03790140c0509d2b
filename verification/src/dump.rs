//! A read-only report of a finished automaton: its nodes, edges, failure
//! links, output sets and pattern catalog, arranged for rendering.
#![allow(unused_imports)]
use vstd::prelude::*;
use crate::{edge_wf, has_parent, node_edges_wf, unique_parents, Automation, AutomationNode, Pattern};

verus! {

/// One reported node: the symbol on its incoming edge (none for the root),
/// its child indices, its failure target and its output set.
pub struct AutomationDumpNode {
    pub symbol: Option<char>,
    pub goto: Vec<usize>,
    pub failure: usize,
    pub outputs: Vec<usize>,
}

/// The target of a reported edge: a trie edge or a failure link.
pub enum EdTarget {
    Goto(usize),
    Failure(usize),
}

/// The full report: nodes in arena order, every edge, and the catalog of
/// patterns by identity.
pub struct AutomationDump {
    pub nodes: Vec<AutomationDumpNode>,
    pub edges: Vec<(usize, EdTarget)>,
    pub outputs: Vec<Vec<char>>,
}

/// The report's edge entries contributed by one node: one `Goto` entry per
/// trie edge, in edge-list order, then one `Failure` entry.
pub open spec fn report_edges_of(n: AutomationNode, i: usize) -> Seq<(usize, EdTarget)> {
    n.goto@.map_values(|e: (char, usize)| (i, EdTarget::Goto(e.1))).push(
        (i, EdTarget::Failure(n.failure)),
    )
}

/// The report's edge list for the first `i` nodes, in node order.
pub open spec fn report_edges_up_to(ns: Seq<AutomationNode>, i: int) -> Seq<(usize, EdTarget)>
    decreases i,
{
    if i <= 0 {
        Seq::empty()
    } else {
        report_edges_up_to(ns, i - 1) + report_edges_of(ns[i - 1], (i - 1) as usize)
    }
}

/// The report labels node `t` with the symbol of its incoming trie edge.
pub open spec fn symbol_labelled(
    ns: Seq<AutomationNode>,
    dn: Seq<AutomationDumpNode>,
    t: int,
) -> bool {
    exists|pi: int, pj: int|
        0 <= pi < ns.len() && 0 <= pj < ns[pi].goto@.len() && (#[trigger] ns[pi].goto@[pj]).1 == t
            && dn[t].symbol == Some(ns[pi].goto@[pj].0)
}

impl AutomationDump {
    /// Assemble the report: one entry per node carrying its failure target
    /// and output set, the child index list of each node, and the catalog.
    pub fn create(automation: &Automation) -> (r: Self)
        requires
            automation.wf(),
        ensures
            r.nodes@.len() == automation.nodes@.len(),
            forall|i: int|
                0 <= i < automation.nodes@.len() ==> {
                    &&& (#[trigger] r.nodes@[i]).failure == automation.nodes@[i].failure
                    &&& r.nodes@[i].outputs@ == automation.nodes@[i].outputs@
                    &&& r.nodes@[i].goto@.len() == automation.nodes@[i].goto@.len()
                    &&& forall|j: int|
                        0 <= j < r.nodes@[i].goto@.len() ==> (#[trigger] r.nodes@[i].goto@[j]) == (
                        automation.nodes@[i].goto@[j]).1
                },
            r.outputs@.len() == automation.outputs@.len(),
            forall|k: int|
                0 <= k < automation.outputs@.len() ==> (#[trigger] r.outputs@[k])@
                    == automation.outputs@[k]@,
            r.edges@ == report_edges_up_to(automation.nodes@, automation.nodes@.len() as int),
            r.nodes@[0].symbol is None,
            forall|t: int|
                1 <= t < automation.nodes@.len() ==> #[trigger] symbol_labelled(
                    automation.nodes@,
                    r.nodes@,
                    t,
                ),
    {
        let mut outputs: Vec<Vec<char>> = Vec::new();
        let mut k: usize = 0;
        while k < automation.outputs.len()
            invariant
                k <= automation.outputs@.len(),
                outputs@.len() == k,
                forall|m: int|
                    0 <= m < k ==> (#[trigger] outputs@[m])@ == automation.outputs@[m]@,
            decreases automation.outputs@.len() - k,
        {
            outputs.push(Pattern::iter(&automation.outputs[k]));
            k = k + 1;
        }
        let mut nodes: Vec<AutomationDumpNode> = Vec::new();
        let mut i: usize = 0;
        while i < automation.nodes.len()
            invariant
                i <= automation.nodes@.len(),
                nodes@.len() == i,
                forall|m: int| 0 <= m < i ==> (#[trigger] nodes@[m]).symbol is None,
                forall|m: int|
                    0 <= m < i ==> {
                        &&& (#[trigger] nodes@[m]).failure == automation.nodes@[m].failure
                        &&& nodes@[m].outputs@ == automation.nodes@[m].outputs@
                        &&& nodes@[m].goto@.len() == automation.nodes@[m].goto@.len()
                        &&& forall|j: int|
                            0 <= j < nodes@[m].goto@.len() ==> (#[trigger] nodes@[m].goto@[j]) == (
                            automation.nodes@[m].goto@[j]).1
                    },
            decreases automation.nodes@.len() - i,
        {
            let node = automation.get_node(i);
            let mut targets: Vec<usize> = Vec::new();
            let mut j: usize = 0;
            while j < node.goto.len()
                invariant
                    j <= node.goto@.len(),
                    targets@.len() == j,
                    forall|m: int|
                        0 <= m < j ==> (#[trigger] targets@[m]) == (node.goto@[m]).1,
                decreases node.goto@.len() - j,
            {
                let (_, t) = node.goto[j];
                targets.push(t);
                j = j + 1;
            }
            let mut outs: Vec<usize> = Vec::new();
            let mut m: usize = 0;
            while m < node.outputs.len()
                invariant
                    m <= node.outputs@.len(),
                    outs@ == node.outputs@.subrange(0, m as int),
                decreases node.outputs@.len() - m,
            {
                outs.push(node.outputs[m]);
                proof {
                    assert(node.outputs@.subrange(0, m + 1 as int) =~= node.outputs@.subrange(
                        0,
                        m as int,
                    ).push(node.outputs@[m as int]));
                }
                m = m + 1;
            }
            proof {
                assert(node.outputs@.subrange(0, node.outputs@.len() as int) =~= node.outputs@);
            }
            nodes.push(
                AutomationDumpNode { symbol: None, goto: targets, failure: node.failure, outputs: outs },
            );
            i = i + 1;
        }
        // second pass: label each node with its incoming symbol and list
        // every edge of the report
        let mut edges: Vec<(usize, EdTarget)> = Vec::new();
        let mut i2: usize = 0;
        proof {
            assert(edges@ =~= report_edges_up_to(automation.nodes@, 0));
        }
        while i2 < automation.nodes.len()
            invariant
                i2 <= automation.nodes@.len(),
                automation.wf(),
                nodes@.len() == automation.nodes@.len(),
                edges@ == report_edges_up_to(automation.nodes@, i2 as int),
                nodes@[0].symbol is None,
                forall|pi: int, pj: int|
                    0 <= pi < i2 && 0 <= pj < automation.nodes@[pi].goto@.len() ==> nodes@[(
                    #[trigger] automation.nodes@[pi].goto@[pj]).1 as int].symbol == Some(
                        automation.nodes@[pi].goto@[pj].0,
                    ),
                forall|m: int|
                    0 <= m < automation.nodes@.len() ==> {
                        &&& (#[trigger] nodes@[m]).failure == automation.nodes@[m].failure
                        &&& nodes@[m].outputs@ == automation.nodes@[m].outputs@
                        &&& nodes@[m].goto@.len() == automation.nodes@[m].goto@.len()
                        &&& forall|j: int|
                            0 <= j < nodes@[m].goto@.len() ==> (#[trigger] nodes@[m].goto@[j]) == (
                            automation.nodes@[m].goto@[j]).1
                    },
            decreases automation.nodes@.len() - i2,
        {
            let node_goto_len = automation.get_node(i2).goto.len();
            let mut j2: usize = 0;
            proof {
                let gm = automation.nodes@[i2 as int].goto@.subrange(0, 0).map_values(
                    |e: (char, usize)| (i2, EdTarget::Goto(e.1)),
                );
                assert(edges@ =~= report_edges_up_to(automation.nodes@, i2 as int) + gm);
            }
            while j2 < node_goto_len
                invariant
                    j2 <= node_goto_len,
                    i2 < automation.nodes@.len(),
                    automation.wf(),
                    node_goto_len == automation.nodes@[i2 as int].goto@.len(),
                    nodes@.len() == automation.nodes@.len(),
                    edges@ == report_edges_up_to(automation.nodes@, i2 as int)
                        + automation.nodes@[i2 as int].goto@.subrange(0, j2 as int).map_values(
                        |e: (char, usize)| (i2, EdTarget::Goto(e.1)),
                    ),
                    nodes@[0].symbol is None,
                    forall|pi: int, pj: int|
                        0 <= pi < automation.nodes@.len() && 0 <= pj < automation.nodes@[pi].goto@.len()
                            && (pi < i2 || (pi == i2 && pj < j2)) ==> nodes@[(
                        #[trigger] automation.nodes@[pi].goto@[pj]).1 as int].symbol == Some(
                            automation.nodes@[pi].goto@[pj].0,
                        ),
                    forall|m: int|
                        0 <= m < automation.nodes@.len() ==> {
                            &&& (#[trigger] nodes@[m]).failure == automation.nodes@[m].failure
                            &&& nodes@[m].outputs@ == automation.nodes@[m].outputs@
                            &&& nodes@[m].goto@.len() == automation.nodes@[m].goto@.len()
                            &&& forall|j: int|
                                0 <= j < nodes@[m].goto@.len() ==> (#[trigger] nodes@[m].goto@[j])
                                    == (automation.nodes@[m].goto@[j]).1
                        },
                decreases node_goto_len - j2,
            {
                let (cc, t) = automation.get_node(i2).goto[j2];
                proof {
                    assert(node_edges_wf(automation.nodes@, i2 as int));
                    assert(edge_wf(automation.nodes@, i2 as int, j2 as int));
                }
                let ghost pre = nodes@;
                nodes[t].symbol = Some(cc);
                proof {
                    let ans = automation.nodes@;
                    assert forall|m: int| 0 <= m < ans.len() implies {
                        &&& (#[trigger] nodes@[m]).failure == ans[m].failure
                        &&& nodes@[m].outputs@ == ans[m].outputs@
                        &&& nodes@[m].goto@.len() == ans[m].goto@.len()
                        &&& forall|j: int|
                            0 <= j < nodes@[m].goto@.len() ==> (#[trigger] nodes@[m].goto@[j]) == (
                            ans[m].goto@[j]).1
                    } by {
                        if m != t {
                            assert(nodes@[m] == pre[m]);
                        }
                    }
                    assert(nodes@[0].symbol is None) by {
                        assert((t as int) != 0);
                        assert(nodes@[0] == pre[0]);
                    }
                    // only the edge being visited targets this node, so no
                    // earlier-recorded label is disturbed
                    assert forall|pi: int, pj: int|
                        0 <= pi < ans.len() && 0 <= pj < ans[pi].goto@.len() && (pi < i2 || (pi
                            == i2 && pj < j2 + 1)) implies nodes@[(
                    #[trigger] ans[pi].goto@[pj]).1 as int].symbol == Some(ans[pi].goto@[pj].0) by {
                        if (ans[pi].goto@[pj]).1 == t {
                            assert(unique_parents(ans));
                            assert((ans[pi].goto@[pj]).1 == (ans[i2 as int].goto@[j2 as int]).1);
                            assert(pi == i2 as int && pj == j2 as int);
                        } else {
                            assert(node_edges_wf(ans, pi));
                            assert(edge_wf(ans, pi, pj));
                            assert(((ans[pi].goto@[pj]).1 as int) != (t as int));
                            assert(nodes@[(ans[pi].goto@[pj]).1 as int] == pre[(
                            ans[pi].goto@[pj]).1 as int]);
                        }
                    }
                }
                edges.push((i2, EdTarget::Goto(t)));
                proof {
                    let g = automation.nodes@[i2 as int].goto@;
                    assert(g.subrange(0, j2 as int + 1) =~= g.subrange(0, j2 as int).push(
                        g[j2 as int],
                    ));
                    assert(g.subrange(0, j2 as int + 1).map_values(
                        |e: (char, usize)| (i2, EdTarget::Goto(e.1)),
                    ) =~= g.subrange(0, j2 as int).map_values(
                        |e: (char, usize)| (i2, EdTarget::Goto(e.1)),
                    ).push((i2, EdTarget::Goto(t))));
                    assert(edges@ =~= report_edges_up_to(automation.nodes@, i2 as int)
                        + g.subrange(0, j2 as int + 1).map_values(
                        |e: (char, usize)| (i2, EdTarget::Goto(e.1)),
                    ));
                }
                j2 = j2 + 1;
            }
            edges.push((i2, EdTarget::Failure(automation.get_node(i2).failure)));
            proof {
                let ans = automation.nodes@;
                let g = ans[i2 as int].goto@;
                assert(g.subrange(0, g.len() as int) =~= g);
                assert(edges@ =~= report_edges_up_to(ans, i2 as int) + report_edges_of(
                    ans[i2 as int],
                    i2,
                ));
                assert(edges@ =~= report_edges_up_to(ans, i2 as int + 1));
            }
            i2 = i2 + 1;
        }
        proof {
            let ans = automation.nodes@;
            assert forall|t: int| 1 <= t < ans.len() implies #[trigger] symbol_labelled(
                ans,
                nodes@,
                t,
            ) by {
                assert(has_parent(ans, t));
                let (pi, pj) = choose|pi: int, pj: int|
                    0 <= pi < ans.len() && 0 <= pj < ans[pi].goto@.len() && (
                    #[trigger] ans[pi].goto@[pj]).1 == t;
                assert(nodes@[(ans[pi].goto@[pj]).1 as int].symbol == Some(ans[pi].goto@[pj].0));
            }
        }
        Self { nodes, edges, outputs }
    }
}

impl Automation {
    /// The read-only report of this automaton.
    pub fn dump(&self) -> (r: AutomationDump)
        requires
            self.wf(),
        ensures
            r.nodes@.len() == self.nodes@.len(),
            forall|i: int|
                0 <= i < self.nodes@.len() ==> {
                    &&& (#[trigger] r.nodes@[i]).failure == self.nodes@[i].failure
                    &&& r.nodes@[i].outputs@ == self.nodes@[i].outputs@
                    &&& r.nodes@[i].goto@.len() == self.nodes@[i].goto@.len()
                    &&& forall|j: int|
                        0 <= j < r.nodes@[i].goto@.len() ==> (#[trigger] r.nodes@[i].goto@[j]) == (
                        self.nodes@[i].goto@[j]).1
                },
            r.outputs@.len() == self.outputs@.len(),
            forall|k: int|
                0 <= k < self.outputs@.len() ==> (#[trigger] r.outputs@[k])@ == self.outputs@[k]@,
            r.edges@ == report_edges_up_to(self.nodes@, self.nodes@.len() as int),
            r.nodes@[0].symbol is None,
            forall|t: int|
                1 <= t < self.nodes@.len() ==> #[trigger] symbol_labelled(
                    self.nodes@,
                    r.nodes@,
                    t,
                ),
    {
        AutomationDump::create(self)
    }
}

} // verus!
