//! The simulation context: the indexing pass that gives every reachable
//! memory-access node a dense index, and the online reuse-interval
//! histogram engine fed by an external driver's access events.

use std::collections::BTreeMap;
use std::collections::HashMap;

use vstd::prelude::*;

use crate::graph::Arena;
use crate::graph::Graph;
use crate::graph::node_range;
use crate::graph::nodes_wf;

verus! {

broadcast use
    vstd::std_specs::hash::group_hash_axioms,
    vstd::std_specs::btree::group_btree_axioms,
    vstd::laws_cmp::group_laws_cmp,
;

/// State carried through the indexing pass: the nodes the walk has already
/// visited, the dense index assigned to each Access node, and the
/// histograms, one per assigned index, in index order.
#[verifier::ext_equal]
pub struct IndexState {
    pub visited: Set<int>,
    pub node_index: Map<usize, usize>,
    pub histograms: Seq<Map<usize, usize>>,
}

/// The nodes the indexing walk descends into from `node`. A `Branch`
/// contributes its successors only when both are present: a one-sided
/// branch truncates the walk at that point.
pub open spec fn dfs_children(node: Graph) -> Seq<usize> {
    match node {
        Graph::Start(Some(x)) => seq![x],
        Graph::Access { next: Some(x), .. } => seq![x],
        Graph::Update { next: Some(x), .. } => seq![x],
        Graph::Branch { then_next: Some(x), else_next: Some(y), .. } => seq![x, y],
        _ => seq![],
    }
}

/// One visit of the indexing walk: mark `node` (stored at `g`) visited,
/// and if it is an Access node seen for the first time, assign it the next
/// sequential index and give it an empty histogram.
pub open spec fn visit(st: IndexState, g: usize, node: Graph) -> IndexState {
    match node {
        Graph::Access { .. } => if !st.node_index.contains_key(g) {
            IndexState {
                visited: st.visited.insert(g as int),
                node_index: st.node_index.insert(g, st.histograms.len() as usize),
                histograms: st.histograms.push(Map::empty()),
            }
        } else {
            IndexState {
                visited: st.visited.insert(g as int),
                node_index: st.node_index,
                histograms: st.histograms,
            }
        },
        _ => IndexState {
            visited: st.visited.insert(g as int),
            node_index: st.node_index,
            histograms: st.histograms,
        },
    }
}

/// Every entry of `stack` is a node of an arena of `n` nodes.
pub open spec fn stack_ok(stack: Seq<usize>, n: nat) -> bool {
    forall|i: int| 0 <= i < stack.len() ==> stack[i] < n
}

/// The indexing walk itself, written over an explicit work stack whose top
/// is the last element: pop a node; skip it if already visited, otherwise
/// visit it and push its children so that the first child is walked first.
/// Each step either shrinks the stack or visits a new node, so the walk
/// terminates even on cyclic graphs.
pub open spec fn dfs(nodes: Seq<Graph>, stack: Seq<usize>, st: IndexState) -> IndexState
    decreases nodes.len() - st.visited.len(), stack.len(),
        when nodes_wf(nodes) && stack_ok(stack, nodes.len()) && st.visited.finite()
            && st.visited.subset_of(node_range(nodes))
{
    if stack.len() == 0 {
        st
    } else {
        let g = stack.last();
        let rest = stack.drop_last();
        if st.visited.contains(g as int) {
            dfs(nodes, rest, st)
        } else {
            proof {
                vstd::set_lib::lemma_int_range(0, nodes.len() as int);
                vstd::set_lib::lemma_len_subset(
                    st.visited.insert(g as int),
                    node_range(nodes),
                );
            }
            dfs(
                nodes,
                rest + dfs_children(nodes[g as int]).reverse(),
                visit(st, g, nodes[g as int]),
            )
        }
    }
}

proof fn lemma_children_ok(nodes: Seq<Graph>, g: usize)
    requires
        nodes_wf(nodes),
        g < nodes.len(),
    ensures
        stack_ok(dfs_children(nodes[g as int]), nodes.len()),
        stack_ok(dfs_children(nodes[g as int]).reverse(), nodes.len()),
{
    let kids = dfs_children(nodes[g as int]);
    assert(crate::graph::node_wf(nodes[g as int], nodes.len()));
    assert forall|i: int| 0 <= i < kids.reverse().len() implies kids.reverse()[i]
        < nodes.len() by {
        assert(kids[kids.len() - 1 - i] < nodes.len());
    }
}

/// Identity stability: the indexing walk never reassigns or removes an
/// index that is already assigned, and never rewrites an existing
/// histogram — it only marks further nodes visited, extends the index
/// assignment, and appends fresh, empty histograms.
pub proof fn lemma_dfs_preserves_indices(nodes: Seq<Graph>, stack: Seq<usize>, st: IndexState)
    requires
        nodes_wf(nodes),
        stack_ok(stack, nodes.len()),
        st.visited.finite(),
        st.visited.subset_of(node_range(nodes)),
    ensures
        ({
            let r = dfs(nodes, stack, st);
            &&& st.visited.subset_of(r.visited)
            &&& r.visited.finite()
            &&& r.visited.subset_of(node_range(nodes))
            &&& forall|g: usize| #[trigger]
                st.node_index.contains_key(g) ==> r.node_index.contains_key(g)
                    && r.node_index[g] == st.node_index[g]
            &&& st.histograms.len() <= r.histograms.len()
            &&& forall|i: int|
                0 <= i < st.histograms.len() ==> #[trigger] r.histograms[i] == st.histograms[i]
            &&& forall|i: int|
                st.histograms.len() <= i < r.histograms.len() ==> #[trigger] r.histograms[i]
                    == Map::<usize, usize>::empty()
        }),
    decreases nodes.len() - st.visited.len(), stack.len(),
{
    if stack.len() == 0 {
    } else {
        let g = stack.last();
        let rest = stack.drop_last();
        if st.visited.contains(g as int) {
            lemma_dfs_preserves_indices(nodes, rest, st);
            assert(dfs(nodes, stack, st) == dfs(nodes, rest, st));
        } else {
            vstd::set_lib::lemma_int_range(0, nodes.len() as int);
            vstd::set_lib::lemma_len_subset(st.visited.insert(g as int), node_range(nodes));
            lemma_children_ok(nodes, g);
            let st1 = visit(st, g, nodes[g as int]);
            let kids = dfs_children(nodes[g as int]);
            lemma_dfs_preserves_indices(nodes, rest + kids.reverse(), st1);
            let r = dfs(nodes, rest + kids.reverse(), st1);
            assert(dfs(nodes, stack, st) == r);
            assert forall|g2: usize| #[trigger] st.node_index.contains_key(g2) implies
                r.node_index.contains_key(g2) && r.node_index[g2] == st.node_index[g2] by {
                assert(st1.node_index.contains_key(g2));
            }
            assert forall|i: int| 0 <= i < st.histograms.len() implies #[trigger] r.histograms[i]
                == st.histograms[i] by {
                assert(r.histograms[i] == st1.histograms[i]);
            }
            assert forall|i: int| st.histograms.len() <= i < r.histograms.len() implies #[trigger]
                r.histograms[i] == Map::<usize, usize>::empty() by {
                if i < st1.histograms.len() {
                    assert(r.histograms[i] == st1.histograms[i]);
                    assert(st1.histograms[i] == Map::<usize, usize>::empty());
                }
            }
        }
    }
}

/// Which nodes the walk visits depends only on the graph, the stack and
/// the set already visited — not on the index assignment so far.
proof fn lemma_dfs_visited_agrees(
    nodes: Seq<Graph>,
    stack: Seq<usize>,
    st_a: IndexState,
    st_b: IndexState,
)
    requires
        nodes_wf(nodes),
        stack_ok(stack, nodes.len()),
        st_a.visited == st_b.visited,
        st_a.visited.finite(),
        st_a.visited.subset_of(node_range(nodes)),
    ensures
        dfs(nodes, stack, st_a).visited == dfs(nodes, stack, st_b).visited,
    decreases nodes.len() - st_a.visited.len(), stack.len(),
{
    if stack.len() == 0 {
    } else {
        let g = stack.last();
        let rest = stack.drop_last();
        if st_a.visited.contains(g as int) {
            lemma_dfs_visited_agrees(nodes, rest, st_a, st_b);
        } else {
            vstd::set_lib::lemma_int_range(0, nodes.len() as int);
            vstd::set_lib::lemma_len_subset(st_a.visited.insert(g as int), node_range(nodes));
            lemma_children_ok(nodes, g);
            let kids = dfs_children(nodes[g as int]);
            lemma_dfs_visited_agrees(
                nodes,
                rest + kids.reverse(),
                visit(st_a, g, nodes[g as int]),
                visit(st_b, g, nodes[g as int]),
            );
        }
    }
}

/// Every Access node the walk has visited carries an index when it ends,
/// provided the same held of the nodes already visited at its start.
proof fn lemma_dfs_visited_access_indexed(nodes: Seq<Graph>, stack: Seq<usize>, st: IndexState)
    requires
        nodes_wf(nodes),
        stack_ok(stack, nodes.len()),
        st.visited.finite(),
        st.visited.subset_of(node_range(nodes)),
        forall|g: usize|
            g < nodes.len() && nodes[g as int] is Access && #[trigger] st.visited.contains(
                g as int,
            ) ==> st.node_index.contains_key(g),
    ensures
        ({
            let r = dfs(nodes, stack, st);
            forall|g: usize|
                g < nodes.len() && nodes[g as int] is Access && #[trigger] r.visited.contains(
                    g as int,
                ) ==> r.node_index.contains_key(g)
        }),
    decreases nodes.len() - st.visited.len(), stack.len(),
{
    if stack.len() == 0 {
    } else {
        let g = stack.last();
        let rest = stack.drop_last();
        if st.visited.contains(g as int) {
            lemma_dfs_visited_access_indexed(nodes, rest, st);
            assert(dfs(nodes, stack, st) == dfs(nodes, rest, st));
        } else {
            vstd::set_lib::lemma_int_range(0, nodes.len() as int);
            vstd::set_lib::lemma_len_subset(st.visited.insert(g as int), node_range(nodes));
            lemma_children_ok(nodes, g);
            let kids = dfs_children(nodes[g as int]);
            let st1 = visit(st, g, nodes[g as int]);
            assert forall|g2: usize|
                g2 < nodes.len() && nodes[g2 as int] is Access && #[trigger] st1.visited.contains(
                    g2 as int,
                ) implies st1.node_index.contains_key(g2) by {
                if g2 != g {
                    assert(st.visited.contains(g2 as int));
                    assert(st.node_index.contains_key(g2));
                }
            }
            lemma_dfs_visited_access_indexed(nodes, rest + kids.reverse(), st1);
            assert(dfs(nodes, stack, st) == dfs(nodes, rest + kids.reverse(), st1));
            let r = dfs(nodes, rest + kids.reverse(), st1);
            assert forall|g2: usize|
                g2 < nodes.len() && nodes[g2 as int] is Access && #[trigger] dfs(
                    nodes,
                    stack,
                    st,
                ).visited.contains(g2 as int) implies dfs(
                    nodes,
                    stack,
                    st,
                ).node_index.contains_key(g2) by {
                assert(r.visited.contains(g2 as int));
            }
        }
    }
}

/// A walk that meets no unindexed Access node leaves the index assignment
/// and the histograms exactly as they were.
proof fn lemma_dfs_no_new_access_no_change(nodes: Seq<Graph>, stack: Seq<usize>, st: IndexState)
    requires
        nodes_wf(nodes),
        stack_ok(stack, nodes.len()),
        st.visited.finite(),
        st.visited.subset_of(node_range(nodes)),
        forall|g: usize|
            g < nodes.len() && nodes[g as int] is Access && #[trigger] dfs(
                nodes,
                stack,
                st,
            ).visited.contains(g as int) ==> st.node_index.contains_key(g),
    ensures
        dfs(nodes, stack, st).node_index == st.node_index,
        dfs(nodes, stack, st).histograms == st.histograms,
    decreases nodes.len() - st.visited.len(), stack.len(),
{
    if stack.len() == 0 {
    } else {
        let g = stack.last();
        let rest = stack.drop_last();
        if st.visited.contains(g as int) {
            assert(dfs(nodes, stack, st) == dfs(nodes, rest, st));
            assert forall|g2: usize|
                g2 < nodes.len() && nodes[g2 as int] is Access && #[trigger] dfs(
                    nodes,
                    rest,
                    st,
                ).visited.contains(g2 as int) implies st.node_index.contains_key(g2) by {
                assert(dfs(nodes, stack, st).visited.contains(g2 as int));
            }
            lemma_dfs_no_new_access_no_change(nodes, rest, st);
        } else {
            vstd::set_lib::lemma_int_range(0, nodes.len() as int);
            vstd::set_lib::lemma_len_subset(st.visited.insert(g as int), node_range(nodes));
            lemma_children_ok(nodes, g);
            let kids = dfs_children(nodes[g as int]);
            let st1 = visit(st, g, nodes[g as int]);
            assert(dfs(nodes, stack, st) == dfs(nodes, rest + kids.reverse(), st1));
            lemma_dfs_preserves_indices(nodes, rest + kids.reverse(), st1);
            assert(st1.visited.subset_of(dfs(nodes, rest + kids.reverse(), st1).visited));
            assert(dfs(nodes, stack, st).visited.contains(g as int));
            assert(st1.node_index == st.node_index);
            assert(st1.histograms == st.histograms);
            assert forall|g2: usize|
                g2 < nodes.len() && nodes[g2 as int] is Access && #[trigger] dfs(
                    nodes,
                    rest + kids.reverse(),
                    st1,
                ).visited.contains(g2 as int) implies st1.node_index.contains_key(g2) by {
                assert(dfs(nodes, stack, st).visited.contains(g2 as int));
            }
            lemma_dfs_no_new_access_no_change(nodes, rest + kids.reverse(), st1);
        }
    }
}

/// Idempotent indexing: running the indexing walk a second time over the
/// same graph, from the same root, with the assignment and histograms the
/// first run produced, reproduces them exactly — no index is reassigned
/// and no histogram is reset.
pub proof fn lemma_indexing_idempotent(nodes: Seq<Graph>, root: usize, st: IndexState)
    requires
        nodes_wf(nodes),
        root < nodes.len(),
        st.visited == Set::<int>::empty(),
    ensures
        ({
            let r1 = dfs(nodes, seq![root], st);
            let r2 = dfs(
                nodes,
                seq![root],
                IndexState {
                    visited: Set::empty(),
                    node_index: r1.node_index,
                    histograms: r1.histograms,
                },
            );
            r2.node_index == r1.node_index && r2.histograms == r1.histograms
        }),
{
    let r1 = dfs(nodes, seq![root], st);
    let st2 = IndexState {
        visited: Set::empty(),
        node_index: r1.node_index,
        histograms: r1.histograms,
    };
    assert(stack_ok(seq![root], nodes.len()));
    lemma_dfs_visited_access_indexed(nodes, seq![root], st);
    lemma_dfs_preserves_indices(nodes, seq![root], st);
    lemma_dfs_visited_agrees(nodes, seq![root], st, st2);
    lemma_dfs_no_new_access_no_change(nodes, seq![root], st2);
}

/// One-sided branch truncation: when the walk pops a `Branch` with only
/// one successor present, it marks the branch itself visited and descends
/// into neither side, so nothing is indexed beyond it on its account.
pub proof fn lemma_one_sided_branch_truncates(nodes: Seq<Graph>, g: usize, st: IndexState)
    requires
        nodes_wf(nodes),
        g < nodes.len(),
        st.visited.finite(),
        st.visited.subset_of(node_range(nodes)),
        !st.visited.contains(g as int),
        match nodes[g as int] {
            Graph::Branch { then_next, else_next, .. } => then_next is None || else_next is None,
            _ => false,
        },
    ensures
        dfs(nodes, seq![g], st) == (IndexState {
            visited: st.visited.insert(g as int),
            node_index: st.node_index,
            histograms: st.histograms,
        }),
{
    vstd::set_lib::lemma_int_range(0, nodes.len() as int);
    vstd::set_lib::lemma_len_subset(st.visited.insert(g as int), node_range(nodes));
    let kids = dfs_children(nodes[g as int]);
    let st1 = visit(st, g, nodes[g as int]);
    assert(seq![g].drop_last() =~= Seq::<usize>::empty());
    assert(kids.reverse() =~= Seq::<usize>::empty());
    assert(seq![g].drop_last() + kids.reverse() =~= Seq::<usize>::empty());
    assert(dfs(nodes, seq![g], st) == dfs(nodes, Seq::<usize>::empty(), st1));
}

/// The node-to-index assignment is dense: the assigned indices are exactly
/// 0 up to `nhist`, no two nodes sharing one.
pub open spec fn index_ok(idx: Map<usize, usize>, nhist: nat) -> bool {
    &&& idx.dom().finite()
    &&& forall|g: usize| #[trigger] idx.contains_key(g) ==> idx[g] < nhist
    &&& forall|g1: usize, g2: usize|
        #![trigger idx[g1], idx[g2]]
        idx.contains_key(g1) && idx.contains_key(g2) && g1 != g2 ==> idx[g1] != idx[g2]
    &&& idx.dom().len() == nhist
}

/// One more occurrence of `interval` in the histogram `h`.
pub open spec fn bump(h: Map<usize, usize>, interval: usize) -> Map<usize, usize> {
    h.insert(
        interval,
        if h.contains_key(interval) {
            (h[interval] + 1) as usize
        } else {
            1usize
        },
    )
}

/// The mathematical model of a simulation context.
pub struct SimModel {
    /// Configured memory block granularity.
    pub block_size: usize,
    /// Base virtual address of each memory reference id.
    pub vaddrs: Seq<usize>,
    /// The logical clock, advanced once per access event.
    pub logic_time: usize,
    /// Dense index assigned to each indexed Access node identity.
    pub node_index: Map<usize, usize>,
    /// Reuse-interval histogram of each indexed Access node, by its index.
    pub histograms: Seq<Map<usize, usize>>,
    /// The logical time each memory block was last touched.
    pub last_seen: Map<usize, usize>,
}

/// Session-scoped simulation state: created once per analysis session,
/// indexed exactly once over one graph, then fed an unbounded sequence of
/// access events.
pub struct SimulationCtx {
    block_size: usize,
    vaddrs: Vec<usize>,
    logic_time: usize,
    node_info: Vec<BTreeMap<usize, usize>>,
    address_map: HashMap<usize, usize>,
    access_time: HashMap<usize, usize>,
}

impl View for SimulationCtx {
    type V = SimModel;

    closed spec fn view(&self) -> SimModel {
        SimModel {
            block_size: self.block_size,
            vaddrs: self.vaddrs@,
            logic_time: self.logic_time,
            node_index: self.address_map@,
            histograms: self.node_info@.map_values(|h: BTreeMap<usize, usize>| h@),
            last_seen: self.access_time@,
        }
    }
}

impl SimulationCtx {
    /// Session invariant: the index assignment is dense with one histogram
    /// per index; every recorded last-seen time lies strictly in the past;
    /// every histogram bucket is a positive interval counted at least once
    /// and at most once per elapsed clock tick.
    pub open spec fn wf(&self) -> bool {
        &&& index_ok(self@.node_index, self@.histograms.len())
        &&& forall|b: usize| #[trigger]
            self@.last_seen.contains_key(b) ==> self@.last_seen[b] < self@.logic_time
        &&& forall|i: int, k: usize|
            0 <= i < self@.histograms.len() && #[trigger] self@.histograms[i].contains_key(k)
                ==> 1 <= k && 1 <= self@.histograms[i][k] <= self@.logic_time
    }

    /// A fresh simulation context for one analysis session, configured with
    /// the block granularity and the table of base virtual addresses.
    pub fn new(block_size: usize, vaddrs: Vec<usize>) -> (ctx: SimulationCtx)
        ensures
            ctx@.block_size == block_size,
            ctx@.vaddrs == vaddrs@,
            ctx@.logic_time == 0,
            ctx@.node_index == Map::<usize, usize>::empty(),
            ctx@.histograms == Seq::<Map<usize, usize>>::empty(),
            ctx@.last_seen == Map::<usize, usize>::empty(),
            ctx.wf(),
    {
        let ctx = SimulationCtx {
            block_size,
            vaddrs,
            logic_time: 0,
            node_info: Vec::new(),
            address_map: HashMap::new(),
            access_time: HashMap::new(),
        };
        proof {
            assert(ctx@.histograms =~= Seq::<Map<usize, usize>>::empty());
            assert(ctx@.node_index.dom() =~= Set::<usize>::empty());
        }
        ctx
    }

    /// Record one access event, called by the external driver once per
    /// observed access, strictly in execution order: `node_id` is the dense
    /// index of the Access node performing the touch, `block_id` the block
    /// touched. The logical clock advances by one whatever the outcome. A
    /// first touch of a block only records the time; a repeated touch adds
    /// one to the performing node's bucket for the elapsed interval.
    pub fn access(&mut self, node_id: usize, block_id: usize)
        requires
            old(self).wf(),
            node_id < old(self)@.histograms.len(),
            old(self)@.logic_time < usize::MAX,
        ensures
            final(self).wf(),
            final(self)@.block_size == old(self)@.block_size,
            final(self)@.vaddrs == old(self)@.vaddrs,
            final(self)@.node_index == old(self)@.node_index,
            final(self)@.logic_time == old(self)@.logic_time + 1,
            final(self)@.last_seen == old(self)@.last_seen.insert(
                block_id,
                old(self)@.logic_time,
            ),
            final(self)@.histograms == (if old(self)@.last_seen.contains_key(block_id) {
                old(self)@.histograms.update(
                    node_id as int,
                    bump(
                        old(self)@.histograms[node_id as int],
                        (old(self)@.logic_time - old(self)@.last_seen[block_id]) as usize,
                    ),
                )
            } else {
                old(self)@.histograms
            }),
    {
        let time = self.logic_time;
        self.logic_time = time + 1;
        let prev: Option<usize> = match self.access_time.get(&block_id) {
            Some(p) => Some(*p),
            None => None,
        };
        match prev {
            None => {
                self.access_time.insert(block_id, time);
                proof {
                    assert(self@.histograms =~= old(self)@.histograms);
                }
            },
            Some(last) => {
                proof {
                    assert(old(self)@.last_seen.contains_key(block_id));
                    assert(old(self)@.last_seen[block_id] == last);
                }
                let interval = time - last;
                let hist = &mut self.node_info[node_id];
                proof {
                    assert(hist@ == old(self)@.histograms[node_id as int]);
                }
                let count: usize = match hist.get(&interval) {
                    Some(c) => *c,
                    None => 0,
                };
                proof {
                    if old(self)@.histograms[node_id as int].contains_key(interval) {
                        assert(1 <= old(self)@.histograms[node_id as int][interval]
                            <= old(self)@.logic_time);
                    }
                    assert(count <= old(self)@.logic_time);
                }
                hist.insert(interval, count + 1);
                self.access_time.insert(block_id, time);
                proof {
                    assert(self@.histograms =~= old(self)@.histograms.update(
                        node_id as int,
                        bump(old(self)@.histograms[node_id as int], interval),
                    ));
                }
            },
        }
        proof {
            let pre = old(self)@;
            let post = self@;
            assert forall|b: usize| #[trigger] post.last_seen.contains_key(b) implies
                post.last_seen[b] < post.logic_time by {
                if b != block_id {
                    assert(pre.last_seen.contains_key(b));
                }
            }
            assert forall|i: int, k: usize|
                0 <= i < post.histograms.len() && #[trigger] post.histograms[i].contains_key(k)
                implies 1 <= k && 1 <= post.histograms[i][k] <= post.logic_time by {
                if pre.last_seen.contains_key(block_id) && i == node_id as int && k
                    == (pre.logic_time - pre.last_seen[block_id]) as usize {
                    assert(pre.last_seen[block_id] < pre.logic_time);
                    if pre.histograms[i].contains_key(k) {
                        assert(1 <= pre.histograms[i][k] <= pre.logic_time);
                    }
                } else {
                    assert(pre.histograms[i].contains_key(k));
                    assert(1 <= pre.histograms[i][k] <= pre.logic_time);
                }
            }
        }
    }

    /// Run the indexing pass over the graph in `arena`, starting at `root`:
    /// a depth-first, cycle-guarded walk that assigns the next sequential
    /// index (0, 1, 2, ... in first-discovery order) to every Access node
    /// met for the first time and gives it an empty histogram. A node that
    /// already carries an index keeps it, and its histogram is untouched,
    /// so running the pass again over the same graph changes nothing.
    pub fn populate_node_info(&mut self, arena: &Arena, root: usize)
        requires
            old(self).wf(),
            arena.wf(),
            root < arena@.len(),
        ensures
            final(self).wf(),
            final(self)@.block_size == old(self)@.block_size,
            final(self)@.vaddrs == old(self)@.vaddrs,
            final(self)@.logic_time == old(self)@.logic_time,
            final(self)@.last_seen == old(self)@.last_seen,
            ({
                let st = dfs(
                    arena@,
                    seq![root],
                    IndexState {
                        visited: Set::empty(),
                        node_index: old(self)@.node_index,
                        histograms: old(self)@.histograms,
                    },
                );
                final(self)@.node_index == st.node_index && final(self)@.histograms
                    == st.histograms
            }),
            forall|g: usize| #[trigger]
                old(self)@.node_index.contains_key(g) ==> final(self)@.node_index.contains_key(g)
                    && final(self)@.node_index[g] == old(self)@.node_index[g],
            forall|i: int|
                0 <= i < old(self)@.histograms.len() ==> #[trigger] final(self)@.histograms[i]
                    == old(self)@.histograms[i],
    {
        let ghost init = IndexState {
            visited: Set::empty(),
            node_index: old(self)@.node_index,
            histograms: old(self)@.histograms,
        };
        let ghost pre = old(self)@;
        let n = arena.len();
        let mut visited: Vec<bool> = vec![false; n];
        let ghost vset = Set::<int>::empty();
        let mut stack: Vec<usize> = Vec::new();
        stack.push(root);
        proof {
            assert(stack@ =~= seq![root]);
        }
        while stack.len() != 0
            invariant
                arena.wf(),
                n == arena@.len(),
                visited@.len() == n,
                forall|i: int| 0 <= i < n ==> (#[trigger] visited@[i] <==> vset.contains(i)),
                vset.finite(),
                vset.subset_of(node_range(arena@)),
                stack_ok(stack@, arena@.len()),
                index_ok(self@.node_index, self@.histograms.len()),
                forall|i: int, k: usize|
                    0 <= i < self@.histograms.len() && #[trigger] self@.histograms[i].contains_key(
                        k,
                    ) ==> 1 <= k && 1 <= self@.histograms[i][k] <= self@.logic_time,
                self@.block_size == pre.block_size,
                self@.vaddrs == pre.vaddrs,
                self@.logic_time == pre.logic_time,
                self@.last_seen == pre.last_seen,
                dfs(
                    arena@,
                    stack@,
                    IndexState {
                        visited: vset,
                        node_index: self@.node_index,
                        histograms: self@.histograms,
                    },
                ) == dfs(arena@, seq![root], init),
            decreases arena@.len() - vset.len(), stack@.len(),
        {
            let ghost stack0 = stack@;
            let ghost st0 = IndexState {
                visited: vset,
                node_index: self@.node_index,
                histograms: self@.histograms,
            };
            let g = stack.pop().unwrap();
            proof {
                assert(stack0[stack0.len() - 1] < arena@.len());
            }
            if !visited[g] {
                visited[g] = true;
                proof {
                    vset = vset.insert(g as int);
                    vstd::set_lib::lemma_int_range(0, arena@.len() as int);
                    vstd::set_lib::lemma_len_subset(vset, node_range(arena@));
                }
                let node = arena.node(g);
                match node {
                    Graph::Access { .. } => {
                        if !self.address_map.contains_key(&g) {
                            let idx = self.node_info.len();
                            self.address_map.insert(g, idx);
                            self.node_info.push(BTreeMap::new());
                            proof {
                                assert(self@.histograms =~= st0.histograms.push(
                                    Map::<usize, usize>::empty(),
                                ));
                                assert(self@.node_index.dom() =~= st0.node_index.dom().insert(g));
                                vstd::set_lib::lemma_len_subset(
                                    st0.node_index.dom(),
                                    self@.node_index.dom(),
                                );
                            }
                        }
                    },
                    _ => (),
                }
                match node {
                    Graph::Start(Some(x)) => stack.push(x),
                    Graph::Access { next: Some(x), .. } => stack.push(x),
                    Graph::Update { next: Some(x), .. } => stack.push(x),
                    Graph::Branch { then_next: Some(x), else_next: Some(y), .. } => {
                        stack.push(y);
                        stack.push(x);
                    },
                    _ => (),
                }
                proof {
                    let rest = stack0.drop_last();
                    let kids = dfs_children(arena@[g as int]);
                    assert(kids.reverse().len() == kids.len());
                    assert(stack@ =~= rest + kids.reverse());
                    let st1 = IndexState {
                        visited: vset,
                        node_index: self@.node_index,
                        histograms: self@.histograms,
                    };
                    assert(st1 =~= visit(st0, g, arena@[g as int]));
                    assert(dfs(arena@, stack@, st1) == dfs(arena@, stack0, st0));
                }
            } else {
                proof {
                    assert(stack@ =~= stack0.drop_last());
                    assert(dfs(
                        arena@,
                        stack@,
                        IndexState {
                            visited: vset,
                            node_index: self@.node_index,
                            histograms: self@.histograms,
                        },
                    ) == dfs(arena@, stack0, st0));
                }
            }
        }
        proof {
            assert(final(self)@.node_index == dfs(arena@, seq![root], init).node_index);
            lemma_dfs_preserves_indices(arena@, seq![root], init);
        }
    }

    /// The histogram collected for the node whose identity is `g`, or
    /// nothing if the indexing pass never reached that node.
    pub fn get_node_dist(&self, g: usize) -> (hist: Option<&BTreeMap<usize, usize>>)
        requires
            self.wf(),
        ensures
            match hist {
                Some(h) => self@.node_index.contains_key(g) && h@ == self@.histograms[
                    self@.node_index[g] as int
                ],
                None => !self@.node_index.contains_key(g),
            },
    {
        match self.address_map.get(&g) {
            Some(i) => Some(&self.node_info[*i]),
            None => None,
        }
    }

    /// The dense index the indexing pass assigned to the node whose
    /// identity is `g`. Asking for a node that was never indexed is a
    /// contract violation by the caller.
    pub fn get_node_id(&self, g: usize) -> (id: usize)
        requires
            self@.node_index.contains_key(g),
        ensures
            id == self@.node_index[g],
    {
        *self.address_map.get(&g).unwrap()
    }

    /// The configured base virtual address of a memory reference id.
    pub fn get_memref_vaddr(&self, memref_id: usize) -> (vaddr: usize)
        requires
            memref_id < self@.vaddrs.len(),
        ensures
            vaddr == self@.vaddrs[memref_id as int],
    {
        self.vaddrs[memref_id]
    }

    /// The configured memory block granularity.
    pub fn get_block_size(&self) -> (size: usize)
        ensures
            size == self@.block_size,
    {
        self.block_size
    }

    /// The current logical time: how many access events have been recorded.
    pub fn get_logic_time(&self) -> (t: usize)
        ensures
            t == self@.logic_time,
    {
        self.logic_time
    }

    /// How many Access nodes the indexing pass has given an index so far;
    /// the dense indices handed out are exactly those below this count.
    pub fn num_indexed_nodes(&self) -> (n: usize)
        ensures
            n == self@.histograms.len(),
    {
        self.node_info.len()
    }

    /// How many memory reference ids the session's address table covers.
    pub fn num_memrefs(&self) -> (n: usize)
        ensures
            n == self@.vaddrs.len(),
    {
        self.vaddrs.len()
    }
}

} // verus!
