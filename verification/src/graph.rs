//! The graph intermediate representation: node variants, the arena that owns
//! every node, the construction and patch operations, and a cycle-safe
//! textual rendering.

use vstd::prelude::*;
use vstd::string::StringExecFns;

verus! {

/// An opaque handle to an affine expression over induction variables.
/// Expressions are constructed and owned elsewhere; the graph only carries
/// the handle through.
#[derive(Clone, Copy, PartialEq, Eq, Structural, Debug)]
pub struct ExprId(pub usize);

/// One node of the graph. A successor link is the index of another node in
/// the same arena; `None` means "no further node". Links may form cycles:
/// a `Branch`'s `then_next` typically points back at an earlier node.
#[derive(Clone, Copy, PartialEq, Eq, Structural, Debug)]
pub enum Graph {
    /// Single entry marker.
    Start(Option<usize>),
    /// Terminal marker, no successors.
    End,
    /// A memory reference site: which base array is accessed, at which
    /// affine offset, and what follows.
    Access { memref: usize, offset: ExprId, next: Option<usize> },
    /// An induction-variable assignment.
    Update { ivar: usize, expr: ExprId, next: Option<usize> },
    /// A loop-bound test: `then_next` models "condition holds, continue"
    /// (may cycle back), `else_next` models "condition fails, proceed past
    /// the loop".
    Branch { ivar: usize, bound: ExprId, then_next: Option<usize>, else_next: Option<usize> },
}

/// A link is valid for an arena of `n` nodes when it is absent or in range.
pub open spec fn link_ok(link: Option<usize>, n: nat) -> bool {
    match link {
        Some(g) => g < n,
        None => true,
    }
}

/// All successor links of `node` stay inside an arena of `n` nodes.
pub open spec fn node_wf(node: Graph, n: nat) -> bool {
    match node {
        Graph::Start(next) => link_ok(next, n),
        Graph::End => true,
        Graph::Access { next, .. } => link_ok(next, n),
        Graph::Update { next, .. } => link_ok(next, n),
        Graph::Branch { then_next, else_next, .. } => link_ok(then_next, n) && link_ok(
            else_next,
            n,
        ),
    }
}

/// Every successor link of every node in `nodes` points inside `nodes`.
pub open spec fn nodes_wf(nodes: Seq<Graph>) -> bool {
    forall|i: int| 0 <= i < nodes.len() ==> node_wf(#[trigger] nodes[i], nodes.len())
}

/// The set of all node identities of an arena with `nodes` as contents.
pub open spec fn node_range(nodes: Seq<Graph>) -> Set<int> {
    vstd::set_lib::set_int_range(0, nodes.len() as int)
}

/// The arena owning every node for the lifetime of one analysis session.
/// It only grows: nodes are never moved or freed individually, so an index,
/// once returned, stays valid and keeps denoting the same node.
pub struct Arena {
    nodes: Vec<Graph>,
}

impl View for Arena {
    type V = Seq<Graph>;

    closed spec fn view(&self) -> Seq<Graph> {
        self.nodes@
    }
}

impl Arena {
    /// Every link of every node points inside the arena.
    pub open spec fn wf(&self) -> bool {
        nodes_wf(self@)
    }

    /// An empty arena.
    pub fn new() -> (arena: Arena)
        ensures
            arena@ == Seq::<Graph>::empty(),
            arena.wf(),
    {
        Arena { nodes: Vec::new() }
    }

    /// How many nodes have been allocated.
    pub fn len(&self) -> (n: usize)
        ensures
            n == self@.len(),
    {
        self.nodes.len()
    }

    /// Read the node stored at index `g`.
    pub fn node(&self, g: usize) -> (node: Graph)
        requires
            g < self@.len(),
        ensures
            node == self@[g as int],
    {
        self.nodes[g]
    }

    fn push_node(&mut self, node: Graph) -> (id: usize)
        requires
            old(self).wf(),
            node_wf(node, old(self)@.len() + 1),
        ensures
            id == old(self)@.len(),
            final(self)@ == old(self)@.push(node),
            final(self).wf(),
    {
        let id = self.nodes.len();
        self.nodes.push(node);
        proof {
            assert forall|i: int| 0 <= i < self@.len() implies node_wf(
                #[trigger] self@[i],
                self@.len(),
            ) by {
                if i < id {
                    assert(node_wf(old(self)@[i], old(self)@.len()));
                }
            }
        }
        id
    }

    /// Allocate a `Start` node; its identity is the returned index.
    pub fn new_start(&mut self, next: Option<usize>) -> (id: usize)
        requires
            old(self).wf(),
            link_ok(next, old(self)@.len()),
        ensures
            id == old(self)@.len(),
            final(self)@ == old(self)@.push(Graph::Start(next)),
            final(self).wf(),
    {
        self.push_node(Graph::Start(next))
    }

    /// Allocate an `End` node; its identity is the returned index.
    pub fn new_end(&mut self) -> (id: usize)
        requires
            old(self).wf(),
        ensures
            id == old(self)@.len(),
            final(self)@ == old(self)@.push(Graph::End),
            final(self).wf(),
    {
        self.push_node(Graph::End)
    }

    /// Allocate an `Access` node; its identity is the returned index.
    pub fn new_access(&mut self, memref: usize, offset: ExprId, next: Option<usize>) -> (id: usize)
        requires
            old(self).wf(),
            link_ok(next, old(self)@.len()),
        ensures
            id == old(self)@.len(),
            final(self)@ == old(self)@.push(Graph::Access { memref, offset, next }),
            final(self).wf(),
    {
        self.push_node(Graph::Access { memref, offset, next })
    }

    /// Allocate an `Update` node; its identity is the returned index.
    pub fn new_update(&mut self, ivar: usize, expr: ExprId, next: Option<usize>) -> (id: usize)
        requires
            old(self).wf(),
            link_ok(next, old(self)@.len()),
        ensures
            id == old(self)@.len(),
            final(self)@ == old(self)@.push(Graph::Update { ivar, expr, next }),
            final(self).wf(),
    {
        self.push_node(Graph::Update { ivar, expr, next })
    }

    /// Allocate a `Branch` node; its identity is the returned index.
    pub fn new_branch(
        &mut self,
        ivar: usize,
        bound: ExprId,
        then_next: Option<usize>,
        else_next: Option<usize>,
    ) -> (id: usize)
        requires
            old(self).wf(),
            link_ok(then_next, old(self)@.len()),
            link_ok(else_next, old(self)@.len()),
        ensures
            id == old(self)@.len(),
            final(self)@ == old(self)@.push(
                Graph::Branch { ivar, bound, then_next, else_next },
            ),
            final(self).wf(),
    {
        self.push_node(Graph::Branch { ivar, bound, then_next, else_next })
    }

    fn patch(&mut self, g: usize, node: Graph)
        requires
            old(self).wf(),
            g < old(self)@.len(),
            node_wf(node, old(self)@.len()),
        ensures
            final(self)@ == old(self)@.update(g as int, node),
            final(self).wf(),
    {
        self.nodes[g] = node;
        proof {
            assert forall|i: int| 0 <= i < self@.len() implies node_wf(
                #[trigger] self@[i],
                self@.len(),
            ) by {
                if i != g {
                    assert(node_wf(old(self)@[i], old(self)@.len()));
                }
            }
        }
    }

    /// Overwrite the successor link of a `Start`, `Access` or `Update` node
    /// in place; on a `Branch` or `End` node the call is silently ignored.
    /// Patching is what makes forward references possible: the link can be
    /// set after the node it points at has been allocated.
    pub fn set_next(&mut self, g: usize, next: Option<usize>)
        requires
            old(self).wf(),
            g < old(self)@.len(),
            link_ok(next, old(self)@.len()),
        ensures
            final(self).wf(),
            final(self)@ == (match old(self)@[g as int] {
                Graph::Start(_) => old(self)@.update(g as int, Graph::Start(next)),
                Graph::Access { memref, offset, .. } => old(self)@.update(
                    g as int,
                    (Graph::Access { memref, offset, next }),
                ),
                Graph::Update { ivar, expr, .. } => old(self)@.update(
                    g as int,
                    (Graph::Update { ivar, expr, next }),
                ),
                _ => old(self)@,
            }),
    {
        let node = self.nodes[g];
        match node {
            Graph::Start(_) => self.patch(g, Graph::Start(next)),
            Graph::Access { memref, offset, .. } => self.patch(
                g,
                Graph::Access { memref, offset, next },
            ),
            Graph::Update { ivar, expr, .. } => self.patch(
                g,
                Graph::Update { ivar, expr, next },
            ),
            _ => (),
        }
    }

    /// Overwrite the "condition holds" link of a `Branch` node in place;
    /// on any other variant the call is silently ignored. This is how a
    /// loop back-edge is closed after the loop body has been allocated.
    pub fn set_then(&mut self, g: usize, then_next: Option<usize>)
        requires
            old(self).wf(),
            g < old(self)@.len(),
            link_ok(then_next, old(self)@.len()),
        ensures
            final(self).wf(),
            final(self)@ == (match old(self)@[g as int] {
                Graph::Branch { ivar, bound, else_next, .. } => old(self)@.update(
                    g as int,
                    (Graph::Branch { ivar, bound, then_next, else_next }),
                ),
                _ => old(self)@,
            }),
    {
        let node = self.nodes[g];
        match node {
            Graph::Branch { ivar, bound, else_next, .. } => self.patch(
                g,
                Graph::Branch { ivar, bound, then_next, else_next },
            ),
            _ => (),
        }
    }

    /// Overwrite the "condition fails" link of a `Branch` node in place;
    /// on any other variant the call is silently ignored.
    pub fn set_else(&mut self, g: usize, else_next: Option<usize>)
        requires
            old(self).wf(),
            g < old(self)@.len(),
            link_ok(else_next, old(self)@.len()),
        ensures
            final(self).wf(),
            final(self)@ == (match old(self)@[g as int] {
                Graph::Branch { ivar, bound, then_next, .. } => old(self)@.update(
                    g as int,
                    (Graph::Branch { ivar, bound, then_next, else_next }),
                ),
                _ => old(self)@,
            }),
    {
        let node = self.nodes[g];
        match node {
            Graph::Branch { ivar, bound, then_next, .. } => self.patch(
                g,
                Graph::Branch { ivar, bound, then_next, else_next },
            ),
            _ => (),
        }
    }
}

/// The single decimal digit `d` as text.
pub open spec fn digit_seq(d: nat) -> Seq<char> {
    if d == 0 {
        "0"@
    } else if d == 1 {
        "1"@
    } else if d == 2 {
        "2"@
    } else if d == 3 {
        "3"@
    } else if d == 4 {
        "4"@
    } else if d == 5 {
        "5"@
    } else if d == 6 {
        "6"@
    } else if d == 7 {
        "7"@
    } else if d == 8 {
        "8"@
    } else {
        "9"@
    }
}

/// The decimal rendering of `n`, most significant digit first.
pub open spec fn dec_str(n: nat) -> Seq<char>
    decreases n,
{
    if n < 10 {
        digit_seq(n)
    } else {
        dec_str(n / 10) + digit_seq(n % 10)
    }
}

fn digit_str(d: usize) -> (s: &'static str)
    requires
        d < 10,
    ensures
        s@ == digit_seq(d as nat),
{
    if d == 0 {
        "0"
    } else if d == 1 {
        "1"
    } else if d == 2 {
        "2"
    } else if d == 3 {
        "3"
    } else if d == 4 {
        "4"
    } else if d == 5 {
        "5"
    } else if d == 6 {
        "6"
    } else if d == 7 {
        "7"
    } else if d == 8 {
        "8"
    } else {
        "9"
    }
}

fn usize_to_string(n: usize) -> (s: String)
    ensures
        s@ == dec_str(n as nat),
    decreases n,
{
    if n < 10 {
        digit_str(n).to_owned()
    } else {
        let mut s = usize_to_string(n / 10);
        s.append(digit_str(n % 10));
        s
    }
}

/// The textual rendering of the node `g` of `nodes`, depth-first through its
/// successors; `path` holds the nodes already being rendered further up the
/// walk, and a node met again while it is still on that path renders as an
/// ellipsis, which keeps the rendering finite on cyclic graphs.
pub open spec fn render(nodes: Seq<Graph>, g: int, path: Set<int>) -> Seq<char>
    decreases nodes.len() - path.len(), 0int,
        when nodes_wf(nodes) && 0 <= g < nodes.len() && path.finite() && path.subset_of(
            node_range(nodes),
        )
{
    if path.contains(g) {
        "..."@
    } else {
        let p = path.insert(g);
        proof {
            vstd::set_lib::lemma_int_range(0, nodes.len() as int);
            vstd::set_lib::lemma_len_subset(p, node_range(nodes));
        }
        match nodes[g] {
            Graph::Start(next) => "Start("@ + render_link(nodes, next, p) + ")"@,
            Graph::End => "End"@,
            Graph::Access { memref, offset, next } => "Access("@ + dec_str(memref as nat) + ", "@
                + dec_str(offset.0 as nat) + ", "@ + render_link(nodes, next, p) + ")"@,
            Graph::Update { ivar, expr, next } => "Update("@ + dec_str(ivar as nat) + ", "@
                + dec_str(expr.0 as nat) + ", "@ + render_link(nodes, next, p) + ")"@,
            Graph::Branch { ivar, bound, then_next, else_next } => "Branch("@ + dec_str(
                ivar as nat,
            ) + ", "@ + dec_str(bound.0 as nat) + ", "@ + (match then_next {
                Some(t) => render(nodes, t as int, p) + ", "@,
                None => Seq::<char>::empty(),
            }) + render_link(nodes, else_next, p) + ")"@,
        }
    }
}

/// The rendering of an optional successor link: nothing when the link is
/// absent, the linked node's rendering otherwise.
pub open spec fn render_link(nodes: Seq<Graph>, link: Option<usize>, path: Set<int>) -> Seq<char>
    decreases nodes.len() - path.len(), 1int,
        when nodes_wf(nodes) && link_ok(link, nodes.len()) && path.finite() && path.subset_of(
            node_range(nodes),
        )
{
    match link {
        Some(g) => render(nodes, g as int, path),
        None => Seq::<char>::empty(),
    }
}

fn format_rec(arena: &Arena, g: usize, visited: &mut Vec<bool>, Ghost(path): Ghost<Set<int>>) -> (s:
    String)
    requires
        arena.wf(),
        g < arena@.len(),
        old(visited)@.len() == arena@.len(),
        path.finite(),
        path.subset_of(node_range(arena@)),
        forall|i: int| 0 <= i < arena@.len() ==> (old(visited)@[i] <==> path.contains(i)),
    ensures
        final(visited)@ == old(visited)@,
        s@ == render(arena@, g as int, path),
    decreases arena@.len() - path.len(),
{
    if visited[g] {
        return "...".to_owned();
    }
    visited[g] = true;
    let ghost p = path.insert(g as int);
    proof {
        vstd::set_lib::lemma_int_range(0, arena@.len() as int);
        vstd::set_lib::lemma_len_subset(p, node_range(arena@));
        assert(node_wf(arena@[g as int], arena@.len()));
        assert forall|i: int| 0 <= i < arena@.len() implies (visited@[i] <==> p.contains(i)) by {}
    }
    let node = arena.node(g);
    let mut s: String;
    match node {
        Graph::Start(next) => {
            s = "Start(".to_owned();
            match next {
                Some(x) => {
                    let sub = format_rec(arena, x, visited, Ghost(p));
                    s.append(sub.as_str());
                },
                None => {
                    proof {
                        assert(s@ + render_link(arena@, next, p) =~= s@);
                    }
                },
            }
            s.append(")");
            proof {
                assert(s@ == "Start("@ + render_link(arena@, next, p) + ")"@);
            }
        },
        Graph::End => {
            s = "End".to_owned();
            proof {
                assert(s@ == "End"@);
            }
        },
        Graph::Access { memref, offset, next } => {
            s = "Access(".to_owned();
            s.append(usize_to_string(memref).as_str());
            s.append(", ");
            s.append(usize_to_string(offset.0).as_str());
            s.append(", ");
            match next {
                Some(x) => {
                    let sub = format_rec(arena, x, visited, Ghost(p));
                    s.append(sub.as_str());
                },
                None => {
                    proof {
                        assert(s@ + render_link(arena@, next, p) =~= s@);
                    }
                },
            }
            s.append(")");
            proof {
                assert(s@ == "Access("@ + dec_str(memref as nat) + ", "@ + dec_str(offset.0 as nat)
                    + ", "@ + render_link(arena@, next, p) + ")"@);
            }
        },
        Graph::Update { ivar, expr, next } => {
            s = "Update(".to_owned();
            s.append(usize_to_string(ivar).as_str());
            s.append(", ");
            s.append(usize_to_string(expr.0).as_str());
            s.append(", ");
            match next {
                Some(x) => {
                    let sub = format_rec(arena, x, visited, Ghost(p));
                    s.append(sub.as_str());
                },
                None => {
                    proof {
                        assert(s@ + render_link(arena@, next, p) =~= s@);
                    }
                },
            }
            s.append(")");
            proof {
                assert(s@ == "Update("@ + dec_str(ivar as nat) + ", "@ + dec_str(expr.0 as nat)
                    + ", "@ + render_link(arena@, next, p) + ")"@);
            }
        },
        Graph::Branch { ivar, bound, then_next, else_next } => {
            s = "Branch(".to_owned();
            s.append(usize_to_string(ivar).as_str());
            s.append(", ");
            s.append(usize_to_string(bound.0).as_str());
            s.append(", ");
            match then_next {
                Some(x) => {
                    let sub = format_rec(arena, x, visited, Ghost(p));
                    s.append(sub.as_str());
                    s.append(", ");
                },
                None => {
                    proof {
                        assert(s@ + Seq::<char>::empty() =~= s@);
                    }
                },
            }
            match else_next {
                Some(x) => {
                    let sub = format_rec(arena, x, visited, Ghost(p));
                    s.append(sub.as_str());
                },
                None => {
                    proof {
                        assert(s@ + render_link(arena@, else_next, p) =~= s@);
                    }
                },
            }
            s.append(")");
            proof {
                assert(s@ == "Branch("@ + dec_str(ivar as nat) + ", "@ + dec_str(bound.0 as nat)
                    + ", "@ + (match then_next {
                    Some(t) => render(arena@, t as int, p) + ", "@,
                    None => Seq::<char>::empty(),
                }) + render_link(arena@, else_next, p) + ")"@);
            }
        },
    }
    visited[g] = false;
    proof {
        assert(visited@ =~= old(visited)@);
        assert(s@ =~= render(arena@, g as int, path));
    }
    s
}

impl Graph {
    /// Render the graph reachable from node `g` as text. The walk is
    /// depth-first; a node met again while it is still on the current
    /// rendering path appears as `...`, so the rendering terminates even on
    /// cyclic graphs. Purely diagnostic: it has no effect on simulation.
    pub fn format(arena: &Arena, g: usize) -> (s: String)
        requires
            arena.wf(),
            g < arena@.len(),
        ensures
            s@ == render(arena@, g as int, Set::empty()),
    {
        let n = arena.len();
        let mut visited: Vec<bool> = vec![false; n];
        format_rec(arena, g, &mut visited, Ghost(Set::empty()))
    }
}

} // verus!
