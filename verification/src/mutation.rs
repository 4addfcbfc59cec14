//! In-place replacement of an op's content.
use vstd::prelude::*;

use crate::graph::{
    Graph, is_owner_op, node_matches_op, node_op_ptr, node_root_ptr, op_node, op_owner,
    owner_matches_op, owner_op_ptr, owner_root_ptr, root_children, root_node, root_ops_below,
    root_owner, same_but_views,
};
use crate::ir::{Node, Op, Owner, Root, is_none_op, op_children};
use crate::link::Link;
use crate::views::{clone_op, frame, node_live_op, owner_live_op};

verus! {

impl Link<Op> {
    /// Update the current [Op] with the content of `other`. Every holder of the current op sees
    /// the new content; the current op keeps its own node and owner views, which are updated to
    /// the new variant.
    pub fn set(&self, other: &Link<Op>, g: &mut Graph)
        requires
            old(g).wf(),
            old(g).op_live(self.ptr),
            other.ptr < old(g).ops.len(),
            forall|j: int|
                0 <= j < op_children(old(g).ops@[other.ptr as int]).len() ==> old(g).rank@[(
                #[trigger] op_children(old(g).ops@[other.ptr as int])[j]).ptr as int] < old(
                g,
            ).rank@[self.ptr as int],
        ensures
            final(g).wf(),
            frame(*old(g), *final(g)),
            final(g).roots == old(g).roots,
            final(g).ops.len() == old(g).ops.len(),
            final(g).nodes.len() == old(g).nodes.len(),
            final(g).owners.len() == old(g).owners.len(),
            same_but_views(old(g).ops@[other.ptr as int], final(g).ops@[self.ptr as int]),
            forall|i: int| 0 <= i < old(g).ops.len() && i != self.ptr ==> final(g).ops@[i] == old(g).ops@[i],
            op_node(final(g).ops@[self.ptr as int]) matches Some(n) ==> node_matches_op(
                final(g).nodes@[n.ptr as int],
                final(g).ops@[self.ptr as int],
            ),
            op_owner(final(g).ops@[self.ptr as int]) matches Some(o) ==> owner_matches_op(
                final(g).owners@[o.ptr as int],
                final(g).ops@[self.ptr as int],
            ),
    {
        let old_node = crate::views::op_node_of(&g.ops[self.ptr]);
        let old_owner = crate::views::op_owner_of(&g.ops[self.ptr]);
        let new_op = clone_op(&g.ops[other.ptr], old_node, old_owner);
        let ghost before = *g;
        g.ops.set(self.ptr, new_op);
        match old_node {
            Some(n) => {
                let view = crate::views::node_for_op(&g.ops[self.ptr], self.ptr);
                g.nodes.set(n.ptr, view);
            },
            None => {},
        }
        proof {
            crate::views::lemma_same_but_views(before.ops@[other.ptr as int], new_op);
            assert forall|i: int, j: int|
                0 <= i < g.ops.len() && 0 <= j < op_children(g.ops@[i]).len() implies {
                    let c = #[trigger] op_children(g.ops@[i])[j];
                    &&& c.ptr < g.ops.len()
                    &&& g.rank@[c.ptr as int] < g.rank@[i]
                } by {
                if i != self.ptr {
                    assert(g.ops@[i] == before.ops@[i]);
                } else {
                    assert(op_children(g.ops@[i]) == op_children(before.ops@[other.ptr as int]));
                    assert(op_children(before.ops@[other.ptr as int])[j] == op_children(g.ops@[i])[j]);
                }
            }
            assert forall|i: int| 0 <= i < g.ops.len() implies match op_node(#[trigger] g.ops@[i]) {
                Some(m) => m.ptr < g.nodes.len() && node_op_ptr(g.nodes@[m.ptr as int]) == Some(i as usize)
                    && node_matches_op(g.nodes@[m.ptr as int], g.ops@[i]),
                None => true,
            } by {
                if i != self.ptr {
                    assert(g.ops@[i] == before.ops@[i]);
                    if let Some(m) = op_node(g.ops@[i]) {
                        if let Some(n) = old_node {
                            if m.ptr == n.ptr {
                                assert(node_op_ptr(before.nodes@[n.ptr as int]) == Some(self.ptr));
                            }
                        }
                    }
                } else {
                    assert(op_node(before.ops@[i]) == old_node);
                }
            }
            assert forall|i: int| 0 <= i < g.roots.len() implies match root_node(#[trigger] g.roots@[i]) {
                Some(m) => m.ptr < g.nodes.len() && node_root_ptr(g.nodes@[m.ptr as int]) == Some(i as usize),
                None => true,
            } by {
                if let Some(m) = root_node(g.roots@[i]) {
                    assert(node_root_ptr(before.nodes@[m.ptr as int]) == Some(i as usize));
                    if let Some(n) = old_node {
                        assert(node_op_ptr(before.nodes@[n.ptr as int]) == Some(self.ptr));
                    }
                }
            }
            assert forall|i: int| 0 <= i < g.ops.len() implies match op_owner(#[trigger] g.ops@[i]) {
                Some(o) => o.ptr < g.owners.len() && owner_op_ptr(g.owners@[o.ptr as int]) == Some(i as usize),
                None => true,
            } by {
                if i != self.ptr {
                    assert(g.ops@[i] == before.ops@[i]);
                } else {
                    assert(op_owner(before.ops@[i]) == old_owner);
                }
            }
        }
        let ghost after_set = *g;
        let ghost after_node = *g;
        match old_owner {
            Some(o) => {
                if crate::views::is_owner_kind(&g.ops[self.ptr]) {
                    assert(owner_live_op(*g, g.owners@[o.ptr as int]) == Some(self.ptr));
                    o.update_variant(g);
                }
            },
            None => {},
        }
        proof {
            assert(g.ops == after_set.ops);
            if let Some(n) = op_node(g.ops@[self.ptr as int]) {
                assert(old_node == Some(n));
                assert(g.nodes@[n.ptr as int] == after_node.nodes@[n.ptr as int]);
            }
            if let Some(o) = op_owner(g.ops@[self.ptr as int]) {
                assert(old_owner == Some(o));
                assert(is_owner_op(g.ops@[self.ptr as int]));
            }
        }
    }
}

/// Write `op` in the slot `p`, in place of an op that keeps the same views, where every child of
/// `op` names a slot and ranks below `p`.
pub fn put_op(g: &mut Graph, p: usize, op: Op)
    requires
        old(g).wf(),
        p < old(g).ops.len(),
        op_node(op) == op_node(old(g).ops@[p as int]),
        op_node(op) is Some ==> node_matches_op(old(g).nodes@[op_node(op)->Some_0.ptr as int], op),
        op_owner(op) == op_owner(old(g).ops@[p as int]),
        forall|j: int|
            0 <= j < op_children(op).len() ==> (#[trigger] op_children(op)[j]).ptr < old(g).ops.len()
                && old(g).rank@[op_children(op)[j].ptr as int] < old(g).rank@[p as int],
    ensures
        final(g).wf(),
        final(g).ops@ == old(g).ops@.update(p as int, op),
        final(g).op_dropped == old(g).op_dropped,
        final(g).rank == old(g).rank,
        final(g).roots == old(g).roots,
        final(g).root_dropped == old(g).root_dropped,
        final(g).nodes == old(g).nodes,
        final(g).owners == old(g).owners,
        final(g).buses == old(g).buses,
        final(g).boundary_constraints_roots == old(g).boundary_constraints_roots,
        final(g).integrity_constraints_roots == old(g).integrity_constraints_roots,
        final(g).functions == old(g).functions,
        final(g).evaluators == old(g).evaluators,
        final(g).bus_table == old(g).bus_table,
{
    let ghost before = *g;
    g.ops.set(p, op);
    proof {
        assert forall|i: int, j: int|
            0 <= i < g.ops.len() && 0 <= j < op_children(g.ops@[i]).len() implies {
                let c = #[trigger] op_children(g.ops@[i])[j];
                &&& c.ptr < g.ops.len()
                &&& g.rank@[c.ptr as int] < g.rank@[i]
            } by {
            if i != p {
                assert(g.ops@[i] == before.ops@[i]);
            }
        }
        assert forall|i: int| 0 <= i < g.ops.len() implies match op_node(#[trigger] g.ops@[i]) {
            Some(m) => m.ptr < g.nodes.len() && node_op_ptr(g.nodes@[m.ptr as int]) == Some(i as usize),
            None => true,
        } by {
            if i != p {
                assert(g.ops@[i] == before.ops@[i]);
            }
        }
        assert forall|i: int| 0 <= i < g.ops.len() implies match op_owner(#[trigger] g.ops@[i]) {
            Some(o) => o.ptr < g.owners.len() && owner_op_ptr(g.owners@[o.ptr as int]) == Some(i as usize),
            None => true,
        } by {
            if i != p {
                assert(g.ops@[i] == before.ops@[i]);
            }
        }
    }
}

/// The two roots are the same but for the ops they name.
pub open spec fn same_root_views(a: Root, b: Root) -> bool {
    &&& root_node(a) == root_node(b)
    &&& root_owner(a) == root_owner(b)
    &&& (a is Function) == (b is Function)
    &&& (a is Evaluator) == (b is Evaluator)
}

/// Write `r` in the root slot `p`, in place of a root of the same kind with the same views,
/// where every op `r` names is a slot of the graph.
pub fn put_root(g: &mut Graph, p: usize, r: Root)
    requires
        old(g).wf(),
        p < old(g).roots.len(),
        same_root_views(old(g).roots@[p as int], r),
        forall|j: int| 0 <= j < root_children(r).len() ==> (#[trigger] root_children(r)[j]).ptr < old(g).ops.len(),
        root_ops_below(r, old(g).ops.len() as nat),
    ensures
        final(g).wf(),
        final(g).roots@ == old(g).roots@.update(p as int, r),
        final(g).ops == old(g).ops,
        final(g).op_dropped == old(g).op_dropped,
        final(g).rank == old(g).rank,
        final(g).root_dropped == old(g).root_dropped,
        final(g).nodes == old(g).nodes,
        final(g).owners == old(g).owners,
        final(g).buses == old(g).buses,
        final(g).boundary_constraints_roots == old(g).boundary_constraints_roots,
        final(g).integrity_constraints_roots == old(g).integrity_constraints_roots,
        final(g).functions == old(g).functions,
        final(g).evaluators == old(g).evaluators,
        final(g).bus_table == old(g).bus_table,
{
    let ghost before = *g;
    g.roots.set(p, r);
    proof {
        assert forall|i: int, j: int|
            0 <= i < g.roots.len() && 0 <= j < root_children(g.roots@[i]).len() implies (
            #[trigger] root_children(g.roots@[i])[j]).ptr < g.ops.len() by {
            if i != p {
                assert(g.roots@[i] == before.roots@[i]);
            }
        }
        assert forall|i: int| 0 <= i < g.roots.len() implies root_ops_below(#[trigger] g.roots@[i], g.ops.len() as nat) by {
            if i != p {
                assert(g.roots@[i] == before.roots@[i]);
            }
        }
        assert forall|i: int| 0 <= i < g.roots.len() implies match root_node(#[trigger] g.roots@[i]) {
            Some(m) => m.ptr < g.nodes.len() && node_root_ptr(g.nodes@[m.ptr as int]) == Some(i as usize),
            None => true,
        } by {
            if i != p {
                assert(g.roots@[i] == before.roots@[i]);
            }
        }
        assert forall|i: int| 0 <= i < g.roots.len() implies match root_owner(#[trigger] g.roots@[i]) {
            Some(o) => o.ptr < g.owners.len() && owner_root_ptr(g.owners@[o.ptr as int]) == Some(i as usize),
            None => true,
        } by {
            if i != p {
                assert(g.roots@[i] == before.roots@[i]);
            }
        }
    }
}

} // verus!