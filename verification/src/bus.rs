//! Buses of the graph: their creation, their values at the first and last rows, and the
//! insertions into and removals from them.
use vstd::prelude::*;

use crate::graph::Graph;
use crate::ir::{Bus, BusOp, BusOpKind, Op};
use crate::link::{BackLink, Link};
use crate::passes::CompileError;
use crate::value::{BusType, Identifier, SourceSpan};

verus! {

/// `b` is `a` but for the bus in slot `i`.
pub open spec fn only_bus_changed(a: Graph, b: Graph, i: int) -> bool {
    &&& b.ops == a.ops
    &&& b.op_dropped == a.op_dropped
    &&& b.rank == a.rank
    &&& b.roots == a.roots
    &&& b.root_dropped == a.root_dropped
    &&& b.nodes == a.nodes
    &&& b.owners == a.owners
    &&& b.boundary_constraints_roots == a.boundary_constraints_roots
    &&& b.integrity_constraints_roots == a.integrity_constraints_roots
    &&& b.functions == a.functions
    &&& b.evaluators == a.evaluators
    &&& b.bus_table == a.bus_table
    &&& b.buses@.len() == a.buses@.len()
    &&& forall|j: int| 0 <= j < a.buses@.len() && j != i ==> #[trigger] b.buses@[j] == a.buses@[j]
}

/// Every op the bus names is a slot of the graph.
pub open spec fn bus_within(b: Bus, n: nat) -> bool {
    &&& forall|j: int| 0 <= j < b.columns.len() ==> (#[trigger] b.columns@[j]).ptr < n
    &&& forall|j: int| 0 <= j < b.latches.len() ==> (#[trigger] b.latches@[j]).ptr < n
    &&& b.first.ptr < n
    &&& b.last.ptr < n
}

/// Take the bus out of slot `i`, leaving a placeholder.
fn take_bus(g: &mut Graph, i: usize) -> (b: Bus)
    requires
        old(g).wf(),
        i < old(g).buses.len(),
        old(g).ops.len() > 0,
    ensures
        b == old(g).buses@[i as int],
        final(g).wf(),
        only_bus_changed(*old(g), *final(g), i as int),
{
    let placeholder = Bus {
        name: None,
        bus_type: BusType::MultiSet,
        columns: Vec::new(),
        latches: Vec::new(),
        first: Link::new(0),
        last: Link::new(0),
        span: SourceSpan { source_id: 0, start: 0, end: 0 },
    };
    let b = g.buses.remove(i);
    g.buses.insert(i, placeholder);
    proof {
        assert forall|j: int| 0 <= j < old(g).buses@.len() && j != i implies #[trigger] g.buses@[j] == old(g).buses@[j] by {}
    }
    b
}

/// Put the bus in slot `i`.
fn put_bus(g: &mut Graph, i: usize, b: Bus)
    requires
        old(g).wf(),
        i < old(g).buses.len(),
        bus_within(b, old(g).ops.len() as nat),
    ensures
        final(g).wf(),
        only_bus_changed(*old(g), *final(g), i as int),
        final(g).buses@[i as int] == b,
{
    g.buses.set(i, b);
    proof {
        assert forall|j: int| 0 <= j < old(g).buses@.len() && j != i implies #[trigger] g.buses@[j] == old(g).buses@[j] by {}
    }
}

impl Bus {
    /// A new bus of the graph, with its name and type and no values yet: its first and last
    /// rows are unset (each names a new `None` op).
    pub fn create(g: &mut Graph, name: Identifier, bus_type: BusType, span: SourceSpan) -> (l: Link<Bus>)
        requires
            old(g).wf(),
        ensures
            final(g).wf(),
            l.ptr == old(g).buses.len(),
            final(g).buses@ == old(g).buses@.push(final(g).buses@[l.ptr as int]),
            final(g).buses@[l.ptr as int].name == Some(name),
            final(g).buses@[l.ptr as int].bus_type == bus_type,
            final(g).buses@[l.ptr as int].span == span,
            final(g).buses@[l.ptr as int].columns@.len() == 0,
            final(g).buses@[l.ptr as int].latches@.len() == 0,
            final(g).ops@[final(g).buses@[l.ptr as int].first.ptr as int] is Nil,
            final(g).ops@[final(g).buses@[l.ptr as int].last.ptr as int] is Nil,
            final(g).ops.len() == old(g).ops.len() + 2,
            forall|i: int| 0 <= i < old(g).ops.len() ==> final(g).ops@[i] == old(g).ops@[i],
            forall|i: int| 0 <= i < old(g).ops.len() ==> final(g).rank@[i] == old(g).rank@[i],
            final(g).boundary_constraints_roots == old(g).boundary_constraints_roots,
            final(g).integrity_constraints_roots == old(g).integrity_constraints_roots,
    {
        let unset = SourceSpan { source_id: 0, start: 0, end: 0 };
        let first = g.insert_op(Op::Nil(unset));
        let last = g.insert_op(Op::Nil(unset));
        let ptr = g.buses.len();
        let ghost before = *g;
        g.buses.push(
            Bus { name: Some(name), bus_type, columns: Vec::new(), latches: Vec::new(), first, last, span },
        );
        proof {
            assert forall|k: int, j: int|
                0 <= k < g.buses.len() && 0 <= j < g.buses@[k].columns.len() implies (
                #[trigger] g.buses@[k].columns@[j]).ptr < g.ops.len() by {
                assert(g.buses@[k] == before.buses@[k]);
            }
            assert forall|k: int, j: int|
                0 <= k < g.buses.len() && 0 <= j < g.buses@[k].latches.len() implies (
                #[trigger] g.buses@[k].latches@[j]).ptr < g.ops.len() by {
                assert(g.buses@[k] == before.buses@[k]);
            }
            assert forall|k: int| 0 <= k < g.buses.len() implies (#[trigger] g.buses@[k]).first.ptr < g.ops.len()
                && g.buses@[k].last.ptr < g.ops.len() by {
                if k < ptr {
                    assert(g.buses@[k] == before.buses@[k]);
                }
            }
        }
        Link::new(ptr)
    }
}

impl Bus {
    /// Name the bus, whether or not it has a name already (for tests).
    pub fn set_name_unchecked(&mut self, name: Identifier)
        ensures
            *final(self) == (Bus { name: Some(name), ..*old(self) }),
    {
        self.name = Some(name);
    }

    /// Name the bus; its name must not have been set yet.
    pub fn set_name(&mut self, name: Identifier)
        requires
            old(self).name is None,
        ensures
            *final(self) == (Bus { name: Some(name), ..*old(self) }),
    {
        self.name = Some(name);
    }
}

impl BackLink<Bus> {
    /// The name of the bus the weak handle names, which must still exist and have a name.
    pub fn get_name(&self, g: &Graph) -> (r: Identifier)
        requires
            self.ptr < g.buses.len(),
            g.buses@[self.ptr as int].name is Some,
        ensures
            Some(r) == g.buses@[self.ptr as int].name,
    {
        let l: Link<Bus> = Link::new(self.ptr);
        l.name(g)
    }
}

impl Link<Bus> {
    /// Set the value of the bus at its first row. Fails where it is already set (it no longer
    /// names a `None` op), the graph then unchanged.
    pub fn set_first(&self, g: &mut Graph, first: Link<Op>) -> (r: Result<(), CompileError>)
        requires
            old(g).wf(),
            self.ptr < old(g).buses.len(),
            first.ptr < old(g).ops.len(),
        ensures
            final(g).wf(),
            r is Ok <==> old(g).ops@[old(g).buses@[self.ptr as int].first.ptr as int] is Nil,
            r is Err ==> *final(g) == *old(g),
            r is Ok ==> only_bus_changed(*old(g), *final(g), self.ptr as int) && final(g).buses@[self.ptr as int]
                == (Bus { first, ..old(g).buses@[self.ptr as int] }),
    {
        let i = self.ptr;
        if let Op::Nil(_) = &g.ops[g.buses[i].first.ptr] {
            let mut b = take_bus(g, i);
            b.first = first;
            put_bus(g, i, b);
            Ok(())
        } else {
            Err(CompileError::Failed)
        }
    }

    /// Set the value of the bus at its last row. Fails where it is already set (it no longer
    /// names a `None` op), the graph then unchanged.
    pub fn set_last(&self, g: &mut Graph, last: Link<Op>) -> (r: Result<(), CompileError>)
        requires
            old(g).wf(),
            self.ptr < old(g).buses.len(),
            last.ptr < old(g).ops.len(),
        ensures
            final(g).wf(),
            r is Ok <==> old(g).ops@[old(g).buses@[self.ptr as int].last.ptr as int] is Nil,
            r is Err ==> *final(g) == *old(g),
            r is Ok ==> only_bus_changed(*old(g), *final(g), self.ptr as int) && final(g).buses@[self.ptr as int]
                == (Bus { last, ..old(g).buses@[self.ptr as int] }),
    {
        let i = self.ptr;
        if let Op::Nil(_) = &g.ops[g.buses[i].last.ptr] {
            let mut b = take_bus(g, i);
            b.last = last;
            put_bus(g, i, b);
            Ok(())
        } else {
            Err(CompileError::Failed)
        }
    }

    /// The value of the bus at its first row.
    pub fn get_first(&self, g: &Graph) -> (r: Link<Op>)
        requires
            self.ptr < g.buses.len(),
        ensures
            r == g.buses@[self.ptr as int].first,
    {
        g.buses[self.ptr].first
    }

    /// The value of the bus at its last row.
    pub fn get_last(&self, g: &Graph) -> (r: Link<Op>)
        requires
            self.ptr < g.buses.len(),
        ensures
            r == g.buses@[self.ptr as int].last,
    {
        g.buses[self.ptr].last
    }

    /// Name the bus; its name must not have been set yet.
    pub fn set_name(&self, g: &mut Graph, name: Identifier)
        requires
            old(g).wf(),
            self.ptr < old(g).buses.len(),
            old(g).buses@[self.ptr as int].name is None,
        ensures
            final(g).wf(),
            only_bus_changed(*old(g), *final(g), self.ptr as int),
            final(g).buses@[self.ptr as int] == (Bus { name: Some(name), ..old(g).buses@[self.ptr as int] }),
    {
        let i = self.ptr;
        let mut b = take_bus(g, i);
        b.set_name(name);
        put_bus(g, i, b);
    }

    /// The name of the bus, which must have been set.
    pub fn name(&self, g: &Graph) -> (r: Identifier)
        requires
            self.ptr < g.buses.len(),
            g.buses@[self.ptr as int].name is Some,
        ensures
            Some(r) == g.buses@[self.ptr as int].name,
    {
        match g.buses[self.ptr].name {
            Some(n) => n,
            None => Identifier(0),
        }
    }

    /// Insert the values `columns` into the bus, where `latch` holds.
    pub fn insert(&self, g: &mut Graph, columns: &Vec<Link<Op>>, latch: Link<Op>, span: SourceSpan) -> (r: Link<Op>)
        requires
            old(g).wf(),
            self.ptr < old(g).buses.len(),
            forall|j: int| 0 <= j < columns.len() ==> (#[trigger] columns@[j]).ptr < old(g).ops.len(),
            latch.ptr < old(g).ops.len(),
        ensures
            final(g).wf(),
            bus_op_added(*old(g), *final(g), *self, BusOpKind::Insert, columns@, latch, span, r),
    {
        self.bus_op(g, BusOpKind::Insert, columns, latch, span)
    }

    /// Remove the values `columns` from the bus, where `latch` holds.
    pub fn remove(&self, g: &mut Graph, columns: &Vec<Link<Op>>, latch: Link<Op>, span: SourceSpan) -> (r: Link<Op>)
        requires
            old(g).wf(),
            self.ptr < old(g).buses.len(),
            forall|j: int| 0 <= j < columns.len() ==> (#[trigger] columns@[j]).ptr < old(g).ops.len(),
            latch.ptr < old(g).ops.len(),
        ensures
            final(g).wf(),
            bus_op_added(*old(g), *final(g), *self, BusOpKind::Remove, columns@, latch, span, r),
    {
        self.bus_op(g, BusOpKind::Remove, columns, latch, span)
    }

    fn bus_op(&self, g: &mut Graph, kind: BusOpKind, columns: &Vec<Link<Op>>, latch: Link<Op>, span: SourceSpan) -> (r: Link<Op>)
        requires
            old(g).wf(),
            self.ptr < old(g).buses.len(),
            forall|j: int| 0 <= j < columns.len() ==> (#[trigger] columns@[j]).ptr < old(g).ops.len(),
            latch.ptr < old(g).ops.len(),
        ensures
            final(g).wf(),
            bus_op_added(*old(g), *final(g), *self, kind, columns@, latch, span, r),
    {
        let mut args: Vec<Link<Op>> = Vec::new();
        let mut i: usize = 0;
        while i < columns.len()
            invariant
                i <= columns.len(),
                args@ == columns@.take(i as int),
            decreases columns.len() - i,
        {
            args.push(columns[i]);
            assert(args@ =~= columns@.take(i + 1));
            i = i + 1;
        }
        assert(columns@.take(columns.len() as int) =~= columns@);
        let ghost g0 = *g;
        let op = BusOp::create(g, *self, kind, args, latch, span);
        let ghost g1 = *g;
        let mut b = take_bus(g, self.ptr);
        b.columns.push(op);
        b.latches.push(latch);
        proof {
            assert(g1.buses@[self.ptr as int] == g0.buses@[self.ptr as int]);
            assert forall|j: int| 0 <= j < b.columns.len() implies (#[trigger] b.columns@[j]).ptr < g.ops.len() by {
                if j < b.columns.len() - 1 {
                    assert(b.columns@[j] == g1.buses@[self.ptr as int].columns@[j]);
                }
            }
            assert forall|j: int| 0 <= j < b.latches.len() implies (#[trigger] b.latches@[j]).ptr < g.ops.len() by {
                if j < b.latches.len() - 1 {
                    assert(b.latches@[j] == g1.buses@[self.ptr as int].latches@[j]);
                }
            }
        }
        put_bus(g, self.ptr, b);
        op
    }
}

/// `b` is `a` with a new bus operation `r` of the kind on the bus, over the `columns` where
/// `latch` holds, recorded at the end of the bus's columns (and its latch at the end of the
/// bus's latches); nothing else changed, but for the new op's slot.
pub open spec fn bus_op_added(
    a: Graph,
    b: Graph,
    bus: Link<Bus>,
    kind: BusOpKind,
    columns: Seq<Link<Op>>,
    latch: Link<Op>,
    span: SourceSpan,
    r: Link<Op>,
) -> bool {
    &&& r.ptr == a.ops.len()
    &&& b.ops.len() == a.ops.len() + 1
    &&& forall|i: int| 0 <= i < a.ops.len() ==> b.ops@[i] == a.ops@[i]
    &&& forall|i: int| 0 <= i < a.ops.len() ==> b.rank@[i] == a.rank@[i]
    &&& b.ops@[r.ptr as int] matches Op::BusOp(x) && x.bus == bus && x.kind == kind && x.args@ == columns
        && x.latch == latch && x.span == span
    &&& b.buses@.len() == a.buses@.len()
    &&& forall|j: int| 0 <= j < a.buses@.len() && j != bus.ptr ==> #[trigger] b.buses@[j] == a.buses@[j]
    &&& b.buses@[bus.ptr as int] == (Bus {
        columns: b.buses@[bus.ptr as int].columns,
        latches: b.buses@[bus.ptr as int].latches,
        ..a.buses@[bus.ptr as int]
    })
    &&& b.buses@[bus.ptr as int].columns@ == a.buses@[bus.ptr as int].columns@.push(r)
    &&& b.buses@[bus.ptr as int].latches@ == a.buses@[bus.ptr as int].latches@.push(latch)
    &&& b.boundary_constraints_roots == a.boundary_constraints_roots
    &&& b.integrity_constraints_roots == a.integrity_constraints_roots
    &&& b.roots == a.roots
    &&& b.functions == a.functions
    &&& b.evaluators == a.evaluators
    &&& b.bus_table == a.bus_table
}

} // verus!
