//! Index projection: where a call's returned vector or matrix is immediately indexed by constants,
//! the element that the access names in the returned expression.
use vstd::prelude::*;

use crate::graph::Graph;
use crate::ir::{op_children, MirAccessType, Op};
use crate::link::Link;
use crate::passes::get_inner_const;
use crate::quad_eval::const_index_of;

verus! {

/// The element of the returned expression that a constant access names: an element of a vector
/// for an index, an element of a row vector of a matrix for a row and column; `None` where an
/// index is not constant or out of bounds, or the expression has another shape.
pub open spec fn projected(g: Graph, return_expr: int, access_type: MirAccessType) -> Option<Link<Op>> {
    match access_type {
        MirAccessType::Index(index) => match const_index_of(g.ops@[index.ptr as int]) {
            Some(idx) => match g.ops@[return_expr] {
                Op::Vector(v) => if idx < v.elements.len() {
                    Some(v.elements@[idx as int])
                } else {
                    None
                },
                _ => None,
            },
            None => None,
        },
        MirAccessType::Matrix(row, col) => match (const_index_of(g.ops@[row.ptr as int]), const_index_of(g.ops@[col.ptr as int])) {
            (Some(r), Some(c)) => match g.ops@[return_expr] {
                Op::Matrix(m) => if r < m.elements.len() {
                    match g.ops@[m.elements@[r as int].ptr as int] {
                        Op::Vector(row_vec) => if c < row_vec.elements.len() {
                            Some(row_vec.elements@[c as int])
                        } else {
                            None
                        },
                        _ => None,
                    }
                } else {
                    None
                },
                _ => None,
            },
            _ => None,
        },
        MirAccessType::Default => None,
    }
}

/// Every op an access type names is an op of the graph.
pub open spec fn access_within(g: Graph, access_type: MirAccessType) -> bool {
    match access_type {
        MirAccessType::Index(index) => index.ptr < g.ops.len(),
        MirAccessType::Matrix(row, col) => row.ptr < g.ops.len() && col.ptr < g.ops.len(),
        MirAccessType::Default => true,
    }
}

/// Project a constant access onto the returned expression of a function: the element it names,
/// if the expression is a vector (or a matrix of row vectors) and the indices are constants within
/// bounds.
pub fn project_return_expr(g: &Graph, return_expr: &Link<Op>, access_type: &MirAccessType) -> (r: Option<Link<Op>>)
    requires
        g.wf(),
        return_expr.ptr < g.ops.len(),
        access_within(*g, *access_type),
    ensures
        r == projected(*g, return_expr.ptr as int, *access_type),
{
    match access_type {
        MirAccessType::Index(index) => {
            let idx = match get_inner_const(g, index) {
                Some(c) => c as usize,
                None => {
                    return None;
                },
            };
            match &g.ops[return_expr.ptr] {
                Op::Vector(v) => if idx < v.elements.len() {
                    Some(v.elements[idx])
                } else {
                    None
                },
                _ => None,
            }
        },
        MirAccessType::Matrix(row, col) => {
            let row_idx = match get_inner_const(g, row) {
                Some(c) => c as usize,
                None => {
                    return None;
                },
            };
            let col_idx = match get_inner_const(g, col) {
                Some(c) => c as usize,
                None => {
                    return None;
                },
            };
            match &g.ops[return_expr.ptr] {
                Op::Matrix(m) => {
                    if row_idx >= m.elements.len() {
                        return None;
                    }
                    let row_link = m.elements[row_idx];
                    proof {
                        assert(op_children(g.ops@[return_expr.ptr as int])[row_idx as int] == row_link);
                    }
                    match &g.ops[row_link.ptr] {
                        Op::Vector(row_vec) => if col_idx < row_vec.elements.len() {
                            Some(row_vec.elements[col_idx])
                        } else {
                            None
                        },
                        _ => None,
                    }
                },
                _ => None,
            }
        },
        MirAccessType::Default => None,
    }
}

} // verus!
