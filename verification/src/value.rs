//! Known values of the MIR: constants and accesses to the context of an AirScript program.
use vstd::prelude::*;

use crate::link::Link;
use crate::ir::Bus;

verus! {

/// A location in the source text: the source file and a byte range in it.
#[derive(Copy, Clone, PartialEq, Eq, Structural, Debug)]
pub struct SourceSpan {
    pub source_id: u32,
    pub start: u32,
    pub end: u32,
}

impl Default for SourceSpan {
    /// The span of no source text.
    fn default() -> (r: Self)
        ensures
            r == (SourceSpan { source_id: 0, start: 0, end: 0 }),
    {
        SourceSpan { source_id: 0, start: 0, end: 0 }
    }
}

/// An interned name (the interner's symbol number).
#[derive(Copy, Clone, PartialEq, Eq, Structural, Debug, Hash)]
pub struct Identifier(pub u32);

/// The two kinds of names a periodic column can be reached through.
#[derive(Copy, Clone, PartialEq, Eq, Structural, Debug, Hash)]
pub enum NamespacedIdentifier {
    Function(Identifier),
    Binding(Identifier),
}

/// A name qualified by the module that declares it.
#[derive(Copy, Clone, PartialEq, Eq, Structural, Debug, Hash)]
pub struct QualifiedIdentifier {
    pub module: Identifier,
    pub item: NamespacedIdentifier,
}

/// The type of a value: a field element, a vector of `len` of them, or a matrix of `rows` by
/// `cols`.
#[derive(Copy, Clone, PartialEq, Eq, Structural, Debug)]
pub enum MirType {
    Felt,
    Vector(usize),
    Matrix(usize, usize),
}

/// The row a boundary constraint applies to.
#[derive(Copy, Clone, PartialEq, Eq, Structural, Debug)]
pub enum BoundaryKind {
    First,
    Last,
}

/// The kind of a bus.
#[derive(Copy, Clone, PartialEq, Eq, Structural, Debug, Hash)]
pub enum BusType {
    MultiSet,
    Logup,
}

/// A constant: a field element, a vector of them or a matrix of them.
#[derive(Debug)]
pub enum ConstantValue {
    Felt(u64),
    Vector(Vec<u64>),
    Matrix(Vec<Vec<u64>>),
}

/// A reference to a specific column in a trace segment, with a row offset.
#[derive(Copy, Clone, PartialEq, Eq, Structural, Debug)]
pub struct TraceAccess {
    /// The trace segment being accessed
    pub segment: usize,
    /// The index of the first column at which the access begins
    pub column: usize,
    /// The offset from the current row (1 for `a'`).
    pub row_offset: usize,
}

/// A binding to a set of consecutive trace columns of a given size.
#[derive(Copy, Clone, PartialEq, Eq, Structural, Debug)]
pub struct TraceAccessBinding {
    pub segment: usize,
    /// The offset to the first column of the segment which is bound by this binding
    pub offset: usize,
    /// The number of columns which are bound
    pub size: usize,
}

/// An access of a periodic column.
#[derive(Copy, Clone, PartialEq, Eq, Structural, Debug, Hash)]
pub struct PeriodicColumnAccess {
    pub name: QualifiedIdentifier,
    pub cycle: usize,
}

/// An access of an element of a public input.
#[derive(Copy, Clone, PartialEq, Eq, Structural, Debug)]
pub struct PublicInputAccess {
    /// The name of the public input to access
    pub name: Identifier,
    /// The index of the element in the public input to access
    pub index: usize,
}

/// An access of a public input table, bound to a bus's `.first` or `.last` boundary constraint.
#[derive(Copy, Clone, PartialEq, Eq, Structural, Debug, Hash)]
pub struct PublicInputTableAccess {
    /// The name of the public input to bind
    pub table_name: Identifier,
    /// The number of columns in the table
    pub num_cols: usize,
    /// The type of bus to bind, once it is known.
    pub bus_type: Option<BusType>,
}

/// An access to a bus.
#[derive(Debug)]
pub struct BusAccess {
    /// The bus being accessed
    pub bus: Link<Bus>,
    /// The offset from the current row.
    pub row_offset: usize,
}

impl Clone for BusAccess {
    fn clone(&self) -> (r: Self)
        ensures
            r == *self,
    {
        BusAccess { bus: self.bus, row_offset: self.row_offset }
    }
}

/// A known value of the MIR: a constant, or a value read at run time from the context of an
/// AirScript program.
#[derive(Debug)]
pub enum MirValue {
    /// A constant value.
    Constant(ConstantValue),
    /// A reference to a specific column in the trace segment, with an optional offset.
    TraceAccess(TraceAccess),
    /// A reference to a periodic column.
    PeriodicColumn(PeriodicColumnAccess),
    /// A reference to a specific element of a given public input
    PublicInput(PublicInputAccess),
    /// A reference to a public input table.
    PublicInputTable(PublicInputTableAccess),
    /// A reference to a specific index in the random values array.
    RandomValue(usize),
    /// A binding to a set of consecutive trace columns of a given size.
    TraceAccessBinding(TraceAccessBinding),
    /// A binding to a bus.
    BusAccess(BusAccess),
    /// An empty bus
    Null,
    /// An unconstrained bus
    Unconstrained,
}

/// A value with the span of source text it comes from.
#[derive(Debug)]
pub struct SpannedMirValue {
    pub span: SourceSpan,
    pub value: MirValue,
}

/// The mathematical content of a constant.
pub enum ConstantView {
    Felt(u64),
    Vector(Seq<u64>),
    Matrix(Seq<Seq<u64>>),
}

impl ConstantValue {
    pub open spec fn view_of(self) -> ConstantView {
        match self {
            ConstantValue::Felt(v) => ConstantView::Felt(v),
            ConstantValue::Vector(v) => ConstantView::Vector(v@),
            ConstantValue::Matrix(m) => ConstantView::Matrix(rows_view(m@)),
        }
    }
}

/// The rows of a matrix of constants.
pub open spec fn rows_view(m: Seq<Vec<u64>>) -> Seq<Seq<u64>> {
    m.map_values(|r: Vec<u64>| r@)
}

/// Two values are the same value: equal constants (by content), or equal accesses.
pub open spec fn same_value(a: MirValue, b: MirValue) -> bool {
    match (a, b) {
        (MirValue::Constant(x), MirValue::Constant(y)) => x.view_of() == y.view_of(),
        (MirValue::TraceAccess(x), MirValue::TraceAccess(y)) => x == y,
        (MirValue::PeriodicColumn(x), MirValue::PeriodicColumn(y)) => x == y,
        (MirValue::PublicInput(x), MirValue::PublicInput(y)) => x == y,
        (MirValue::PublicInputTable(x), MirValue::PublicInputTable(y)) => x == y,
        (MirValue::RandomValue(x), MirValue::RandomValue(y)) => x == y,
        (MirValue::TraceAccessBinding(x), MirValue::TraceAccessBinding(y)) => x == y,
        (MirValue::BusAccess(x), MirValue::BusAccess(y)) => x.bus.ptr == y.bus.ptr && x.row_offset
            == y.row_offset,
        (MirValue::Null, MirValue::Null) => true,
        (MirValue::Unconstrained, MirValue::Unconstrained) => true,
        _ => false,
    }
}

fn u64_vec_eq(a: &Vec<u64>, b: &Vec<u64>) -> (r: bool)
    ensures
        r == (a@ == b@),
{
    if a.len() != b.len() {
        return false;
    }
    let mut i: usize = 0;
    while i < a.len()
        invariant
            i <= a.len() == b.len(),
            forall|t: int| 0 <= t < i ==> a@[t] == b@[t],
        decreases a.len() - i,
    {
        if a[i] != b[i] {
            return false;
        }
        i = i + 1;
    }
    assert(a@ =~= b@);
    true
}

fn constant_eq(a: &ConstantValue, b: &ConstantValue) -> (r: bool)
    ensures
        r == (a.view_of() == b.view_of()),
{
    match (a, b) {
        (ConstantValue::Felt(x), ConstantValue::Felt(y)) => *x == *y,
        (ConstantValue::Vector(x), ConstantValue::Vector(y)) => u64_vec_eq(x, y),
        (ConstantValue::Matrix(x), ConstantValue::Matrix(y)) => {
            let ghost xv = rows_view(x@);
            let ghost yv = rows_view(y@);
            if x.len() != y.len() {
                assert(xv.len() != yv.len());
                return false;
            }
            let mut i: usize = 0;
            while i < x.len()
                invariant
                    i <= x.len() == y.len(),
                    xv.len() == x.len(),
                    yv.len() == y.len(),
                    a.view_of() == ConstantView::Matrix(xv),
                    b.view_of() == ConstantView::Matrix(yv),
                    xv == rows_view(x@),
                    yv == rows_view(y@),
                    forall|t: int| 0 <= t < i ==> xv[t] == yv[t],
                decreases x.len() - i,
            {
                if !u64_vec_eq(&x[i], &y[i]) {
                    assert(xv[i as int] == x@[i as int]@);
                    assert(yv[i as int] == y@[i as int]@);
                    assert(xv[i as int] != yv[i as int]);
                    assert(xv != yv);
                    assert(a.view_of() == ConstantView::Matrix(xv));
                    assert(b.view_of() == ConstantView::Matrix(yv));
                    return false;
                }
                i = i + 1;
            }
            assert(xv =~= yv);
            true
        },
        _ => false,
    }
}

/// Are the two values the same value?
pub fn mir_value_eq(a: &MirValue, b: &MirValue) -> (r: bool)
    ensures
        r == same_value(*a, *b),
{
    match (a, b) {
        (MirValue::Constant(x), MirValue::Constant(y)) => constant_eq(x, y),
        (MirValue::TraceAccess(x), MirValue::TraceAccess(y)) => *x == *y,
        (MirValue::PeriodicColumn(x), MirValue::PeriodicColumn(y)) => *x == *y,
        (MirValue::PublicInput(x), MirValue::PublicInput(y)) => *x == *y,
        (MirValue::PublicInputTable(x), MirValue::PublicInputTable(y)) => *x == *y,
        (MirValue::RandomValue(x), MirValue::RandomValue(y)) => *x == *y,
        (MirValue::TraceAccessBinding(x), MirValue::TraceAccessBinding(y)) => *x == *y,
        (MirValue::BusAccess(x), MirValue::BusAccess(y)) => x.bus.ptr == y.bus.ptr && x.row_offset
            == y.row_offset,
        (MirValue::Null, MirValue::Null) => true,
        (MirValue::Unconstrained, MirValue::Unconstrained) => true,
        _ => false,
    }
}

impl PublicInputTableAccess {
    pub fn new(table_name: Identifier, num_cols: usize) -> (r: Self)
        ensures
            r == (PublicInputTableAccess { table_name, num_cols, bus_type: None }),
    {
        PublicInputTableAccess { table_name, num_cols, bus_type: None }
    }

    pub fn set_bus_type(&mut self, bus_type: BusType)
        ensures
            *final(self) == (PublicInputTableAccess { bus_type: Some(bus_type), ..*old(self) }),
    {
        self.bus_type = Some(bus_type);
    }

    /// The bus type; it must have been set.
    pub fn bus_type(&self) -> (r: BusType)
        requires
            self.bus_type is Some,
        ensures
            Some(r) == self.bus_type,
    {
        self.bus_type.unwrap()
    }
}

impl TraceAccess {
    pub fn new(segment: usize, column: usize, row_offset: usize) -> (r: Self)
        ensures
            r == (TraceAccess { segment, column, row_offset }),
    {
        TraceAccess { segment, column, row_offset }
    }
}

impl PublicInputAccess {
    pub fn new(name: Identifier, index: usize) -> (r: Self)
        ensures
            r == (PublicInputAccess { name, index }),
    {
        PublicInputAccess { name, index }
    }
}

impl PeriodicColumnAccess {
    pub fn new(name: QualifiedIdentifier, cycle: usize) -> (r: Self)
        ensures
            r == (PeriodicColumnAccess { name, cycle }),
    {
        PeriodicColumnAccess { name, cycle }
    }
}

impl BusAccess {
    pub fn new(bus: Link<Bus>, row_offset: usize) -> (r: Self)
        ensures
            r.bus == bus && r.row_offset == row_offset,
    {
        BusAccess { bus, row_offset }
    }
}


/// A fresh vector holding the same elements.
pub fn copy_vec<T: Copy>(v: &Vec<T>) -> (r: Vec<T>)
    ensures
        r@ == v@,
{
    let mut r: Vec<T> = Vec::new();
    let mut i: usize = 0;
    while i < v.len()
        invariant
            i <= v.len(),
            r@ == v@.take(i as int),
        decreases v.len() - i,
    {
        r.push(v[i]);
        assert(r@ =~= v@.take(i + 1));
        i = i + 1;
    }
    assert(v@.take(v.len() as int) =~= v@);
    r
}

/// A copy of a constant.
pub fn clone_constant(c: &ConstantValue) -> (r: ConstantValue)
    ensures
        r.view_of() == c.view_of(),
{
    match c {
        ConstantValue::Felt(v) => ConstantValue::Felt(*v),
        ConstantValue::Vector(v) => ConstantValue::Vector(copy_vec(v)),
        ConstantValue::Matrix(m) => {
            let mut rows: Vec<Vec<u64>> = Vec::new();
            let mut i: usize = 0;
            while i < m.len()
                invariant
                    i <= m.len(),
                    rows.len() == i,
                    rows_view(rows@) == rows_view(m@).take(i as int),
                decreases m.len() - i,
            {
                let ghost old_rows = rows@;
                let row = copy_vec(&m[i]);
                rows.push(row);
                assert forall|j: int| 0 <= j < i + 1 implies rows_view(rows@)[j] == rows_view(m@).take(i + 1)[j] by {
                    if j < i {
                        assert(rows@[j] == old_rows[j]);
                        assert(rows_view(old_rows)[j] == rows_view(m@).take(i as int)[j]);
                    }
                }
                assert(rows_view(rows@) =~= rows_view(m@).take(i + 1));
                i = i + 1;
            }
            assert(rows_view(m@).take(m.len() as int) =~= rows_view(m@));
            ConstantValue::Matrix(rows)
        },
    }
}

/// A copy of a value.
pub fn clone_mir_value(v: &MirValue) -> (r: MirValue)
    ensures
        same_value(r, *v),
{
    match v {
        MirValue::Constant(c) => MirValue::Constant(clone_constant(c)),
        MirValue::TraceAccess(x) => MirValue::TraceAccess(*x),
        MirValue::PeriodicColumn(x) => MirValue::PeriodicColumn(*x),
        MirValue::PublicInput(x) => MirValue::PublicInput(*x),
        MirValue::PublicInputTable(x) => MirValue::PublicInputTable(*x),
        MirValue::RandomValue(x) => MirValue::RandomValue(*x),
        MirValue::TraceAccessBinding(x) => MirValue::TraceAccessBinding(*x),
        MirValue::BusAccess(x) => MirValue::BusAccess(BusAccess { bus: x.bus, row_offset: x.row_offset }),
        MirValue::Null => MirValue::Null,
        MirValue::Unconstrained => MirValue::Unconstrained,
    }
}

/// A copy of a spanned value.
pub fn clone_spanned(v: &SpannedMirValue) -> (r: SpannedMirValue)
    ensures
        r.span == v.span,
        same_value(r.value, v.value),
{
    SpannedMirValue { span: v.span, value: clone_mir_value(&v.value) }
}

} // verus!
