//! The columnar data model: field types, nullable cells and their
//! mathematical values, and fixed-schema batches.

use vstd::prelude::*;

verus! {

/// Logical field types a column can carry.
#[derive(Clone, Copy, PartialEq, Eq, Structural, Debug)]
pub enum FieldType {
    Int,
    Bool,
    Bytes,
}

/// One decoded scalar cell; `Null` is the per-value null marker.
#[derive(Debug)]
pub enum Datum {
    Null,
    Int(i64),
    Bool(bool),
    Bytes(Vec<u8>),
}

/// The mathematical value of a cell: what contracts speak of.
pub enum Val {
    Null,
    Int(i64),
    Bool(bool),
    Bytes(Seq<u8>),
}

impl View for Datum {
    type V = Val;

    open spec fn view(&self) -> Val {
        match self {
            Datum::Null => Val::Null,
            Datum::Int(x) => Val::Int(*x),
            Datum::Bool(b) => Val::Bool(*b),
            Datum::Bytes(v) => Val::Bytes(v@),
        }
    }
}

/// A null cell is admitted by every field type; a non-null cell must carry
/// the type's own variant.
pub open spec fn val_matches(v: Val, t: FieldType) -> bool {
    match v {
        Val::Null => true,
        Val::Int(_) => t == FieldType::Int,
        Val::Bool(_) => t == FieldType::Bool,
        Val::Bytes(_) => t == FieldType::Bytes,
    }
}

/// The values of a sequence of cells.
pub open spec fn datums_view(s: Seq<Datum>) -> Seq<Val> {
    s.map_values(|d: Datum| d@)
}

/// A row fits a schema when it has one cell per field, each admitted by its
/// field type.
pub open spec fn row_matches(row: Seq<Val>, schema: Seq<FieldType>) -> bool {
    &&& row.len() == schema.len()
    &&& forall|c: int| 0 <= c < schema.len() ==> val_matches(#[trigger] row[c], schema[c])
}

pub fn bytes_copy(v: &Vec<u8>) -> (r: Vec<u8>)
    ensures
        r@ == v@,
{
    let mut r: Vec<u8> = Vec::new();
    let mut i: usize = 0;
    while i < v.len()
        invariant
            i <= v@.len(),
            r@ == v@.subrange(0, i as int),
        decreases v@.len() - i,
    {
        r.push(v[i]);
        i = i + 1;
        proof {
            assert(r@ =~= v@.subrange(0, i as int));
        }
    }
    proof {
        assert(r@ =~= v@);
    }
    r
}

pub fn bytes_eq(a: &Vec<u8>, b: &Vec<u8>) -> (r: bool)
    ensures
        r == (a@ == b@),
{
    if a.len() != b.len() {
        return false;
    }
    let mut i: usize = 0;
    while i < a.len()
        invariant
            a@.len() == b@.len(),
            i <= a@.len(),
            forall|j: int| 0 <= j < i ==> a@[j] == b@[j],
        decreases a@.len() - i,
    {
        if a[i] != b[i] {
            return false;
        }
        i = i + 1;
    }
    proof {
        assert(a@ =~= b@);
    }
    true
}

impl Datum {
    /// A copy with the same value, usable in contracts (a derived clone
    /// promises nothing to the verifier).
    pub fn duplicate(&self) -> (r: Datum)
        ensures
            r@ == self@,
    {
        match self {
            Datum::Null => Datum::Null,
            Datum::Int(x) => Datum::Int(*x),
            Datum::Bool(b) => Datum::Bool(*b),
            Datum::Bytes(v) => Datum::Bytes(bytes_copy(v)),
        }
    }

    /// Value equality: two cells are equal exactly when their mathematical
    /// values are.
    pub fn eq_val(&self, other: &Datum) -> (r: bool)
        ensures
            r == (self@ == other@),
    {
        match (self, other) {
            (Datum::Null, Datum::Null) => true,
            (Datum::Int(a), Datum::Int(b)) => a == b,
            (Datum::Bool(a), Datum::Bool(b)) => a == b,
            (Datum::Bytes(a), Datum::Bytes(b)) => bytes_eq(a, b),
            _ => false,
        }
    }
}

/// A columnar chunk: every column holds exactly `n_rows` cells.
#[derive(Debug)]
pub struct Batch {
    pub n_rows: usize,
    pub columns: Vec<Vec<Datum>>,
}

impl Batch {
    /// Well-formedness against a fixed schema: one column per field, all of
    /// the batch's row count, every cell admitted by its field type.
    pub open spec fn wf(&self, schema: Seq<FieldType>) -> bool {
        &&& self.columns@.len() == schema.len()
        &&& forall|c: int|
            0 <= c < schema.len() ==> (#[trigger] self.columns@[c])@.len() == self.n_rows
        &&& forall|c: int, r: int|
            0 <= c < schema.len() && 0 <= r < self.n_rows ==> val_matches(
                #[trigger] self.columns@[c]@[r]@,
                schema[c],
            )
    }

    /// Columns all carry one cell per row (the shape half of `wf`).
    pub open spec fn col_lens_ok(&self) -> bool {
        forall|c: int|
            0 <= c < self.columns@.len() ==> (#[trigger] self.columns@[c])@.len() == self.n_rows
    }

    /// The values of row `r`, in column order.
    pub open spec fn spec_row(&self, r: int) -> Seq<Val> {
        Seq::new(self.columns@.len(), |c: int| self.columns@[c]@[r]@)
    }

    /// All rows of the batch, as sequences of values.
    pub open spec fn spec_rows(&self) -> Seq<Seq<Val>> {
        Seq::new(self.n_rows as nat, |r: int| self.spec_row(r))
    }

    /// An empty batch over the given number of columns.
    pub fn empty(n_cols: usize) -> (r: Batch)
        ensures
            r.n_rows == 0,
            r.columns@.len() == n_cols,
            forall|c: int| 0 <= c < n_cols ==> (#[trigger] r.columns@[c])@.len() == 0,
    {
        let mut columns: Vec<Vec<Datum>> = Vec::new();
        let mut c: usize = 0;
        while c < n_cols
            invariant
                c <= n_cols,
                columns@.len() == c,
                forall|i: int| 0 <= i < c ==> (#[trigger] columns@[i])@.len() == 0,
            decreases n_cols - c,
        {
            let col: Vec<Datum> = Vec::new();
            columns.push(col);
            c = c + 1;
        }
        Batch { n_rows: 0, columns }
    }
}

} // verus!
