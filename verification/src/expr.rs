//! Scalar expressions and their evaluation over batches, including the
//! configurable division failure modes.

use vstd::prelude::*;
use crate::data::{val_matches, Batch, Datum, FieldType, Val};
use crate::error::{Error, ERR_DATA_OUT_OF_RANGE, ERR_DIVISION_BY_ZERO};

verus! {

/// The evaluation configuration applied uniformly across the pipeline:
/// under `strict`, numeric violations abort the query; otherwise they are
/// recorded as a null result (warn-and-truncate mode).
#[derive(Clone, Copy)]
pub struct EvalConfig {
    pub strict: bool,
}

/// A scalar expression: a column reference, a constant, or an integer
/// division (the operator whose failure modes the engine must classify).
pub enum Expr {
    ColRef(usize),
    Constant(Datum),
    Div(Box<Expr>, Box<Expr>),
}

/// The ways evaluation can abort, at the specification level.
pub enum EvalAbort {
    BadColumn,
    BadType,
    DivByZero,
    Overflow,
}

/// Ties a specification-level abort to the concrete error the engine
/// reports for it, code included.
pub open spec fn abort_matches(err: Error, k: EvalAbort) -> bool {
    match k {
        EvalAbort::BadColumn => err matches Error::ColumnOffset(_),
        EvalAbort::BadType => err matches Error::InvalidDataType(_),
        EvalAbort::DivByZero => err matches Error::Eval(m, c) && c == ERR_DIVISION_BY_ZERO && m@
            == "Division by 0"@,
        EvalAbort::Overflow => err matches Error::Eval(_, c) && c == ERR_DATA_OUT_OF_RANGE,
    }
}

pub open spec fn spec_abs(a: int) -> int {
    if a >= 0 {
        a
    } else {
        -a
    }
}

/// Division truncating toward zero, the integer semantics the engine uses.
pub open spec fn spec_trunc_div(a: int, b: int) -> int {
    if (a >= 0) == (b >= 0) {
        spec_abs(a) / spec_abs(b)
    } else {
        -(spec_abs(a) / spec_abs(b))
    }
}

/// Division over nullable values: null operands give null; a zero divisor
/// aborts under strict configuration and gives null otherwise; the one
/// unrepresentable quotient aborts as an overflow.
pub open spec fn spec_div_vals(x: Val, y: Val, strict: bool) -> Result<Val, EvalAbort> {
    match (x, y) {
        (Val::Int(a), Val::Int(b)) => if b == 0 {
            if strict {
                Err(EvalAbort::DivByZero)
            } else {
                Ok(Val::Null)
            }
        } else if a == i64::MIN && b == -1 {
            Err(EvalAbort::Overflow)
        } else {
            Ok(Val::Int(spec_trunc_div(a as int, b as int) as i64))
        },
        (Val::Null, Val::Int(_)) => Ok(Val::Null),
        (Val::Int(_), Val::Null) => Ok(Val::Null),
        (Val::Null, Val::Null) => Ok(Val::Null),
        _ => Err(EvalAbort::BadType),
    }
}

/// The value of an expression over one row of values.
pub open spec fn spec_eval(e: Expr, row: Seq<Val>, strict: bool) -> Result<Val, EvalAbort>
    decreases e,
{
    match e {
        Expr::ColRef(i) => if (i as int) < row.len() {
            Ok(row[i as int])
        } else {
            Err(EvalAbort::BadColumn)
        },
        Expr::Constant(d) => Ok(d@),
        Expr::Div(a, b) => match spec_eval(*a, row, strict) {
            Result::Err(k) => Err(k),
            Result::Ok(x) => match spec_eval(*b, row, strict) {
                Result::Err(k) => Err(k),
                Result::Ok(y) => spec_div_vals(x, y, strict),
            },
        },
    }
}

/// The declared result type of an expression over a schema, when it is
/// type-correct; a null constant counts as an integer.
pub open spec fn spec_expr_type(e: Expr, schema: Seq<FieldType>) -> Option<FieldType>
    decreases e,
{
    match e {
        Expr::ColRef(i) => if (i as int) < schema.len() {
            Some(schema[i as int])
        } else {
            None
        },
        Expr::Constant(d) => match d@ {
            Val::Null => Some(FieldType::Int),
            Val::Int(_) => Some(FieldType::Int),
            Val::Bool(_) => Some(FieldType::Bool),
            Val::Bytes(_) => Some(FieldType::Bytes),
        },
        Expr::Div(a, b) => if spec_expr_type(*a, schema) == Some(FieldType::Int) && spec_expr_type(
            *b,
            schema,
        ) == Some(FieldType::Int) {
            Some(FieldType::Int)
        } else {
            None
        },
    }
}

/// A type-correct expression, evaluated over a row that fits the schema,
/// yields a value admitted by its declared type.
pub proof fn lemma_eval_well_typed(e: Expr, row: Seq<Val>, schema: Seq<FieldType>, strict: bool)
    requires
        crate::data::row_matches(row, schema),
        spec_expr_type(e, schema) is Some,
        spec_eval(e, row, strict) is Ok,
    ensures
        val_matches(spec_eval(e, row, strict)->Ok_0, spec_expr_type(e, schema)->0),
    decreases e,
{
    match e {
        Expr::ColRef(i) => {},
        Expr::Constant(d) => {},
        Expr::Div(a, b) => {
            if spec_eval(*a, row, strict) is Ok && spec_eval(*b, row, strict) is Ok {
                lemma_eval_well_typed(*a, row, schema, strict);
                lemma_eval_well_typed(*b, row, schema, strict);
            }
        },
    }
}

/// The declared type of an expression, or none where it is ill-typed.
pub fn expr_type(e: &Expr, schema: &Vec<FieldType>) -> (r: Option<FieldType>)
    ensures
        r == spec_expr_type(*e, schema@),
    decreases e,
{
    match e {
        Expr::ColRef(i) => {
            if *i < schema.len() {
                Some(schema[*i])
            } else {
                None
            }
        },
        Expr::Constant(d) => {
            match d {
                Datum::Null => Some(FieldType::Int),
                Datum::Int(_) => Some(FieldType::Int),
                Datum::Bool(_) => Some(FieldType::Bool),
                Datum::Bytes(_) => Some(FieldType::Bytes),
            }
        },
        Expr::Div(a, b) => {
            let ta = expr_type(&**a, schema);
            let tb = expr_type(&**b, schema);
            match (ta, tb) {
                (Some(FieldType::Int), Some(FieldType::Int)) => Some(FieldType::Int),
                _ => None,
            }
        },
    }
}

fn abs_u64(a: i64) -> (r: u64)
    ensures
        r == spec_abs(a as int),
{
    if a >= 0 {
        a as u64
    } else {
        ((-(a + 1)) as u64) + 1
    }
}

/// Truncating division on machine integers, for divisors that cannot make
/// the quotient unrepresentable.
fn div_i64(a: i64, b: i64) -> (r: i64)
    requires
        b != 0,
        !(a == i64::MIN && b == -1),
    ensures
        r as int == spec_trunc_div(a as int, b as int),
{
    let qa = abs_u64(a);
    let qb = abs_u64(b);
    let q = qa / qb;
    if (a >= 0) == (b >= 0) {
        proof {
            assert(q <= qa) by (nonlinear_arith)
                requires
                    qb >= 1,
                    q == qa / qb,
            ;
            if a == i64::MIN {
                assert(qb >= 2);
                assert(q <= qa / 2) by (nonlinear_arith)
                    requires
                        qb >= 2,
                        q == qa / qb,
                ;
            }
        }
        q as i64
    } else {
        if q >= 9223372036854775808u64 {
            proof {
                assert(q <= qa) by (nonlinear_arith)
                    requires
                        qb >= 1,
                        q == qa / qb,
                ;
            }
            i64::MIN
        } else {
            -(q as i64)
        }
    }
}

/// Evaluates an expression over a whole batch, column-wise: one output cell
/// per row. Succeeds exactly when every row evaluates; a failure carries
/// the classification of some failing row.
pub fn eval_expr(e: &Expr, batch: &Batch, cfg: &EvalConfig) -> (r: Result<Vec<Datum>, Error>)
    requires
        batch.col_lens_ok(),
    ensures
        match r {
            Ok(col) => col@.len() == batch.n_rows && (forall|i: int|
                0 <= i < batch.n_rows ==> spec_eval(*e, batch.spec_row(i), cfg.strict)
                    == Result::<Val, EvalAbort>::Ok(col@[i]@)),
            Err(err) => exists|i: int|
                0 <= i < batch.n_rows && ((#[trigger] spec_eval(
                    *e,
                    batch.spec_row(i),
                    cfg.strict,
                )) matches Err(k) && abort_matches(err, k)),
        },
    decreases e,
{
    match e {
        Expr::ColRef(ci) => {
            if *ci >= batch.columns.len() {
                if batch.n_rows == 0 {
                    return Ok(Vec::new());
                }
                let err = Error::ColumnOffset(*ci);
                proof {
                    assert(batch.spec_row(0).len() == batch.columns@.len());
                    assert(0 <= 0 < batch.n_rows && ((spec_eval(
                        *e,
                        batch.spec_row(0),
                        cfg.strict,
                    )) matches Err(k) && abort_matches(err, k)));
                }
                return Err(err);
            }
            let src = &batch.columns[*ci];
            proof {
                assert(src@ == batch.columns@[*ci as int]@);
            }
            let mut out: Vec<Datum> = Vec::new();
            let mut i: usize = 0;
            while i < src.len()
                invariant
                    (*e matches Expr::ColRef(x) && x == *ci),
                    batch.col_lens_ok(),
                    (*ci as int) < batch.columns@.len(),
                    src@ == batch.columns@[*ci as int]@,
                    i <= src@.len(),
                    out@.len() == i,
                    forall|j: int| 0 <= j < i ==> out@[j]@ == src@[j]@,
                decreases src@.len() - i,
            {
                out.push(src[i].duplicate());
                i = i + 1;
            }
            Ok(out)
        },
        Expr::Constant(d) => {
            let mut out: Vec<Datum> = Vec::new();
            let mut i: usize = 0;
            while i < batch.n_rows
                invariant
                    (*e matches Expr::Constant(x) && x == *d),
                    i <= batch.n_rows,
                    out@.len() == i,
                    forall|j: int| 0 <= j < i ==> out@[j]@ == d@,
                decreases batch.n_rows - i,
            {
                out.push(d.duplicate());
                i = i + 1;
            }
            Ok(out)
        },
        Expr::Div(ea, eb) => {
            let ca = match eval_expr(&**ea, batch, cfg) {
                Ok(c) => c,
                Err(err) => {
                    proof {
                        let j = choose|j: int|
                            0 <= j < batch.n_rows && ((#[trigger] spec_eval(
                                **ea,
                                batch.spec_row(j),
                                cfg.strict,
                            )) matches Err(k) && abort_matches(err, k));
                        assert(0 <= j < batch.n_rows && ((spec_eval(
                            *e,
                            batch.spec_row(j),
                            cfg.strict,
                        )) matches Err(k) && abort_matches(err, k)));
                    }
                    return Err(err);
                },
            };
            let cb = match eval_expr(&**eb, batch, cfg) {
                Ok(c) => c,
                Err(err) => {
                    proof {
                        let j = choose|j: int|
                            0 <= j < batch.n_rows && ((#[trigger] spec_eval(
                                **eb,
                                batch.spec_row(j),
                                cfg.strict,
                            )) matches Err(k) && abort_matches(err, k));
                        assert(0 <= j < batch.n_rows && ((spec_eval(
                            *e,
                            batch.spec_row(j),
                            cfg.strict,
                        )) matches Err(k) && abort_matches(err, k)));
                    }
                    return Err(err);
                },
            };
            let mut out: Vec<Datum> = Vec::new();
            let mut i: usize = 0;
            while i < batch.n_rows
                invariant
                    (*e matches Expr::Div(x, y) && **ea == *x && **eb == *y),
                    batch.col_lens_ok(),
                    ca@.len() == batch.n_rows,
                    cb@.len() == batch.n_rows,
                    forall|j: int|
                        0 <= j < batch.n_rows ==> spec_eval(**ea, batch.spec_row(j), cfg.strict)
                            == Result::<Val, EvalAbort>::Ok(ca@[j]@),
                    forall|j: int|
                        0 <= j < batch.n_rows ==> spec_eval(**eb, batch.spec_row(j), cfg.strict)
                            == Result::<Val, EvalAbort>::Ok(cb@[j]@),
                    i <= batch.n_rows,
                    out@.len() == i,
                    forall|j: int|
                        0 <= j < i ==> spec_eval(*e, batch.spec_row(j), cfg.strict)
                            == Result::<Val, EvalAbort>::Ok(out@[j]@),
                decreases batch.n_rows - i,
            {
                let d: Datum = match (&ca[i], &cb[i]) {
                    (Datum::Int(a), Datum::Int(b)) => {
                        if *b == 0 {
                            if cfg.strict {
                                let err = Error::division_by_zero();
                                proof {
                                    let row = batch.spec_row(i as int);
                                    assert(spec_eval(**ea, row, cfg.strict)
                                        == Result::<Val, EvalAbort>::Ok(ca@[i as int]@));
                                    assert(ca@[i as int]@ == Val::Int(*a));
                                    assert(cb@[i as int]@ == Val::Int(*b));
                                    assert(spec_div_vals(ca@[i as int]@, cb@[i as int]@, cfg.strict)
                                        == Result::<Val, EvalAbort>::Err(EvalAbort::DivByZero));
                                    assert(spec_eval(*e, row, cfg.strict)
                                        == Result::<Val, EvalAbort>::Err(EvalAbort::DivByZero));
                                    assert(abort_matches(err, EvalAbort::DivByZero));
                                }
                                return Err(err);
                            }
                            Datum::Null
                        } else if *a == i64::MIN && *b == -1 {
                            let err = Error::overflow("BIGINT", "DIV");
                            proof {
                                assert(0 <= i < batch.n_rows && ((spec_eval(
                                    *e,
                                    batch.spec_row(i as int),
                                    cfg.strict,
                                )) matches Err(k) && abort_matches(err, k)));
                            }
                            return Err(err);
                        } else {
                            Datum::Int(div_i64(*a, *b))
                        }
                    },
                    (Datum::Null, Datum::Int(_)) => Datum::Null,
                    (Datum::Int(_), Datum::Null) => Datum::Null,
                    (Datum::Null, Datum::Null) => Datum::Null,
                    _ => {
                        let err = Error::InvalidDataType(
                            "division needs integer operands".to_owned(),
                        );
                        proof {
                            assert(0 <= i < batch.n_rows && ((spec_eval(
                                *e,
                                batch.spec_row(i as int),
                                cfg.strict,
                            )) matches Err(k) && abort_matches(err, k)));
                        }
                        return Err(err);
                    },
                };
                out.push(d);
                i = i + 1;
            }
            Ok(out)
        },
    }
}

} // verus!
