use tidb_query::aggr::{AggrExpr, BatchHashAggregationExecutor, Strategy};
use tidb_query::data::{Batch, Datum, FieldType};
use tidb_query::error::{Error, ERR_DIVISION_BY_ZERO, ERR_UNKNOWN};
use tidb_query::expr::{EvalConfig, Expr};

fn int_batch(vals: &[Option<i64>]) -> Batch {
    let col: Vec<Datum> = vals
        .iter()
        .map(|v| match v {
            Some(x) => Datum::Int(*x),
            None => Datum::Null,
        })
        .collect();
    Batch { n_rows: col.len(), columns: vec![col] }
}

fn assert_int(d: &Datum, expected: i64) {
    assert!(matches!(d, Datum::Int(x) if *x == expected), "expected Int({expected}), got {d:?}");
}

fn batches_equal(a: &Batch, b: &Batch) -> bool {
    if a.n_rows != b.n_rows || a.columns.len() != b.columns.len() {
        return false;
    }
    for c in 0..a.columns.len() {
        if a.columns[c].len() != b.columns[c].len() {
            return false;
        }
        for r in 0..a.columns[c].len() {
            if !a.columns[c][r].eq_val(&b.columns[c][r]) {
                return false;
            }
        }
    }
    true
}

#[test]
fn count_groups_in_first_occurrence_order() {
    // group by the integer column, COUNT(1)
    let batch = int_batch(&[Some(1), Some(2), Some(1), Some(3), Some(2), Some(1)]);
    let mut ex = BatchHashAggregationExecutor::new(
        vec![Expr::ColRef(0)],
        vec![AggrExpr::Count(Expr::Constant(Datum::Int(1)))],
        vec![FieldType::Int],
        EvalConfig { strict: true },
    )
    .unwrap();
    assert!(matches!(ex.strategy, Strategy::Fast));
    ex.ingest(&batch).unwrap();
    let out = ex.finalize();
    assert_eq!(out.n_rows, 3);
    assert_eq!(out.columns.len(), 2);
    assert_int(&out.columns[0][0], 1);
    assert_int(&out.columns[0][1], 2);
    assert_int(&out.columns[0][2], 3);
    assert_int(&out.columns[1][0], 3);
    assert_int(&out.columns[1][1], 2);
    assert_int(&out.columns[1][2], 1);
}

#[test]
fn count_column_excludes_nulls() {
    // COUNT(column) over [1, NULL, 2, NULL, 3] with no grouping
    let batch = int_batch(&[Some(1), None, Some(2), None, Some(3)]);
    let mut ex = BatchHashAggregationExecutor::new(
        vec![],
        vec![AggrExpr::Count(Expr::ColRef(0))],
        vec![FieldType::Int],
        EvalConfig { strict: true },
    )
    .unwrap();
    assert!(matches!(ex.strategy, Strategy::Slow));
    ex.ingest(&batch).unwrap();
    let out = ex.finalize();
    assert_eq!(out.n_rows, 1);
    assert_eq!(out.columns.len(), 1);
    assert_int(&out.columns[0][0], 3);
}

#[test]
fn division_by_zero_respects_configuration() {
    let one_row = int_batch(&[Some(7)]);
    let div = Expr::Div(
        Box::new(Expr::Constant(Datum::Int(1))),
        Box::new(Expr::Constant(Datum::Int(0))),
    );
    // strict: the evaluation failure aborts with the division code
    let mut strict_ex = BatchHashAggregationExecutor::new(
        vec![],
        vec![AggrExpr::Count(div)],
        vec![FieldType::Int],
        EvalConfig { strict: true },
    )
    .unwrap();
    let err = strict_ex.ingest(&one_row).unwrap_err();
    assert_eq!(err.code(), ERR_DIVISION_BY_ZERO);
    assert_eq!(err.code(), 1365);
    assert_eq!(err.message(), "Division by 0");

    // warn-and-truncate: no abort, the null result is simply not counted
    let div2 = Expr::Div(
        Box::new(Expr::Constant(Datum::Int(1))),
        Box::new(Expr::Constant(Datum::Int(0))),
    );
    let mut lax_ex = BatchHashAggregationExecutor::new(
        vec![],
        vec![AggrExpr::Count(div2)],
        vec![FieldType::Int],
        EvalConfig { strict: false },
    )
    .unwrap();
    lax_ex.ingest(&one_row).unwrap();
    let out = lax_ex.finalize();
    assert_eq!(out.n_rows, 1);
    assert_int(&out.columns[0][0], 0);
}

#[test]
fn multi_column_group_by_reconstructs_tuples() {
    // group by (bool, int) with repeated and novel tuples
    let bools = vec![
        Datum::Bool(true),
        Datum::Bool(false),
        Datum::Bool(true),
        Datum::Bool(true),
        Datum::Null,
    ];
    let ints = vec![
        Datum::Int(10),
        Datum::Int(10),
        Datum::Int(10),
        Datum::Int(20),
        Datum::Int(10),
    ];
    let batch = Batch { n_rows: 5, columns: vec![bools, ints] };
    let mut ex = BatchHashAggregationExecutor::new(
        vec![Expr::ColRef(0), Expr::ColRef(1)],
        vec![AggrExpr::Count(Expr::Constant(Datum::Int(1)))],
        vec![FieldType::Bool, FieldType::Int],
        EvalConfig { strict: true },
    )
    .unwrap();
    assert!(matches!(ex.strategy, Strategy::Slow));
    ex.ingest(&batch).unwrap();
    let out = ex.finalize();
    // one group per distinct tuple, first-occurrence order, values intact
    assert_eq!(out.n_rows, 4);
    assert!(matches!(out.columns[0][0], Datum::Bool(true)));
    assert_int(&out.columns[1][0], 10);
    assert!(matches!(out.columns[0][1], Datum::Bool(false)));
    assert_int(&out.columns[1][1], 10);
    assert!(matches!(out.columns[0][2], Datum::Bool(true)));
    assert_int(&out.columns[1][2], 20);
    assert!(matches!(out.columns[0][3], Datum::Null));
    assert_int(&out.columns[1][3], 10);
    assert_int(&out.columns[2][0], 2);
    assert_int(&out.columns[2][1], 1);
    assert_int(&out.columns[2][2], 1);
    assert_int(&out.columns[2][3], 1);
}

#[test]
fn fast_and_slow_strategies_agree() {
    let batch = int_batch(&[Some(4), None, Some(4), Some(-1), None, Some(9)]);
    let make = |fast: bool| {
        let gbys = vec![Expr::ColRef(0)];
        let aggrs = vec![AggrExpr::Count(Expr::ColRef(0))];
        let schema = vec![FieldType::Int];
        let cfg = EvalConfig { strict: true };
        if fast {
            BatchHashAggregationExecutor::new_fast(gbys, aggrs, schema, cfg).unwrap()
        } else {
            BatchHashAggregationExecutor::new_slow(gbys, aggrs, schema, cfg).unwrap()
        }
    };
    let mut fast = make(true);
    let mut slow = make(false);
    fast.ingest(&batch).unwrap();
    slow.ingest(&batch).unwrap();
    let out_fast = fast.finalize();
    let out_slow = slow.finalize();
    assert!(batches_equal(&out_fast, &out_slow));
    // distinct keys in first-occurrence order: 4, NULL, -1, 9
    assert_eq!(out_fast.n_rows, 4);
}

#[test]
fn batch_boundaries_do_not_change_output() {
    let rows = [Some(1), Some(2), Some(1), None, Some(2), Some(1)];
    let make = || {
        BatchHashAggregationExecutor::new(
            vec![Expr::ColRef(0)],
            vec![AggrExpr::Count(Expr::ColRef(0))],
            vec![FieldType::Int],
            EvalConfig { strict: true },
        )
        .unwrap()
    };
    let mut one_pull = make();
    one_pull.ingest(&int_batch(&rows)).unwrap();
    let mut row_at_a_time = make();
    for r in rows.iter() {
        row_at_a_time.ingest(&int_batch(&[*r])).unwrap();
    }
    let mut split = make();
    split.ingest(&int_batch(&rows[..2])).unwrap();
    split.ingest(&int_batch(&rows[2..])).unwrap();
    let a = one_pull.finalize();
    let b = row_at_a_time.finalize();
    let c = split.finalize();
    assert!(batches_equal(&a, &b));
    assert!(batches_equal(&a, &c));
}

#[test]
fn emission_order_is_first_occurrence_not_sorted() {
    let batch = int_batch(&[Some(5), Some(1), Some(5), Some(0)]);
    let mut ex = BatchHashAggregationExecutor::new(
        vec![Expr::ColRef(0)],
        vec![AggrExpr::Count(Expr::Constant(Datum::Int(1)))],
        vec![FieldType::Int],
        EvalConfig { strict: true },
    )
    .unwrap();
    ex.ingest(&batch).unwrap();
    let out = ex.finalize();
    assert_eq!(out.n_rows, 3);
    assert_int(&out.columns[0][0], 5);
    assert_int(&out.columns[0][1], 1);
    assert_int(&out.columns[0][2], 0);
}

#[test]
fn zero_rows_without_group_by_yields_one_group() {
    let empty = Batch { n_rows: 0, columns: vec![vec![]] };
    let mut ex = BatchHashAggregationExecutor::new(
        vec![],
        vec![AggrExpr::Count(Expr::Constant(Datum::Int(1)))],
        vec![FieldType::Int],
        EvalConfig { strict: true },
    )
    .unwrap();
    ex.ingest(&empty).unwrap();
    let out = ex.finalize();
    assert_eq!(out.n_rows, 1);
    assert_int(&out.columns[0][0], 0);
}

#[test]
fn zero_rows_with_group_by_yields_zero_groups() {
    let empty = Batch { n_rows: 0, columns: vec![vec![]] };
    let mut ex = BatchHashAggregationExecutor::new(
        vec![Expr::ColRef(0)],
        vec![AggrExpr::Count(Expr::Constant(Datum::Int(1)))],
        vec![FieldType::Int],
        EvalConfig { strict: true },
    )
    .unwrap();
    ex.ingest(&empty).unwrap();
    let out = ex.finalize();
    assert_eq!(out.n_rows, 0);
}

#[test]
fn unknown_signature_rejected_at_construction() {
    // COUNT over a column offset outside the schema is an unknown signature
    let r = BatchHashAggregationExecutor::new(
        vec![],
        vec![AggrExpr::Count(Expr::ColRef(9))],
        vec![FieldType::Int],
        EvalConfig { strict: true },
    );
    let err = match r {
        Err(e) => e,
        Ok(_) => panic!("expected the signature to be rejected"),
    };
    assert_eq!(err.code(), ERR_UNKNOWN);
}

#[test]
fn bad_column_offset_aborts_evaluation() {
    let batch = int_batch(&[Some(1)]);
    let mut ex = BatchHashAggregationExecutor::new(
        vec![Expr::ColRef(3)],
        vec![AggrExpr::Count(Expr::Constant(Datum::Int(1)))],
        vec![FieldType::Int, FieldType::Int, FieldType::Int, FieldType::Int],
        EvalConfig { strict: true },
    )
    .unwrap();
    let err = ex.ingest(&batch).unwrap_err();
    assert!(matches!(err, Error::ColumnOffset(3)));
}

#[test]
fn division_over_bytes_is_an_invalid_data_type() {
    let col = vec![Datum::Bytes(vec![1, 2])];
    let batch = Batch { n_rows: 1, columns: vec![col] };
    let div = Expr::Div(Box::new(Expr::ColRef(0)), Box::new(Expr::ColRef(0)));
    let mut ex = BatchHashAggregationExecutor::new(
        vec![div],
        vec![AggrExpr::Count(Expr::Constant(Datum::Int(1)))],
        vec![FieldType::Bytes],
        EvalConfig { strict: true },
    )
    .unwrap();
    let err = ex.ingest(&batch).unwrap_err();
    assert!(matches!(err, Error::InvalidDataType(_)));
}

#[test]
fn division_overflow_aborts_with_range_code() {
    let batch = int_batch(&[Some(1)]);
    let div = Expr::Div(
        Box::new(Expr::Constant(Datum::Int(i64::MIN))),
        Box::new(Expr::Constant(Datum::Int(-1))),
    );
    let mut ex = BatchHashAggregationExecutor::new(
        vec![],
        vec![AggrExpr::Count(div)],
        vec![FieldType::Int],
        EvalConfig { strict: true },
    )
    .unwrap();
    let err = ex.ingest(&batch).unwrap_err();
    assert!(err.is_overflow());
    assert_eq!(err.code(), 1690);
}

#[test]
fn negative_division_truncates_toward_zero() {
    // -7 / 2 is -3 under truncating division; grouping by the quotient shows it
    let batch = int_batch(&[Some(1)]);
    let div = Expr::Div(
        Box::new(Expr::Constant(Datum::Int(-7))),
        Box::new(Expr::Constant(Datum::Int(2))),
    );
    let mut ex = BatchHashAggregationExecutor::new(
        vec![div],
        vec![AggrExpr::Count(Expr::Constant(Datum::Int(1)))],
        vec![FieldType::Int],
        EvalConfig { strict: true },
    )
    .unwrap();
    ex.ingest(&batch).unwrap();
    let out = ex.finalize();
    assert_eq!(out.n_rows, 1);
    assert_int(&out.columns[0][0], -3);
}

#[test]
fn failing_runs_agree_on_the_surfaced_code() {
    // the same strict 1/0 input aborts both strategies with equal codes
    let batch = int_batch(&[Some(3)]);
    let div = || {
        Expr::Div(Box::new(Expr::ColRef(0)), Box::new(Expr::Constant(Datum::Int(0))))
    };
    let mut fast = BatchHashAggregationExecutor::new_fast(
        vec![Expr::ColRef(0)],
        vec![AggrExpr::Count(div())],
        vec![FieldType::Int],
        EvalConfig { strict: true },
    )
    .unwrap();
    let mut slow = BatchHashAggregationExecutor::new_slow(
        vec![Expr::ColRef(0)],
        vec![AggrExpr::Count(div())],
        vec![FieldType::Int],
        EvalConfig { strict: true },
    )
    .unwrap();
    let e1 = fast.ingest(&batch).unwrap_err();
    let e2 = slow.ingest(&batch).unwrap_err();
    assert_eq!(e1.code(), e2.code());
    assert_eq!(e1.code(), 1365);
}
