use tidb_query::aggr::{AggrExpr, BatchHashAggregationExecutor};
use tidb_query::codec::{decode_key, encode_key};
use tidb_query::data::{Datum, FieldType};
use tidb_query::error::Error;
use tidb_query::error::ERR_TRUNCATE_WRONG_VALUE;
use tidb_query::exec::{AggrNode, Executor};
use tidb_query::expr::{EvalConfig, Expr};
use tidb_query::scan::{KeyRange, KvPair, ScanExecutor};

fn sample_row(b: bool, x: i64, tag: &[u8]) -> Vec<Datum> {
    vec![Datum::Bool(b), Datum::Int(x), Datum::Bytes(tag.to_vec())]
}

#[test]
fn key_codec_round_trips_mixed_tuples() {
    let tuple = vec![
        Datum::Null,
        Datum::Int(-42),
        Datum::Bool(true),
        Datum::Bytes(vec![0, 255, 7]),
        Datum::Bytes(vec![]),
    ];
    let enc = encode_key(&tuple);
    let dec = decode_key(&enc).unwrap();
    assert_eq!(dec.len(), tuple.len());
    for (a, b) in tuple.iter().zip(dec.iter()) {
        assert!(a.eq_val(b), "{a:?} != {b:?}");
    }
}

#[test]
fn distinct_tuples_encode_distinctly() {
    let a = encode_key(&vec![Datum::Bytes(vec![1]), Datum::Bytes(vec![])]);
    let b = encode_key(&vec![Datum::Bytes(vec![]), Datum::Bytes(vec![1])]);
    let c = encode_key(&vec![Datum::Int(1)]);
    let d = encode_key(&vec![Datum::Int(256)]);
    assert_ne!(a, b);
    assert_ne!(c, d);
}

fn encoded_pair(key: u8, row: &Vec<Datum>) -> KvPair {
    KvPair { key: vec![key], value: encode_key(row) }
}

fn whole_range() -> Vec<KeyRange> {
    vec![KeyRange { lower: vec![], upper: vec![255, 255] }]
}

#[test]
fn scan_decodes_rows_and_bounds_batches() {
    let schema = vec![FieldType::Bool, FieldType::Int, FieldType::Bytes];
    let pairs = vec![
        encoded_pair(1, &sample_row(true, 10, b"a")),
        encoded_pair(2, &sample_row(false, 20, b"b")),
        encoded_pair(3, &sample_row(true, 30, b"c")),
    ];
    let mut scan = ScanExecutor::new(schema, whole_range(), pairs);
    let br = scan.next_batch(2).unwrap();
    assert_eq!(br.batch.n_rows, 2);
    assert!(!br.drained);
    assert!(matches!(br.batch.columns[1][0], Datum::Int(10)));
    assert!(matches!(br.batch.columns[1][1], Datum::Int(20)));
    let br = scan.next_batch(2).unwrap();
    assert_eq!(br.batch.n_rows, 1);
    assert!(br.drained);
    // idempotent termination: drained stays drained with no further rows
    let br = scan.next_batch(2).unwrap();
    assert_eq!(br.batch.n_rows, 0);
    assert!(br.drained);
}

#[test]
fn malformed_row_is_a_decode_error() {
    let schema = vec![FieldType::Int];
    let pairs = vec![KvPair { key: vec![1], value: vec![9, 9, 9] }];
    let mut scan = ScanExecutor::new(schema, whole_range(), pairs);
    let err = scan.next_batch(4).unwrap_err();
    assert_eq!(err.code(), ERR_TRUNCATE_WRONG_VALUE);
}

#[test]
fn mistyped_row_is_a_decode_error() {
    let schema = vec![FieldType::Int];
    let pairs = vec![encoded_pair(1, &vec![Datum::Bool(true)])];
    let mut scan = ScanExecutor::new(schema, whole_range(), pairs);
    let err = scan.next_batch(4).unwrap_err();
    assert_eq!(err.code(), ERR_TRUNCATE_WRONG_VALUE);
}

#[test]
fn aggregation_over_scan_emits_one_terminal_batch() {
    let schema = vec![FieldType::Bool, FieldType::Int, FieldType::Bytes];
    let pairs = vec![
        encoded_pair(1, &sample_row(true, 7, b"x")),
        encoded_pair(2, &sample_row(false, 7, b"y")),
        encoded_pair(3, &sample_row(true, 7, b"x")),
        encoded_pair(4, &sample_row(true, 8, b"x")),
    ];
    let child = ScanExecutor::new(schema.clone(), whole_range(), pairs);
    let aggr = BatchHashAggregationExecutor::new(
        vec![Expr::ColRef(0)],
        vec![AggrExpr::Count(Expr::ColRef(1))],
        schema,
        EvalConfig { strict: true },
    )
    .unwrap();
    let mut root = Executor::HashAggr(AggrNode { aggr, child, done: false });
    let br = root.next_batch(1024).unwrap();
    assert!(br.drained);
    assert_eq!(br.batch.n_rows, 2);
    assert!(matches!(br.batch.columns[0][0], Datum::Bool(true)));
    assert!(matches!(br.batch.columns[1][0], Datum::Int(3)));
    assert!(matches!(br.batch.columns[0][1], Datum::Bool(false)));
    assert!(matches!(br.batch.columns[1][1], Datum::Int(1)));
    // terminal: the next pull is drained and empty
    let br = root.next_batch(1024).unwrap();
    assert!(br.drained);
    assert_eq!(br.batch.n_rows, 0);
}

#[test]
fn scan_as_executor_respects_row_cap() {
    let schema = vec![FieldType::Bool, FieldType::Int, FieldType::Bytes];
    let pairs = vec![
        encoded_pair(1, &sample_row(true, 1, b"p")),
        encoded_pair(2, &sample_row(true, 2, b"q")),
    ];
    let mut root = Executor::TableScan(ScanExecutor::new(schema, whole_range(), pairs));
    let br = root.next_batch(1).unwrap();
    assert_eq!(br.batch.n_rows, 1);
    assert!(!br.drained);
}

#[test]
fn output_schema_is_queryable_before_pulling() {
    let schema = vec![FieldType::Bool, FieldType::Int, FieldType::Bytes];
    let scan = Executor::TableScan(ScanExecutor::new(schema.clone(), whole_range(), vec![]));
    assert_eq!(scan.output_schema(), Some(schema.clone()));
    let child = ScanExecutor::new(schema.clone(), whole_range(), vec![]);
    let aggr = BatchHashAggregationExecutor::new(
        vec![Expr::ColRef(0), Expr::ColRef(2)],
        vec![AggrExpr::Count(Expr::ColRef(1))],
        schema,
        EvalConfig { strict: true },
    )
    .unwrap();
    let root = Executor::HashAggr(AggrNode { aggr, child, done: false });
    assert_eq!(
        root.output_schema(),
        Some(vec![FieldType::Bool, FieldType::Bytes, FieldType::Int])
    );
}

#[test]
fn aggregation_surfaces_the_division_code_through_the_tree() {
    let schema = vec![FieldType::Bool, FieldType::Int, FieldType::Bytes];
    let pairs = vec![encoded_pair(1, &sample_row(true, 1, b"a"))];
    let child = ScanExecutor::new(schema.clone(), whole_range(), pairs);
    let div = Expr::Div(Box::new(Expr::ColRef(1)), Box::new(Expr::Constant(Datum::Int(0))));
    let aggr = BatchHashAggregationExecutor::new(
        vec![],
        vec![AggrExpr::Count(div)],
        schema,
        EvalConfig { strict: true },
    )
    .unwrap();
    let mut root = Executor::HashAggr(AggrNode { aggr, child, done: false });
    let err = root.next_batch(16).unwrap_err();
    assert_eq!(err.code(), 1365);
    assert!(matches!(err, Error::Eval(_, _)));
}

#[test]
fn corrupted_child_pair_surfaces_the_decode_code_through_the_tree() {
    let schema = vec![FieldType::Int];
    let pairs = vec![
        encoded_pair(1, &vec![Datum::Int(4)]),
        KvPair { key: vec![2], value: vec![200, 1] },
    ];
    let child = ScanExecutor::new(schema.clone(), whole_range(), pairs);
    let aggr = BatchHashAggregationExecutor::new(
        vec![Expr::ColRef(0)],
        vec![AggrExpr::Count(Expr::Constant(Datum::Int(1)))],
        schema,
        EvalConfig { strict: true },
    )
    .unwrap();
    let mut root = Executor::HashAggr(AggrNode { aggr, child, done: false });
    let err = root.next_batch(16).unwrap_err();
    assert_eq!(err.code(), 1292);
}
