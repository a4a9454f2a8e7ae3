//! The hash aggregation engine: a fast single-integer-key strategy and a
//! general encoded-key strategy over one shared functional specification.

use vstd::prelude::*;
use crate::codec::{
    decode_key, encode_key, lemma_decode_encode_key, lemma_encode_key_injective,
    spec_encode_key, vals_encodable,
};
use crate::data::{datums_view, Batch, Datum, FieldType, Val};
use crate::error::{Error, ERR_DATA_OUT_OF_RANGE, ERR_DIVISION_BY_ZERO};
use crate::expr::{
    abort_matches, eval_expr, expr_type, lemma_eval_well_typed, spec_eval, spec_expr_type,
    EvalAbort, EvalConfig, Expr,
};

verus! {

/// An aggregate-function expression of the engine's catalog. `Count`
/// counts the rows of its group whose argument is not null.
pub enum AggrExpr {
    Count(Expr),
}

impl AggrExpr {
    pub open spec fn arg(&self) -> Expr {
        match self {
            AggrExpr::Count(e) => *e,
        }
    }
}

/// A signature the engine accepts: a known function over a type-correct
/// argument. Anything else is rejected at construction, never at run time.
pub open spec fn sig_ok(a: AggrExpr, schema: Seq<FieldType>) -> bool {
    spec_expr_type(a.arg(), schema) is Some
}

/// The group key of one row: each group-by expression evaluated over it.
pub open spec fn spec_row_key(gbys: Seq<Expr>, row: Seq<Val>, strict: bool) -> Seq<Val> {
    Seq::new(gbys.len(), |j: int| spec_eval(gbys[j], row, strict)->Ok_0)
}

pub open spec fn row_key_ok(gbys: Seq<Expr>, row: Seq<Val>, strict: bool) -> bool {
    forall|j: int| 0 <= j < gbys.len() ==> spec_eval(#[trigger] gbys[j], row, strict) is Ok
}

/// One key per input row, in input order.
pub open spec fn spec_key_stream(gbys: Seq<Expr>, rows: Seq<Seq<Val>>, strict: bool) -> Seq<
    Seq<Val>,
> {
    Seq::new(rows.len(), |r: int| spec_row_key(gbys, rows[r], strict))
}

pub open spec fn keys_all_ok(gbys: Seq<Expr>, rows: Seq<Seq<Val>>, strict: bool) -> bool {
    forall|r: int| 0 <= r < rows.len() ==> row_key_ok(gbys, #[trigger] rows[r], strict)
}

/// The distinct keys of a stream, each at its first occurrence, in that
/// order: the emission order of the engine.
pub open spec fn spec_distinct(keys: Seq<Seq<Val>>) -> Seq<Seq<Val>>
    decreases keys.len(),
{
    if keys.len() == 0 {
        Seq::empty()
    } else {
        let prev = spec_distinct(keys.drop_last());
        if prev.contains(keys.last()) {
            prev
        } else {
            prev.push(keys.last())
        }
    }
}

/// The running count for one aggregate and one group key, folded over the
/// rows in order; it aborts where the argument fails to evaluate or the
/// count leaves the signed 64-bit range.
pub open spec fn spec_count_fold(
    arg: Expr,
    gbys: Seq<Expr>,
    rows: Seq<Seq<Val>>,
    k: Seq<Val>,
    strict: bool,
) -> Result<u64, EvalAbort>
    decreases rows.len(),
{
    if rows.len() == 0 {
        Ok(0u64)
    } else {
        match spec_count_fold(arg, gbys, rows.drop_last(), k, strict) {
            Result::Err(e) => Err(e),
            Result::Ok(c) => {
                let row = rows.last();
                if spec_row_key(gbys, row, strict) == k {
                    match spec_eval(arg, row, strict) {
                        Result::Err(e) => Err(e),
                        Result::Ok(v) => if v is Null {
                            Ok(c)
                        } else if (c as int) < i64::MAX as int {
                            Ok((c + 1) as u64)
                        } else {
                            Err(EvalAbort::Overflow)
                        },
                    }
                } else {
                    Ok(c)
                }
            },
        }
    }
}

pub open spec fn args_all_ok(aggrs: Seq<AggrExpr>, rows: Seq<Seq<Val>>, strict: bool) -> bool {
    forall|r: int, j: int|
        0 <= r < rows.len() && 0 <= j < aggrs.len() ==> spec_eval(
            (#[trigger] aggrs[j]).arg(),
            #[trigger] rows[r],
            strict,
        ) is Ok
}

pub open spec fn folds_all_ok(
    gbys: Seq<Expr>,
    aggrs: Seq<AggrExpr>,
    rows: Seq<Seq<Val>>,
    strict: bool,
) -> bool {
    forall|g: int, j: int|
        0 <= g < spec_distinct(spec_key_stream(gbys, rows, strict)).len() && 0 <= j < aggrs.len()
            ==> spec_count_fold(
            (#[trigger] aggrs[j]).arg(),
            gbys,
            rows,
            #[trigger] spec_distinct(spec_key_stream(gbys, rows, strict))[g],
            strict,
        ) is Ok
}

/// The inputs on which aggregation is owed success: every group-by and
/// argument evaluation succeeds and no count leaves its range.
pub open spec fn spec_input_ok(
    gbys: Seq<Expr>,
    aggrs: Seq<AggrExpr>,
    rows: Seq<Seq<Val>>,
    strict: bool,
) -> bool {
    &&& keys_all_ok(gbys, rows, strict)
    &&& args_all_ok(aggrs, rows, strict)
    &&& folds_all_ok(gbys, aggrs, rows, strict)
}

/// The rows of the single result batch: per distinct key, in first
/// occurrence order, the group-by values followed by the finalized counts.
/// Zero rows under a global aggregate still make one group of zeros.
pub open spec fn spec_output_rows(
    gbys: Seq<Expr>,
    aggrs: Seq<AggrExpr>,
    rows: Seq<Seq<Val>>,
    strict: bool,
) -> Seq<Seq<Val>> {
    let ks = spec_distinct(spec_key_stream(gbys, rows, strict));
    if gbys.len() == 0 && ks.len() == 0 {
        seq![Seq::new(aggrs.len(), |j: int| Val::Int(0))]
    } else {
        Seq::new(
            ks.len(),
            |g: int|
                ks[g] + Seq::new(
                    aggrs.len(),
                    |j: int|
                        Val::Int(
                            spec_count_fold(aggrs[j].arg(), gbys, rows, ks[g], strict)->Ok_0 as i64,
                        ),
                ),
        )
    }
}

/// Distinct keys hold exactly the keys of the stream.
pub proof fn lemma_distinct_membership_one(keys: Seq<Seq<Val>>, k: Seq<Val>)
    ensures
        spec_distinct(keys).contains(k) <==> keys.contains(k),
    decreases keys.len(),
{
    if keys.len() > 0 {
        lemma_distinct_membership_one(keys.drop_last(), k);
        let prev = spec_distinct(keys.drop_last());
        let d = spec_distinct(keys);
        if d.contains(k) {
            let w = choose|w: int| 0 <= w < d.len() && d[w] == k;
            if w < prev.len() {
                assert(prev[w] == k);
                assert(prev.contains(k));
                let i = choose|i: int| 0 <= i < keys.drop_last().len() && keys.drop_last()[i] == k;
                assert(keys[i] == k);
                assert(keys.contains(k));
            } else {
                assert(k == keys.last());
                assert(keys[keys.len() - 1] == k);
                assert(keys.contains(k));
            }
        }
        if keys.contains(k) {
            let i = choose|i: int| 0 <= i < keys.len() && keys[i] == k;
            if i < keys.len() - 1 {
                assert(keys.drop_last()[i] == k);
                assert(keys.drop_last().contains(k));
                let w = choose|w: int| 0 <= w < prev.len() && prev[w] == k;
                assert(d[w] == k);
                assert(d.contains(k));
            } else {
                assert(k == keys.last());
                if prev.contains(k) {
                    let w = choose|w: int| 0 <= w < prev.len() && prev[w] == k;
                    assert(d[w] == k);
                    assert(d.contains(k));
                } else {
                    assert(d.last() == k);
                    assert(d.contains(k));
                }
            }
        }
    }
}

pub proof fn lemma_distinct_membership(keys: Seq<Seq<Val>>)
    ensures
        forall|k: Seq<Val>| spec_distinct(keys).contains(k) <==> keys.contains(k),
{
    assert forall|k: Seq<Val>| spec_distinct(keys).contains(k) <==> keys.contains(k) by {
        lemma_distinct_membership_one(keys, k);
    }
}

/// Distinct keys never repeat.
pub proof fn lemma_distinct_no_dup(keys: Seq<Seq<Val>>)
    ensures
        forall|i: int, j: int|
            0 <= i < j < spec_distinct(keys).len() ==> spec_distinct(keys)[i] != spec_distinct(
                keys,
            )[j],
    decreases keys.len(),
{
    if keys.len() > 0 {
        lemma_distinct_no_dup(keys.drop_last());
        let prev = spec_distinct(keys.drop_last());
        let d = spec_distinct(keys);
        if !prev.contains(keys.last()) {
            assert forall|i: int, j: int| 0 <= i < j < d.len() implies d[i] != d[j] by {
                if j == d.len() - 1 {
                    assert(d[i] == prev[i]);
                    assert(!prev.contains(d[j]));
                }
            }
        }
    }
}

/// A key that never occurs in the stream folds to the initial count.
pub proof fn lemma_fold_absent(
    arg: Expr,
    gbys: Seq<Expr>,
    rows: Seq<Seq<Val>>,
    k: Seq<Val>,
    strict: bool,
)
    requires
        forall|r: int| 0 <= r < rows.len() ==> spec_row_key(gbys, #[trigger] rows[r], strict) != k,
    ensures
        spec_count_fold(arg, gbys, rows, k, strict) == Result::<u64, EvalAbort>::Ok(0u64),
    decreases rows.len(),
{
    if rows.len() > 0 {
        lemma_fold_absent(arg, gbys, rows.drop_last(), k, strict);
        assert(rows.last() == rows[rows.len() - 1]);
    }
}

/// Once a fold has aborted, feeding it more rows changes nothing: the
/// same abort persists.
pub proof fn lemma_fold_err_persists(
    arg: Expr,
    gbys: Seq<Expr>,
    rows: Seq<Seq<Val>>,
    ext: Seq<Seq<Val>>,
    k: Seq<Val>,
    strict: bool,
)
    requires
        spec_count_fold(arg, gbys, rows, k, strict) is Err,
    ensures
        spec_count_fold(arg, gbys, rows + ext, k, strict) == spec_count_fold(
            arg,
            gbys,
            rows,
            k,
            strict,
        ),
    decreases ext.len(),
{
    if ext.len() == 0 {
        assert(rows + ext =~= rows);
    } else {
        lemma_fold_err_persists(arg, gbys, rows, ext.drop_last(), k, strict);
        assert((rows + ext).drop_last() =~= rows + ext.drop_last());
    }
}

/// Folding one more row: only that row's own group moves, by one when the
/// argument is not null.
pub proof fn lemma_fold_snoc(
    arg: Expr,
    gbys: Seq<Expr>,
    rows: Seq<Seq<Val>>,
    row: Seq<Val>,
    k: Seq<Val>,
    strict: bool,
)
    ensures
        spec_count_fold(arg, gbys, rows.push(row), k, strict) == (match spec_count_fold(
            arg,
            gbys,
            rows,
            k,
            strict,
        ) {
            Result::Err(e) => Result::<u64, EvalAbort>::Err(e),
            Result::Ok(c) => {
                if spec_row_key(gbys, row, strict) == k {
                    match spec_eval(arg, row, strict) {
                        Result::Err(e) => Result::<u64, EvalAbort>::Err(e),
                        Result::Ok(v) => if v is Null {
                            Result::<u64, EvalAbort>::Ok(c)
                        } else if (c as int) < i64::MAX as int {
                            Result::<u64, EvalAbort>::Ok((c + 1) as u64)
                        } else {
                            Result::<u64, EvalAbort>::Err(EvalAbort::Overflow)
                        },
                    }
                } else {
                    Result::<u64, EvalAbort>::Ok(c)
                }
            },
        }),
{
    assert(rows.push(row).drop_last() =~= rows);
    assert(rows.push(row).last() == row);
}

/// Appending a row appends its key to the key stream.
pub proof fn lemma_key_stream_snoc(gbys: Seq<Expr>, rows: Seq<Seq<Val>>, row: Seq<Val>, strict: bool)
    ensures
        spec_key_stream(gbys, rows.push(row), strict) == spec_key_stream(gbys, rows, strict).push(
            spec_row_key(gbys, row, strict),
        ),
{
    assert(spec_key_stream(gbys, rows.push(row), strict) =~= spec_key_stream(
        gbys,
        rows,
        strict,
    ).push(spec_row_key(gbys, row, strict)));
}


/// The propagation guarantee of a surfaced run-time error: it carries the
/// classification of some failing evaluation, or of some overflowing
/// count, of the given input — a failure bubbles with its cause, never
/// reinterpreted.
pub open spec fn input_abort(
    gbys: Seq<Expr>,
    aggrs: Seq<AggrExpr>,
    rows: Seq<Seq<Val>>,
    strict: bool,
    e: Error,
) -> bool {
    ||| exists|r: int, j: int|
        0 <= r < rows.len() && 0 <= j < gbys.len() && ((#[trigger] spec_eval(
            gbys[j],
            rows[r],
            strict,
        )) matches Err(k) && abort_matches(e, k))
    ||| exists|r: int, j: int|
        0 <= r < rows.len() && 0 <= j < aggrs.len() && ((#[trigger] spec_eval(
            aggrs[j].arg(),
            rows[r],
            strict,
        )) matches Err(k) && abort_matches(e, k))
    ||| exists|g: int, j: int|
        0 <= g < spec_distinct(spec_key_stream(gbys, rows, strict)).len() && 0 <= j < aggrs.len()
            && ((#[trigger] spec_count_fold(
            aggrs[j].arg(),
            gbys,
            rows,
            spec_distinct(spec_key_stream(gbys, rows, strict))[g],
            strict,
        )) matches Err(k) && abort_matches(e, k))
}

/// An abort of a prefix is an abort of the whole input: extending the
/// rows neither heals a failing evaluation nor an overflowing count.
pub proof fn lemma_input_abort_extend(
    gbys: Seq<Expr>,
    aggrs: Seq<AggrExpr>,
    rows: Seq<Seq<Val>>,
    ext: Seq<Seq<Val>>,
    strict: bool,
    e: Error,
)
    requires
        input_abort(gbys, aggrs, rows, strict, e),
    ensures
        input_abort(gbys, aggrs, rows + ext, strict, e),
{
    let full = rows + ext;
    assert forall|r: int| 0 <= r < rows.len() implies #[trigger] full[r] == rows[r] by {}
    assert forall|r: int| 0 <= r < rows.len() implies #[trigger] spec_key_stream(
        gbys,
        full,
        strict,
    )[r] == spec_key_stream(gbys, rows, strict)[r] by {}
    if exists|r: int, j: int|
        0 <= r < rows.len() && 0 <= j < gbys.len() && ((#[trigger] spec_eval(
            gbys[j],
            rows[r],
            strict,
        )) matches Err(k) && abort_matches(e, k)) {
        let (r, j) = choose|r: int, j: int|
            0 <= r < rows.len() && 0 <= j < gbys.len() && ((#[trigger] spec_eval(
                gbys[j],
                rows[r],
                strict,
            )) matches Err(k) && abort_matches(e, k));
        assert(full[r] == rows[r]);
        assert(0 <= r < full.len() && 0 <= j < gbys.len() && ((spec_eval(
            gbys[j],
            full[r],
            strict,
        )) matches Err(k) && abort_matches(e, k)));
    }
    if exists|r: int, j: int|
        0 <= r < rows.len() && 0 <= j < aggrs.len() && ((#[trigger] spec_eval(
            aggrs[j].arg(),
            rows[r],
            strict,
        )) matches Err(k) && abort_matches(e, k)) {
        let (r, j) = choose|r: int, j: int|
            0 <= r < rows.len() && 0 <= j < aggrs.len() && ((#[trigger] spec_eval(
                aggrs[j].arg(),
                rows[r],
                strict,
            )) matches Err(k) && abort_matches(e, k));
        assert(full[r] == rows[r]);
        assert(0 <= r < full.len() && 0 <= j < aggrs.len() && ((spec_eval(
            aggrs[j].arg(),
            full[r],
            strict,
        )) matches Err(k) && abort_matches(e, k)));
    }
    if exists|g: int, j: int|
        0 <= g < spec_distinct(spec_key_stream(gbys, rows, strict)).len() && 0 <= j < aggrs.len()
            && ((#[trigger] spec_count_fold(
            aggrs[j].arg(),
            gbys,
            rows,
            spec_distinct(spec_key_stream(gbys, rows, strict))[g],
            strict,
        )) matches Err(k) && abort_matches(e, k)) {
        let (g, j) = choose|g: int, j: int|
            0 <= g < spec_distinct(spec_key_stream(gbys, rows, strict)).len() && 0 <= j
                < aggrs.len() && ((#[trigger] spec_count_fold(
                aggrs[j].arg(),
                gbys,
                rows,
                spec_distinct(spec_key_stream(gbys, rows, strict))[g],
                strict,
            )) matches Err(k) && abort_matches(e, k));
        let kg = spec_distinct(spec_key_stream(gbys, rows, strict))[g];
        lemma_fold_err_persists(aggrs[j].arg(), gbys, rows, ext, kg, strict);
        lemma_distinct_membership_one(spec_key_stream(gbys, rows, strict), kg);
        let i = choose|i: int|
            0 <= i < spec_key_stream(gbys, rows, strict).len() && spec_key_stream(
                gbys,
                rows,
                strict,
            )[i] == kg;
        assert(spec_key_stream(gbys, full, strict)[i] == kg);
        assert(spec_key_stream(gbys, full, strict).contains(kg));
        lemma_distinct_membership_one(spec_key_stream(gbys, full, strict), kg);
        let g2 = choose|g2: int|
            0 <= g2 < spec_distinct(spec_key_stream(gbys, full, strict)).len() && spec_distinct(
                spec_key_stream(gbys, full, strict),
            )[g2] == kg;
        assert((spec_count_fold(
            aggrs[j].arg(),
            gbys,
            full,
            spec_distinct(spec_key_stream(gbys, full, strict))[g2],
            strict,
        )) matches Err(k) && abort_matches(e, k));
    }
}

/// Whatever is owed success of a whole input is owed of each of its
/// prefixes: evaluations are per row, and a count that stays in range
/// over all rows stayed in range along the way.
pub proof fn lemma_input_ok_prefix(
    gbys: Seq<Expr>,
    aggrs: Seq<AggrExpr>,
    rows: Seq<Seq<Val>>,
    ext: Seq<Seq<Val>>,
    strict: bool,
)
    requires
        spec_input_ok(gbys, aggrs, rows + ext, strict),
    ensures
        spec_input_ok(gbys, aggrs, rows, strict),
{
    let full = rows + ext;
    assert forall|r: int| 0 <= r < rows.len() implies #[trigger] full[r] == rows[r] by {}
    assert forall|r: int| 0 <= r < rows.len() implies #[trigger] spec_key_stream(
        gbys,
        full,
        strict,
    )[r] == spec_key_stream(gbys, rows, strict)[r] by {}
    assert forall|r: int| 0 <= r < rows.len() implies row_key_ok(
        gbys,
        #[trigger] rows[r],
        strict,
    ) by {
        assert(full[r] == rows[r]);
        assert(row_key_ok(gbys, full[r], strict));
    }
    assert forall|r: int, j: int|
        0 <= r < rows.len() && 0 <= j < aggrs.len() implies spec_eval(
        (#[trigger] aggrs[j]).arg(),
        #[trigger] rows[r],
        strict,
    ) is Ok by {
        assert(full[r] == rows[r]);
        assert(spec_eval(aggrs[j].arg(), full[r], strict) is Ok);
    }
    assert forall|g: int, j: int|
        0 <= g < spec_distinct(spec_key_stream(gbys, rows, strict)).len() && 0 <= j
            < aggrs.len() implies spec_count_fold(
        (#[trigger] aggrs[j]).arg(),
        gbys,
        rows,
        #[trigger] spec_distinct(spec_key_stream(gbys, rows, strict))[g],
        strict,
    ) is Ok by {
        let kg = spec_distinct(spec_key_stream(gbys, rows, strict))[g];
        lemma_distinct_membership_one(spec_key_stream(gbys, rows, strict), kg);
        let i = choose|i: int|
            0 <= i < spec_key_stream(gbys, rows, strict).len() && spec_key_stream(
                gbys,
                rows,
                strict,
            )[i] == kg;
        assert(spec_key_stream(gbys, full, strict)[i] == kg);
        assert(spec_key_stream(gbys, full, strict).contains(kg));
        lemma_distinct_membership_one(spec_key_stream(gbys, full, strict), kg);
        let g2 = choose|g2: int|
            0 <= g2 < spec_distinct(spec_key_stream(gbys, full, strict)).len() && spec_distinct(
                spec_key_stream(gbys, full, strict),
            )[g2] == kg;
        assert(spec_count_fold(aggrs[j].arg(), gbys, full, kg, strict) is Ok);
        if spec_count_fold(aggrs[j].arg(), gbys, rows, kg, strict) is Err {
            lemma_fold_err_persists(aggrs[j].arg(), gbys, rows, ext, kg, strict);
        }
    }
}

/// The value a fast-path key cell stands for.
pub open spec fn fast_key_val(o: Option<i64>) -> Val {
    match o {
        Option::None => Val::Null,
        Option::Some(x) => Val::Int(x),
    }
}

/// The grouping strategy, fixed at construction.
#[derive(Clone, Copy, PartialEq, Eq, Structural, Debug)]
pub enum Strategy {
    Fast,
    Slow,
}

/// The errors aggregation can surface at run time: a bad column offset, a
/// type violation, or an evaluation failure with the division or range code.
pub open spec fn err_classified(e: Error) -> bool {
    ||| e matches Error::ColumnOffset(_)
    ||| e matches Error::InvalidDataType(_)
    ||| (e matches Error::Eval(m, c) && (c == ERR_DIVISION_BY_ZERO || c == ERR_DATA_OUT_OF_RANGE))
}

/// The hash aggregation executor: a key table in first-occurrence order
/// paired with a dense matrix of counts, one per group and aggregate.
/// The key table is the fast one or the slow (encoded) one per strategy;
/// the other stays empty.
pub struct BatchHashAggregationExecutor {
    pub group_bys: Vec<Expr>,
    pub aggregates: Vec<AggrExpr>,
    pub schema: Vec<FieldType>,
    pub config: EvalConfig,
    pub strategy: Strategy,
    pub keys_fast: Vec<Option<i64>>,
    pub keys_slow: Vec<Vec<u8>>,
    pub counts: Vec<u64>,
    pub failed: bool,
    pub consumed: Ghost<Seq<Seq<Val>>>,
}

impl BatchHashAggregationExecutor {
    /// The distinct keys seen so far, in emission order.
    pub open spec fn groups(&self) -> Seq<Seq<Val>> {
        spec_distinct(spec_key_stream(self.group_bys@, self.consumed@, self.config.strict))
    }

    pub open spec fn sigs_ok(&self) -> bool {
        forall|j: int|
            0 <= j < self.aggregates@.len() ==> sig_ok(#[trigger] self.aggregates@[j], self.schema@)
    }

    /// The fast path applies to a single integer-typed group-by expression.
    pub open spec fn fast_eligible(&self) -> bool {
        self.group_bys@.len() == 1 && spec_expr_type(self.group_bys@[0], self.schema@) == Some(
            FieldType::Int,
        )
    }

    /// The key table lists exactly the keys `ks`, in order.
    pub open spec fn tables_match(&self, ks: Seq<Seq<Val>>) -> bool {
        match self.strategy {
            Strategy::Fast => {
                &&& self.keys_fast@.len() == ks.len()
                &&& self.keys_slow@.len() == 0
                &&& forall|g: int|
                    0 <= g < ks.len() ==> #[trigger] ks[g] == seq![
                        fast_key_val(self.keys_fast@[g]),
                    ]
            },
            Strategy::Slow => {
                &&& self.keys_slow@.len() == ks.len()
                &&& self.keys_fast@.len() == 0
                &&& forall|g: int|
                    0 <= g < ks.len() ==> (#[trigger] self.keys_slow@[g])@ == spec_encode_key(
                        ks[g],
                    )
                &&& forall|g: int| 0 <= g < ks.len() ==> vals_encodable(#[trigger] ks[g])
            },
        }
    }

    /// Each count cell holds the fold of its aggregate over `rows`,
    /// restricted to its group's key.
    pub open spec fn counts_match(&self, ks: Seq<Seq<Val>>, rows: Seq<Seq<Val>>) -> bool {
        let n = self.aggregates@.len();
        &&& self.counts@.len() == ks.len() * n
        &&& forall|g: int, j: int|
            0 <= g < ks.len() && 0 <= j < n ==> Result::<u64, EvalAbort>::Ok(
                self.counts@[g * n + j],
            ) == #[trigger] spec_count_fold(
                self.aggregates@[j].arg(),
                self.group_bys@,
                rows,
                ks[g],
                self.config.strict,
            )
        &&& forall|i: int|
            0 <= i < self.counts@.len() ==> (#[trigger] self.counts@[i]) <= i64::MAX as u64
    }

    /// The executor's invariant: accepted signatures, a strategy its
    /// descriptor is eligible for, and — while it has not failed — a state
    /// that is exactly the aggregation of the rows consumed so far.
    pub open spec fn inv(&self) -> bool {
        &&& self.sigs_ok()
        &&& (self.strategy == Strategy::Fast ==> self.fast_eligible())
        &&& !self.failed ==> {
            &&& spec_input_ok(
                self.group_bys@,
                self.aggregates@,
                self.consumed@,
                self.config.strict,
            )
            &&& self.tables_match(self.groups())
            &&& self.counts_match(self.groups(), self.consumed@)
        }
    }

    fn check_signatures(aggregates: &Vec<AggrExpr>, schema: &Vec<FieldType>) -> (r: Result<
        (),
        Error,
    >)
        ensures
            (r is Ok <==> forall|j: int|
                0 <= j < aggregates@.len() ==> sig_ok(#[trigger] aggregates@[j], schema@)),
            r matches Err(e) ==> e matches Error::UnknownSignature(_),
    {
        let mut j: usize = 0;
        while j < aggregates.len()
            invariant
                j <= aggregates@.len(),
                forall|i: int| 0 <= i < j ==> sig_ok(#[trigger] aggregates@[i], schema@),
            decreases aggregates@.len() - j,
        {
            let ok = match &aggregates[j] {
                AggrExpr::Count(e) => expr_type(e, schema).is_some(),
            };
            if !ok {
                return Err(Error::UnknownSignature("COUNT".to_owned()));
            }
            j += 1;
        }
        Ok(())
    }

    /// Builds a slow-path executor: any group-by list, every accepted
    /// signature. Rejects unknown signatures at construction.
    pub fn new_slow(
        group_bys: Vec<Expr>,
        aggregates: Vec<AggrExpr>,
        schema: Vec<FieldType>,
        config: EvalConfig,
    ) -> (r: Result<BatchHashAggregationExecutor, Error>)
        ensures
            (r is Ok <==> forall|j: int|
                0 <= j < aggregates@.len() ==> sig_ok(#[trigger] aggregates@[j], schema@)),
            r matches Ok(ex) ==> ex.inv() && !ex.failed && ex.consumed@ == Seq::<Seq<Val>>::empty()
                && ex.group_bys == group_bys && ex.aggregates == aggregates && ex.schema == schema
                && ex.config == config && ex.strategy == Strategy::Slow,
            r matches Err(e) ==> e matches Error::UnknownSignature(_),
    {
        match Self::check_signatures(&aggregates, &schema) {
            Err(e) => {
                return Err(e);
            },
            Ok(_) => {},
        }
        let ex = BatchHashAggregationExecutor {
            group_bys,
            aggregates,
            schema,
            config,
            strategy: Strategy::Slow,
            keys_fast: Vec::new(),
            keys_slow: Vec::new(),
            counts: Vec::new(),
            failed: false,
            consumed: Ghost(Seq::empty()),
        };
        proof {
            assert(spec_key_stream(ex.group_bys@, ex.consumed@, ex.config.strict).len() == 0);
            assert(ex.groups() =~= Seq::<Seq<Val>>::empty());
        }
        Ok(ex)
    }

    /// Builds a fast-path executor; the descriptor must carry exactly one
    /// integer-typed group-by expression.
    pub fn new_fast(
        group_bys: Vec<Expr>,
        aggregates: Vec<AggrExpr>,
        schema: Vec<FieldType>,
        config: EvalConfig,
    ) -> (r: Result<BatchHashAggregationExecutor, Error>)
        ensures
            (r is Ok <==> (forall|j: int|
                0 <= j < aggregates@.len() ==> sig_ok(#[trigger] aggregates@[j], schema@))
                && group_bys@.len() == 1 && spec_expr_type(group_bys@[0], schema@) == Some(
                FieldType::Int,
            )),
            r matches Ok(ex) ==> ex.inv() && !ex.failed && ex.consumed@ == Seq::<Seq<Val>>::empty()
                && ex.group_bys == group_bys && ex.aggregates == aggregates && ex.schema == schema
                && ex.config == config && ex.strategy == Strategy::Fast,
            r matches Err(e) ==> (e matches Error::UnknownSignature(_) || e
                matches Error::InvalidDataType(_)),
            (group_bys@.len() == 1 && spec_expr_type(group_bys@[0], schema@) == Some(
                FieldType::Int,
            ) && r is Err) ==> (r->Err_0 matches Error::UnknownSignature(_)),
    {
        match Self::check_signatures(&aggregates, &schema) {
            Err(e) => {
                return Err(e);
            },
            Ok(_) => {},
        }
        let eligible = if group_bys.len() == 1 {
            match expr_type(&group_bys[0], &schema) {
                Some(FieldType::Int) => true,
                _ => false,
            }
        } else {
            false
        };
        if !eligible {
            return Err(
                Error::InvalidDataType(
                    "fast hash aggregation needs one integer group-by column".to_owned(),
                ),
            );
        }
        let ex = BatchHashAggregationExecutor {
            group_bys,
            aggregates,
            schema,
            config,
            strategy: Strategy::Fast,
            keys_fast: Vec::new(),
            keys_slow: Vec::new(),
            counts: Vec::new(),
            failed: false,
            consumed: Ghost(Seq::empty()),
        };
        proof {
            assert(spec_key_stream(ex.group_bys@, ex.consumed@, ex.config.strict).len() == 0);
            assert(ex.groups() =~= Seq::<Seq<Val>>::empty());
        }
        Ok(ex)
    }

    /// The construction-time strategy selection: the fast path where its
    /// static check passes, the general slow path otherwise.
    pub fn new(
        group_bys: Vec<Expr>,
        aggregates: Vec<AggrExpr>,
        schema: Vec<FieldType>,
        config: EvalConfig,
    ) -> (r: Result<BatchHashAggregationExecutor, Error>)
        ensures
            (r is Ok <==> forall|j: int|
                0 <= j < aggregates@.len() ==> sig_ok(#[trigger] aggregates@[j], schema@)),
            r matches Ok(ex) ==> ex.inv() && !ex.failed && ex.consumed@ == Seq::<Seq<Val>>::empty()
                && ex.group_bys == group_bys && ex.aggregates == aggregates && ex.schema == schema
                && ex.config == config && (ex.strategy == Strategy::Fast <==> ex.fast_eligible()),
            r matches Err(e) ==> e matches Error::UnknownSignature(_),
    {
        let eligible = if group_bys.len() == 1 {
            match expr_type(&group_bys[0], &schema) {
                Some(FieldType::Int) => true,
                _ => false,
            }
        } else {
            false
        };
        if eligible {
            match Self::new_fast(group_bys, aggregates, schema, config) {
                Ok(ex) => Ok(ex),
                Err(e) => Err(e),
            }
        } else {
            match Self::new_slow(group_bys, aggregates, schema, config) {
                Ok(ex) => Ok(ex),
                Err(e) => Err(e),
            }
        }
    }
}

fn lookup_fast(table: &Vec<Option<i64>>, k: &Option<i64>) -> (r: Option<usize>)
    ensures
        (match r {
            Some(g) => (g as int) < table@.len() && fast_key_val(table@[g as int]) == fast_key_val(
                *k,
            ),
            None => forall|u: int|
                0 <= u < table@.len() ==> fast_key_val(#[trigger] table@[u]) != fast_key_val(*k),
        }),
{
    let mut t: usize = 0;
    while t < table.len()
        invariant
            t <= table@.len(),
            forall|u: int|
                0 <= u < t ==> fast_key_val(#[trigger] table@[u]) != fast_key_val(*k),
        decreases table@.len() - t,
    {
        let eq = match (&table[t], k) {
            (Option::None, Option::None) => true,
            (Option::Some(a), Option::Some(b)) => *a == *b,
            _ => false,
        };
        if eq {
            return Some(t);
        }
        t += 1;
    }
    None
}

fn lookup_slow(table: &Vec<Vec<u8>>, enc: &Vec<u8>) -> (r: Option<usize>)
    ensures
        (match r {
            Some(g) => (g as int) < table@.len() && table@[g as int]@ == enc@,
            None => forall|u: int| 0 <= u < table@.len() ==> (#[trigger] table@[u])@ != enc@,
        }),
{
    let mut t: usize = 0;
    while t < table.len()
        invariant
            t <= table@.len(),
            forall|u: int| 0 <= u < t ==> (#[trigger] table@[u])@ != enc@,
        decreases table@.len() - t,
    {
        if crate::data::bytes_eq(&table[t], enc) {
            return Some(t);
        }
        t += 1;
    }
    None
}


fn push_zeros(v: &mut Vec<u64>, n: usize)
    ensures
        (final(v)@ == old(v)@ + Seq::new(n as nat, |i: int| 0u64)),
{
    let mut c: usize = 0;
    while c < n
        invariant
            c <= n,
            (v@ == old(v)@ + Seq::new(c as nat, |i: int| 0u64)),
        decreases n - c,
    {
        v.push(0u64);
        c += 1;
        proof {
            assert(v@ =~= old(v)@ + Seq::new(c as nat, |i: int| 0u64));
        }
    }
    proof {
        assert(v@ =~= old(v)@ + Seq::new(n as nat, |i: int| 0u64));
    }
}



/// Placement of a cell in the flat group-major count matrix.
proof fn lemma_flat_index(g: int, j: int, gl: int, n: int)
    requires
        0 <= g < gl,
        0 <= j < n,
    ensures
        0 <= g * n + j < gl * n,
{
    assert(0 <= g * n + j < gl * n) by (nonlinear_arith)
        requires
            0 <= g < gl,
            0 <= j < n,
    ;
}

/// Different cells of the count matrix never share a slot.
proof fn lemma_flat_index_distinct(g1: int, j1: int, g2: int, j2: int, n: int)
    requires
        0 <= j1 < n,
        0 <= j2 < n,
        g1 >= 0,
        g2 >= 0,
        g1 != g2 || j1 != j2,
    ensures
        g1 * n + j1 != g2 * n + j2,
{
    assert(g1 * n + j1 != g2 * n + j2) by (nonlinear_arith)
        requires
            0 <= j1 < n,
            0 <= j2 < n,
            g1 >= 0,
            g2 >= 0,
            g1 != g2 || j1 != j2,
    ;
}

impl BatchHashAggregationExecutor {
    /// Consumes one batch of the child's output: resolves every row's
    /// group (inserting new keys in first-occurrence order) and advances
    /// every count. State stays exactly the aggregation of all rows
    /// consumed so far; success comes precisely where every evaluation
    /// succeeds and no count leaves its range. On failure the executor is
    /// terminal.
    pub fn ingest(&mut self, batch: &Batch) -> (r: Result<(), Error>)
        requires
            old(self).inv(),
            !old(self).failed,
            batch.wf(old(self).schema@),
        ensures
            (final(self).group_bys == old(self).group_bys),
            (final(self).aggregates == old(self).aggregates),
            (final(self).schema == old(self).schema),
            (final(self).config == old(self).config),
            (final(self).strategy == old(self).strategy),
            final(self).inv(),
            (r is Ok <==> spec_input_ok(
                old(self).group_bys@,
                old(self).aggregates@,
                old(self).consumed@ + batch.spec_rows(),
                old(self).config.strict,
            )),
            r is Ok ==> !final(self).failed && final(self).consumed@ == old(self).consumed@
                + batch.spec_rows(),
            r matches Err(e) ==> final(self).failed && err_classified(e) && input_abort(
                old(self).group_bys@,
                old(self).aggregates@,
                old(self).consumed@ + batch.spec_rows(),
                old(self).config.strict,
                e,
            ),
    {
        let ghost base = self.consumed@;
        let ghost gbys = self.group_bys@;
        let ghost aggrs = self.aggregates@;
        let ghost strict = self.config.strict;
        let ghost schema = self.schema@;
        let ghost all_rows = base + batch.spec_rows();
        let n_rows = batch.n_rows;
        let n_aggr = self.aggregates.len();

        // Group-by columns, evaluated column-wise over the batch.
        let mut gb_cols: Vec<Vec<Datum>> = Vec::new();
        let mut c: usize = 0;
        while c < self.group_bys.len()
            invariant
                (*self == *old(self)),
                !self.failed,
                self.inv(),
                batch.wf(schema),
                gbys == self.group_bys@,
                strict == self.config.strict,
                (all_rows == base + batch.spec_rows()),
                (base == self.consumed@),
                c <= gbys.len(),
                gb_cols@.len() == c,
                forall|u: int| 0 <= u < c ==> (#[trigger] gb_cols@[u])@.len() == batch.n_rows,
                forall|u: int, i: int|
                    0 <= u < c && 0 <= i < batch.n_rows ==> spec_eval(
                        gbys[u],
                        batch.spec_row(i),
                        strict,
                    ) == Result::<Val, EvalAbort>::Ok((#[trigger] gb_cols@[u]@[i])@),
            decreases gbys.len() - c,
        {
            match eval_expr(&self.group_bys[c], batch, &self.config) {
                Ok(col) => {
                    gb_cols.push(col);
                },
                Err(e) => {
                    proof {
                        let i = choose|i: int|
                            0 <= i < batch.n_rows && ((#[trigger] spec_eval(
                                gbys[c as int],
                                batch.spec_row(i),
                                strict,
                            )) matches Err(k) && abort_matches(e, k));
                        assert(spec_eval(gbys[c as int], batch.spec_row(i), strict) is Err);
                        assert(batch.spec_rows().len() == batch.n_rows as int);
                        assert(all_rows.len() == base.len() + batch.n_rows as int);
                        assert(all_rows[base.len() + i] == batch.spec_rows()[i]);
                        assert(batch.spec_rows()[i] == batch.spec_row(i));
                        assert(!row_key_ok(gbys, all_rows[base.len() + i], strict));
                        assert(!keys_all_ok(gbys, all_rows, strict));
                        assert(err_classified(e));
                        assert(0 <= base.len() + i < all_rows.len() && 0 <= c < gbys.len() && ((
                        spec_eval(
                            gbys[c as int],
                            all_rows[base.len() + i],
                            strict,
                        )) matches Err(k) && abort_matches(e, k)));
                        assert(input_abort(gbys, aggrs, all_rows, strict, e));
                    }
                    self.failed = true;
                    return Err(e);
                },
            }
            c += 1;
        }

        // Aggregate-argument columns, one per aggregate expression.
        let mut arg_cols: Vec<Vec<Datum>> = Vec::new();
        let mut c2: usize = 0;
        while c2 < self.aggregates.len()
            invariant
                (*self == *old(self)),
                !self.failed,
                self.inv(),
                batch.wf(schema),
                aggrs == self.aggregates@,
                strict == self.config.strict,
                (all_rows == base + batch.spec_rows()),
                (base == self.consumed@),
                c2 <= aggrs.len(),
                arg_cols@.len() == c2,
                forall|u: int| 0 <= u < c2 ==> (#[trigger] arg_cols@[u])@.len() == batch.n_rows,
                forall|u: int, i: int|
                    0 <= u < c2 && 0 <= i < batch.n_rows ==> spec_eval(
                        aggrs[u].arg(),
                        batch.spec_row(i),
                        strict,
                    ) == Result::<Val, EvalAbort>::Ok((#[trigger] arg_cols@[u]@[i])@),
            decreases aggrs.len() - c2,
        {
            let res = match &self.aggregates[c2] {
                AggrExpr::Count(ae) => eval_expr(ae, batch, &self.config),
            };
            match res {
                Ok(col) => {
                    arg_cols.push(col);
                },
                Err(e) => {
                    proof {
                        let i = choose|i: int|
                            0 <= i < batch.n_rows && ((#[trigger] spec_eval(
                                aggrs[c2 as int].arg(),
                                batch.spec_row(i),
                                strict,
                            )) matches Err(k) && abort_matches(e, k));
                        assert(spec_eval(aggrs[c2 as int].arg(), batch.spec_row(i), strict) is Err);
                        assert(batch.spec_rows().len() == batch.n_rows as int);
                        assert(all_rows.len() == base.len() + batch.n_rows as int);
                        assert(all_rows[base.len() + i] == batch.spec_rows()[i]);
                        assert(batch.spec_rows()[i] == batch.spec_row(i));
                        assert(!args_all_ok(aggrs, all_rows, strict));
                        assert(err_classified(e));
                        assert(0 <= base.len() + i < all_rows.len() && 0 <= c2 < aggrs.len() && ((
                        spec_eval(
                            aggrs[c2 as int].arg(),
                            all_rows[base.len() + i],
                            strict,
                        )) matches Err(k) && abort_matches(e, k)));
                        assert(input_abort(gbys, aggrs, all_rows, strict, e));
                    }
                    self.failed = true;
                    return Err(e);
                },
            }
            c2 += 1;
        }

        // One pass over the rows: resolve the group, then advance each count.
        let mut r: usize = 0;
        while r < n_rows
            invariant
                self.group_bys == old(self).group_bys,
                self.aggregates == old(self).aggregates,
                self.schema == old(self).schema,
                self.config == old(self).config,
                self.strategy == old(self).strategy,
                !self.failed,
                self.consumed@ == base,
                (base == old(self).consumed@),
                self.sigs_ok(),
                (self.strategy == Strategy::Fast ==> self.fast_eligible()),
                batch.wf(schema),
                schema == self.schema@,
                gbys == self.group_bys@,
                aggrs == self.aggregates@,
                strict == self.config.strict,
                n_rows == batch.n_rows,
                n_aggr == aggrs.len(),
                (all_rows == base + batch.spec_rows()),
                gb_cols@.len() == gbys.len(),
                forall|u: int| 0 <= u < gbys.len() ==> (#[trigger] gb_cols@[u])@.len() == n_rows,
                forall|u: int, i: int|
                    0 <= u < gbys.len() && 0 <= i < n_rows ==> spec_eval(
                        gbys[u],
                        batch.spec_row(i),
                        strict,
                    ) == Result::<Val, EvalAbort>::Ok((#[trigger] gb_cols@[u]@[i])@),
                arg_cols@.len() == aggrs.len(),
                forall|u: int| 0 <= u < aggrs.len() ==> (#[trigger] arg_cols@[u])@.len() == n_rows,
                forall|u: int, i: int|
                    0 <= u < aggrs.len() && 0 <= i < n_rows ==> spec_eval(
                        aggrs[u].arg(),
                        batch.spec_row(i),
                        strict,
                    ) == Result::<Val, EvalAbort>::Ok((#[trigger] arg_cols@[u]@[i])@),
                r <= n_rows,
                self.tables_match(
                    spec_distinct(
                        spec_key_stream(
                            gbys,
                            base + batch.spec_rows().subrange(0, r as int),
                            strict,
                        ),
                    ),
                ),
                self.counts_match(
                    spec_distinct(
                        spec_key_stream(
                            gbys,
                            base + batch.spec_rows().subrange(0, r as int),
                            strict,
                        ),
                    ),
                    base + batch.spec_rows().subrange(0, r as int),
                ),
            decreases n_rows - r,
        {
            let ghost pref = base + batch.spec_rows().subrange(0, r as int);
            let ghost row = batch.spec_row(r as int);
            let ghost key = spec_row_key(gbys, row, strict);
            let ghost ks = spec_distinct(spec_key_stream(gbys, pref, strict));
            let ghost prefn = base + batch.spec_rows().subrange(0, r as int + 1);
            proof {
                assert(batch.spec_rows().subrange(0, r as int + 1) =~= batch.spec_rows().subrange(
                    0,
                    r as int,
                ).push(batch.spec_rows()[r as int]));
                assert(prefn =~= pref.push(row));
                lemma_key_stream_snoc(gbys, pref, row, strict);
                assert(spec_key_stream(gbys, prefn, strict) == spec_key_stream(
                    gbys,
                    pref,
                    strict,
                ).push(key));
                assert(spec_key_stream(gbys, prefn, strict).drop_last() =~= spec_key_stream(
                    gbys,
                    pref,
                    strict,
                ));
            }
            let ghost ksn = spec_distinct(spec_key_stream(gbys, prefn, strict));

            let g: usize;
            match self.strategy {
                Strategy::Fast => {
                    proof {
                        assert(crate::data::row_matches(row, schema)) by {
                            assert forall|u: int| 0 <= u < schema.len() implies crate::data::val_matches(
                                #[trigger] row[u],
                                schema[u],
                            ) by {
                                assert(row[u] == batch.columns@[u]@[r as int]@);
                            }
                        }
                        assert(spec_eval(gbys[0], row, strict) == Result::<Val, EvalAbort>::Ok(
                            gb_cols@[0]@[r as int]@,
                        ));
                        lemma_eval_well_typed(gbys[0], row, schema, strict);
                    }
                    let col0 = &gb_cols[0];
                    let fk: Option<i64> = match &col0[r] {
                        Datum::Null => None,
                        Datum::Int(x) => Some(*x),
                        _ => {
                            proof {
                                assert(false);
                            }
                            vstd::pervasive::unreached()
                        },
                    };
                    proof {
                        assert(key.len() == 1);
                        assert(key[0] == gb_cols@[0]@[r as int]@);
                        assert(key =~= seq![fast_key_val(fk)]);
                    }
                    match lookup_fast(&self.keys_fast, &fk) {
                        Some(gg) => {
                            g = gg;
                            proof {
                                assert(ks[gg as int] == seq![
                                    fast_key_val(self.keys_fast@[gg as int]),
                                ]);
                                assert(ks[gg as int] == key);
                                assert(ks.contains(key));
                                assert(ksn == ks);
                            }
                        },
                        None => {
                            g = self.keys_fast.len();
                            let ghost table0 = self.keys_fast@;
                            self.keys_fast.push(fk);
                            push_zeros(&mut self.counts, n_aggr);
                            proof {
                                assert(!ks.contains(key)) by {
                                    if ks.contains(key) {
                                        let u = choose|u: int|
                                            0 <= u < ks.len() && ks[u] == key;
                                        assert(ks[u] == seq![fast_key_val(table0[u])]);
                                        assert(fast_key_val(table0[u]) == fast_key_val(fk));
                                        assert(false);
                                    }
                                };
                                assert(ksn == ks.push(key));
                                lemma_distinct_membership_one(
                                    spec_key_stream(gbys, pref, strict),
                                    key,
                                );
                                assert forall|r2: int| 0 <= r2 < pref.len() implies spec_row_key(
                                    gbys,
                                    #[trigger] pref[r2],
                                    strict,
                                ) != key by {
                                    assert(spec_key_stream(gbys, pref, strict)[r2]
                                        == spec_row_key(gbys, pref[r2], strict));
                                }
                                assert forall|jj: int| 0 <= jj < n_aggr implies spec_count_fold(
                                    (#[trigger] aggrs[jj]).arg(),
                                    gbys,
                                    pref,
                                    key,
                                    strict,
                                ) == Result::<u64, EvalAbort>::Ok(0u64) by {
                                    lemma_fold_absent(aggrs[jj].arg(), gbys, pref, key, strict);
                                }
                                assert((ks.len() + 1) * (n_aggr as int) == ks.len() * (
                                n_aggr as int) + (n_aggr as int)) by (nonlinear_arith);
                            }
                        },
                    }
                },
                Strategy::Slow => {
                    let mut tup: Vec<Datum> = Vec::new();
                    let mut cc: usize = 0;
                    while cc < self.group_bys.len()
                        invariant
                            gbys == self.group_bys@,
                            strict == self.config.strict,
                            r < n_rows,
                            n_rows == batch.n_rows,
                            gb_cols@.len() == gbys.len(),
                            forall|u: int|
                                0 <= u < gbys.len() ==> (#[trigger] gb_cols@[u])@.len() == n_rows,
                            cc <= gbys.len(),
                            tup@.len() == cc,
                            forall|u: int|
                                0 <= u < cc ==> (#[trigger] tup@[u])@ == gb_cols@[u]@[r as int]@,
                        decreases gbys.len() - cc,
                    {
                        let colc = &gb_cols[cc];
                        tup.push(colc[r].duplicate());
                        cc += 1;
                    }
                    proof {
                        assert(datums_view(tup@) =~= key);
                    }
                    let enc = encode_key(&tup);
                    match lookup_slow(&self.keys_slow, &enc) {
                        Some(gg) => {
                            g = gg;
                            proof {
                                assert(self.keys_slow@[gg as int]@ == spec_encode_key(
                                    ks[gg as int],
                                ));
                                lemma_encode_key_injective(ks[gg as int], key);
                                assert(ks[gg as int] == key);
                                assert(ks.contains(key));
                                assert(ksn == ks);
                            }
                        },
                        None => {
                            g = self.keys_slow.len();
                            let ghost table0 = self.keys_slow@;
                            self.keys_slow.push(enc);
                            push_zeros(&mut self.counts, n_aggr);
                            proof {
                                assert(!ks.contains(key)) by {
                                    if ks.contains(key) {
                                        let u = choose|u: int|
                                            0 <= u < ks.len() && ks[u] == key;
                                        assert(table0[u]@ == spec_encode_key(ks[u]));
                                        assert(false);
                                    }
                                };
                                assert(ksn == ks.push(key));
                                lemma_distinct_membership_one(
                                    spec_key_stream(gbys, pref, strict),
                                    key,
                                );
                                assert forall|r2: int| 0 <= r2 < pref.len() implies spec_row_key(
                                    gbys,
                                    #[trigger] pref[r2],
                                    strict,
                                ) != key by {
                                    assert(spec_key_stream(gbys, pref, strict)[r2]
                                        == spec_row_key(gbys, pref[r2], strict));
                                }
                                assert forall|jj: int| 0 <= jj < n_aggr implies spec_count_fold(
                                    (#[trigger] aggrs[jj]).arg(),
                                    gbys,
                                    pref,
                                    key,
                                    strict,
                                ) == Result::<u64, EvalAbort>::Ok(0u64) by {
                                    lemma_fold_absent(aggrs[jj].arg(), gbys, pref, key, strict);
                                }
                                assert((ks.len() + 1) * (n_aggr as int) == ks.len() * (
                                n_aggr as int) + (n_aggr as int)) by (nonlinear_arith);
                            }
                        },
                    }
                },
            }

            proof {
                assert((g as int) < ksn.len());
                assert(ksn[g as int] == key);
                assert(self.tables_match(ksn));
                assert(self.counts@.len() == ksn.len() * (n_aggr as int));
                assert forall|g2: int, jj: int|
                    0 <= g2 < ksn.len() && 0 <= jj < n_aggr implies Result::<u64, EvalAbort>::Ok(
                    self.counts@[g2 * (n_aggr as int) + jj],
                ) == #[trigger] spec_count_fold(
                    aggrs[jj].arg(),
                    gbys,
                    pref,
                    ksn[g2],
                    strict,
                ) by {
                    lemma_flat_index(g2, jj, ksn.len() as int, n_aggr as int);
                    if g2 < ks.len() {
                        lemma_flat_index(g2, jj, ks.len() as int, n_aggr as int);
                    }
                }
            }

            // Advance every aggregate's count at this row's group.
            let mut j2: usize = 0;
            while j2 < n_aggr
                invariant
                    self.group_bys == old(self).group_bys,
                    self.aggregates == old(self).aggregates,
                    self.schema == old(self).schema,
                    self.config == old(self).config,
                    self.strategy == old(self).strategy,
                    !self.failed,
                    self.consumed@ == base,
                    (base == old(self).consumed@),
                    self.sigs_ok(),
                    (self.strategy == Strategy::Fast ==> self.fast_eligible()),
                    batch.wf(schema),
                    schema == self.schema@,
                    gbys == self.group_bys@,
                    aggrs == self.aggregates@,
                    strict == self.config.strict,
                    n_rows == batch.n_rows,
                    n_aggr == aggrs.len(),
                    (all_rows == base + batch.spec_rows()),
                    r < n_rows,
                    arg_cols@.len() == aggrs.len(),
                    forall|u: int|
                        0 <= u < aggrs.len() ==> (#[trigger] arg_cols@[u])@.len() == n_rows,
                    forall|u: int, i: int|
                        0 <= u < aggrs.len() && 0 <= i < n_rows ==> spec_eval(
                            aggrs[u].arg(),
                            batch.spec_row(i),
                            strict,
                        ) == Result::<Val, EvalAbort>::Ok((#[trigger] arg_cols@[u]@[i])@),
                    j2 <= n_aggr,
                    (g as int) < ksn.len(),
                    (ksn[g as int] == key),
                    (row == batch.spec_row(r as int)),
                    (key == spec_row_key(gbys, row, strict)),
                    (pref == base + batch.spec_rows().subrange(0, r as int)),
                    (prefn == base + batch.spec_rows().subrange(0, r as int + 1)),
                    (prefn == pref.push(row)),
                    (ksn == spec_distinct(spec_key_stream(gbys, prefn, strict))),
                    self.tables_match(ksn),
                    (self.counts@.len() == ksn.len() * (n_aggr as int)),
                    forall|g2: int, jj: int|
                        0 <= g2 < ksn.len() && 0 <= jj < j2 ==> Result::<u64, EvalAbort>::Ok(
                            self.counts@[g2 * (n_aggr as int) + jj],
                        ) == #[trigger] spec_count_fold(
                            aggrs[jj].arg(),
                            gbys,
                            prefn,
                            ksn[g2],
                            strict,
                        ),
                    forall|g2: int, jj: int|
                        0 <= g2 < ksn.len() && j2 <= jj < n_aggr ==> Result::<u64, EvalAbort>::Ok(
                            self.counts@[g2 * (n_aggr as int) + jj],
                        ) == #[trigger] spec_count_fold(
                            aggrs[jj].arg(),
                            gbys,
                            pref,
                            ksn[g2],
                            strict,
                        ),
                    forall|i: int|
                        0 <= i < self.counts@.len() ==> (#[trigger] self.counts@[i])
                            <= i64::MAX as u64,
                decreases n_aggr - j2,
            {
                let colj = &arg_cols[j2];
                let av_is_null = match &colj[r] {
                    Datum::Null => true,
                    _ => false,
                };
                let total = self.counts.len();
                proof {
                    lemma_flat_index(g as int, j2 as int, ksn.len() as int, n_aggr as int);
                    assert((g as int) * (n_aggr as int) + (j2 as int) < total as int);
                }
                let idx = g * n_aggr + j2;
                let ghost counts0 = self.counts@;
                if !av_is_null {
                    let cur = self.counts[idx];
                    if cur >= 9223372036854775807u64 {
                        let err = Error::overflow("BIGINT", "COUNT");
                        proof {
                            lemma_fold_snoc(aggrs[j2 as int].arg(), gbys, pref, row, key, strict);
                            assert(spec_eval(aggrs[j2 as int].arg(), row, strict)
                                == Result::<Val, EvalAbort>::Ok(arg_cols@[j2 as int]@[r as int]@));
                            assert(spec_count_fold(aggrs[j2 as int].arg(), gbys, prefn, key, strict)
                                is Err);
                            let rest = batch.spec_rows().subrange(r as int + 1, n_rows as int);
                            assert(all_rows =~= prefn + rest);
                            lemma_fold_err_persists(
                                aggrs[j2 as int].arg(),
                                gbys,
                                prefn,
                                rest,
                                key,
                                strict,
                            );
                            assert(all_rows[base.len() + r as int] == batch.spec_rows()[r as int]);
                            assert(spec_key_stream(gbys, all_rows, strict)[base.len() + r as int]
                                == key);
                            assert(spec_key_stream(gbys, all_rows, strict).contains(key));
                            lemma_distinct_membership_one(
                                spec_key_stream(gbys, all_rows, strict),
                                key,
                            );
                            let dall = spec_distinct(spec_key_stream(gbys, all_rows, strict));
                            assert(dall.contains(key));
                            let gw = choose|gw: int| 0 <= gw < dall.len() && dall[gw] == key;
                            assert(!folds_all_ok(gbys, aggrs, all_rows, strict));
                            assert(err_classified(err));
                            assert(spec_count_fold(aggrs[j2 as int].arg(), gbys, prefn, key, strict)
                                == Result::<u64, EvalAbort>::Err(EvalAbort::Overflow));
                            assert(spec_count_fold(
                                aggrs[j2 as int].arg(),
                                gbys,
                                all_rows,
                                key,
                                strict,
                            ) == Result::<u64, EvalAbort>::Err(EvalAbort::Overflow));
                            assert(abort_matches(err, EvalAbort::Overflow));
                            assert(0 <= gw < dall.len() && 0 <= j2 < aggrs.len() && ((
                            spec_count_fold(
                                aggrs[j2 as int].arg(),
                                gbys,
                                all_rows,
                                dall[gw],
                                strict,
                            )) matches Err(k) && abort_matches(err, k)));
                            assert(input_abort(gbys, aggrs, all_rows, strict, err));
                        }
                        self.failed = true;
                        return Err(err);
                    }
                    self.counts.set(idx, cur + 1);
                }
                proof {
                    assert forall|g2: int, jj: int|
                        0 <= g2 < ksn.len() && 0 <= jj < j2 + 1 implies Result::<
                        u64,
                        EvalAbort,
                    >::Ok(self.counts@[g2 * (n_aggr as int) + jj]) == #[trigger] spec_count_fold(
                        aggrs[jj].arg(),
                        gbys,
                        prefn,
                        ksn[g2],
                        strict,
                    ) by {
                        lemma_flat_index(g2, jj, ksn.len() as int, n_aggr as int);
                        if jj == j2 {
                            lemma_fold_snoc(aggrs[jj].arg(), gbys, pref, row, ksn[g2], strict);
                            if g2 == g as int {
                                assert(self.counts@[g2 * (n_aggr as int) + jj] == (if av_is_null {
                                    counts0[g2 * (n_aggr as int) + jj]
                                } else {
                                    (counts0[g2 * (n_aggr as int) + jj] + 1) as u64
                                }));
                                assert(spec_eval(aggrs[jj].arg(), row, strict) == Result::<
                                    Val,
                                    EvalAbort,
                                >::Ok(arg_cols@[jj]@[r as int]@));
                            } else {
                                lemma_distinct_no_dup(spec_key_stream(gbys, prefn, strict));
                                assert(ksn[g2] != key);
                                lemma_flat_index_distinct(
                                    g2,
                                    jj,
                                    g as int,
                                    j2 as int,
                                    n_aggr as int,
                                );
                            }
                        } else {
                            if g2 != g as int || jj != j2 as int {
                                lemma_flat_index_distinct(
                                    g2,
                                    jj,
                                    g as int,
                                    j2 as int,
                                    n_aggr as int,
                                );
                            }
                        }
                    }
                    assert forall|g2: int, jj: int|
                        0 <= g2 < ksn.len() && j2 + 1 <= jj < n_aggr implies Result::<
                        u64,
                        EvalAbort,
                    >::Ok(self.counts@[g2 * (n_aggr as int) + jj]) == #[trigger] spec_count_fold(
                        aggrs[jj].arg(),
                        gbys,
                        pref,
                        ksn[g2],
                        strict,
                    ) by {
                        lemma_flat_index(g2, jj, ksn.len() as int, n_aggr as int);
                        lemma_flat_index_distinct(g2, jj, g as int, j2 as int, n_aggr as int);
                    }
                }
                j2 += 1;
            }
            proof {
                assert(self.counts_match(ksn, prefn));
            }
            r += 1;
        }

        proof {
            assert(batch.spec_rows().subrange(0, n_rows as int) =~= batch.spec_rows());
        }
        self.consumed = Ghost(all_rows);
        proof {
            assert(keys_all_ok(gbys, all_rows, strict)) by {
                assert forall|i: int| 0 <= i < all_rows.len() implies row_key_ok(
                    gbys,
                    #[trigger] all_rows[i],
                    strict,
                ) by {
                    if i < base.len() {
                        assert(all_rows[i] == base[i]);
                    } else {
                        assert(all_rows[i] == batch.spec_rows()[i - base.len()]);
                        assert(all_rows[i] == batch.spec_row(i - base.len()));
                        assert forall|j: int| 0 <= j < gbys.len() implies spec_eval(
                            #[trigger] gbys[j],
                            all_rows[i],
                            strict,
                        ) is Ok by {
                            assert(spec_eval(gbys[j], batch.spec_row(i - base.len()), strict)
                                == Result::<Val, EvalAbort>::Ok(gb_cols@[j]@[i - base.len()]@));
                        }
                    }
                }
            }
            assert(args_all_ok(aggrs, all_rows, strict)) by {
                assert forall|i: int, j: int|
                    0 <= i < all_rows.len() && 0 <= j < aggrs.len() implies spec_eval(
                    (#[trigger] aggrs[j]).arg(),
                    #[trigger] all_rows[i],
                    strict,
                ) is Ok by {
                    if i < base.len() {
                        assert(all_rows[i] == base[i]);
                    } else {
                        assert(all_rows[i] == batch.spec_rows()[i - base.len()]);
                        assert(all_rows[i] == batch.spec_row(i - base.len()));
                        assert(spec_eval(aggrs[j].arg(), batch.spec_row(i - base.len()), strict)
                            == Result::<Val, EvalAbort>::Ok(arg_cols@[j]@[i - base.len()]@));
                    }
                }
            }
            assert(folds_all_ok(gbys, aggrs, all_rows, strict)) by {
                let dall = spec_distinct(spec_key_stream(gbys, all_rows, strict));
                assert forall|g2: int, j: int|
                    0 <= g2 < dall.len() && 0 <= j < aggrs.len() implies spec_count_fold(
                    (#[trigger] aggrs[j]).arg(),
                    gbys,
                    all_rows,
                    #[trigger] dall[g2],
                    strict,
                ) is Ok by {
                    assert(self.counts_match(dall, all_rows));
                }
            }
        }
        Ok(())
    }
}


impl BatchHashAggregationExecutor {
    /// Emits the single result batch: per group, in first-occurrence
    /// order, the group-by values decoded back from the stored key,
    /// followed by each aggregate's finalized count. Zero consumed rows
    /// under a global aggregate still yield exactly one group; zero rows
    /// with group-by expressions yield zero groups. Never fails: the
    /// stored keys are proved decodable.
    pub fn finalize(&self) -> (r: Batch)
        requires
            self.inv(),
            !self.failed,
        ensures
            r.col_lens_ok(),
            r.columns@.len() == self.group_bys@.len() + self.aggregates@.len(),
            (r.spec_rows() == spec_output_rows(
                self.group_bys@,
                self.aggregates@,
                self.consumed@,
                self.config.strict,
            )),
    {
        let ghost gbys = self.group_bys@;
        let ghost aggrs = self.aggregates@;
        let ghost strict = self.config.strict;
        let ghost ks = self.groups();
        let ghost out = spec_output_rows(gbys, aggrs, self.consumed@, strict);
        let n_gb = self.group_bys.len();
        let n_aggr = self.aggregates.len();
        let n_groups = match self.strategy {
            Strategy::Fast => self.keys_fast.len(),
            Strategy::Slow => self.keys_slow.len(),
        };
        proof {
            assert(n_groups == ks.len());
            assert forall|g: int| 0 <= g < ks.len() implies (#[trigger] ks[g]).len()
                == gbys.len() by {
                let stream = spec_key_stream(gbys, self.consumed@, strict);
                lemma_distinct_membership_one(stream, ks[g]);
                assert(stream.contains(ks[g]));
                let i = choose|i: int| 0 <= i < stream.len() && stream[i] == ks[g];
                assert(stream[i] == spec_row_key(gbys, self.consumed@[i], strict));
            }
        }
        if n_gb == 0 && n_groups == 0 {
            let mut columns: Vec<Vec<Datum>> = Vec::new();
            let mut j: usize = 0;
            while j < n_aggr
                invariant
                    j <= n_aggr,
                    columns@.len() == j,
                    forall|u: int|
                        0 <= u < j ==> (#[trigger] columns@[u])@.len() == 1 && columns@[u]@[0]@
                            == Val::Int(0),
                decreases n_aggr - j,
            {
                let mut col: Vec<Datum> = Vec::new();
                col.push(Datum::Int(0));
                columns.push(col);
                j += 1;
            }
            let b = Batch { n_rows: 1, columns };
            proof {
                assert(ks.len() == 0);
                assert(out == seq![Seq::new(aggrs.len(), |j2: int| Val::Int(0))]);
                assert(b.spec_rows().len() == 1);
                assert(b.spec_row(0).len() == n_aggr as int);
                assert forall|c2: int| 0 <= c2 < n_aggr implies b.spec_row(0)[c2] == Val::Int(
                    0,
                ) by {
                    assert(b.spec_row(0)[c2] == b.columns@[c2]@[0]@);
                }
                assert(b.spec_row(0) =~= out[0]);
                assert(b.spec_rows() =~= out);
            }
            return b;
        }
        let mut columns: Vec<Vec<Datum>> = Vec::new();
        let mut c: usize = 0;
        while c < n_gb
            invariant
                self.inv(),
                !self.failed,
                gbys == self.group_bys@,
                strict == self.config.strict,
                ks == self.groups(),
                n_gb == gbys.len(),
                n_aggr == self.aggregates@.len(),
                n_groups == ks.len(),
                forall|g: int| 0 <= g < ks.len() ==> (#[trigger] ks[g]).len() == gbys.len(),
                c <= n_gb,
                columns@.len() == c,
                forall|u: int| 0 <= u < c ==> (#[trigger] columns@[u])@.len() == n_groups,
                forall|u: int, g: int|
                    0 <= u < c && 0 <= g < n_groups ==> (#[trigger] columns@[u]@[g])@ == ks[g][u],
            decreases n_gb - c,
        {
            let mut col: Vec<Datum> = Vec::new();
            let mut g: usize = 0;
            while g < n_groups
                invariant
                    self.inv(),
                    !self.failed,
                    gbys == self.group_bys@,
                    strict == self.config.strict,
                    ks == self.groups(),
                    n_gb == gbys.len(),
                    n_groups == ks.len(),
                    c < n_gb,
                    forall|g2: int| 0 <= g2 < ks.len() ==> (#[trigger] ks[g2]).len() == gbys.len(),
                    g <= n_groups,
                    col@.len() == g,
                    forall|g2: int| 0 <= g2 < g ==> (#[trigger] col@[g2])@ == ks[g2][c as int],
                decreases n_groups - g,
            {
                let d: Datum;
                match self.strategy {
                    Strategy::Fast => {
                        d = match &self.keys_fast[g] {
                            Option::None => Datum::Null,
                            Option::Some(x) => Datum::Int(*x),
                        };
                        proof {
                            assert(ks[g as int] == seq![fast_key_val(self.keys_fast@[g as int])]);
                            assert(d@ == ks[g as int][c as int]);
                        }
                    },
                    Strategy::Slow => {
                        proof {
                            lemma_decode_encode_key(ks[g as int]);
                            assert(self.keys_slow@[g as int]@ == spec_encode_key(ks[g as int]));
                        }
                        let t = match decode_key(&self.keys_slow[g]) {
                            Ok(t) => t,
                            Err(_) => {
                                proof {
                                    assert(false);
                                }
                                vstd::pervasive::unreached()
                            },
                        };
                        proof {
                            assert(datums_view(t@) == ks[g as int]);
                            assert(t@.len() == ks[g as int].len());
                            assert(datums_view(t@)[c as int] == t@[c as int]@);
                        }
                        d = t[c].duplicate();
                    },
                }
                col.push(d);
                g += 1;
            }
            columns.push(col);
            c += 1;
        }
        let mut j: usize = 0;
        while j < n_aggr
            invariant
                self.inv(),
                !self.failed,
                gbys == self.group_bys@,
                aggrs == self.aggregates@,
                strict == self.config.strict,
                ks == self.groups(),
                n_gb == gbys.len(),
                n_aggr == aggrs.len(),
                n_groups == ks.len(),
                j <= n_aggr,
                columns@.len() == n_gb + j,
                forall|u: int| 0 <= u < n_gb + j ==> (#[trigger] columns@[u])@.len() == n_groups,
                forall|u: int, g: int|
                    0 <= u < n_gb && 0 <= g < n_groups ==> (#[trigger] columns@[u]@[g])@
                        == ks[g][u],
                forall|u: int, g: int|
                    0 <= u < j && 0 <= g < n_groups ==> (#[trigger] columns@[n_gb + u]@[g])@
                        == Val::Int(
                        spec_count_fold(
                            aggrs[u].arg(),
                            gbys,
                            self.consumed@,
                            ks[g],
                            strict,
                        )->Ok_0 as i64,
                    ),
            decreases n_aggr - j,
        {
            let mut col: Vec<Datum> = Vec::new();
            let mut g: usize = 0;
            while g < n_groups
                invariant
                    self.inv(),
                    !self.failed,
                    gbys == self.group_bys@,
                    aggrs == self.aggregates@,
                    strict == self.config.strict,
                    ks == self.groups(),
                    n_aggr == aggrs.len(),
                    n_groups == ks.len(),
                    j < n_aggr,
                    g <= n_groups,
                    col@.len() == g,
                    forall|g2: int|
                        0 <= g2 < g ==> (#[trigger] col@[g2])@ == Val::Int(
                            spec_count_fold(
                                aggrs[j as int].arg(),
                                gbys,
                                self.consumed@,
                                ks[g2],
                                strict,
                            )->Ok_0 as i64,
                        ),
                decreases n_groups - g,
            {
                let total = self.counts.len();
                proof {
                    lemma_flat_index(g as int, j as int, ks.len() as int, n_aggr as int);
                    assert(self.counts@.len() == ks.len() * (n_aggr as int));
                    assert((g as int) * (n_aggr as int) + (j as int) < total as int);
                }
                let cnt = self.counts[g * n_aggr + j];
                col.push(Datum::Int(cnt as i64));
                g += 1;
            }
            columns.push(col);
            j += 1;
        }
        let b = Batch { n_rows: n_groups, columns };
        proof {
            assert(out.len() == n_groups);
            assert forall|g: int| 0 <= g < n_groups implies b.spec_row(g) =~= #[trigger] out[g] by {
                assert(out[g] == ks[g] + Seq::new(
                    aggrs.len(),
                    |j2: int|
                        Val::Int(
                            spec_count_fold(
                                aggrs[j2].arg(),
                                gbys,
                                self.consumed@,
                                ks[g],
                                strict,
                            )->Ok_0 as i64,
                        ),
                ));
                assert(b.spec_row(g).len() == n_gb + n_aggr);
                assert(ks[g].len() == n_gb as int);
                assert(out[g].len() == n_gb + n_aggr);
                assert forall|i: int| 0 <= i < n_gb + n_aggr implies b.spec_row(g)[i]
                    == out[g][i] by {
                    assert(b.spec_row(g)[i] == b.columns@[i]@[g]@);
                    if i < n_gb {
                        assert(out[g][i] == ks[g][i]);
                        assert(b.columns@[i]@[g]@ == ks[g][i]);
                    } else {
                        assert(out[g][i] == Val::Int(
                            spec_count_fold(
                                aggrs[i - n_gb].arg(),
                                gbys,
                                self.consumed@,
                                ks[g],
                                strict,
                            )->Ok_0 as i64,
                        ));
                        assert(b.columns@[n_gb + (i - n_gb)]@[g]@ == Val::Int(
                            spec_count_fold(
                                aggrs[i - n_gb].arg(),
                                gbys,
                                self.consumed@,
                                ks[g],
                                strict,
                            )->Ok_0 as i64,
                        ));
                    }
                }
            }
            assert(b.spec_rows() =~= out);
        }
        b
    }
}


/// The position of a key's first occurrence in the stream.
pub open spec fn first_occurrence_at(keys: Seq<Seq<Val>>, k: Seq<Val>, i: int) -> bool {
    &&& 0 <= i < keys.len()
    &&& keys[i] == k
    &&& forall|h: int| 0 <= h < i ==> keys[h] != k
}

/// Law: group emission order equals first-occurrence order of distinct
/// keys in the input stream, not sorted order: the emitted key sequence
/// has no duplicates, holds exactly the stream's keys, and a group
/// emitted earlier first occurred earlier.
pub proof fn lemma_emission_order(keys: Seq<Seq<Val>>)
    ensures
        forall|i: int, j: int|
            0 <= i < j < spec_distinct(keys).len() ==> spec_distinct(keys)[i] != spec_distinct(
                keys,
            )[j],
        forall|k: Seq<Val>| spec_distinct(keys).contains(k) <==> keys.contains(k),
        forall|i: int, j: int, fi: int, fj: int|
            0 <= i < j < spec_distinct(keys).len() && first_occurrence_at(
                keys,
                spec_distinct(keys)[i],
                fi,
            ) && first_occurrence_at(keys, spec_distinct(keys)[j], fj) ==> fi < fj,
    decreases keys.len(),
{
    lemma_distinct_no_dup(keys);
    lemma_distinct_membership(keys);
    if keys.len() > 0 {
        lemma_emission_order(keys.drop_last());
        let prev = spec_distinct(keys.drop_last());
        let d = spec_distinct(keys);
        assert forall|i: int, j: int, fi: int, fj: int|
            0 <= i < j < d.len() && first_occurrence_at(keys, d[i], fi) && first_occurrence_at(
                keys,
                d[j],
                fj,
            ) implies fi < fj by {
            lemma_distinct_membership(keys.drop_last());
            if j < prev.len() {
                // both groups already existed: their first occurrences lie in the prefix
                assert(prev.contains(d[i]));
                assert(prev.contains(d[j]));
                assert(keys.drop_last().contains(d[i]));
                assert(keys.drop_last().contains(d[j]));
                assert(fi < keys.len() - 1) by {
                    if fi == keys.len() - 1 {
                        let w = choose|w: int|
                            0 <= w < keys.drop_last().len() && keys.drop_last()[w] == d[i];
                        assert(keys[w] == d[i]);
                    }
                }
                assert(fj < keys.len() - 1) by {
                    if fj == keys.len() - 1 {
                        let w = choose|w: int|
                            0 <= w < keys.drop_last().len() && keys.drop_last()[w] == d[j];
                        assert(keys[w] == d[j]);
                    }
                }
                assert(first_occurrence_at(keys.drop_last(), d[i], fi)) by {
                    assert(keys.drop_last()[fi] == keys[fi]);
                }
                assert(first_occurrence_at(keys.drop_last(), d[j], fj)) by {
                    assert(keys.drop_last()[fj] == keys[fj]);
                }
                assert(prev[i] == d[i] && prev[j] == d[j]);
            } else {
                // the later group is the newly inserted key
                assert(d == prev.push(keys.last()));
                assert(j == d.len() - 1);
                assert(d[j] == keys.last());
                assert(!prev.contains(keys.last()));
                assert(!keys.drop_last().contains(keys.last()));
                assert(fj == keys.len() - 1) by {
                    if fj < keys.len() - 1 {
                        assert(keys.drop_last()[fj] == keys[fj]);
                    }
                }
                assert(prev.contains(d[i]));
                assert(keys.drop_last().contains(d[i]));
                assert(fi < keys.len() - 1) by {
                    if fi == keys.len() - 1 {
                        assert(d[i] == keys.last());
                        let w = choose|w: int|
                            0 <= w < keys.drop_last().len() && keys.drop_last()[w] == d[i];
                        assert(keys[w] == d[i]);
                    }
                }
            }
        }
    }
}

/// Law: the final aggregation output depends only on the logical row
/// sequence, never on how it was cut into batches: two partitionings of
/// the same rows aggregate identically. Together with `ingest`'s
/// contract — the state is a function of the concatenation of all rows
/// consumed — this makes the output invariant under batch boundaries.
pub proof fn lemma_batch_boundaries_irrelevant(
    gbys: Seq<Expr>,
    aggrs: Seq<AggrExpr>,
    parts_a: Seq<Seq<Seq<Val>>>,
    parts_b: Seq<Seq<Seq<Val>>>,
    strict: bool,
)
    requires
        parts_a.flatten() == parts_b.flatten(),
    ensures
        spec_output_rows(gbys, aggrs, parts_a.flatten(), strict) == spec_output_rows(
            gbys,
            aggrs,
            parts_b.flatten(),
            strict,
        ),
{
}

/// Law: where the fast and the slow strategy are both applicable, their
/// outputs are identical in group order, group-by values and aggregate
/// results: both `finalize` contracts emit `spec_output_rows`, which does
/// not mention the strategy.
pub proof fn lemma_fast_slow_agree(
    a: &BatchHashAggregationExecutor,
    b: &BatchHashAggregationExecutor,
)
    requires
        a.group_bys@ == b.group_bys@,
        a.aggregates@ == b.aggregates@,
        a.config.strict == b.config.strict,
        a.consumed@ == b.consumed@,
        a.strategy == Strategy::Fast,
        b.strategy == Strategy::Slow,
    ensures
        spec_output_rows(a.group_bys@, a.aggregates@, a.consumed@, a.config.strict)
            == spec_output_rows(b.group_bys@, b.aggregates@, b.consumed@, b.config.strict),
{
}

/// Law: zero consumed rows with no group-by expressions yield exactly one
/// group with zero counts; zero rows with group-by expressions yield
/// zero groups.
pub proof fn lemma_zero_row_edges(gbys: Seq<Expr>, aggrs: Seq<AggrExpr>, strict: bool)
    ensures
        gbys.len() == 0 ==> spec_output_rows(gbys, aggrs, Seq::empty(), strict) == seq![
            Seq::new(aggrs.len(), |j: int| Val::Int(0)),
        ],
        gbys.len() > 0 ==> spec_output_rows(gbys, aggrs, Seq::empty(), strict).len() == 0,
{
    assert(spec_key_stream(gbys, Seq::empty(), strict).len() == 0);
    assert(spec_distinct(spec_key_stream(gbys, Seq::empty(), strict)).len() == 0);
}


impl BatchHashAggregationExecutor {
    /// The fixed schema of the engine's result batch, where every
    /// group-by expression is typed: the group-by types followed by one
    /// integer column per aggregate.
    pub open spec fn spec_output_schema(&self) -> Option<Seq<FieldType>> {
        if forall|c: int|
            0 <= c < self.group_bys@.len() ==> spec_expr_type(
                #[trigger] self.group_bys@[c],
                self.schema@,
            ) is Some {
            Some(
                Seq::new(
                    self.group_bys@.len(),
                    |c: int| spec_expr_type(self.group_bys@[c], self.schema@)->0,
                ) + Seq::new(self.aggregates@.len(), |j: int| FieldType::Int),
            )
        } else {
            None
        }
    }

    /// The output schema, queryable before the first pull; none where a
    /// group-by expression is ill-typed.
    pub fn output_schema(&self) -> (r: Option<Vec<FieldType>>)
        ensures
            (match r {
                Some(v) => self.spec_output_schema() == Some(v@),
                None => self.spec_output_schema() is None,
            }),
    {
        let mut out: Vec<FieldType> = Vec::new();
        let mut c: usize = 0;
        while c < self.group_bys.len()
            invariant
                c <= self.group_bys@.len(),
                out@.len() == c,
                forall|u: int|
                    0 <= u < c ==> spec_expr_type(#[trigger] self.group_bys@[u], self.schema@)
                        == Some(out@[u]),
            decreases self.group_bys@.len() - c,
        {
            match expr_type(&self.group_bys[c], &self.schema) {
                Some(t) => {
                    out.push(t);
                },
                None => {
                    return None;
                },
            }
            c += 1;
        }
        let mut j: usize = 0;
        while j < self.aggregates.len()
            invariant
                j <= self.aggregates@.len(),
                out@.len() == self.group_bys@.len() + j,
                forall|u: int|
                    0 <= u < self.group_bys@.len() ==> spec_expr_type(
                        #[trigger] self.group_bys@[u],
                        self.schema@,
                    ) == Some(out@[u]),
                forall|u: int|
                    self.group_bys@.len() <= u < out@.len() ==> #[trigger] out@[u]
                        == FieldType::Int,
            decreases self.aggregates@.len() - j,
        {
            out.push(FieldType::Int);
            j += 1;
        }
        proof {
            assert(self.spec_output_schema() is Some);
            assert(self.spec_output_schema()->0 =~= out@);
        }
        Some(out)
    }
}

/// Every run-time abort of the input shares the one classification `kk`.
pub open spec fn aborts_all_of_kind(
    gbys: Seq<Expr>,
    aggrs: Seq<AggrExpr>,
    rows: Seq<Seq<Val>>,
    strict: bool,
    kk: EvalAbort,
) -> bool {
    &&& forall|r: int, j: int|
        0 <= r < rows.len() && 0 <= j < gbys.len() ==> ((#[trigger] spec_eval(
            gbys[j],
            rows[r],
            strict,
        )) matches Err(k) ==> k == kk)
    &&& forall|r: int, j: int|
        0 <= r < rows.len() && 0 <= j < aggrs.len() ==> ((#[trigger] spec_eval(
            aggrs[j].arg(),
            rows[r],
            strict,
        )) matches Err(k) ==> k == kk)
    &&& forall|g: int, j: int|
        0 <= g < spec_distinct(spec_key_stream(gbys, rows, strict)).len() && 0 <= j < aggrs.len()
            ==> ((#[trigger] spec_count_fold(
            aggrs[j].arg(),
            gbys,
            rows,
            spec_distinct(spec_key_stream(gbys, rows, strict))[g],
            strict,
        )) matches Err(k) ==> k == kk)
}

/// A surfaced error of a run over an input whose aborts all share one
/// classification matches that classification.
pub proof fn lemma_abort_of_kind(
    gbys: Seq<Expr>,
    aggrs: Seq<AggrExpr>,
    rows: Seq<Seq<Val>>,
    strict: bool,
    e: Error,
    kk: EvalAbort,
)
    requires
        input_abort(gbys, aggrs, rows, strict, e),
        aborts_all_of_kind(gbys, aggrs, rows, strict, kk),
    ensures
        abort_matches(e, kk),
{
    if exists|r: int, j: int|
        0 <= r < rows.len() && 0 <= j < gbys.len() && ((#[trigger] spec_eval(
            gbys[j],
            rows[r],
            strict,
        )) matches Err(k) && abort_matches(e, k)) {
        let (r, j) = choose|r: int, j: int|
            0 <= r < rows.len() && 0 <= j < gbys.len() && ((#[trigger] spec_eval(
                gbys[j],
                rows[r],
                strict,
            )) matches Err(k) && abort_matches(e, k));
        assert(spec_eval(gbys[j], rows[r], strict) matches Err(k) ==> k == kk);
    } else if exists|r: int, j: int|
        0 <= r < rows.len() && 0 <= j < aggrs.len() && ((#[trigger] spec_eval(
            aggrs[j].arg(),
            rows[r],
            strict,
        )) matches Err(k) && abort_matches(e, k)) {
        let (r, j) = choose|r: int, j: int|
            0 <= r < rows.len() && 0 <= j < aggrs.len() && ((#[trigger] spec_eval(
                aggrs[j].arg(),
                rows[r],
                strict,
            )) matches Err(k) && abort_matches(e, k));
        assert(spec_eval(aggrs[j].arg(), rows[r], strict) matches Err(k) ==> k == kk);
    } else {
        let (g, j) = choose|g: int, j: int|
            0 <= g < spec_distinct(spec_key_stream(gbys, rows, strict)).len() && 0 <= j
                < aggrs.len() && ((#[trigger] spec_count_fold(
                aggrs[j].arg(),
                gbys,
                rows,
                spec_distinct(spec_key_stream(gbys, rows, strict))[g],
                strict,
            )) matches Err(k) && abort_matches(e, k));
        assert(spec_count_fold(
            aggrs[j].arg(),
            gbys,
            rows,
            spec_distinct(spec_key_stream(gbys, rows, strict))[g],
            strict,
        ) matches Err(k) ==> k == kk);
    }
}

/// Law (failure side of strategy- and boundary-invariance): two runs over
/// the same logical input that both abort surface errors of equal code,
/// on inputs whose aborts all share one classification. (Where an input
/// holds aborts of different classifications, nothing pins which of them
/// a run surfaces first, so their codes may differ.)
pub proof fn lemma_failed_runs_agree(
    gbys: Seq<Expr>,
    aggrs: Seq<AggrExpr>,
    rows: Seq<Seq<Val>>,
    strict: bool,
    e1: Error,
    e2: Error,
    kk: EvalAbort,
)
    requires
        input_abort(gbys, aggrs, rows, strict, e1),
        input_abort(gbys, aggrs, rows, strict, e2),
        aborts_all_of_kind(gbys, aggrs, rows, strict, kk),
    ensures
        e1.spec_code() == e2.spec_code(),
{
    lemma_abort_of_kind(gbys, aggrs, rows, strict, e1, kk);
    lemma_abort_of_kind(gbys, aggrs, rows, strict, e2, kk);
}

} // verus!
