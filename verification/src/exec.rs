//! The pull-based executor interface and the tree nodes it composes.

use vstd::prelude::*;
use crate::aggr::{
    err_classified, input_abort, lemma_input_abort_extend, lemma_input_ok_prefix, spec_input_ok,
    spec_output_rows, BatchHashAggregationExecutor,
};
use crate::codec::is_decode_error;
use crate::data::{Batch, Val};
use crate::error::Error;
use crate::scan::{spec_decode_row, spec_decoded_range, take_count, ScanExecutor};

verus! {

/// What one pull yields: a batch (possibly empty) and the drained flag.
/// Once drained is signaled, every later pull is drained with no rows.
#[derive(Debug)]
pub struct BatchResult {
    pub batch: Batch,
    pub drained: bool,
}

/// A node of the executor tree, resolved once at construction: a leaf
/// scan, or hash aggregation pulling from the scan it owns.
pub enum Executor {
    TableScan(ScanExecutor),
    HashAggr(AggrNode),
}

/// Hash aggregation as a tree node: the engine, its child, and whether
/// the single result batch has already been emitted.
pub struct AggrNode {
    pub aggr: BatchHashAggregationExecutor,
    pub child: ScanExecutor,
    pub done: bool,
}

/// One scan pull is owed success exactly when every pair of its window
/// decodes to a row of the schema.
pub open spec fn scan_pull_ok(s: ScanExecutor, max_rows: int) -> bool {
    forall|i: int|
        s.pos <= i < s.pairs@.len() && i - s.pos < max_rows ==> spec_decode_row(
            (#[trigger] s.pairs@[i]).value@,
            s.schema@,
        ) is Some
}

/// Every pair the node's child still has to hand over decodes.
pub open spec fn node_remaining_decodes(n: AggrNode) -> bool {
    forall|i: int|
        n.child.pos <= i < n.child.pairs@.len() ==> spec_decode_row(
            (#[trigger] n.child.pairs@[i]).value@,
            n.aggr.schema@,
        ) is Some
}

/// Everything the node's engine will have consumed once its child is
/// drained: what it already holds plus the child's remaining rows.
pub open spec fn node_total_rows(n: AggrNode) -> Seq<Seq<Val>> {
    n.aggr.consumed@ + spec_decoded_range(
        n.child.pairs@,
        n.aggr.schema@,
        n.child.pos as int,
        n.child.pairs@.len() as int,
    )
}

/// An aggregation pull is owed success exactly when its single batch was
/// already emitted, or the remaining rows decode and the engine is owed
/// success on the total input.
pub open spec fn node_pull_ok(n: AggrNode) -> bool {
    n.done || (!n.aggr.failed && node_remaining_decodes(n) && spec_input_ok(
        n.aggr.group_bys@,
        n.aggr.aggregates@,
        node_total_rows(n),
        n.aggr.config.strict,
    ))
}

impl AggrNode {
    /// Pulls the child to exhaustion, feeding every batch to the engine.
    /// Succeeds exactly when every remaining pair decodes and the engine
    /// is owed success on the node's total input; a failure surfaces the
    /// child's decode error or the engine's abort, unchanged.
    fn drain_child(&mut self) -> (r: Result<(), Error>)
        requires
            old(self).child.wf(),
            old(self).aggr.inv(),
            !old(self).aggr.failed,
            old(self).aggr.schema@ == old(self).child.schema@,
        ensures
            final(self).child.wf(),
            final(self).aggr.inv(),
            final(self).done == old(self).done,
            final(self).aggr.group_bys == old(self).aggr.group_bys,
            final(self).aggr.aggregates == old(self).aggr.aggregates,
            final(self).aggr.config == old(self).aggr.config,
            final(self).aggr.schema == old(self).aggr.schema,
            final(self).child.pairs == old(self).child.pairs,
            final(self).child.schema == old(self).child.schema,
            (r is Ok ==> !final(self).aggr.failed),
            (r is Ok ==> final(self).child.pos == final(self).child.pairs@.len()),
            (r is Ok ==> node_remaining_decodes(*old(self))),
            (r is Ok ==> final(self).aggr.consumed@ == node_total_rows(*old(self))),
            ((node_remaining_decodes(*old(self)) && spec_input_ok(
                old(self).aggr.group_bys@,
                old(self).aggr.aggregates@,
                node_total_rows(*old(self)),
                old(self).aggr.config.strict,
            )) ==> r is Ok),
            (r matches Err(e) ==> (is_decode_error(e) || (err_classified(e) && input_abort(
                old(self).aggr.group_bys@,
                old(self).aggr.aggregates@,
                node_total_rows(*old(self)),
                old(self).aggr.config.strict,
                e,
            )))),
    {
        let ghost gbys = self.aggr.group_bys@;
        let ghost aggrs = self.aggr.aggregates@;
        let ghost strict = self.aggr.config.strict;
        let ghost schema = self.aggr.schema@;
        let ghost pairs = self.child.pairs@;
        let ghost pos0 = self.child.pos as int;
        let ghost consumed0 = self.aggr.consumed@;
        let ghost total = node_total_rows(*self);
        proof {
            assert(spec_decoded_range(pairs, schema, pos0, pos0) =~= Seq::<Seq<Val>>::empty());
            assert(consumed0 + spec_decoded_range(pairs, schema, pos0, pos0) =~= consumed0);
        }
        let mut finished = false;
        while !finished
            invariant
                self.child.wf(),
                self.aggr.inv(),
                !self.aggr.failed,
                self.aggr.schema@ == self.child.schema@,
                self.done == old(self).done,
                self.aggr.group_bys == old(self).aggr.group_bys,
                self.aggr.aggregates == old(self).aggr.aggregates,
                self.aggr.config == old(self).aggr.config,
                self.aggr.schema == old(self).aggr.schema,
                self.child.pairs == old(self).child.pairs,
                self.child.schema == old(self).child.schema,
                gbys == self.aggr.group_bys@,
                aggrs == self.aggr.aggregates@,
                strict == self.aggr.config.strict,
                schema == self.aggr.schema@,
                pairs == self.child.pairs@,
                pos0 == old(self).child.pos as int,
                consumed0 == old(self).aggr.consumed@,
                pos0 <= self.child.pos as int,
                (total == node_total_rows(*old(self))),
                (total == consumed0 + spec_decoded_range(
                    pairs,
                    schema,
                    pos0,
                    pairs.len() as int,
                )),
                (self.aggr.consumed@ == consumed0 + spec_decoded_range(
                    pairs,
                    schema,
                    pos0,
                    self.child.pos as int,
                )),
                forall|i: int|
                    pos0 <= i < self.child.pos as int ==> spec_decode_row(
                        (#[trigger] pairs[i]).value@,
                        schema,
                    ) is Some,
                (finished ==> self.child.pos == self.child.pairs@.len()),
            decreases self.child.remaining() + (if finished {
                0int
            } else {
                1int
            }),
        {
            let ghost fuel0 = self.child.remaining();
            let ghost posb = self.child.pos as int;
            let ghost consumedb = self.aggr.consumed@;
            let br = match self.child.next_batch(1024) {
                Ok(br) => br,
                Err(e) => {
                    proof {
                        let iw = choose|i: int|
                            posb <= i < pairs.len() && i - posb < 1024 && !(spec_decode_row(
                                (#[trigger] pairs[i]).value@,
                                schema,
                            ) is Some);
                        assert(!(spec_decode_row(
                            (old(self).child.pairs@[iw]).value@,
                            old(self).aggr.schema@,
                        ) is Some));
                        assert(!node_remaining_decodes(*old(self)));
                    }
                    return Err(e);
                },
            };
            let ghost k = br.batch.n_rows as int;
            proof {
                assert(br.batch.spec_rows() =~= spec_decoded_range(
                    pairs,
                    schema,
                    posb,
                    posb + k,
                )) by {
                    assert forall|i: int| 0 <= i < k implies spec_decoded_range(
                        pairs,
                        schema,
                        posb,
                        posb + k,
                    )[i] == #[trigger] br.batch.spec_rows()[i] by {
                        assert(spec_decode_row(pairs[posb + i].value@, schema) == Some(
                            br.batch.spec_rows()[i],
                        ));
                    }
                }
            }
            match self.aggr.ingest(&br.batch) {
                Ok(_) => {},
                Err(e) => {
                    proof {
                        let part = consumedb + br.batch.spec_rows();
                        assert(part =~= consumed0 + spec_decoded_range(
                            pairs,
                            schema,
                            pos0,
                            posb + k,
                        ));
                        let rest = spec_decoded_range(pairs, schema, posb + k, pairs.len() as int);
                        assert(part + rest =~= total);
                        lemma_input_abort_extend(gbys, aggrs, part, rest, strict, e);
                        assert(input_abort(gbys, aggrs, total, strict, e));
                        if node_remaining_decodes(*old(self)) && spec_input_ok(
                            gbys,
                            aggrs,
                            total,
                            strict,
                        ) {
                            lemma_input_ok_prefix(gbys, aggrs, part, rest, strict);
                            assert(false);
                        }
                    }
                    return Err(e);
                },
            }
            if br.drained {
                finished = true;
            }
            proof {
                if !finished {
                    assert(self.child.remaining() < fuel0);
                }
                assert(self.aggr.consumed@ =~= consumed0 + spec_decoded_range(
                    pairs,
                    schema,
                    pos0,
                    self.child.pos as int,
                ));
            }
        }
        proof {
            assert(self.aggr.consumed@ == total);
            assert(node_remaining_decodes(*old(self))) by {
                assert forall|i: int|
                    old(self).child.pos <= i < old(self).child.pairs@.len() implies spec_decode_row(
                    (#[trigger] old(self).child.pairs@[i]).value@,
                    old(self).aggr.schema@,
                ) is Some by {
                    assert(spec_decode_row((pairs[i]).value@, schema) is Some);
                }
            }
        }
        Ok(())
    }
}

impl Executor {
    /// The executor's fixed output schema, queryable before the first
    /// pull: the scan's own, or the aggregation engine's where its
    /// descriptor is fully typed.
    pub open spec fn spec_output_schema(&self) -> Option<Seq<crate::data::FieldType>> {
        match self {
            Executor::TableScan(s) => Some(s.schema@),
            Executor::HashAggr(n) => n.aggr.spec_output_schema(),
        }
    }

    pub fn output_schema(&self) -> (r: Option<Vec<crate::data::FieldType>>)
        ensures
            (match r {
                Some(v) => self.spec_output_schema() == Some(v@),
                None => self.spec_output_schema() is None,
            }),
    {
        match self {
            Executor::TableScan(s) => {
                let mut out: Vec<crate::data::FieldType> = Vec::new();
                let mut c: usize = 0;
                while c < s.schema.len()
                    invariant
                        c <= s.schema@.len(),
                        out@.len() == c,
                        forall|u: int| 0 <= u < c ==> out@[u] == s.schema@[u],
                    decreases s.schema@.len() - c,
                {
                    out.push(s.schema[c]);
                    c += 1;
                }
                proof {
                    assert(out@ =~= s.schema@);
                }
                Some(out)
            },
            Executor::HashAggr(n) => n.aggr.output_schema(),
        }
    }

    pub open spec fn wf(&self) -> bool {
        match self {
            Executor::TableScan(s) => s.wf(),
            Executor::HashAggr(n) => {
                &&& n.child.wf()
                &&& n.aggr.inv()
                &&& (!n.aggr.failed && !n.done ==> n.aggr.schema@ == n.child.schema@)
            },
        }
    }

    /// One pull. A scan yields at most `max_rows` decoded rows and sets
    /// drained on exhaustion; its wrapper here adds nothing and takes
    /// nothing away. Aggregation drains its child and emits its whole
    /// result as one terminal batch (aggregation output is not
    /// paginated), after which every pull is drained and empty. Success
    /// is owed exactly where the pull's work cannot fail, and a surfaced
    /// failure keeps its cause: a decode error or the engine's own
    /// abort, never an unknown signature at run time.
    pub fn next_batch(&mut self, max_rows: usize) -> (r: Result<BatchResult, Error>)
        requires
            max_rows > 0,
            old(self).wf(),
        ensures
            final(self).wf(),
            (r matches Ok(br) ==> br.batch.col_lens_ok()),
            (r is Ok <==> (((*old(self)) is TableScan && scan_pull_ok(
                (*old(self))->TableScan_0,
                max_rows as int,
            )) || ((*old(self)) is HashAggr && node_pull_ok((*old(self))->HashAggr_0)))),
            ((*old(self)) is TableScan ==> (*final(self)) is TableScan),
            ((*old(self)) is TableScan ==> (r matches Ok(br) ==> ({
                let s0 = (*old(self))->TableScan_0;
                let s1 = (*final(self))->TableScan_0;
                &&& br.batch.n_rows == take_count(s0.remaining(), max_rows as int)
                &&& br.batch.n_rows <= max_rows
                &&& br.batch.wf(s0.schema@)
                &&& s1.schema == s0.schema
                &&& s1.pairs == s0.pairs
                &&& s1.pos == s0.pos + br.batch.n_rows
                &&& (br.drained <==> s1.pos == s1.pairs@.len())
                &&& forall|i: int|
                    0 <= i < br.batch.n_rows ==> spec_decode_row(
                        s0.pairs@[s0.pos + i].value@,
                        s0.schema@,
                    ) == Some(#[trigger] br.batch.spec_rows()[i])
            }))),
            ((*old(self)) is TableScan ==> (r is Err ==> *final(self) == *old(self))),
            ((*old(self)) is HashAggr ==> (*final(self)) is HashAggr),
            ((*old(self)) is HashAggr ==> (r is Ok ==> r->Ok_0.drained)),
            ((*old(self)) is HashAggr ==> (r is Ok ==> (*final(self))->HashAggr_0.done)),
            ((*old(self)) is HashAggr ==> (((*old(self))->HashAggr_0.done && r is Ok)
                ==> r->Ok_0.batch.n_rows == 0)),
            ((*old(self)) is HashAggr ==> ((!(*old(self))->HashAggr_0.done && r is Ok) ==> ({
                let n0 = (*old(self))->HashAggr_0;
                &&& r->Ok_0.batch.spec_rows() == spec_output_rows(
                    n0.aggr.group_bys@,
                    n0.aggr.aggregates@,
                    node_total_rows(n0),
                    n0.aggr.config.strict,
                )
                &&& r->Ok_0.batch.columns@.len() == n0.aggr.group_bys@.len()
                    + n0.aggr.aggregates@.len()
            }))),
            ((*old(self)) is TableScan ==> (r matches Err(e) ==> is_decode_error(e))),
            ((*old(self)) is HashAggr ==> (r matches Err(e) ==> ({
                let n0 = (*old(self))->HashAggr_0;
                ||| is_decode_error(e)
                ||| (err_classified(e) && input_abort(
                    n0.aggr.group_bys@,
                    n0.aggr.aggregates@,
                    node_total_rows(n0),
                    n0.aggr.config.strict,
                    e,
                ))
                ||| (n0.aggr.failed && e matches Error::Other(_))
            }))),
            (r matches Err(e) ==> !(e matches Error::UnknownSignature(_))),
    {
        match self {
            Executor::TableScan(s) => {
                let r = s.next_batch(max_rows);
                match r {
                    Ok(br) => {
                        proof {
                            let ghost schema = s.schema@;
                            assert(br.batch.wf(schema));
                        }
                        Ok(br)
                    },
                    Err(e) => Err(e),
                }
            },
            Executor::HashAggr(n) => {
                if n.done {
                    let b = Batch::empty(0);
                    return Ok(BatchResult { batch: b, drained: true });
                }
                if n.aggr.failed {
                    return Err(Error::Other("aggregation already failed".to_owned()));
                }
                match n.drain_child() {
                    Ok(_) => {},
                    Err(e) => {
                        return Err(e);
                    },
                }
                let b = n.aggr.finalize();
                proof {
                    assert(b.spec_rows() == spec_output_rows(
                        n.aggr.group_bys@,
                        n.aggr.aggregates@,
                        n.aggr.consumed@,
                        n.aggr.config.strict,
                    ));
                    assert(spec_input_ok(
                        n.aggr.group_bys@,
                        n.aggr.aggregates@,
                        n.aggr.consumed@,
                        n.aggr.config.strict,
                    ));
                }
                n.done = true;
                Ok(BatchResult { batch: b, drained: true })
            },
        }
    }
}

} // verus!
