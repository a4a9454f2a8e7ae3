//! The leaf scan executor: raw key-value pairs for a range list decoded
//! into typed columns, a bounded number of rows per pull.

use vstd::prelude::*;
use crate::codec::{decode_key, is_decode_error, spec_decode_key};
use crate::data::{datums_view, row_matches, val_matches, Batch, Datum, FieldType, Val};
use crate::error::Error;

verus! {

/// A byte-key interval bounding a scan: inclusive lower bound, exclusive
/// upper bound.
pub struct KeyRange {
    pub lower: Vec<u8>,
    pub upper: Vec<u8>,
}

/// Strict lexicographic order on byte keys.
pub open spec fn spec_bytes_lt(a: Seq<u8>, b: Seq<u8>) -> bool
    decreases a.len(),
{
    if b.len() == 0 {
        false
    } else if a.len() == 0 {
        true
    } else if a[0] < b[0] {
        true
    } else if a[0] > b[0] {
        false
    } else {
        spec_bytes_lt(a.drop_first(), b.drop_first())
    }
}

pub open spec fn key_in_range(key: Seq<u8>, r: KeyRange) -> bool {
    !spec_bytes_lt(key, r.lower@) && spec_bytes_lt(key, r.upper@)
}

/// Ranges supplied in scan order: each one ends no later than the next
/// begins, so they cannot overlap.
pub open spec fn ranges_wf(rs: Seq<KeyRange>) -> bool {
    forall|i: int|
        0 <= i && i + 1 < rs.len() ==> !spec_bytes_lt((#[trigger] rs[i + 1]).lower@, rs[i].upper@)
}

/// One raw key-value pair handed over by the store's snapshot iterator.
pub struct KvPair {
    pub key: Vec<u8>,
    pub value: Vec<u8>,
}

/// One decoded row: the stored value split into one typed cell per field.
pub open spec fn spec_decode_row(value: Seq<u8>, schema: Seq<FieldType>) -> Option<Seq<Val>> {
    match spec_decode_key(value) {
        Option::Some(vs) => if row_matches(vs, schema) {
            Some(vs)
        } else {
            None
        },
        Option::None => None,
    }
}

/// The first `n` decoded rows of a pair list (meaningful where each of
/// them decodes).
pub open spec fn spec_decoded_rows(pairs: Seq<KvPair>, schema: Seq<FieldType>, n: int) -> Seq<
    Seq<Val>,
> {
    Seq::new(n as nat, |i: int| spec_decode_row(pairs[i].value@, schema)->0)
}

/// The decoded rows of the pairs from position `from` up to `to`.
pub open spec fn spec_decoded_range(
    pairs: Seq<KvPair>,
    schema: Seq<FieldType>,
    from: int,
    to: int,
) -> Seq<Seq<Val>> {
    Seq::new(
        (if to >= from {
            to - from
        } else {
            0
        }) as nat,
        |i: int| spec_decode_row(pairs[from + i].value@, schema)->0,
    )
}

/// How many rows one pull yields: the requested cap or what is left.
pub open spec fn take_count(remaining: int, max_rows: int) -> int {
    if remaining >= max_rows {
        max_rows
    } else {
        remaining
    }
}

/// The leaf executor: decodes the store's key-value pairs for an ordered,
/// non-overlapping range list into typed columns, a bounded number of
/// rows per pull.
pub struct ScanExecutor {
    pub schema: Vec<FieldType>,
    pub ranges: Vec<KeyRange>,
    pub pairs: Vec<KvPair>,
    pub pos: usize,
}

impl ScanExecutor {
    pub open spec fn wf(&self) -> bool {
        self.pos <= self.pairs@.len()
    }

    pub open spec fn remaining(&self) -> int {
        self.pairs@.len() - self.pos
    }

    /// A scan over what the snapshot iterator yielded for the given
    /// ranges. The ranges must come in scan order without overlap, and
    /// every pair must lie in one of them.
    pub fn new(schema: Vec<FieldType>, ranges: Vec<KeyRange>, pairs: Vec<KvPair>) -> (r:
        ScanExecutor)
        requires
            ranges_wf(ranges@),
            forall|i: int|
                0 <= i < pairs@.len() ==> exists|j: int|
                    0 <= j < ranges@.len() && key_in_range((#[trigger] pairs@[i]).key@, ranges@[j]),
        ensures
            r.wf(),
            r.schema == schema,
            r.pairs == pairs,
            r.ranges == ranges,
            r.pos == 0,
    {
        ScanExecutor { schema, ranges, pairs, pos: 0 }
    }

    /// Pulls up to `max_rows` decoded rows, in store order. Succeeds
    /// exactly when every pair of the window decodes to a row of the
    /// schema; a malformed pair surfaces as a data-decode error. Once the
    /// pairs are exhausted the result is drained, with no further rows.
    pub fn next_batch(&mut self, max_rows: usize) -> (r: Result<crate::exec::BatchResult, Error>)
        requires
            max_rows > 0,
            old(self).wf(),
        ensures
            final(self).wf(),
            final(self).schema == old(self).schema,
            final(self).pairs == old(self).pairs,
            final(self).ranges == old(self).ranges,
            (r is Ok <==> forall|i: int|
                old(self).pos <= i < old(self).pairs@.len() && i - old(self).pos < max_rows
                    ==> spec_decode_row(
                    (#[trigger] old(self).pairs@[i]).value@,
                    old(self).schema@,
                ) is Some),
            (r matches Ok(br) ==> {
                &&& br.batch.n_rows == take_count(old(self).remaining(), max_rows as int)
                &&& br.batch.wf(old(self).schema@)
                &&& final(self).pos == old(self).pos + br.batch.n_rows
                &&& (br.drained <==> final(self).pos == final(self).pairs@.len())
                &&& br.batch.n_rows <= max_rows
                &&& forall|i: int|
                    0 <= i < br.batch.n_rows ==> spec_decode_row(
                        old(self).pairs@[old(self).pos + i].value@,
                        old(self).schema@,
                    ) == Some(#[trigger] br.batch.spec_rows()[i])
            }),
            (r matches Err(e) ==> is_decode_error(e) && *final(self) == *old(self)),
    {
        let len = self.pairs.len();
        let avail = len - self.pos;
        let k = if avail >= max_rows {
            max_rows
        } else {
            avail
        };
        let mut rows: Vec<Vec<Datum>> = Vec::new();
        let mut i: usize = 0;
        while i < k
            invariant
                (*self == *old(self)),
                old(self).wf(),
                len == self.pairs@.len(),
                avail == len - self.pos,
                k == take_count(old(self).remaining(), max_rows as int),
                k <= avail,
                i <= k,
                rows@.len() == i,
                forall|u: int|
                    0 <= u < i ==> spec_decode_row(
                        self.pairs@[self.pos + u].value@,
                        self.schema@,
                    ) == Some(datums_view((#[trigger] rows@[u])@)),
                forall|u: int| 0 <= u < i ==> (#[trigger] rows@[u])@.len() == self.schema@.len(),
            decreases k - i,
        {
            let p = &self.pairs[self.pos + i];
            let t = match decode_key(&p.value) {
                Ok(t) => t,
                Err(e) => {
                    proof {
                        assert(spec_decode_row(
                            self.pairs@[self.pos + i as int].value@,
                            self.schema@,
                        ) is None);
                        assert(spec_decode_row(
                            (old(self).pairs@[old(self).pos + i as int]).value@,
                            old(self).schema@,
                        ) is None);
                    }
                    return Err(e);
                },
            };
            if t.len() != self.schema.len() {
                proof {
                    assert(datums_view(t@).len() != self.schema@.len());
                    assert(spec_decode_row(
                        self.pairs@[self.pos + i as int].value@,
                        self.schema@,
                    ) is None);
                    assert(spec_decode_row(
                        (old(self).pairs@[old(self).pos + i as int]).value@,
                        old(self).schema@,
                    ) is None);
                }
                return Err(Error::truncated_wrong_val("BYTES", "row"));
            }
            let mut c: usize = 0;
            while c < t.len()
                invariant
                    (*self == *old(self)),
                    old(self).wf(),
                    len == self.pairs@.len(),
                    avail == len - self.pos,
                    k == take_count(old(self).remaining(), max_rows as int),
                    k <= avail,
                    i < k,
                    (spec_decode_key(self.pairs@[self.pos + i as int].value@) == Some(
                        datums_view(t@),
                    )),
                    t@.len() == self.schema@.len(),
                    c <= t@.len(),
                    forall|u: int| 0 <= u < c ==> val_matches((#[trigger] t@[u])@, self.schema@[u]),
                decreases t@.len() - c,
            {
                let ok = match (&t[c], &self.schema[c]) {
                    (Datum::Null, _) => true,
                    (Datum::Int(_), FieldType::Int) => true,
                    (Datum::Bool(_), FieldType::Bool) => true,
                    (Datum::Bytes(_), FieldType::Bytes) => true,
                    _ => false,
                };
                if !ok {
                    proof {
                        assert(datums_view(t@)[c as int] == t@[c as int]@);
                        assert(!val_matches(datums_view(t@)[c as int], self.schema@[c as int]));
                        assert(!row_matches(datums_view(t@), self.schema@));
                        assert(spec_decode_row(
                            self.pairs@[self.pos + i as int].value@,
                            self.schema@,
                        ) is None);
                        assert(spec_decode_row(
                            (old(self).pairs@[old(self).pos + i as int]).value@,
                            old(self).schema@,
                        ) is None);
                    }
                    return Err(Error::truncated_wrong_val("BYTES", "row"));
                }
                c += 1;
            }
            proof {
                assert forall|u: int| 0 <= u < t@.len() implies val_matches(
                    #[trigger] datums_view(t@)[u],
                    self.schema@[u],
                ) by {
                    assert(datums_view(t@)[u] == t@[u]@);
                }
                assert(row_matches(datums_view(t@), self.schema@));
            }
            rows.push(t);
            i += 1;
        }
        let n_cols = self.schema.len();
        let mut columns: Vec<Vec<Datum>> = Vec::new();
        let mut c: usize = 0;
        while c < n_cols
            invariant
                n_cols == self.schema@.len(),
                rows@.len() == k,
                forall|u: int| 0 <= u < k ==> (#[trigger] rows@[u])@.len() == n_cols,
                c <= n_cols,
                columns@.len() == c,
                forall|u: int| 0 <= u < c ==> (#[trigger] columns@[u])@.len() == k,
                forall|u: int, g: int|
                    0 <= u < c && 0 <= g < k ==> (#[trigger] columns@[u]@[g])@ == rows@[g]@[u]@,
            decreases n_cols - c,
        {
            let mut col: Vec<Datum> = Vec::new();
            let mut g: usize = 0;
            while g < k
                invariant
                    rows@.len() == k,
                    c < n_cols,
                    forall|u: int| 0 <= u < k ==> (#[trigger] rows@[u])@.len() == n_cols,
                    g <= k,
                    col@.len() == g,
                    forall|u: int| 0 <= u < g ==> (#[trigger] col@[u])@ == rows@[u]@[c as int]@,
                decreases k - g,
            {
                let rowg = &rows[g];
                col.push(rowg[c].duplicate());
                g += 1;
            }
            columns.push(col);
            c += 1;
        }
        let batch = Batch { n_rows: k, columns };
        let ghost self0 = *self;
        proof {
            assert forall|i2: int|
                self0.pos <= i2 < self0.pairs@.len() && i2 - self0.pos < max_rows implies spec_decode_row(
                (#[trigger] self0.pairs@[i2]).value@,
                self0.schema@,
            ) is Some by {
                let u = i2 - self0.pos;
                assert(spec_decode_row(self0.pairs@[self0.pos + u].value@, self0.schema@) == Some(
                    datums_view(rows@[u]@),
                ));
            }
        }
        self.pos = self.pos + k;
        let drained = self.pos == len;
        proof {
            assert(batch.wf(self0.schema@)) by {
                assert forall|c2: int, r2: int|
                    0 <= c2 < self0.schema@.len() && 0 <= r2 < batch.n_rows implies val_matches(
                    #[trigger] batch.columns@[c2]@[r2]@,
                    self0.schema@[c2],
                ) by {
                    assert(batch.columns@[c2]@[r2]@ == rows@[r2]@[c2]@);
                    assert(datums_view(rows@[r2]@)[c2] == rows@[r2]@[c2]@);
                    assert(row_matches(datums_view(rows@[r2]@), self0.schema@));
                }
            }
            assert forall|i2: int| 0 <= i2 < k implies spec_decode_row(
                self0.pairs@[self0.pos + i2].value@,
                self0.schema@,
            ) == Some(#[trigger] batch.spec_rows()[i2]) by {
                assert(batch.spec_rows()[i2] == batch.spec_row(i2));
                assert(batch.spec_row(i2) =~= datums_view(rows@[i2]@));
            }
        }
        Ok(crate::exec::BatchResult { batch, drained })
    }
}

} // verus!
