//! The order-preserving group-key codec: tuples of cells framed into one
//! unambiguous byte string, with decoding proved to invert encoding.

use vstd::prelude::*;
use vstd::bytes::{
    lemma_auto_spec_u64_to_from_le_bytes, spec_u64_from_le_bytes, spec_u64_to_le_bytes,
    u64_from_le_bytes, u64_to_le_bytes,
};
use vstd::slice::{slice_subrange, slice_to_vec};
use crate::data::{datums_view, Datum, Val};
use crate::error::{Error, ERR_TRUNCATE_WRONG_VALUE};

verus! {

/// A value the key codec can frame: a byte payload no longer than its
/// length prefix can say. Every value held by a real `Datum` satisfies it.
pub open spec fn val_encodable(v: Val) -> bool {
    match v {
        Val::Bytes(s) => s.len() <= u64::MAX,
        _ => true,
    }
}

pub open spec fn vals_encodable(t: Seq<Val>) -> bool {
    forall|i: int| 0 <= i < t.len() ==> val_encodable(#[trigger] t[i])
}

/// The order-preserving, self-delimiting frame of one value: a tag byte,
/// then a fixed-width integer, a one-byte truth value, or a length-prefixed
/// byte string.
pub open spec fn spec_encode_val(v: Val) -> Seq<u8> {
    match v {
        Val::Null => seq![0u8],
        Val::Int(x) => seq![1u8] + spec_u64_to_le_bytes(x as u64),
        Val::Bool(b) => seq![2u8, (if b { 1u8 } else { 0u8 })],
        Val::Bytes(s) => seq![3u8] + spec_u64_to_le_bytes(s.len() as u64) + s,
    }
}

/// A key tuple is the concatenation of its components' frames. Two tuples
/// encode equal iff all components compare equal (`lemma_encode_key_injective`).
pub open spec fn spec_encode_key(t: Seq<Val>) -> Seq<u8>
    decreases t.len(),
{
    if t.len() == 0 {
        Seq::empty()
    } else {
        spec_encode_val(t[0]) + spec_encode_key(t.drop_first())
    }
}

/// Reads one frame off the front: the value and how many bytes it took.
pub open spec fn spec_decode_val(s: Seq<u8>) -> Option<(Val, int)> {
    if s.len() < 1 {
        None
    } else if s[0] == 0 {
        Some((Val::Null, 1int))
    } else if s[0] == 1 {
        if s.len() >= 9 {
            Some((Val::Int(spec_u64_from_le_bytes(s.subrange(1, 9)) as i64), 9int))
        } else {
            None
        }
    } else if s[0] == 2 {
        if s.len() >= 2 && (s[1] == 0 || s[1] == 1) {
            Some((Val::Bool(s[1] == 1), 2int))
        } else {
            None
        }
    } else if s[0] == 3 {
        if s.len() >= 9 {
            let n = spec_u64_from_le_bytes(s.subrange(1, 9)) as int;
            if s.len() >= 9 + n {
                Some((Val::Bytes(s.subrange(9, 9 + n)), 9 + n))
            } else {
                None
            }
        } else {
            None
        }
    } else {
        None
    }
}

/// Splits an encoded key back into its components, in declared order.
pub open spec fn spec_decode_key(s: Seq<u8>) -> Option<Seq<Val>>
    decreases s.len(),
{
    if s.len() == 0 {
        Some(Seq::empty())
    } else {
        match spec_decode_val(s) {
            Option::None => None,
            Option::Some((v, n)) => if 1 <= n <= s.len() {
                match spec_decode_key(s.subrange(n, s.len() as int)) {
                    Option::None => None,
                    Option::Some(rest) => Some(seq![v] + rest),
                }
            } else {
                None
            },
        }
    }
}

/// One frame is self-delimiting: whatever follows it, decoding reads back
/// exactly the value and consumes exactly the frame.
pub proof fn lemma_decode_val_prefix(v: Val, rest: Seq<u8>)
    requires
        val_encodable(v),
    ensures
        spec_decode_val(spec_encode_val(v) + rest) == Some((v, spec_encode_val(v).len() as int)),
{
    lemma_auto_spec_u64_to_from_le_bytes();
    let e = spec_encode_val(v);
    let s = e + rest;
    match v {
        Val::Null => {
            assert(s[0] == 0);
        },
        Val::Int(x) => {
            let xb = spec_u64_to_le_bytes(x as u64);
            assert(s[0] == 1);
            assert(s.subrange(1, 9) =~= xb);
            assert(x as u64 as i64 == x) by (bit_vector);
            assert(e.len() == 9);
        },
        Val::Bool(b) => {
            assert(s[0] == 2);
            assert(s[1] == (if b { 1u8 } else { 0u8 }));
        },
        Val::Bytes(bs) => {
            let lb = spec_u64_to_le_bytes(bs.len() as u64);
            assert(s[0] == 3);
            assert(s.subrange(1, 9) =~= lb);
            assert(spec_u64_from_le_bytes(lb) == bs.len() as u64);
            assert(bs.len() as u64 as int == bs.len());
            assert(s.len() >= 9 + bs.len());
            assert(s.subrange(9, 9 + bs.len() as int) =~= bs);
            assert(e.len() == 9 + bs.len());
        },
    }
}

/// Frames are at least one byte long.
pub proof fn lemma_encode_val_len(v: Val)
    ensures
        spec_encode_val(v).len() >= 1,
{
    lemma_auto_spec_u64_to_from_le_bytes();
}

/// Decoding inverts encoding on whole key tuples: the slow path loses
/// nothing when it serializes a group key.
pub proof fn lemma_decode_encode_key(t: Seq<Val>)
    requires
        vals_encodable(t),
    ensures
        spec_decode_key(spec_encode_key(t)) == Some(t),
    decreases t.len(),
{
    if t.len() == 0 {
        assert(spec_encode_key(t) =~= Seq::<u8>::empty());
        assert(t =~= Seq::<Val>::empty());
    } else {
        let v = t[0];
        let tail = t.drop_first();
        assert(vals_encodable(tail)) by {
            assert(forall|i: int|
                0 <= i < tail.len() ==> #[trigger] tail[i] == t[i + 1] && val_encodable(t[i + 1]));
        }
        lemma_decode_encode_key(tail);
        let e0 = spec_encode_val(v);
        let er = spec_encode_key(tail);
        let s = e0 + er;
        assert(spec_encode_key(t) == s);
        lemma_decode_val_prefix(v, er);
        lemma_encode_val_len(v);
        assert(s.subrange(e0.len() as int, s.len() as int) =~= er);
        assert(seq![v] + tail =~= t);
    }
}

/// The key encoding is injective: equal encodings mean equal tuples.
pub proof fn lemma_encode_key_injective(a: Seq<Val>, b: Seq<Val>)
    requires
        vals_encodable(a),
        vals_encodable(b),
        spec_encode_key(a) == spec_encode_key(b),
    ensures
        a == b,
{
    lemma_decode_encode_key(a);
    lemma_decode_encode_key(b);
}

/// Appending one component extends the encoding by that component's frame.
pub proof fn lemma_encode_key_snoc(t: Seq<Val>, v: Val)
    ensures
        spec_encode_key(t.push(v)) == spec_encode_key(t) + spec_encode_val(v),
    decreases t.len(),
{
    if t.len() == 0 {
        assert(t.push(v)[0] == v);
        assert(t.push(v).drop_first() =~= Seq::<Val>::empty());
        assert(spec_encode_key(Seq::<Val>::empty()) == Seq::<u8>::empty());
        assert(spec_encode_key(t.push(v)) == spec_encode_val(v) + Seq::<u8>::empty());
        assert(spec_encode_val(v) + Seq::<u8>::empty() =~= spec_encode_val(v));
        assert(spec_encode_key(t) + spec_encode_val(v) =~= spec_encode_val(v));
    } else {
        lemma_encode_key_snoc(t.drop_first(), v);
        assert(t.push(v).drop_first() =~= t.drop_first().push(v));
        assert(t.push(v)[0] == t[0]);
        assert(spec_encode_val(t[0]) + (spec_encode_key(t.drop_first()) + spec_encode_val(v)) =~= (
        spec_encode_val(t[0]) + spec_encode_key(t.drop_first())) + spec_encode_val(v));
    }
}

/// Appends the frame of one cell to a key buffer.
pub fn encode_datum_into(buf: &mut Vec<u8>, d: &Datum)
    ensures
        final(buf)@ == old(buf)@ + spec_encode_val(d@),
        val_encodable(d@),
{
    match d {
        Datum::Null => {
            buf.push(0u8);
            proof {
                assert(buf@ =~= old(buf)@ + spec_encode_val(d@));
            }
        },
        Datum::Int(x) => {
            buf.push(1u8);
            let mut xb = u64_to_le_bytes(*x as u64);
            buf.append(&mut xb);
            proof {
                assert(buf@ =~= old(buf)@ + spec_encode_val(d@));
            }
        },
        Datum::Bool(b) => {
            buf.push(2u8);
            buf.push(if *b {
                1u8
            } else {
                0u8
            });
            proof {
                assert(buf@ =~= old(buf)@ + spec_encode_val(d@));
            }
        },
        Datum::Bytes(v) => {
            buf.push(3u8);
            let n = v.len();
            let mut lb = u64_to_le_bytes(n as u64);
            buf.append(&mut lb);
            let mut i: usize = 0;
            while i < v.len()
                invariant
                    i <= v@.len(),
                    buf@ == old(buf)@ + seq![3u8] + spec_u64_to_le_bytes(v@.len() as u64)
                        + v@.subrange(0, i as int),
                decreases v@.len() - i,
            {
                buf.push(v[i]);
                i = i + 1;
                proof {
                    assert(buf@ =~= old(buf)@ + seq![3u8] + spec_u64_to_le_bytes(v@.len() as u64)
                        + v@.subrange(0, i as int));
                }
            }
            proof {
                assert(v@.subrange(0, v@.len() as int) =~= v@);
                assert(buf@ =~= old(buf)@ + spec_encode_val(d@));
            }
        },
    }
}

/// Serializes a key tuple into one unambiguous byte string.
pub fn encode_key(t: &Vec<Datum>) -> (r: Vec<u8>)
    ensures
        r@ == spec_encode_key(datums_view(t@)),
        vals_encodable(datums_view(t@)),
{
    let mut buf: Vec<u8> = Vec::new();
    let mut i: usize = 0;
    while i < t.len()
        invariant
            i <= t@.len(),
            buf@ == spec_encode_key(datums_view(t@).subrange(0, i as int)),
            vals_encodable(datums_view(t@).subrange(0, i as int)),
        decreases t@.len() - i,
    {
        let ghost pre = datums_view(t@).subrange(0, i as int);
        encode_datum_into(&mut buf, &t[i]);
        i = i + 1;
        proof {
            lemma_encode_key_snoc(pre, t@[i - 1]@);
            assert(datums_view(t@).subrange(0, i as int) =~= pre.push(t@[i - 1]@));
        }
    }
    proof {
        assert(datums_view(t@).subrange(0, t@.len() as int) =~= datums_view(t@));
    }
    buf
}

/// The error a corrupted encoded row or key surfaces as: a data-decode
/// failure with the truncated-wrong-value code.
pub open spec fn is_decode_error(e: Error) -> bool {
    e.spec_code() == ERR_TRUNCATE_WRONG_VALUE
}

fn decode_error() -> (r: Error)
    ensures
        is_decode_error(r),
{
    Error::truncated_wrong_val("BYTES", "encoded row")
}

/// Splits an encoded key back into typed cells; fails exactly when the
/// bytes are not a whole sequence of frames.
pub fn decode_key(bytes: &Vec<u8>) -> (r: Result<Vec<Datum>, Error>)
    ensures
        match r {
            Ok(t) => spec_decode_key(bytes@) == Some(datums_view(t@)),
            Err(e) => spec_decode_key(bytes@) is None && is_decode_error(e),
        },
{
    let len = bytes.len();
    let mut pos: usize = 0;
    let mut out: Vec<Datum> = Vec::new();
    proof {
        assert(bytes@.subrange(0, len as int) =~= bytes@);
        assert(datums_view(out@) =~= Seq::<Val>::empty());
        if spec_decode_key(bytes@) is Some {
            assert(datums_view(out@) + spec_decode_key(bytes@)->0 =~= spec_decode_key(bytes@)->0);
        }
    }
    while pos < len
        invariant
            len == bytes@.len(),
            pos <= len,
            spec_decode_key(bytes@.subrange(pos as int, len as int)) is Some
                ==> spec_decode_key(bytes@) == Some(
                datums_view(out@) + spec_decode_key(bytes@.subrange(pos as int, len as int))->0,
            ),
            spec_decode_key(bytes@.subrange(pos as int, len as int)) is None ==> spec_decode_key(
                bytes@,
            ) is None,
        decreases len - pos,
    {
        let ghost remaining = bytes@.subrange(pos as int, len as int);
        let tag = bytes[pos];
        let d: Datum;
        let consumed: usize;
        if tag == 0 {
            d = Datum::Null;
            consumed = 1;
        } else if tag == 1 {
            if len - pos < 9 {
                proof {
                    assert(spec_decode_val(remaining) is None);
                }
                return Err(decode_error());
            }
            let sl = slice_subrange(bytes.as_slice(), pos + 1, pos + 9);
            let x = u64_from_le_bytes(sl);
            proof {
                assert(sl@ =~= remaining.subrange(1, 9));
            }
            d = Datum::Int(#[verifier::truncate] (x as i64));
            consumed = 9;
        } else if tag == 2 {
            if len - pos < 2 {
                proof {
                    assert(spec_decode_val(remaining) is None);
                }
                return Err(decode_error());
            }
            let b = bytes[pos + 1];
            if b != 0 && b != 1 {
                proof {
                    assert(remaining[1] == b);
                    assert(spec_decode_val(remaining) is None);
                }
                return Err(decode_error());
            }
            d = Datum::Bool(b == 1);
            consumed = 2;
        } else if tag == 3 {
            if len - pos < 9 {
                proof {
                    assert(spec_decode_val(remaining) is None);
                }
                return Err(decode_error());
            }
            let sl = slice_subrange(bytes.as_slice(), pos + 1, pos + 9);
            let n64 = u64_from_le_bytes(sl);
            proof {
                assert(sl@ =~= remaining.subrange(1, 9));
            }
            if n64 > (len - pos - 9) as u64 {
                proof {
                    assert(spec_decode_val(remaining) is None);
                }
                return Err(decode_error());
            }
            let n = n64 as usize;
            let payload = slice_to_vec(slice_subrange(bytes.as_slice(), pos + 9, pos + 9 + n));
            proof {
                assert(payload@ =~= remaining.subrange(9, 9 + n as int));
            }
            d = Datum::Bytes(payload);
            consumed = 9 + n;
        } else {
            proof {
                assert(spec_decode_val(remaining) is None);
            }
            return Err(decode_error());
        }
        proof {
            assert(remaining[0] == tag);
            assert(spec_decode_val(remaining) == Some((d@, consumed as int)));
        }
        let ghost out_pre = out@;
        out.push(d);
        pos = pos + consumed;
        proof {
            let tail = bytes@.subrange(pos as int, len as int);
            assert(tail =~= remaining.subrange(consumed as int, remaining.len() as int));
            assert(datums_view(out@) =~= datums_view(out_pre).push(d@));
            if spec_decode_key(tail) is Some {
                let rest = spec_decode_key(tail)->0;
                assert(spec_decode_key(remaining) == Some(seq![d@] + rest));
                assert(datums_view(out_pre) + (seq![d@] + rest) =~= datums_view(out@) + rest);
            }
        }
    }
    proof {
        assert(bytes@.subrange(pos as int, len as int) =~= Seq::<u8>::empty());
        assert(datums_view(out@) + Seq::<Val>::empty() =~= datums_view(out@));
    }
    Ok(out)
}

} // verus!
