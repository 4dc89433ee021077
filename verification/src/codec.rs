use vstd::prelude::*;
use vstd::bytes::spec_u32_to_le_bytes;
use vstd::bytes::spec_u32_from_le_bytes;
use vstd::string::StrSliceExecFns;
use vstd::utf8::encode_utf8;
use crate::model::{CellValue, Type, Value};
use crate::text::{from_utf8_lossy, lossy_text, trim_nul, trim_trailing_nul};

verus! {

/// The number of bytes that one cell of a column of type `t` takes in its file.
pub open spec fn width(t: Type) -> nat {
    match t {
        Type::Int => 4,
        Type::VarChar(n) => n as nat,
    }
}

/// `n` zero bytes.
pub open spec fn zeros(n: nat) -> Seq<u8> {
    Seq::new(n, |i: int| 0u8)
}

/// `b` cut or zero-padded to exactly `n` bytes.
pub open spec fn fit_bytes(b: Seq<u8>, n: nat) -> Seq<u8> {
    if b.len() >= n {
        b.subrange(0, n as int)
    } else {
        b + zeros((n - b.len()) as nat)
    }
}

/// The four little-endian bytes of the two's complement of `v`.
pub open spec fn int_bytes(v: i32) -> Seq<u8> {
    spec_u32_to_le_bytes(v as u32)
}

/// The bytes that store `v` in a column of type `t`, or `None` where the
/// value does not have the column's type.
pub open spec fn encode_cell(t: Type, v: CellValue) -> Option<Seq<u8>> {
    match (t, v) {
        (Type::Int, CellValue::Int(x)) => Some(int_bytes(x)),
        (Type::VarChar(n), CellValue::VarChar(s)) => Some(fit_bytes(encode_utf8(s), n as nat)),
        _ => None,
    }
}

/// The value that one cell's bytes hold in a column of type `t`.
pub open spec fn decode_cell(t: Type, chunk: Seq<u8>) -> CellValue {
    match t {
        Type::Int => CellValue::Int(spec_u32_from_le_bytes(chunk) as i32),
        Type::VarChar(_) => CellValue::VarChar(trim_nul(lossy_text(chunk))),
    }
}

/// The values read from a column file: one per whole cell, a trailing partial
/// cell ignored.
pub open spec fn decode_column(t: Type, bytes: Seq<u8>) -> Seq<CellValue>
    decreases bytes.len(),
{
    let w = width(t);
    if w == 0 || bytes.len() < w {
        Seq::empty()
    } else {
        seq![decode_cell(t, bytes.subrange(0, w as int))] + decode_column(
            t,
            bytes.subrange(w as int, bytes.len() as int),
        )
    }
}

/// The bytes written for `vals` into a column of type `t`, up to the first
/// value that does not have the column's type, and whether every value had it.
pub open spec fn encode_column(t: Type, vals: Seq<CellValue>) -> (Seq<u8>, bool)
    decreases vals.len(),
{
    if vals.len() == 0 {
        (Seq::empty(), true)
    } else {
        match encode_cell(t, vals[0]) {
            None => (Seq::empty(), false),
            Some(b) => {
                let rest = encode_column(t, vals.drop_first());
                (b + rest.0, rest.1)
            },
        }
    }
}

/// The bytes that store `v` in a column of type `t`, or `None` where the value
/// does not have the column's type.
pub fn encode_value(t: Type, v: &Value) -> (r: Option<Vec<u8>>)
    ensures
        match r {
            Some(b) => encode_cell(t, v@) == Some(b@),
            None => encode_cell(t, v@) is None,
        },
{
    match (t, v) {
        (Type::Int, Value::Int(x)) => {
            let b = vstd::bytes::u32_to_le_bytes(*x as u32);
            Some(b)
        },
        (Type::VarChar(n), Value::VarChar(s)) => {
            let mut b = s.as_str().as_bytes_vec();
            if b.len() >= n {
                b.truncate(n);
            } else {
                let ghost orig = b@;
                while b.len() < n
                    invariant
                        orig.len() < n,
                        orig.len() <= b@.len() <= n,
                        b@ =~= orig + zeros((b@.len() - orig.len()) as nat),
                    decreases n - b@.len(),
                {
                    b.push(0u8);
                }
            }
            Some(b)
        },
        _ => None,
    }
}

/// Reads the values of a column of type `t` from its file's bytes.
pub fn decode_values(t: Type, bytes: &[u8]) -> (r: Vec<Value>)
    requires
        width(t) > 0,
    ensures
        r@.map_values(|v: Value| v@) == decode_column(t, bytes@),
{
    let w: usize = match t {
        Type::Int => 4,
        Type::VarChar(n) => n,
    };
    let mut out: Vec<Value> = Vec::new();
    let mut pos: usize = 0;
    assert(bytes@.subrange(0, bytes@.len() as int) =~= bytes@);
    while w <= bytes.len() - pos
        invariant
            w == width(t),
            w > 0,
            pos <= bytes@.len(),
            out@.map_values(|v: Value| v@) + decode_column(
                t,
                bytes@.subrange(pos as int, bytes@.len() as int),
            ) == decode_column(t, bytes@),
        decreases bytes@.len() - pos,
    {
        let ghost rest = bytes@.subrange(pos as int, bytes@.len() as int);
        let chunk = vstd::slice::slice_subrange(bytes, pos, pos + w);
        assert(chunk@ =~= rest.subrange(0, w as int));
        assert(rest.subrange(w as int, rest.len() as int) =~= bytes@.subrange(
            (pos + w) as int,
            bytes@.len() as int,
        ));
        let v = match t {
            Type::Int => {
                let u = vstd::bytes::u32_from_le_bytes(chunk);
                Value::Int(u as i32)
            },
            Type::VarChar(_) => {
                let s = from_utf8_lossy(chunk);
                Value::VarChar(trim_trailing_nul(&s))
            },
        };
        assert(v@ == decode_cell(t, chunk@));
        let ghost before = out@.map_values(|v: Value| v@);
        out.push(v);
        assert(out@.map_values(|v: Value| v@) =~= before.push(v@));
        assert(before.push(v@) + decode_column(t, bytes@.subrange((pos + w) as int, bytes@.len() as int))
            =~= before + decode_column(t, rest));
        pos = pos + w;
    }
    assert(decode_column(t, bytes@.subrange(pos as int, bytes@.len() as int)) =~= Seq::empty());
    assert(out@.map_values(|v: Value| v@) =~= out@.map_values(|v: Value| v@) + Seq::<CellValue>::empty());
    out
}

/// Encodes `vals` for a column of type `t`, stopping at the first value that
/// does not have the column's type; the flag says whether all were encoded.
pub fn encode_values(t: Type, vals: &Vec<Value>) -> (r: (Vec<u8>, bool))
    ensures
        (r.0@, r.1) == encode_column(t, vals@.map_values(|v: Value| v@)),
{
    let ghost all = vals@.map_values(|v: Value| v@);
    let mut out: Vec<u8> = Vec::new();
    let mut i: usize = 0;
    assert(all.subrange(0, all.len() as int) =~= all);
    while i < vals.len()
        invariant
            all == vals@.map_values(|v: Value| v@),
            i <= vals@.len(),
            encode_column(t, all) == (
                out@ + encode_column(t, all.subrange(i as int, all.len() as int)).0,
                encode_column(t, all.subrange(i as int, all.len() as int)).1,
            ),
        decreases vals@.len() - i,
    {
        let ghost rest = all.subrange(i as int, all.len() as int);
        assert(rest[0] == vals@[i as int]@);
        assert(rest.drop_first() =~= all.subrange(i + 1, all.len() as int));
        match encode_value(t, &vals[i]) {
            None => {
                return (out, false);
            },
            Some(b) => {
                let ghost before = out@;
                out.extend_from_slice(b.as_slice());
                assert(out@ =~= before + b@);
                assert(before + (b@ + encode_column(t, rest.drop_first()).0) =~= out@
                    + encode_column(t, rest.drop_first()).0);
            },
        }
        i = i + 1;
    }
    assert(encode_column(t, all.subrange(i as int, all.len() as int)) == (Seq::<u8>::empty(), true));
    assert(out@ + Seq::<u8>::empty() =~= out@);
    (out, true)
}


/// A column file holds as many values as whole cells.
pub proof fn lemma_decode_column_count(t: Type, bytes: Seq<u8>)
    requires
        width(t) > 0,
    ensures
        decode_column(t, bytes).len() == bytes.len() / width(t),
    decreases bytes.len(),
{
    let w = width(t);
    if bytes.len() < w {
        assert(bytes.len() / w == 0) by (nonlinear_arith)
            requires
                0 <= bytes.len() < w,
        ;
    } else {
        let rest = bytes.subrange(w as int, bytes.len() as int);
        lemma_decode_column_count(t, rest);
        assert(bytes.len() / w == 1 + rest.len() / w) by (nonlinear_arith)
            requires
                rest.len() == bytes.len() - w,
                w > 0,
                bytes.len() >= w,
        ;
    }
}

} // verus!
