//! The record payload format: how rows and table schemas become bytes and
//! come back.
//!
//! Layout (all integers little-endian):
//! - a string is a 4-byte UTF-8 byte count followed by the UTF-8 bytes;
//! - a value is a tag byte (`0` integer, `1` text, `2` float, `3` null)
//!   followed by its payload: 8 bytes for an integer (two's complement) or a
//!   float (IEEE 754 bits), a string for text, nothing for null;
//! - a row is a 4-byte value count followed by the values;
//! - a schema is its name, a 4-byte column count, then per column its name
//!   and one type byte (`0` integer, `1` text, `2` float).
//!
//! The decoders accept exactly the encodings the encoders produce; a decoder
//! consumes the whole payload or reports failure.

use vstd::prelude::*;

use vstd::bytes::lemma_auto_spec_u16_to_from_le_bytes;
use vstd::bytes::lemma_auto_spec_u32_to_from_le_bytes;
use vstd::bytes::lemma_auto_spec_u64_to_from_le_bytes;
use vstd::bytes::spec_u32_from_le_bytes;
use vstd::bytes::spec_u32_to_le_bytes;
use vstd::bytes::spec_u64_from_le_bytes;
use vstd::bytes::spec_u64_to_le_bytes;
use vstd::bytes::u32_from_le_bytes;
use vstd::bytes::u32_to_le_bytes;
use vstd::bytes::u64_from_le_bytes;
use vstd::bytes::u64_to_le_bytes;
use vstd::slice::slice_subrange;
use vstd::slice::slice_to_vec;
use vstd::string::StrSliceExecFns;
use vstd::utf8::decode_utf8;
use vstd::utf8::encode_utf8;
use vstd::utf8::encode_utf8_decode_utf8;
use vstd::utf8::encode_utf8_valid_utf8;
use vstd::utf8::valid_utf8;

use crate::types::Column;
use crate::types::ColumnModel;
use crate::types::ColumnType;
use crate::types::Error;
use crate::types::Row;
use crate::types::SchemaModel;
use crate::types::TableSchema;
use crate::types::Value;
use crate::types::ValueModel;

verus! {

/// Relies on `String::from_utf8`: it succeeds exactly on valid UTF-8 input
/// and returns the character sequence that input encodes.
#[verifier::external_body]
pub(crate) fn string_from_utf8(v: Vec<u8>) -> (r: Option<String>)
    ensures
        match r {
            Some(s) => valid_utf8(v@) && s@ == decode_utf8(v@),
            None => !valid_utf8(v@),
        },
{
    String::from_utf8(v).ok()
}

/// Convenience: the lengths and inversions of the little-endian encodings.
pub proof fn lemma_le_bytes()
    ensures
        forall|x: u16| (#[trigger] vstd::bytes::spec_u16_to_le_bytes(x)).len() == 2
            && vstd::bytes::spec_u16_from_le_bytes(vstd::bytes::spec_u16_to_le_bytes(x)) == x,
        forall|x: u32| (#[trigger] spec_u32_to_le_bytes(x)).len() == 4 && spec_u32_from_le_bytes(
            spec_u32_to_le_bytes(x),
        ) == x,
        forall|x: u64| (#[trigger] spec_u64_to_le_bytes(x)).len() == 8 && spec_u64_from_le_bytes(
            spec_u64_to_le_bytes(x),
        ) == x,
{
    lemma_auto_spec_u16_to_from_le_bytes();
    lemma_auto_spec_u32_to_from_le_bytes();
    lemma_auto_spec_u64_to_from_le_bytes();
}

/// The encoding of one string field.
pub open spec fn string_bytes(s: Seq<char>) -> Seq<u8> {
    spec_u32_to_le_bytes(encode_utf8(s).len() as u32) + encode_utf8(s)
}

/// Whether a string field fits the encoding's 4-byte length.
pub open spec fn string_fits(s: Seq<char>) -> bool {
    encode_utf8(s).len() <= u32::MAX
}

/// The encoding of one value.
pub open spec fn value_bytes(v: ValueModel) -> Seq<u8> {
    match v {
        ValueModel::Integer(i) => seq![0u8] + spec_u64_to_le_bytes(i as u64),
        ValueModel::Text(s) => seq![1u8] + string_bytes(s),
        ValueModel::Float(b) => seq![2u8] + spec_u64_to_le_bytes(b),
        ValueModel::Null => seq![3u8],
    }
}

/// Whether a value fits the encoding's size limits.
pub open spec fn value_fits(v: ValueModel) -> bool {
    match v {
        ValueModel::Text(s) => string_fits(s),
        _ => true,
    }
}

/// The concatenated encodings of a sequence of values.
pub open spec fn values_bytes(vs: Seq<ValueModel>) -> Seq<u8>
    decreases vs.len(),
{
    if vs.len() == 0 {
        Seq::empty()
    } else {
        value_bytes(vs[0]) + values_bytes(vs.drop_first())
    }
}

/// Whether a row fits the encoding's size limits.
pub open spec fn row_fits(vs: Seq<ValueModel>) -> bool {
    &&& vs.len() <= u32::MAX
    &&& forall|i: int| 0 <= i < vs.len() ==> value_fits(#[trigger] vs[i])
}

/// The row payload: a 4-byte value count, then the values.
pub open spec fn row_bytes(vs: Seq<ValueModel>) -> Seq<u8> {
    spec_u32_to_le_bytes(vs.len() as u32) + values_bytes(vs)
}

/// The type byte of a column type.
pub open spec fn type_byte(t: ColumnType) -> u8 {
    match t {
        ColumnType::Integer => 0u8,
        ColumnType::Text => 1u8,
        ColumnType::Float => 2u8,
    }
}

/// The encoding of one column definition.
pub open spec fn column_bytes(c: ColumnModel) -> Seq<u8> {
    string_bytes(c.name) + seq![type_byte(c.column_type)]
}

/// The concatenated encodings of a sequence of columns.
pub open spec fn columns_bytes(cs: Seq<ColumnModel>) -> Seq<u8>
    decreases cs.len(),
{
    if cs.len() == 0 {
        Seq::empty()
    } else {
        column_bytes(cs[0]) + columns_bytes(cs.drop_first())
    }
}

/// Whether a schema fits the encoding's size limits.
pub open spec fn schema_fits(s: SchemaModel) -> bool {
    &&& string_fits(s.name)
    &&& s.columns.len() <= u32::MAX
    &&& forall|i: int| 0 <= i < s.columns.len() ==> string_fits(
        (#[trigger] s.columns[i]).name,
    )
}

/// The schema payload: its name, a 4-byte column count, then the columns.
pub open spec fn schema_bytes(s: SchemaModel) -> Seq<u8> {
    string_bytes(s.name) + spec_u32_to_le_bytes(s.columns.len() as u32) + columns_bytes(s.columns)
}

/// Parse 4 bytes at `pos` as a little-endian number.
pub open spec fn parse_u32(bytes: Seq<u8>, pos: int) -> Option<(u32, int)> {
    if 0 <= pos && pos + 4 <= bytes.len() {
        Some((spec_u32_from_le_bytes(bytes.subrange(pos, pos + 4)), pos + 4))
    } else {
        None
    }
}

/// Parse 8 bytes at `pos` as a little-endian number.
pub open spec fn parse_u64(bytes: Seq<u8>, pos: int) -> Option<(u64, int)> {
    if 0 <= pos && pos + 8 <= bytes.len() {
        Some((spec_u64_from_le_bytes(bytes.subrange(pos, pos + 8)), pos + 8))
    } else {
        None
    }
}

/// Parse a string field at `pos`.
pub open spec fn parse_string(bytes: Seq<u8>, pos: int) -> Option<(Seq<char>, int)> {
    match parse_u32(bytes, pos) {
        None => None,
        Some((n, p)) => if p + n <= bytes.len() && valid_utf8(bytes.subrange(p, p + n)) {
            Some((decode_utf8(bytes.subrange(p, p + n)), p + n))
        } else {
            None
        },
    }
}

/// Parse one value at `pos`.
pub open spec fn parse_value(bytes: Seq<u8>, pos: int) -> Option<(ValueModel, int)> {
    if !(0 <= pos && pos < bytes.len()) {
        None
    } else {
        let tag = bytes[pos];
        if tag == 0u8 {
            match parse_u64(bytes, pos + 1) {
                Some((x, p)) => Some((ValueModel::Integer(x as i64), p)),
                None => None,
            }
        } else if tag == 1u8 {
            match parse_string(bytes, pos + 1) {
                Some((s, p)) => Some((ValueModel::Text(s), p)),
                None => None,
            }
        } else if tag == 2u8 {
            match parse_u64(bytes, pos + 1) {
                Some((x, p)) => Some((ValueModel::Float(x), p)),
                None => None,
            }
        } else if tag == 3u8 {
            Some((ValueModel::Null, pos + 1))
        } else {
            None
        }
    }
}

/// Parse `count` values starting at `pos`.
pub open spec fn parse_values(bytes: Seq<u8>, pos: int, count: nat) -> Option<
    (Seq<ValueModel>, int),
>
    decreases count,
{
    if count == 0 {
        Some((Seq::empty(), pos))
    } else {
        match parse_value(bytes, pos) {
            None => None,
            Some((v, p)) => match parse_values(bytes, p, (count - 1) as nat) {
                None => None,
                Some((vs, q)) => Some((seq![v] + vs, q)),
            },
        }
    }
}

/// Parse a whole row payload; the payload must be consumed exactly.
pub open spec fn parse_row(bytes: Seq<u8>) -> Option<Seq<ValueModel>> {
    match parse_u32(bytes, 0) {
        None => None,
        Some((n, p)) => match parse_values(bytes, p, n as nat) {
            None => None,
            Some((vs, q)) => if q == bytes.len() {
                Some(vs)
            } else {
                None
            },
        },
    }
}

/// Parse one column definition at `pos`.
pub open spec fn parse_column(bytes: Seq<u8>, pos: int) -> Option<(ColumnModel, int)> {
    match parse_string(bytes, pos) {
        None => None,
        Some((name, p)) => if p < bytes.len() {
            if bytes[p] == 0u8 {
                Some((ColumnModel { name, column_type: ColumnType::Integer }, p + 1))
            } else if bytes[p] == 1u8 {
                Some((ColumnModel { name, column_type: ColumnType::Text }, p + 1))
            } else if bytes[p] == 2u8 {
                Some((ColumnModel { name, column_type: ColumnType::Float }, p + 1))
            } else {
                None
            }
        } else {
            None
        },
    }
}

/// Parse `count` column definitions starting at `pos`.
pub open spec fn parse_columns(bytes: Seq<u8>, pos: int, count: nat) -> Option<
    (Seq<ColumnModel>, int),
>
    decreases count,
{
    if count == 0 {
        Some((Seq::empty(), pos))
    } else {
        match parse_column(bytes, pos) {
            None => None,
            Some((c, p)) => match parse_columns(bytes, p, (count - 1) as nat) {
                None => None,
                Some((cs, q)) => Some((seq![c] + cs, q)),
            },
        }
    }
}

/// Parse a whole schema payload; the payload must be consumed exactly.
pub open spec fn parse_schema(bytes: Seq<u8>) -> Option<SchemaModel> {
    match parse_string(bytes, 0) {
        None => None,
        Some((name, p)) => match parse_u32(bytes, p) {
            None => None,
            Some((n, q)) => match parse_columns(bytes, q, n as nat) {
                None => None,
                Some((cs, r)) => if r == bytes.len() {
                    Some(SchemaModel { name, columns: cs })
                } else {
                    None
                },
            },
        },
    }
}

/// Appending one value's encoding extends the values' encoding.
pub proof fn lemma_values_bytes_push(vs: Seq<ValueModel>, v: ValueModel)
    ensures
        values_bytes(vs.push(v)) == values_bytes(vs) + value_bytes(v),
    decreases vs.len(),
{
    if vs.len() == 0 {
        assert(vs.push(v)[0] == v);
        assert(vs.push(v).drop_first() =~= Seq::<ValueModel>::empty());
        assert(values_bytes(vs.push(v)) == value_bytes(v) + values_bytes(
            Seq::<ValueModel>::empty(),
        ));
        assert(values_bytes(Seq::<ValueModel>::empty()) == Seq::<u8>::empty());
        assert(value_bytes(v) + Seq::<u8>::empty() =~= Seq::<u8>::empty() + value_bytes(v));
    } else {
        assert(vs.push(v)[0] == vs[0]);
        assert(vs.push(v).drop_first() =~= vs.drop_first().push(v));
        assert(values_bytes(vs.push(v)) == value_bytes(vs[0]) + values_bytes(
            vs.drop_first().push(v),
        ));
        lemma_values_bytes_push(vs.drop_first(), v);
        assert(value_bytes(vs[0]) + (values_bytes(vs.drop_first()) + value_bytes(v)) =~= (
        value_bytes(vs[0]) + values_bytes(vs.drop_first())) + value_bytes(v));
    }
}

/// Appending one column's encoding extends the columns' encoding.
pub proof fn lemma_columns_bytes_push(cs: Seq<ColumnModel>, c: ColumnModel)
    ensures
        columns_bytes(cs.push(c)) == columns_bytes(cs) + column_bytes(c),
    decreases cs.len(),
{
    if cs.len() == 0 {
        assert(cs.push(c)[0] == c);
        assert(cs.push(c).drop_first() =~= Seq::<ColumnModel>::empty());
        assert(columns_bytes(cs.push(c)) == column_bytes(c) + columns_bytes(
            Seq::<ColumnModel>::empty(),
        ));
        assert(columns_bytes(Seq::<ColumnModel>::empty()) == Seq::<u8>::empty());
        assert(column_bytes(c) + Seq::<u8>::empty() =~= Seq::<u8>::empty() + column_bytes(c));
    } else {
        assert(cs.push(c)[0] == cs[0]);
        assert(cs.push(c).drop_first() =~= cs.drop_first().push(c));
        assert(columns_bytes(cs.push(c)) == column_bytes(cs[0]) + columns_bytes(
            cs.drop_first().push(c),
        ));
        lemma_columns_bytes_push(cs.drop_first(), c);
        assert(column_bytes(cs[0]) + (columns_bytes(cs.drop_first()) + column_bytes(c)) =~= (
        column_bytes(cs[0]) + columns_bytes(cs.drop_first())) + column_bytes(c));
    }
}

/// A subrange of a window equals the window's own subrange.
pub proof fn lemma_window(bytes: Seq<u8>, pos: int, x: Seq<u8>, a: int, b: int)
    requires
        0 <= pos,
        pos + x.len() <= bytes.len(),
        bytes.subrange(pos, pos + x.len() as int) == x,
        0 <= a <= b <= x.len(),
    ensures
        bytes.subrange(pos + a, pos + b) == x.subrange(a, b),
{
    assert forall|i: int| 0 <= i < b - a implies bytes.subrange(pos + a, pos + b)[i] == x.subrange(
        a,
        b,
    )[i] by {
        assert(x[a + i] == bytes.subrange(pos, pos + x.len() as int)[a + i]);
    }
    assert(bytes.subrange(pos + a, pos + b) =~= x.subrange(a, b));
}

/// A string field parses back to the string it encodes.
pub proof fn lemma_parse_string_at(bytes: Seq<u8>, pos: int, s: Seq<char>)
    requires
        string_fits(s),
        0 <= pos,
        pos + string_bytes(s).len() <= bytes.len(),
        bytes.subrange(pos, pos + string_bytes(s).len() as int) == string_bytes(s),
    ensures
        parse_string(bytes, pos) == Some((s, pos + string_bytes(s).len() as int)),
{
    lemma_le_bytes();
    let eb = encode_utf8(s);
    let sb = string_bytes(s);
    assert(sb.len() == 4 + eb.len());
    lemma_window(bytes, pos, sb, 0, 4);
    assert(sb.subrange(0, 4) =~= spec_u32_to_le_bytes(eb.len() as u32));
    assert(parse_u32(bytes, pos) == Some((eb.len() as u32, pos + 4)));
    lemma_window(bytes, pos, sb, 4, sb.len() as int);
    assert(sb.subrange(4, sb.len() as int) =~= eb);
    assert(bytes.subrange(pos + 4, pos + 4 + eb.len() as int) == eb);
    encode_utf8_valid_utf8(s);
    encode_utf8_decode_utf8(s);
}

/// A value parses back to the value it encodes.
pub proof fn lemma_parse_value_at(bytes: Seq<u8>, pos: int, v: ValueModel)
    requires
        value_fits(v),
        0 <= pos,
        pos + value_bytes(v).len() <= bytes.len(),
        bytes.subrange(pos, pos + value_bytes(v).len() as int) == value_bytes(v),
    ensures
        parse_value(bytes, pos) == Some((v, pos + value_bytes(v).len() as int)),
{
    lemma_le_bytes();
    let vb = value_bytes(v);
    assert(bytes[pos] == bytes.subrange(pos, pos + vb.len() as int)[0]);
    match v {
        ValueModel::Integer(i) => {
            assert(vb.len() == 9);
            assert(vb[0] == 0u8);
            lemma_window(bytes, pos, vb, 1, 9);
            assert(vb.subrange(1, 9) =~= spec_u64_to_le_bytes(i as u64));
            assert(parse_u64(bytes, pos + 1) == Some((i as u64, pos + 9)));
            assert((i as u64) as i64 == i) by (bit_vector);
        },
        ValueModel::Text(s) => {
            let sb = string_bytes(s);
            assert(vb.len() == 1 + sb.len());
            assert(vb[0] == 1u8);
            lemma_window(bytes, pos, vb, 1, vb.len() as int);
            assert(vb.subrange(1, vb.len() as int) =~= sb);
            lemma_parse_string_at(bytes, pos + 1, s);
        },
        ValueModel::Float(b) => {
            assert(vb.len() == 9);
            assert(vb[0] == 2u8);
            lemma_window(bytes, pos, vb, 1, 9);
            assert(vb.subrange(1, 9) =~= spec_u64_to_le_bytes(b));
            assert(parse_u64(bytes, pos + 1) == Some((b, pos + 9)));
        },
        ValueModel::Null => {
            assert(vb.len() == 1);
            assert(vb[0] == 3u8);
        },
    }
}

/// A sequence of values parses back to the values it encodes.
pub proof fn lemma_parse_values_at(bytes: Seq<u8>, pos: int, vs: Seq<ValueModel>)
    requires
        forall|i: int| 0 <= i < vs.len() ==> value_fits(#[trigger] vs[i]),
        0 <= pos,
        pos + values_bytes(vs).len() <= bytes.len(),
        bytes.subrange(pos, pos + values_bytes(vs).len() as int) == values_bytes(vs),
    ensures
        parse_values(bytes, pos, vs.len()) == Some((vs, pos + values_bytes(vs).len() as int)),
    decreases vs.len(),
{
    if vs.len() == 0 {
        assert(vs =~= Seq::<ValueModel>::empty());
    } else {
        let wb = values_bytes(vs);
        let vb = value_bytes(vs[0]);
        let rb = values_bytes(vs.drop_first());
        assert(wb == vb + rb);
        lemma_window(bytes, pos, wb, 0, vb.len() as int);
        assert(wb.subrange(0, vb.len() as int) =~= vb);
        lemma_parse_value_at(bytes, pos, vs[0]);
        lemma_window(bytes, pos, wb, vb.len() as int, wb.len() as int);
        assert(wb.subrange(vb.len() as int, wb.len() as int) =~= rb);
        assert forall|i: int| 0 <= i < vs.drop_first().len() implies value_fits(
            #[trigger] vs.drop_first()[i],
        ) by {
            assert(vs.drop_first()[i] == vs[i + 1]);
        }
        lemma_parse_values_at(bytes, pos + vb.len() as int, vs.drop_first());
        assert(seq![vs[0]] + vs.drop_first() =~= vs);
    }
}

/// Encoding then parsing a row payload yields the original row: the row
/// half of the record payload round trip.
pub proof fn lemma_row_round_trip(vs: Seq<ValueModel>)
    requires
        row_fits(vs),
    ensures
        parse_row(row_bytes(vs)) == Some(vs),
{
    lemma_le_bytes();
    let bytes = row_bytes(vs);
    assert(bytes.subrange(0, 4) =~= spec_u32_to_le_bytes(vs.len() as u32));
    assert(parse_u32(bytes, 0) == Some((vs.len() as u32, 4int)));
    assert((vs.len() as u32) as nat == vs.len());
    assert(bytes.subrange(4, bytes.len() as int) =~= values_bytes(vs));
    lemma_parse_values_at(bytes, 4, vs);
}

/// A column definition parses back to the column it encodes.
pub proof fn lemma_parse_column_at(bytes: Seq<u8>, pos: int, c: ColumnModel)
    requires
        string_fits(c.name),
        0 <= pos,
        pos + column_bytes(c).len() <= bytes.len(),
        bytes.subrange(pos, pos + column_bytes(c).len() as int) == column_bytes(c),
    ensures
        parse_column(bytes, pos) == Some((c, pos + column_bytes(c).len() as int)),
{
    lemma_le_bytes();
    let cb = column_bytes(c);
    let sb = string_bytes(c.name);
    assert(cb.len() == sb.len() + 1);
    lemma_window(bytes, pos, cb, 0, sb.len() as int);
    assert(cb.subrange(0, sb.len() as int) =~= sb);
    lemma_parse_string_at(bytes, pos, c.name);
    assert(bytes[pos + sb.len() as int] == bytes.subrange(pos, pos + cb.len() as int)[sb.len() as int]);
    assert(cb[sb.len() as int] == type_byte(c.column_type));
}

/// A sequence of column definitions parses back to the columns it encodes.
pub proof fn lemma_parse_columns_at(bytes: Seq<u8>, pos: int, cs: Seq<ColumnModel>)
    requires
        forall|i: int| 0 <= i < cs.len() ==> string_fits((#[trigger] cs[i]).name),
        0 <= pos,
        pos + columns_bytes(cs).len() <= bytes.len(),
        bytes.subrange(pos, pos + columns_bytes(cs).len() as int) == columns_bytes(cs),
    ensures
        parse_columns(bytes, pos, cs.len()) == Some((cs, pos + columns_bytes(cs).len() as int)),
    decreases cs.len(),
{
    if cs.len() == 0 {
        assert(cs =~= Seq::<ColumnModel>::empty());
    } else {
        let wb = columns_bytes(cs);
        let cb = column_bytes(cs[0]);
        let rb = columns_bytes(cs.drop_first());
        assert(wb == cb + rb);
        lemma_window(bytes, pos, wb, 0, cb.len() as int);
        assert(wb.subrange(0, cb.len() as int) =~= cb);
        lemma_parse_column_at(bytes, pos, cs[0]);
        lemma_window(bytes, pos, wb, cb.len() as int, wb.len() as int);
        assert(wb.subrange(cb.len() as int, wb.len() as int) =~= rb);
        assert forall|i: int| 0 <= i < cs.drop_first().len() implies string_fits(
            (#[trigger] cs.drop_first()[i]).name,
        ) by {
            assert(cs.drop_first()[i] == cs[i + 1]);
        }
        lemma_parse_columns_at(bytes, pos + cb.len() as int, cs.drop_first());
        assert(seq![cs[0]] + cs.drop_first() =~= cs);
    }
}

/// Encoding then parsing a schema payload yields the original schema: the
/// schema half of the record payload round trip.
pub proof fn lemma_schema_round_trip(s: SchemaModel)
    requires
        schema_fits(s),
    ensures
        parse_schema(schema_bytes(s)) == Some(s),
{
    lemma_le_bytes();
    let bytes = schema_bytes(s);
    let nb = string_bytes(s.name);
    let countb = spec_u32_to_le_bytes(s.columns.len() as u32);
    assert(bytes.subrange(0, nb.len() as int) =~= nb);
    lemma_parse_string_at(bytes, 0, s.name);
    assert(bytes.subrange(nb.len() as int, nb.len() as int + 4) =~= countb);
    assert(parse_u32(bytes, nb.len() as int) == Some(
        (s.columns.len() as u32, nb.len() as int + 4),
    ));
    assert((s.columns.len() as u32) as nat == s.columns.len());
    assert(bytes.subrange(nb.len() as int + 4, bytes.len() as int) =~= columns_bytes(s.columns));
    lemma_parse_columns_at(bytes, nb.len() as int + 4, s.columns);
}

/// Append a byte slice to a buffer.
pub(crate) fn append_slice(out: &mut Vec<u8>, src: &[u8])
    ensures
        final(out)@ == old(out)@ + src@,
{
    let ghost out0 = old(out)@;
    let mut i: usize = 0;
    while i < src.len()
        invariant
            i <= src.len(),
            out@ == out0 + src@.subrange(0, i as int),
        decreases src.len() - i,
    {
        out.push(src[i]);
        proof {
            assert(out0 + src@.subrange(0, i as int + 1) =~= (out0 + src@.subrange(
                0,
                i as int,
            )).push(src@[i as int]));
        }
        i = i + 1;
    }
    proof {
        assert(src@.subrange(0, src@.len() as int) =~= src@);
    }
}

/// Append one value's encoding, or report that it does not fit.
fn encode_value(v: &Value, out: &mut Vec<u8>) -> (r: Result<(), Error>)
    ensures
        r is Ok ==> value_fits(v@) && final(out)@ == old(out)@ + value_bytes(v@),
        r is Err ==> !value_fits(v@) && final(out)@ == old(out)@ && r == Result::<(), Error>::Err(
            Error::Serialization,
        ),
{
    let ghost out0 = old(out)@;
    match v {
        Value::Integer(i) => {
            out.push(0u8);
            let b = u64_to_le_bytes(*i as u64);
            append_slice(out, b.as_slice());
            proof {
                assert(out0.push(0u8) =~= out0 + seq![0u8]);
                assert(out0 + seq![0u8] + b@ =~= out0 + (seq![0u8] + b@));
            }
            Ok(())
        },
        Value::Text(s) => {
            let nb = s.as_str().as_bytes_vec();
            if nb.len() > u32::MAX as usize {
                return Err(Error::Serialization);
            }
            out.push(1u8);
            let lb = u32_to_le_bytes(nb.len() as u32);
            append_slice(out, lb.as_slice());
            append_slice(out, nb.as_slice());
            proof {
                assert(out0.push(1u8) =~= out0 + seq![1u8]);
                assert(out0 + seq![1u8] + lb@ + nb@ =~= out0 + (seq![1u8] + (lb@ + nb@)));
            }
            Ok(())
        },
        Value::Float(bits) => {
            out.push(2u8);
            let b = u64_to_le_bytes(*bits);
            append_slice(out, b.as_slice());
            proof {
                assert(out0.push(2u8) =~= out0 + seq![2u8]);
                assert(out0 + seq![2u8] + b@ =~= out0 + (seq![2u8] + b@));
            }
            Ok(())
        },
        Value::Null => {
            out.push(3u8);
            proof {
                assert(out0.push(3u8) =~= out0 + seq![3u8]);
            }
            Ok(())
        },
    }
}

/// Encode a row payload, or report that the row does not fit.
pub fn encode_row(row: &Row) -> (r: Result<Vec<u8>, Error>)
    ensures
        r matches Ok(b) ==> row_fits(row@) && b@ == row_bytes(row@),
        r is Err ==> !row_fits(row@) && r == Result::<Vec<u8>, Error>::Err(Error::Serialization),
{
    if row.values.len() > u32::MAX as usize {
        return Err(Error::Serialization);
    }
    let mut out: Vec<u8> = Vec::new();
    let lb = u32_to_le_bytes(row.values.len() as u32);
    append_slice(&mut out, lb.as_slice());
    proof {
        assert(Seq::<u8>::empty() + lb@ =~= lb@);
        assert(values_bytes(row@.subrange(0, 0)) == Seq::<u8>::empty());
        assert(lb@ + Seq::<u8>::empty() =~= lb@);
    }
    let mut i: usize = 0;
    while i < row.values.len()
        invariant
            i <= row.values.len(),
            row@.len() == row.values.len() <= u32::MAX,
            lb@ == spec_u32_to_le_bytes(row@.len() as u32),
            out@ == lb@ + values_bytes(row@.subrange(0, i as int)),
            forall|j: int| 0 <= j < i ==> value_fits(#[trigger] row@[j]),
        decreases row.values.len() - i,
    {
        proof {
            assert(row@[i as int] == row.values@[i as int]@);
        }
        match encode_value(&row.values[i], &mut out) {
            Ok(_) => {},
            Err(e) => {
                return Err(Error::Serialization);
            },
        }
        proof {
            assert(row@.subrange(0, i as int + 1) =~= row@.subrange(0, i as int).push(
                row@[i as int],
            ));
            lemma_values_bytes_push(row@.subrange(0, i as int), row@[i as int]);
            assert(lb@ + values_bytes(row@.subrange(0, i as int)) + value_bytes(row@[i as int])
                =~= lb@ + (values_bytes(row@.subrange(0, i as int)) + value_bytes(
                row@[i as int],
            )));
        }
        i = i + 1;
    }
    proof {
        assert(row@.subrange(0, row@.len() as int) =~= row@);
    }
    Ok(out)
}

/// Encode a schema payload, or report that the schema does not fit.
pub fn encode_schema(schema: &TableSchema) -> (r: Result<Vec<u8>, Error>)
    ensures
        r matches Ok(b) ==> schema_fits(schema@) && b@ == schema_bytes(schema@),
        r is Err ==> !schema_fits(schema@) && r == Result::<Vec<u8>, Error>::Err(
            Error::Serialization,
        ),
{
    let nb = schema.name.as_str().as_bytes_vec();
    if nb.len() > u32::MAX as usize {
        return Err(Error::Serialization);
    }
    if schema.columns.len() > u32::MAX as usize {
        return Err(Error::Serialization);
    }
    let mut out: Vec<u8> = Vec::new();
    let nlb = u32_to_le_bytes(nb.len() as u32);
    append_slice(&mut out, nlb.as_slice());
    append_slice(&mut out, nb.as_slice());
    let clb = u32_to_le_bytes(schema.columns.len() as u32);
    append_slice(&mut out, clb.as_slice());
    proof {
        assert(Seq::<u8>::empty() + nlb@ + nb@ + clb@ =~= string_bytes(schema@.name)
            + spec_u32_to_le_bytes(schema@.columns.len() as u32));
        assert(columns_bytes(schema@.columns.subrange(0, 0)) == Seq::<u8>::empty());
        assert(out@ + Seq::<u8>::empty() =~= out@);
    }
    let ghost head = string_bytes(schema@.name) + spec_u32_to_le_bytes(
        schema@.columns.len() as u32,
    );
    let mut i: usize = 0;
    while i < schema.columns.len()
        invariant
            i <= schema.columns.len(),
            schema@.columns.len() == schema.columns.len() <= u32::MAX,
            string_fits(schema@.name),
            head == string_bytes(schema@.name) + spec_u32_to_le_bytes(
                schema@.columns.len() as u32,
            ),
            out@ == head + columns_bytes(schema@.columns.subrange(0, i as int)),
            forall|j: int| 0 <= j < i ==> string_fits((#[trigger] schema@.columns[j]).name),
        decreases schema.columns.len() - i,
    {
        proof {
            assert(schema@.columns[i as int] == schema.columns@[i as int]@);
        }
        let col = &schema.columns[i];
        let cnb = col.name.as_str().as_bytes_vec();
        if cnb.len() > u32::MAX as usize {
            return Err(Error::Serialization);
        }
        let cnlb = u32_to_le_bytes(cnb.len() as u32);
        append_slice(&mut out, cnlb.as_slice());
        append_slice(&mut out, cnb.as_slice());
        let tb: u8 = match col.column_type {
            ColumnType::Integer => 0u8,
            ColumnType::Text => 1u8,
            ColumnType::Float => 2u8,
        };
        out.push(tb);
        proof {
            let prev = head + columns_bytes(schema@.columns.subrange(0, i as int));
            assert(prev + cnlb@ + cnb@ + seq![tb] =~= prev + column_bytes(
                schema@.columns[i as int],
            ));
            assert(schema@.columns.subrange(0, i as int + 1) =~= schema@.columns.subrange(
                0,
                i as int,
            ).push(schema@.columns[i as int]));
            lemma_columns_bytes_push(
                schema@.columns.subrange(0, i as int),
                schema@.columns[i as int],
            );
            assert(prev + column_bytes(schema@.columns[i as int]) =~= head + (columns_bytes(
                schema@.columns.subrange(0, i as int),
            ) + column_bytes(schema@.columns[i as int])));
        }
        i = i + 1;
    }
    proof {
        assert(schema@.columns.subrange(0, schema@.columns.len() as int) =~= schema@.columns);
    }
    Ok(out)
}

/// Read 4 little-endian bytes at `pos`.
fn decode_u32(bytes: &[u8], pos: usize) -> (r: Option<(u32, usize)>)
    ensures
        match r {
            Some((x, p)) => parse_u32(bytes@, pos as int) == Some((x, p as int)) && p
                <= bytes@.len(),
            None => parse_u32(bytes@, pos as int) is None,
        },
{
    if pos <= bytes.len() && bytes.len() - pos >= 4 {
        let s = slice_subrange(bytes, pos, pos + 4);
        Some((u32_from_le_bytes(s), pos + 4))
    } else {
        None
    }
}

/// Read 8 little-endian bytes at `pos`.
fn decode_u64(bytes: &[u8], pos: usize) -> (r: Option<(u64, usize)>)
    ensures
        match r {
            Some((x, p)) => parse_u64(bytes@, pos as int) == Some((x, p as int)) && p
                <= bytes@.len(),
            None => parse_u64(bytes@, pos as int) is None,
        },
{
    if pos <= bytes.len() && bytes.len() - pos >= 8 {
        let s = slice_subrange(bytes, pos, pos + 8);
        Some((u64_from_le_bytes(s), pos + 8))
    } else {
        None
    }
}

/// Read a string field at `pos`.
fn decode_string(bytes: &[u8], pos: usize) -> (r: Option<(String, usize)>)
    ensures
        match r {
            Some((s, p)) => parse_string(bytes@, pos as int) == Some((s@, p as int)) && p
                <= bytes@.len(),
            None => parse_string(bytes@, pos as int) is None,
        },
{
    match decode_u32(bytes, pos) {
        None => None,
        Some((n, p)) => {
            let n_us = n as usize;
            if bytes.len() - p >= n_us {
                let sb = slice_subrange(bytes, p, p + n_us);
                let v = slice_to_vec(sb);
                match string_from_utf8(v) {
                    Some(s) => Some((s, p + n_us)),
                    None => None,
                }
            } else {
                None
            }
        },
    }
}

/// Read one value at `pos`.
fn decode_value(bytes: &[u8], pos: usize) -> (r: Option<(Value, usize)>)
    ensures
        match r {
            Some((v, p)) => parse_value(bytes@, pos as int) == Some((v@, p as int)) && p
                <= bytes@.len(),
            None => parse_value(bytes@, pos as int) is None,
        },
{
    if pos >= bytes.len() {
        return None;
    }
    let tag = *vstd::slice::slice_index_get(bytes, pos);
    if tag == 0u8 {
        match decode_u64(bytes, pos + 1) {
            Some((x, p)) => Some((Value::Integer(x as i64), p)),
            None => None,
        }
    } else if tag == 1u8 {
        match decode_string(bytes, pos + 1) {
            Some((s, p)) => Some((Value::Text(s), p)),
            None => None,
        }
    } else if tag == 2u8 {
        match decode_u64(bytes, pos + 1) {
            Some((x, p)) => Some((Value::Float(x), p)),
            None => None,
        }
    } else if tag == 3u8 {
        Some((Value::Null, pos + 1))
    } else {
        None
    }
}

/// Prepend already-parsed values to a parse outcome.
pub open spec fn prepend_values(acc: Seq<ValueModel>, o: Option<(Seq<ValueModel>, int)>) -> Option<
    (Seq<ValueModel>, int),
> {
    match o {
        None => None,
        Some((vs, q)) => Some((acc + vs, q)),
    }
}

/// Read `count` values starting at `pos`.
fn decode_values(bytes: &[u8], pos: usize, count: usize) -> (r: Option<(Vec<Value>, usize)>)
    requires
        pos <= bytes@.len(),
    ensures
        match r {
            Some((vs, p)) => parse_values(bytes@, pos as int, count as nat) == Some(
                (vs@.map_values(|v: Value| v@), p as int),
            ) && p <= bytes@.len(),
            None => parse_values(bytes@, pos as int, count as nat) is None,
        },
{
    let mut acc: Vec<Value> = Vec::new();
    let mut cur: usize = pos;
    let mut rem: usize = count;
    proof {
        assert(acc@.map_values(|v: Value| v@) =~= Seq::<ValueModel>::empty());
    }
    while rem > 0
        invariant
            cur <= bytes@.len(),
            rem <= count,
            prepend_values(
                acc@.map_values(|v: Value| v@),
                parse_values(bytes@, cur as int, rem as nat),
            ) == parse_values(bytes@, pos as int, count as nat),
        decreases rem,
    {
        match decode_value(bytes, cur) {
            None => {
                return None;
            },
            Some((v, p)) => {
                proof {
                    let acc0 = acc@.map_values(|vv: Value| vv@);
                    assert(acc@.push(v).map_values(|vv: Value| vv@) =~= acc0.push(v@));
                    match parse_values(bytes@, p as int, (rem - 1) as nat) {
                        None => {},
                        Some((vs, q)) => {
                            assert(acc0 + (seq![v@] + vs) =~= acc0.push(v@) + vs);
                        },
                    }
                }
                acc.push(v);
                cur = p;
                rem = rem - 1;
            },
        }
    }
    Some((acc, cur))
}

/// Decode a whole row payload; the payload must be consumed exactly.
pub fn decode_row(bytes: &[u8]) -> (r: Option<Row>)
    ensures
        match r {
            Some(row) => parse_row(bytes@) == Some(row@),
            None => parse_row(bytes@) is None,
        },
{
    match decode_u32(bytes, 0) {
        None => None,
        Some((n, p)) => {
            match decode_values(bytes, p, n as usize) {
                None => None,
                Some((vs, q)) => {
                    if q == bytes.len() {
                        Some(Row { values: vs })
                    } else {
                        None
                    }
                },
            }
        },
    }
}

/// Read one column definition at `pos`.
fn decode_column(bytes: &[u8], pos: usize) -> (r: Option<(Column, usize)>)
    ensures
        match r {
            Some((c, p)) => parse_column(bytes@, pos as int) == Some((c@, p as int)) && p
                <= bytes@.len(),
            None => parse_column(bytes@, pos as int) is None,
        },
{
    match decode_string(bytes, pos) {
        None => None,
        Some((name, p)) => {
            if p < bytes.len() {
                let tb = *vstd::slice::slice_index_get(bytes, p);
                if tb == 0u8 {
                    Some((Column { name, column_type: ColumnType::Integer }, p + 1))
                } else if tb == 1u8 {
                    Some((Column { name, column_type: ColumnType::Text }, p + 1))
                } else if tb == 2u8 {
                    Some((Column { name, column_type: ColumnType::Float }, p + 1))
                } else {
                    None
                }
            } else {
                None
            }
        },
    }
}

/// Prepend already-parsed columns to a parse outcome.
pub open spec fn prepend_columns(acc: Seq<ColumnModel>, o: Option<(Seq<ColumnModel>, int)>) -> Option<
    (Seq<ColumnModel>, int),
> {
    match o {
        None => None,
        Some((cs, q)) => Some((acc + cs, q)),
    }
}

/// Read `count` column definitions starting at `pos`.
fn decode_columns(bytes: &[u8], pos: usize, count: usize) -> (r: Option<(Vec<Column>, usize)>)
    requires
        pos <= bytes@.len(),
    ensures
        match r {
            Some((cs, p)) => parse_columns(bytes@, pos as int, count as nat) == Some(
                (cs@.map_values(|c: Column| c@), p as int),
            ) && p <= bytes@.len(),
            None => parse_columns(bytes@, pos as int, count as nat) is None,
        },
{
    let mut acc: Vec<Column> = Vec::new();
    let mut cur: usize = pos;
    let mut rem: usize = count;
    proof {
        assert(acc@.map_values(|c: Column| c@) =~= Seq::<ColumnModel>::empty());
    }
    while rem > 0
        invariant
            cur <= bytes@.len(),
            rem <= count,
            prepend_columns(
                acc@.map_values(|c: Column| c@),
                parse_columns(bytes@, cur as int, rem as nat),
            ) == parse_columns(bytes@, pos as int, count as nat),
        decreases rem,
    {
        match decode_column(bytes, cur) {
            None => {
                return None;
            },
            Some((c, p)) => {
                proof {
                    let acc0 = acc@.map_values(|cc: Column| cc@);
                    assert(acc@.push(c).map_values(|cc: Column| cc@) =~= acc0.push(c@));
                    match parse_columns(bytes@, p as int, (rem - 1) as nat) {
                        None => {},
                        Some((cs, q)) => {
                            assert(acc0 + (seq![c@] + cs) =~= acc0.push(c@) + cs);
                        },
                    }
                }
                acc.push(c);
                cur = p;
                rem = rem - 1;
            },
        }
    }
    Some((acc, cur))
}

/// Decode a whole schema payload; the payload must be consumed exactly.
pub fn decode_schema(bytes: &[u8]) -> (r: Option<TableSchema>)
    ensures
        match r {
            Some(schema) => parse_schema(bytes@) == Some(schema@),
            None => parse_schema(bytes@) is None,
        },
{
    match decode_string(bytes, 0) {
        None => None,
        Some((name, p)) => {
            match decode_u32(bytes, p) {
                None => None,
                Some((n, q)) => {
                    match decode_columns(bytes, q, n as usize) {
                        None => None,
                        Some((cs, r2)) => {
                            if r2 == bytes.len() {
                                Some(TableSchema { name, columns: cs })
                            } else {
                                None
                            }
                        },
                    }
                },
            }
        },
    }
}

} // verus!
