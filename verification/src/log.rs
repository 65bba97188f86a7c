//! The append-only log's record framing.
//!
//! The log is a sequence of self-describing records:
//! - schema record: marker `0xFF`, 4-byte payload length, schema payload;
//! - row record: marker `0xAA`, 2-byte table-name length, UTF-8 table name
//!   bytes, 4-byte payload length, row payload.
//!
//! All lengths are little-endian.  Offsets are byte positions from the start
//! of the log; each row record's offset points at its marker byte.

use vstd::prelude::*;

use vstd::bytes::spec_u16_to_le_bytes;
use vstd::bytes::spec_u32_to_le_bytes;
use vstd::bytes::u16_from_le_bytes;
use vstd::bytes::u16_to_le_bytes;
use vstd::bytes::u32_from_le_bytes;
use vstd::bytes::u32_to_le_bytes;
use vstd::slice::slice_subrange;
use vstd::slice::slice_to_vec;
use vstd::utf8::decode_utf8;
use vstd::utf8::encode_utf8;
use vstd::utf8::encode_utf8_decode_utf8;
use vstd::utf8::encode_utf8_valid_utf8;
use vstd::utf8::valid_utf8;

use crate::codec::decode_row;
use crate::codec::lemma_le_bytes;
use crate::codec::lemma_row_round_trip;
use crate::codec::lemma_window;
use crate::codec::parse_row;
use crate::codec::row_bytes;
use crate::codec::row_fits;
use crate::types::Row;
use crate::types::ValueModel;

verus! {

/// One record of the log, at the model level.  A schema record carries its
/// payload as bytes (the log itself never re-reads schemas); a row record
/// carries the table it belongs to and the row it holds.
pub enum Record {
    Schema { payload: Seq<u8> },
    RowRec { table: Seq<char>, row: Seq<ValueModel> },
}

/// The bytes of one record.
pub open spec fn record_bytes(r: Record) -> Seq<u8> {
    match r {
        Record::Schema { payload } => seq![0xFFu8] + spec_u32_to_le_bytes(payload.len() as u32)
            + payload,
        Record::RowRec { table, row } => seq![0xAAu8] + spec_u16_to_le_bytes(
            encode_utf8(table).len() as u16,
        ) + encode_utf8(table) + spec_u32_to_le_bytes(row_bytes(row).len() as u32) + row_bytes(row),
    }
}

/// Whether a record fits the framing's length fields.
pub open spec fn record_fits(r: Record) -> bool {
    match r {
        Record::Schema { payload } => payload.len() <= u32::MAX,
        Record::RowRec { table, row } => encode_utf8(table).len() <= u16::MAX && row_fits(row)
            && row_bytes(row).len() <= u32::MAX,
    }
}

/// The bytes of a sequence of records.
pub open spec fn records_bytes(rs: Seq<Record>) -> Seq<u8>
    decreases rs.len(),
{
    if rs.len() == 0 {
        Seq::empty()
    } else {
        record_bytes(rs[0]) + records_bytes(rs.drop_first())
    }
}

/// The shape of one record's bytes: length and marker byte.
pub proof fn lemma_record_bytes_shape(r: Record)
    ensures
        match r {
            Record::Schema { payload } => record_bytes(r).len() == 5 + payload.len()
                && record_bytes(r)[0] == 0xFFu8,
            Record::RowRec { table, row } => record_bytes(r).len() == 7 + encode_utf8(table).len()
                + row_bytes(row).len() && record_bytes(r)[0] == 0xAAu8,
        },
{
    lemma_le_bytes();
}

/// Appending one record's bytes extends the records' bytes.
pub proof fn lemma_records_bytes_push(rs: Seq<Record>, r: Record)
    ensures
        records_bytes(rs.push(r)) == records_bytes(rs) + record_bytes(r),
    decreases rs.len(),
{
    if rs.len() == 0 {
        assert(rs.push(r)[0] == r);
        assert(rs.push(r).drop_first() =~= Seq::<Record>::empty());
        assert(records_bytes(rs.push(r)) == record_bytes(r) + records_bytes(
            Seq::<Record>::empty(),
        ));
        assert(record_bytes(r) + Seq::<u8>::empty() =~= Seq::<u8>::empty() + record_bytes(r));
    } else {
        assert(rs.push(r)[0] == rs[0]);
        assert(rs.push(r).drop_first() =~= rs.drop_first().push(r));
        assert(records_bytes(rs.push(r)) == record_bytes(rs[0]) + records_bytes(
            rs.drop_first().push(r),
        ));
        lemma_records_bytes_push(rs.drop_first(), r);
        assert(record_bytes(rs[0]) + (records_bytes(rs.drop_first()) + record_bytes(r)) =~= (
        record_bytes(rs[0]) + records_bytes(rs.drop_first())) + record_bytes(r));
    }
}

/// The records' bytes split at any record boundary.
pub proof fn lemma_records_bytes_split(rs: Seq<Record>, k: int)
    requires
        0 <= k <= rs.len(),
    ensures
        records_bytes(rs) == records_bytes(rs.take(k)) + records_bytes(rs.skip(k)),
    decreases k,
{
    if k == 0 {
        assert(rs.take(0) =~= Seq::<Record>::empty());
        assert(rs.skip(0) =~= rs);
        assert(Seq::<u8>::empty() + records_bytes(rs) =~= records_bytes(rs));
    } else {
        assert(rs.take(k)[0] == rs[0]);
        assert(rs.take(k).drop_first() =~= rs.drop_first().take(k - 1));
        assert(rs.skip(k) =~= rs.drop_first().skip(k - 1));
        lemma_records_bytes_split(rs.drop_first(), k - 1);
        assert(records_bytes(rs.take(k)) == record_bytes(rs[0]) + records_bytes(
            rs.drop_first().take(k - 1),
        ));
        assert(record_bytes(rs[0]) + (records_bytes(rs.drop_first().take(k - 1)) + records_bytes(
            rs.drop_first().skip(k - 1),
        )) =~= (record_bytes(rs[0]) + records_bytes(rs.drop_first().take(k - 1)))
            + records_bytes(rs.drop_first().skip(k - 1)));
    }
}

/// The table of a row record (the empty string for a schema record).
pub open spec fn rec_table(r: Record) -> Seq<char> {
    match r {
        Record::RowRec { table, row } => table,
        Record::Schema { payload } => Seq::empty(),
    }
}

/// The row of a row record (the empty row for a schema record).
pub open spec fn rec_row(r: Record) -> Seq<ValueModel> {
    match r {
        Record::RowRec { table, row } => row,
        Record::Schema { payload } => Seq::empty(),
    }
}

/// The rows of one table among the records, each with the log offset of its
/// record, in log order; `base` is the offset of the first record.
pub open spec fn table_rows_from(rs: Seq<Record>, table: Seq<char>, base: int) -> Seq<
    (int, Seq<ValueModel>),
>
    decreases rs.len(),
{
    if rs.len() == 0 {
        Seq::empty()
    } else {
        let rest = table_rows_from(
            rs.drop_first(),
            table,
            base + record_bytes(rs[0]).len(),
        );
        match rs[0] {
            Record::RowRec { table: t, row } => if t == table {
                seq![(base, row)] + rest
            } else {
                rest
            },
            Record::Schema { .. } => rest,
        }
    }
}

/// The rows of one table, in log order, without their offsets.
pub open spec fn table_rows(rs: Seq<Record>, table: Seq<char>) -> Seq<Seq<ValueModel>> {
    table_rows_from(rs, table, 0).map_values(|p: (int, Seq<ValueModel>)| p.1)
}

/// What one appended record adds to a table's rows: its row at the end, at
/// the offset where the log previously ended.
pub proof fn lemma_table_rows_from_push(rs: Seq<Record>, r: Record, table: Seq<char>, base: int)
    ensures
        table_rows_from(rs.push(r), table, base) == table_rows_from(rs, table, base) + (match r {
            Record::RowRec { table: t, row } => if t == table {
                seq![(base + records_bytes(rs).len() as int, row)]
            } else {
                Seq::empty()
            },
            Record::Schema { .. } => Seq::empty(),
        }),
    decreases rs.len(),
{
    let tail: Seq<(int, Seq<ValueModel>)> = match r {
        Record::RowRec { table: t, row } => if t == table {
            seq![(base + records_bytes(rs).len() as int, row)]
        } else {
            Seq::empty()
        },
        Record::Schema { .. } => Seq::empty(),
    };
    if rs.len() == 0 {
        assert(rs.push(r)[0] == r);
        assert(rs.push(r).drop_first() =~= Seq::<Record>::empty());
        assert(table_rows_from(
            Seq::<Record>::empty(),
            table,
            base + record_bytes(r).len(),
        ) == Seq::<(int, Seq<ValueModel>)>::empty());
        assert(records_bytes(rs).len() == 0);
        match r {
            Record::RowRec { table: t, row } => {
                if t == table {
                    assert(seq![(base, row)] + Seq::<(int, Seq<ValueModel>)>::empty() =~= Seq::<
                        (int, Seq<ValueModel>),
                    >::empty() + seq![(base, row)]);
                }
            },
            Record::Schema { .. } => {},
        }
        assert(table_rows_from(rs, table, base) + tail =~= tail);
        assert(table_rows_from(rs.push(r), table, base) =~= tail);
    } else {
        assert(rs.push(r)[0] == rs[0]);
        assert(rs.push(r).drop_first() =~= rs.drop_first().push(r));
        let base1 = base + record_bytes(rs[0]).len() as int;
        lemma_table_rows_from_push(rs.drop_first(), r, table, base1);
        assert(base1 + records_bytes(rs.drop_first()).len() as int == base + records_bytes(
            rs,
        ).len() as int);
        let head: Seq<(int, Seq<ValueModel>)> = match rs[0] {
            Record::RowRec { table: t, row } => if t == table {
                seq![(base, row)]
            } else {
                Seq::empty()
            },
            Record::Schema { .. } => Seq::empty(),
        };
        assert(table_rows_from(rs.push(r), table, base) == head + table_rows_from(
            rs.drop_first().push(r),
            table,
            base1,
        ));
        assert(table_rows_from(rs, table, base) == head + table_rows_from(
            rs.drop_first(),
            table,
            base1,
        ));
        assert(head + (table_rows_from(rs.drop_first(), table, base1) + tail) =~= (head
            + table_rows_from(rs.drop_first(), table, base1)) + tail);
    }
}

/// The row records that appending a sequence of rows for one table adds to
/// the log.
pub open spec fn row_records(table: Seq<char>, rows: Seq<Seq<ValueModel>>) -> Seq<Record> {
    rows.map_values(|r: Seq<ValueModel>| Record::RowRec { table, row: r })
}

/// For any log and any sequence of rows appended for one table, a full scan
/// of that table afterwards returns exactly the earlier rows followed by the
/// appended rows, in insertion order; every other table's rows are
/// untouched.
pub proof fn lemma_scan_after_inserts(
    rs: Seq<Record>,
    table: Seq<char>,
    rows: Seq<Seq<ValueModel>>,
)
    ensures
        table_rows(rs + row_records(table, rows), table) == table_rows(rs, table) + rows,
        forall|t: Seq<char>| t != table ==> #[trigger] table_rows(rs + row_records(table, rows), t)
            == table_rows(rs, t),
    decreases rows.len(),
{
    if rows.len() == 0 {
        assert(rs + row_records(table, rows) =~= rs);
        assert(table_rows(rs, table) + rows =~= table_rows(rs, table));
    } else {
        let prefix = rows.drop_last();
        lemma_scan_after_inserts(rs, table, prefix);
        let rs1 = rs + row_records(table, prefix);
        let last = Record::RowRec { table, row: rows.last() };
        assert(rs + row_records(table, rows) =~= rs1.push(last));
        lemma_table_rows_from_push(rs1, last, table, 0);
        let off = records_bytes(rs1).len() as int;
        assert((table_rows_from(rs1, table, 0) + seq![(off, rows.last())]).map_values(
            |p: (int, Seq<ValueModel>)| p.1,
        ) =~= table_rows(rs1, table).push(rows.last()));
        assert((table_rows(rs, table) + prefix).push(rows.last()) =~= table_rows(rs, table)
            + rows);
        assert forall|t: Seq<char>| t != table implies #[trigger] table_rows(rs1.push(last), t)
            == table_rows(rs, t) by {
            lemma_table_rows_from_push(rs1, last, t, 0);
            assert(table_rows_from(rs1.push(last), t, 0) == table_rows_from(rs1, t, 0) + Seq::<
                (int, Seq<ValueModel>),
            >::empty());
            assert(table_rows_from(rs1, t, 0) + Seq::<(int, Seq<ValueModel>)>::empty()
                =~= table_rows_from(rs1, t, 0));
            assert(table_rows(rs1.push(last), t) == table_rows(rs1, t));
            assert(table_rows(rs + row_records(table, prefix), t) == table_rows(rs, t));
        }
        assert forall|t: Seq<char>|
            t != table implies #[trigger] table_rows(rs + row_records(table, rows), t)
            == table_rows(rs, t) by {
            assert(table_rows(rs + row_records(table, rows), t) == table_rows(
                rs1.push(last),
                t,
            ));
        }
    }
}

/// Every listed row stands at a record boundary: its offset is the length of
/// the bytes of the records before it, and the record there is its row
/// record.
pub proof fn lemma_table_rows_member(rs: Seq<Record>, table: Seq<char>, base: int, i: int)
    requires
        0 <= i < table_rows_from(rs, table, base).len(),
    ensures
        exists|k: int|
            0 <= k < rs.len() && rs[k] == (Record::RowRec {
                table,
                row: table_rows_from(rs, table, base)[i].1,
            }) && table_rows_from(rs, table, base)[i].0 == base + records_bytes(
                rs.take(k),
            ).len() as int,
    decreases rs.len(),
{
    let pairs = table_rows_from(rs, table, base);
    let base1 = base + record_bytes(rs[0]).len() as int;
    let rest = table_rows_from(rs.drop_first(), table, base1);
    let head_is_match = rs[0] matches Record::RowRec { table: t, row } && t == table;
    if head_is_match && i == 0 {
        let k: int = 0;
        assert(rs.take(0) =~= Seq::<Record>::empty());
        assert(records_bytes(rs.take(0)).len() == 0);
        assert(pairs[0].0 == base);
        assert(rs[0] == (Record::RowRec { table, row: pairs[0].1 }));
    } else {
        let j = if head_is_match {
            i - 1
        } else {
            i
        };
        assert(rest[j] == pairs[i]);
        lemma_table_rows_member(rs.drop_first(), table, base1, j);
        let k1 = choose|k1: int|
            0 <= k1 < rs.drop_first().len() && rs.drop_first()[k1] == (Record::RowRec {
                table,
                row: rest[j].1,
            }) && rest[j].0 == base1 + records_bytes(rs.drop_first().take(k1)).len() as int;
        let k = k1 + 1;
        assert(rs[k] == rs.drop_first()[k1]);
        assert(rs.take(k)[0] == rs[0]);
        assert(rs.take(k).drop_first() =~= rs.drop_first().take(k1));
        assert(records_bytes(rs.take(k)) == record_bytes(rs[0]) + records_bytes(
            rs.drop_first().take(k1),
        ));
        assert(pairs[i].0 == base + records_bytes(rs.take(k)).len() as int);
    }
}

/// Each record takes at least one byte, so a log holds no more records than
/// bytes.
pub proof fn lemma_records_bytes_count(rs: Seq<Record>)
    ensures
        rs.len() <= records_bytes(rs).len(),
    decreases rs.len(),
{
    if rs.len() > 0 {
        lemma_record_bytes_shape(rs[0]);
        lemma_records_bytes_count(rs.drop_first());
    }
}

/// A table has no more rows than the log has records.
pub proof fn lemma_table_rows_from_len(rs: Seq<Record>, table: Seq<char>, base: int)
    ensures
        table_rows_from(rs, table, base).len() <= rs.len(),
    decreases rs.len(),
{
    if rs.len() > 0 {
        lemma_table_rows_from_len(rs.drop_first(), table, base + record_bytes(rs[0]).len() as int);
    }
}

/// A table no row record names has no rows.
pub proof fn lemma_table_rows_from_none(rs: Seq<Record>, table: Seq<char>, base: int)
    requires
        forall|k: int| 0 <= k < rs.len() ==> !((#[trigger] rs[k]) is RowRec && rec_table(rs[k])
            == table),
    ensures
        table_rows_from(rs, table, base) == Seq::<(int, Seq<ValueModel>)>::empty(),
    decreases rs.len(),
{
    if rs.len() > 0 {
        assert(rs[0] == rs[0]);
        assert forall|k: int| 0 <= k < rs.drop_first().len() implies !((#[trigger] rs.drop_first()[k])
            is RowRec && rec_table(rs.drop_first()[k]) == table) by {
            assert(rs.drop_first()[k] == rs[k + 1]);
        }
        lemma_table_rows_from_none(
            rs.drop_first(),
            table,
            base + record_bytes(rs[0]).len() as int,
        );
    }
}

/// The rows among `pairs` whose value at position `ci` is `key`, in order.
pub open spec fn pairs_matching(
    pairs: Seq<(int, Seq<ValueModel>)>,
    ci: int,
    key: ValueModel,
) -> Seq<(int, Seq<ValueModel>)>
    decreases pairs.len(),
{
    if pairs.len() == 0 {
        Seq::empty()
    } else {
        let rest = pairs_matching(pairs.drop_first(), ci, key);
        if 0 <= ci < pairs[0].1.len() && pairs[0].1[ci] == key {
            seq![pairs[0]] + rest
        } else {
            rest
        }
    }
}

/// The offsets the index must record for a key: those of the table's rows
/// whose indexed column holds the key, in log order.
pub open spec fn matching_offsets(
    rs: Seq<Record>,
    table: Seq<char>,
    ci: int,
    key: ValueModel,
) -> Seq<int> {
    pairs_matching(table_rows_from(rs, table, 0), ci, key).map_values(
        |p: (int, Seq<ValueModel>)| p.0,
    )
}

/// What one appended pair adds to the matching pairs.
pub proof fn lemma_pairs_matching_push(
    pairs: Seq<(int, Seq<ValueModel>)>,
    p: (int, Seq<ValueModel>),
    ci: int,
    key: ValueModel,
)
    ensures
        pairs_matching(pairs.push(p), ci, key) == pairs_matching(pairs, ci, key) + (if 0 <= ci
            < p.1.len() && p.1[ci] == key {
            seq![p]
        } else {
            Seq::empty()
        }),
    decreases pairs.len(),
{
    let tail: Seq<(int, Seq<ValueModel>)> = if 0 <= ci < p.1.len() && p.1[ci] == key {
        seq![p]
    } else {
        Seq::empty()
    };
    if pairs.len() == 0 {
        assert(pairs.push(p)[0] == p);
        assert(pairs.push(p).drop_first() =~= Seq::<(int, Seq<ValueModel>)>::empty());
        assert(pairs_matching(Seq::<(int, Seq<ValueModel>)>::empty(), ci, key) == Seq::<
            (int, Seq<ValueModel>),
        >::empty());
        if 0 <= ci < p.1.len() && p.1[ci] == key {
            assert(pairs_matching(pairs.push(p), ci, key) == seq![p] + Seq::<
                (int, Seq<ValueModel>),
            >::empty());
            assert(seq![p] + Seq::<(int, Seq<ValueModel>)>::empty() =~= tail);
        } else {
            assert(pairs_matching(pairs.push(p), ci, key) == Seq::<
                (int, Seq<ValueModel>),
            >::empty());
        }
        assert(pairs_matching(pairs, ci, key) + tail =~= tail);
    } else {
        assert(pairs.push(p)[0] == pairs[0]);
        assert(pairs.push(p).drop_first() =~= pairs.drop_first().push(p));
        lemma_pairs_matching_push(pairs.drop_first(), p, ci, key);
        if 0 <= ci < pairs[0].1.len() && pairs[0].1[ci] == key {
            assert(seq![pairs[0]] + (pairs_matching(pairs.drop_first(), ci, key) + tail) =~= (
            seq![pairs[0]] + pairs_matching(pairs.drop_first(), ci, key)) + tail);
        }
    }
}

/// Every matching pair is one of the pairs.
pub proof fn lemma_pairs_matching_member(
    pairs: Seq<(int, Seq<ValueModel>)>,
    ci: int,
    key: ValueModel,
    i: int,
)
    requires
        0 <= i < pairs_matching(pairs, ci, key).len(),
    ensures
        exists|j: int| 0 <= j < pairs.len() && pairs[j] == pairs_matching(pairs, ci, key)[i]
            && 0 <= ci < pairs[j].1.len() && pairs[j].1[ci] == key,
    decreases pairs.len(),
{
    let m = pairs_matching(pairs, ci, key);
    let head_match = 0 <= ci < pairs[0].1.len() && pairs[0].1[ci] == key;
    if head_match && i == 0 {
        assert(pairs[0] == m[0]);
    } else {
        let i1 = if head_match {
            i - 1
        } else {
            i
        };
        assert(pairs_matching(pairs.drop_first(), ci, key)[i1] == m[i]);
        lemma_pairs_matching_member(pairs.drop_first(), ci, key, i1);
        let j1 = choose|j1: int|
            0 <= j1 < pairs.drop_first().len() && pairs.drop_first()[j1] == pairs_matching(
                pairs.drop_first(),
                ci,
                key,
            )[i1] && 0 <= ci < pairs.drop_first()[j1].1.len() && pairs.drop_first()[j1].1[ci]
                == key;
        assert(pairs[j1 + 1] == pairs.drop_first()[j1]);
    }
}

/// Stepping over one record moves the suffix relation one record forward.
pub proof fn lemma_log_step(log: Seq<u8>, rs: Seq<Record>, k0: int, pos: int, next: int)
    requires
        0 <= k0 < rs.len(),
        0 <= pos <= log.len(),
        log.skip(pos) == records_bytes(rs.skip(k0)),
        next == pos + record_bytes(rs[k0]).len(),
    ensures
        next <= log.len(),
        log.skip(next) == records_bytes(rs.skip(k0 + 1)),
{
    assert(rs.skip(k0)[0] == rs[k0]);
    assert(rs.skip(k0).drop_first() =~= rs.skip(k0 + 1));
    let head = rs[k0];
    assert(records_bytes(rs.skip(k0)) == record_bytes(head) + records_bytes(rs.skip(k0 + 1)));
    assert(log.skip(pos).len() == log.len() - pos);
    assert forall|i: int| 0 <= i < log.skip(next).len() implies log.skip(next)[i]
        == records_bytes(rs.skip(k0 + 1))[i] by {
        assert(log.skip(pos)[next - pos + i] == log[next + i]);
        assert((record_bytes(head) + records_bytes(rs.skip(k0 + 1)))[next - pos + i]
            == records_bytes(rs.skip(k0 + 1))[i]);
    }
    assert(log.skip(next) =~= records_bytes(rs.skip(k0 + 1)));
}

/// A window at the start of a suffix of the log.
pub proof fn lemma_skip_window(log: Seq<u8>, pos: int, w: Seq<u8>, rest: Seq<u8>)
    requires
        0 <= pos <= log.len(),
        log.skip(pos) == w + rest,
    ensures
        log.subrange(pos, pos + w.len() as int) == w,
        pos + w.len() + rest.len() == log.len(),
{
    assert(log.skip(pos).len() == log.len() - pos);
    assert forall|i: int| 0 <= i < w.len() implies log.subrange(pos, pos + w.len() as int)[i]
        == w[i] by {
        assert(log.skip(pos)[i] == log[pos + i]);
        assert((w + rest)[i] == w[i]);
    }
    assert(log.subrange(pos, pos + w.len() as int) =~= w);
}

/// Append a schema record to the log.
pub fn append_schema_record(log: &mut Vec<u8>, payload: &Vec<u8>)
    requires
        payload@.len() <= u32::MAX,
    ensures
        final(log)@ == old(log)@ + record_bytes(Record::Schema { payload: payload@ }),
{
    let ghost log0 = old(log)@;
    log.push(0xFFu8);
    let lb = u32_to_le_bytes(payload.len() as u32);
    crate::codec::append_slice(log, lb.as_slice());
    crate::codec::append_slice(log, payload.as_slice());
    proof {
        assert(log0.push(0xFFu8) =~= log0 + seq![0xFFu8]);
        assert(log0 + seq![0xFFu8] + lb@ + payload@ =~= log0 + (seq![0xFFu8] + lb@ + payload@));
    }
}

/// Append a row record to the log.  The caller supplies the UTF-8 bytes of
/// the table name and the row's encoded payload.
pub fn append_row_record(
    log: &mut Vec<u8>,
    name_bytes: &Vec<u8>,
    payload: &Vec<u8>,
    Ghost(table): Ghost<Seq<char>>,
    Ghost(row): Ghost<Seq<ValueModel>>,
)
    requires
        name_bytes@ == encode_utf8(table),
        name_bytes@.len() <= u16::MAX,
        payload@ == row_bytes(row),
        payload@.len() <= u32::MAX,
    ensures
        final(log)@ == old(log)@ + record_bytes(Record::RowRec { table, row }),
{
    let ghost log0 = old(log)@;
    log.push(0xAAu8);
    let nlb = u16_to_le_bytes(name_bytes.len() as u16);
    crate::codec::append_slice(log, nlb.as_slice());
    crate::codec::append_slice(log, name_bytes.as_slice());
    let plb = u32_to_le_bytes(payload.len() as u32);
    crate::codec::append_slice(log, plb.as_slice());
    crate::codec::append_slice(log, payload.as_slice());
    proof {
        assert(log0.push(0xAAu8) =~= log0 + seq![0xAAu8]);
        assert(log0 + seq![0xAAu8] + nlb@ + name_bytes@ + plb@ + payload@ =~= log0 + (seq![0xAAu8]
            + nlb@ + name_bytes@ + plb@ + payload@));
    }
}

/// Read one record at `pos`: its end position, and, for a row record, the
/// table name and the row it holds.
pub fn read_record(log: &Vec<u8>, pos: usize, Ghost(rs): Ghost<Seq<Record>>) -> (r: (
    Option<(String, Row)>,
    usize,
))
    requires
        rs.len() > 0,
        forall|i: int| 0 <= i < rs.len() ==> record_fits(#[trigger] rs[i]),
        pos <= log@.len(),
        log@.skip(pos as int) == records_bytes(rs),
    ensures
        r.1 as int == pos + record_bytes(rs[0]).len(),
        r.1 <= log@.len(),
        rs[0] is Schema ==> r.0 is None,
        rs[0] is RowRec ==> (r.0 matches Some(p) && p.0@ == rec_table(rs[0]) && p.1@ == rec_row(
            rs[0],
        )),
{
    let loglen: usize = log.len();
    let ghost w = record_bytes(rs[0]);
    proof {
        lemma_record_bytes_shape(rs[0]);
        assert(records_bytes(rs) == record_bytes(rs[0]) + records_bytes(rs.drop_first()));
        lemma_skip_window(log@, pos as int, w, records_bytes(rs.drop_first()));
        lemma_le_bytes();
        assert(log@[pos as int] == log@.subrange(pos as int, pos as int + w.len() as int)[0]);
    }
    let marker = log[pos];
    if marker == 0xFFu8 {
        proof {
            assert(rs[0] is Schema);
            assert(pos + w.len() <= loglen);
            assert(w.len() >= 5);
            lemma_window(log@, pos as int, w, 1, 5);
            match rs[0] {
                Record::Schema { payload } => {
                    assert(w.subrange(1, 5) =~= spec_u32_to_le_bytes(payload.len() as u32));
                },
                Record::RowRec { table, row } => {},
            }
        }
        let plen = u32_from_le_bytes(slice_subrange(log.as_slice(), pos + 1, pos + 5)) as usize;
        proof {
            match rs[0] {
                Record::Schema { payload } => {
                    assert(plen == payload.len());
                    assert(w.len() == 5 + plen);
                },
                Record::RowRec { table, row } => {},
            }
        }
        (None, pos + 5 + plen)
    } else {
        let ghost table = rec_table(rs[0]);
        let ghost row = rec_row(rs[0]);
        let ghost nb = encode_utf8(table);
        let ghost pb = row_bytes(row);
        proof {
            assert(rs[0] is RowRec);
            assert(pos + w.len() <= loglen);
            assert(w.len() == 7 + nb.len() + pb.len());
            lemma_window(log@, pos as int, w, 1, 3);
            assert(w.subrange(1, 3) =~= spec_u16_to_le_bytes(nb.len() as u16));
        }
        let nlen = u16_from_le_bytes(slice_subrange(log.as_slice(), pos + 1, pos + 3)) as usize;
        proof {
            assert(nlen == nb.len());
            lemma_window(log@, pos as int, w, 3, 3 + nb.len() as int);
            assert(w.subrange(3, 3 + nb.len() as int) =~= nb);
        }
        let name_slice = slice_subrange(log.as_slice(), pos + 3, pos + 3 + nlen);
        let name = match crate::codec::string_from_utf8(slice_to_vec(name_slice)) {
            Some(s) => s,
            None => {
                proof {
                    encode_utf8_valid_utf8(table);
                }
                vstd::pervasive::unreached()
            },
        };
        proof {
            encode_utf8_valid_utf8(table);
            encode_utf8_decode_utf8(table);
            assert(name@ == table);
            lemma_window(log@, pos as int, w, 3 + nb.len() as int, 7 + nb.len() as int);
            assert(w.subrange(3 + nb.len() as int, 7 + nb.len() as int) =~= spec_u32_to_le_bytes(
                pb.len() as u32,
            ));
        }
        let plen = u32_from_le_bytes(
            slice_subrange(log.as_slice(), pos + 3 + nlen, pos + 7 + nlen),
        ) as usize;
        proof {
            assert(plen == pb.len());
            lemma_window(log@, pos as int, w, 7 + nb.len() as int, w.len() as int);
            assert(w.subrange(7 + nb.len() as int, w.len() as int) =~= pb);
            lemma_row_round_trip(row);
        }
        let payload_slice = slice_subrange(log.as_slice(), pos + 7 + nlen, pos + 7 + nlen + plen);
        let row_val = match decode_row(payload_slice) {
            Some(rv) => rv,
            None => { vstd::pervasive::unreached() },
        };
        proof {
            assert(row_val@ == row);
        }
        (Some((name, row_val)), pos + 7 + nlen + plen)
    }
}

} // verus!
