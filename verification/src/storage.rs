//! The storage engine: an append-only log of schema and row records, an
//! in-memory catalog, full scans, and value-keyed secondary indexes built by
//! log replay.
//!
//! The log is kept as a byte image in memory; a caller that wants durability
//! appends the same bytes to a file (offsets are byte positions from the
//! start, so a file written this way reads back identically).  Reopening a
//! file does not rebuild the catalog or the indexes: statements must be
//! re-issued, as there is no startup replay.

use vstd::prelude::*;


use crate::codec::encode_row;
use crate::codec::encode_schema;
use crate::codec::schema_bytes;
use crate::codec::schema_fits;
use crate::log::lemma_pairs_matching_member;
use crate::log::lemma_pairs_matching_push;
use crate::log::lemma_record_bytes_shape;
use crate::log::lemma_records_bytes_count;
use crate::log::lemma_records_bytes_push;
use crate::log::lemma_records_bytes_split;
use crate::log::lemma_table_rows_from_len;
use crate::log::lemma_table_rows_from_none;
use crate::log::lemma_table_rows_from_push;
use crate::log::lemma_table_rows_member;
use crate::log::matching_offsets;
use crate::log::pairs_matching;
use crate::log::rec_row;
use crate::log::rec_table;
use crate::log::read_record;
use crate::log::record_bytes;
use crate::log::record_fits;
use crate::log::records_bytes;
use crate::log::table_rows;
use crate::log::table_rows_from;
use crate::log::Record;
use crate::log::append_row_record;
use crate::log::append_schema_record;
use crate::types::index_entries_nonempty;
use crate::types::index_keys_distinct;
use crate::types::row_matches_schema;
use crate::types::spec_col_index;
use crate::types::spec_index_lookup;
use crate::types::Error;
use crate::types::Index;
use crate::types::Row;
use crate::types::TableSchema;
use crate::types::Value;
use crate::types::ValueModel;

verus! {

/// One catalog entry: a table's schema and its advisory row count.
pub struct TableEntry {
    pub schema: TableSchema,
    pub row_count: u64,
}

/// Position of the first catalog entry with the given table name, if any.
pub open spec fn catalog_index(tables: Seq<TableEntry>, name: Seq<char>) -> Option<int>
    decreases tables.len(),
{
    if tables.len() == 0 {
        None
    } else if tables[0].schema@.name == name {
        Some(0)
    } else {
        match catalog_index(tables.drop_first(), name) {
            Some(i) => Some(i + 1),
            None => None,
        }
    }
}

/// The first catalog match of a name is at `i` exactly when the entries
/// before `i` carry other names.
pub proof fn lemma_catalog_found(tables: Seq<TableEntry>, name: Seq<char>, i: int)
    requires
        0 <= i < tables.len(),
        tables[i].schema@.name == name,
        forall|j: int| 0 <= j < i ==> (#[trigger] tables[j]).schema@.name != name,
    ensures
        catalog_index(tables, name) == Some(i),
    decreases i,
{
    if i > 0 {
        assert(tables[0].schema@.name != name);
        assert forall|j: int| 0 <= j < i - 1 implies (#[trigger] tables.drop_first()[j]).schema@.name
            != name by {
            assert(tables.drop_first()[j] == tables[j + 1]);
        }
        lemma_catalog_found(tables.drop_first(), name, i - 1);
    }
}

/// A name no catalog entry carries is not found.
pub proof fn lemma_catalog_absent(tables: Seq<TableEntry>, name: Seq<char>)
    requires
        forall|j: int| 0 <= j < tables.len() ==> (#[trigger] tables[j]).schema@.name != name,
    ensures
        catalog_index(tables, name) is None,
    decreases tables.len(),
{
    if tables.len() > 0 {
        assert(tables[0].schema@.name != name);
        assert forall|j: int| 0 <= j < tables.drop_first().len() implies (#[trigger] tables
            .drop_first()[j]).schema@.name != name by {
            assert(tables.drop_first()[j] == tables[j + 1]);
        }
        lemma_catalog_absent(tables.drop_first(), name);
    }
}

/// The found position is in range and carries the name.
pub proof fn lemma_catalog_props(tables: Seq<TableEntry>, name: Seq<char>)
    ensures
        catalog_index(tables, name) matches Some(i) ==> 0 <= i < tables.len()
            && tables[i].schema@.name == name,
    decreases tables.len(),
{
    if tables.len() > 0 && tables[0].schema@.name != name {
        lemma_catalog_props(tables.drop_first(), name);
    }
}

/// Catalog lookups depend only on the entries' names: two catalogs with the
/// same names agree on every lookup.
pub proof fn lemma_catalog_same_names(t1: Seq<TableEntry>, t2: Seq<TableEntry>, name: Seq<char>)
    requires
        t1.len() == t2.len(),
        forall|i: int| 0 <= i < t1.len() ==> (#[trigger] t1[i]).schema@.name
            == (#[trigger] t2[i]).schema@.name,
    ensures
        catalog_index(t1, name) == catalog_index(t2, name),
    decreases t1.len(),
{
    if t1.len() > 0 {
        assert(t1[0].schema@.name == t2[0].schema@.name);
        assert forall|i: int| 0 <= i < t1.drop_first().len() implies (#[trigger] t1.drop_first()[i]).schema@.name
            == (#[trigger] t2.drop_first()[i]).schema@.name by {
            assert(t1.drop_first()[i] == t1[i + 1]);
            assert(t2.drop_first()[i] == t2[i + 1]);
        }
        lemma_catalog_same_names(t1.drop_first(), t2.drop_first(), name);
    }
}

/// Appending a catalog entry keeps every earlier lookup and adds the new
/// name at the end.
pub proof fn lemma_catalog_push(tables: Seq<TableEntry>, e: TableEntry, name: Seq<char>)
    ensures
        catalog_index(tables, name) is Some ==> catalog_index(tables.push(e), name)
            == catalog_index(tables, name),
        catalog_index(tables, name) is None && e.schema@.name == name ==> catalog_index(
            tables.push(e),
            name,
        ) == Some(tables.len() as int),
        catalog_index(tables, name) is None && e.schema@.name != name ==> catalog_index(
            tables.push(e),
            name,
        ) is None,
    decreases tables.len(),
{
    if tables.len() == 0 {
        assert(tables.push(e)[0] == e);
        assert(tables.push(e).drop_first() =~= Seq::<TableEntry>::empty());
        assert(catalog_index(Seq::<TableEntry>::empty(), name) is None);
        if e.schema@.name == name {
            assert(catalog_index(tables.push(e), name) == Some(0int));
        } else {
            assert(catalog_index(tables.push(e), name) == catalog_index(
                Seq::<TableEntry>::empty(),
                name,
            ));
        }
    } else {
        assert(tables.push(e)[0] == tables[0]);
        assert(tables.push(e).drop_first() =~= tables.drop_first().push(e));
        lemma_catalog_push(tables.drop_first(), e, name);
        if tables[0].schema@.name == name {
        } else {
            assert(catalog_index(tables.push(e), name) == match catalog_index(
                tables.drop_first().push(e),
                name,
            ) {
                Some(i) => Some(i + 1),
                None => None,
            });
            assert(catalog_index(tables, name) == match catalog_index(
                tables.drop_first(),
                name,
            ) {
                Some(i) => Some(i + 1),
                None => None,
            });
        }
    }
}

/// Whether a schema fits in one schema record.
pub open spec fn schema_record_fits(s: crate::types::SchemaModel) -> bool {
    &&& schema_fits(s)
    &&& schema_bytes(s).len() <= u32::MAX
}

/// Whether a row for a table fits in one row record.
pub open spec fn row_record_fits(table: Seq<char>, row: Seq<ValueModel>) -> bool {
    record_fits(Record::RowRec { table, row })
}

/// The main storage engine:
/// - append-only log (kept as bytes in memory) for schema and row records;
/// - in-memory catalog mapping table name to (schema, row count);
/// - in-memory secondary indexes for fast equality lookups.
pub struct BitcaskStorage {
    log: Vec<u8>,
    tables: Vec<TableEntry>,
    indexes: Vec<Index>,
    recs: Ghost<Seq<Record>>,
}

impl BitcaskStorage {
    /// The records the log holds, at the model level.
    pub closed spec fn recs(self) -> Seq<Record> {
        self.recs@
    }

    /// The catalog, at the model level.
    pub closed spec fn catalog(self) -> Seq<TableEntry> {
        self.tables@
    }

    /// The indexes, at the model level.
    pub closed spec fn index_list(self) -> Seq<Index> {
        self.indexes@
    }

    /// One index is sound and complete for the log: its column position is
    /// the column's position in its table's schema, and for every key it
    /// records exactly the offsets of that table's rows holding the key.
    pub open spec fn index_wf(self, idx: Index) -> bool {
        &&& index_keys_distinct(idx.entries@)
        &&& index_entries_nonempty(idx.entries@)
        &&& catalog_index(self.catalog(), idx.table_name@) matches Some(ti)
            && spec_col_index(self.catalog()[ti].schema@.columns, idx.column_name@) == Some(
            idx.column_index as int,
        )
        &&& forall|key: ValueModel|
            (#[trigger] spec_index_lookup(idx.entries@, key)).map_values(|o: usize| o as int)
                == matching_offsets(self.recs(), idx.table_name@, idx.column_index as int, key)
    }

    /// The engine's invariant.
    pub open spec fn wf(self) -> bool {
        &&& self.log_view() == records_bytes(self.recs())
        &&& forall|i: int| 0 <= i < self.recs().len() ==> record_fits(#[trigger] self.recs()[i])
        &&& forall|i: int, j: int| 0 <= i < j < self.catalog().len() ==> (#[trigger] self.catalog()[i]).schema@.name
            != (#[trigger] self.catalog()[j]).schema@.name
        &&& forall|i: int| 0 <= i < self.catalog().len() ==> (#[trigger] self.catalog()[i]).row_count
            == table_rows(self.recs(), self.catalog()[i].schema@.name).len()
        &&& forall|k: int|
            0 <= k < self.recs().len() && (#[trigger] self.recs()[k]) is RowRec ==> (catalog_index(
                self.catalog(),
                rec_table(self.recs()[k]),
            ) matches Some(ti) && row_matches_schema(
                rec_row(self.recs()[k]),
                self.catalog()[ti].schema@.columns,
            ))
        &&& forall|i: int| 0 <= i < self.index_list().len() ==> self.index_wf(
            #[trigger] self.index_list()[i],
        )
        &&& forall|i: int, j: int|
            0 <= i < j < self.index_list().len() ==> !((#[trigger] self.index_list()[i]).table_name@
                == (#[trigger] self.index_list()[j]).table_name@ && self.index_list()[i].column_name@
                == self.index_list()[j].column_name@)
    }

    /// A fresh, empty engine.
    pub fn new() -> (r: Self)
        ensures
            r.wf(),
            r.recs() == Seq::<Record>::empty(),
            r.catalog() == Seq::<TableEntry>::empty(),
            r.index_list() == Seq::<Index>::empty(),
            r.log_view() == Seq::<u8>::empty(),
    {
        let r = BitcaskStorage {
            log: Vec::new(),
            tables: Vec::new(),
            indexes: Vec::new(),
            recs: Ghost(Seq::empty()),
        };
        proof {
            assert(records_bytes(Seq::<Record>::empty()) == Seq::<u8>::empty());
        }
        r
    }

    /// The log's bytes, at the model level.
    pub closed spec fn log_view(self) -> Seq<u8> {
        self.log@
    }

    /// The log's bytes: what a durable copy of this engine holds on disk.
    pub fn log_bytes(&self) -> (r: &Vec<u8>)
        ensures
            r@ == self.log_view(),
    {
        &self.log
    }

    /// Find a table's catalog position by name.
    fn find_table(&self, name: &String) -> (r: Option<usize>)
        ensures
            match r {
                Some(i) => catalog_index(self.catalog(), name@) == Some(i as int) && i
                    < self.catalog().len(),
                None => catalog_index(self.catalog(), name@) is None,
            },
    {
        let mut i: usize = 0;
        while i < self.tables.len()
            invariant
                i <= self.tables.len(),
                forall|j: int| 0 <= j < i ==> (#[trigger] self.tables@[j]).schema@.name != name@,
            decreases self.tables.len() - i,
        {
            if self.tables[i].schema.name == *name {
                proof {
                    lemma_catalog_found(self.tables@, name@, i as int);
                }
                return Some(i);
            }
            i = i + 1;
        }
        proof {
            lemma_catalog_absent(self.tables@, name@);
        }
        None
    }

    /// Get a table's schema, if the table exists.
    pub fn get_schema(&self, table_name: &String) -> (r: Option<&TableSchema>)
        ensures
            match r {
                Some(s) => catalog_index(self.catalog(), table_name@) matches Some(i) && s@
                    == self.catalog()[i].schema@,
                None => catalog_index(self.catalog(), table_name@) is None,
            },
    {
        match self.find_table(table_name) {
            Some(i) => Some(&self.tables[i].schema),
            None => None,
        }
    }

    /// Create a new table: fails without any effect when the name is taken
    /// (the existing schema is untouched) or when the schema does not fit a
    /// schema record; otherwise appends a schema record to the log and
    /// registers the schema with row count zero.
    pub fn create_table(&mut self, schema: TableSchema) -> (r: Result<(), Error>)
        requires
            old(self).wf(),
        ensures
            final(self).wf(),
            catalog_index(old(self).catalog(), schema@.name) is Some ==> r == Result::<
                (),
                Error,
            >::Err(Error::SchemaExists) && *final(self) == *old(self),
            catalog_index(old(self).catalog(), schema@.name) is None && !schema_record_fits(
                schema@,
            ) ==> r == Result::<(), Error>::Err(Error::Serialization) && *final(self) == *old(self),
            catalog_index(old(self).catalog(), schema@.name) is None && schema_record_fits(
                schema@,
            ) ==> r is Ok && final(self).recs() == old(self).recs().push(
                Record::Schema { payload: schema_bytes(schema@) },
            ) && final(self).catalog() == old(self).catalog().push(
                TableEntry { schema, row_count: 0 },
            ) && final(self).index_list() == old(self).index_list(),
    {
        let ghost tables0 = self.tables@;
        let ghost recs0 = self.recs@;
        let ghost schema_v = schema@;
        if self.find_table(&schema.name).is_some() {
            return Err(Error::SchemaExists);
        }
        let payload = match encode_schema(&schema) {
            Ok(p) => p,
            Err(_) => {
                return Err(Error::Serialization);
            },
        };
        if payload.len() > u32::MAX as usize {
            return Err(Error::Serialization);
        }
        let ghost rec = Record::Schema { payload: schema_bytes(schema_v) };
        append_schema_record(&mut self.log, &payload);
        proof {
            lemma_records_bytes_push(recs0, rec);
        }
        self.recs = Ghost(recs0.push(rec));
        let entry = TableEntry { schema, row_count: 0 };
        self.tables.push(entry);
        proof {
            let recs1 = recs0.push(rec);
            let tables1 = tables0.push(TableEntry { schema: entry.schema, row_count: 0u64 });
            assert(self.recs() == recs1);
            assert(self.catalog() =~= tables1);
            lemma_catalog_none_all(tables0, schema_v.name);
            // records fit
            assert forall|i: int| 0 <= i < recs1.len() implies record_fits(
                #[trigger] recs1[i],
            ) by {
                if i < recs0.len() {
                    assert(recs1[i] == recs0[i]);
                } else {
                    assert(recs1[i] == rec);
                }
            }
            // catalog names stay distinct
            assert forall|i: int, j: int| 0 <= i < j < tables1.len() implies (
            #[trigger] tables1[i]).schema@.name != (#[trigger] tables1[j]).schema@.name by {
                if j < tables0.len() {
                    assert(tables1[i] == tables0[i]);
                    assert(tables1[j] == tables0[j]);
                } else {
                    assert(tables1[i] == tables0[i]);
                    assert(tables1[j].schema@.name == schema_v.name);
                }
            }
            // a schema record adds no rows to any table
            assert forall|t: Seq<char>| #[trigger] table_rows_from(recs1, t, 0) == table_rows_from(
                recs0,
                t,
                0,
            ) by {
                lemma_table_rows_from_push(recs0, rec, t, 0);
                assert(table_rows_from(recs0, t, 0) + Seq::<(int, Seq<ValueModel>)>::empty()
                    =~= table_rows_from(recs0, t, 0));
            }
            // row counts stay exact; the new table has no rows yet
            assert forall|i: int| 0 <= i < tables1.len() implies (#[trigger] tables1[i]).row_count
                == table_rows(recs1, tables1[i].schema@.name).len() by {
                if i < tables0.len() {
                    assert(tables1[i] == tables0[i]);
                } else {
                    assert forall|k: int|
                        0 <= k < recs0.len() implies !((#[trigger] recs0[k]) is RowRec
                        && rec_table(recs0[k]) == schema_v.name) by {
                        if recs0[k] is RowRec && rec_table(recs0[k]) == schema_v.name {
                            assert(catalog_index(tables0, schema_v.name) is Some);
                        }
                    }
                    lemma_table_rows_from_none(recs0, schema_v.name, 0);
                }
            }
            // every row still matches its table's unchanged schema
            assert forall|k: int|
                0 <= k < recs1.len() && (#[trigger] recs1[k]) is RowRec implies (catalog_index(
                tables1,
                rec_table(recs1[k]),
            ) matches Some(ti) && row_matches_schema(
                rec_row(recs1[k]),
                tables1[ti].schema@.columns,
            )) by {
                assert(recs1[k] == recs0[k]);
                let t = rec_table(recs0[k]);
                lemma_catalog_props(tables0, t);
                lemma_catalog_push(tables0, tables1[tables0.len() as int], t);
                let ti = catalog_index(tables0, t)->Some_0;
                assert(tables1[ti] == tables0[ti]);
            }
            // every index is still sound and complete
            assert forall|i: int| 0 <= i < self.index_list().len() implies self.index_wf(
                #[trigger] self.index_list()[i],
            ) by {
                let idx = self.index_list()[i];
                assert(old(self).index_list()[i] == idx);
                assert(old(self).index_wf(idx));
                lemma_catalog_props(tables0, idx.table_name@);
                lemma_catalog_push(tables0, tables1[tables0.len() as int], idx.table_name@);
                let ti = catalog_index(tables0, idx.table_name@)->Some_0;
                assert(0 <= ti < tables0.len());
                assert(tables1[ti] == tables0[ti]);
                assert forall|key: ValueModel|
                    (#[trigger] spec_index_lookup(idx.entries@, key)).map_values(
                        |o: usize| o as int,
                    ) == matching_offsets(
                        recs1,
                        idx.table_name@,
                        idx.column_index as int,
                        key,
                    ) by {
                    assert(table_rows_from(recs1, idx.table_name@, 0) == table_rows_from(
                        recs0,
                        idx.table_name@,
                        0,
                    ));
                }
            }
            // index pairs stay distinct
            assert forall|i: int, j: int|
                0 <= i < j < self.index_list().len() implies !((
            #[trigger] self.index_list()[i]).table_name@ == (
            #[trigger] self.index_list()[j]).table_name@ && self.index_list()[i].column_name@
                == self.index_list()[j].column_name@) by {
                assert(old(self).index_list()[i] == self.index_list()[i]);
                assert(old(self).index_list()[j] == self.index_list()[j]);
            }
        }
        Ok(())
    }
    /// Insert a row into a table: validate against the schema first (a
    /// rejected row never reaches the log), then append one row record, then
    /// update the table's indexes and its row count, as one unit.  Returns
    /// the log offset at which the new record begins.
    pub fn insert(&mut self, table_name: &String, row: Row) -> (r: Result<usize, Error>)
        requires
            old(self).wf(),
        ensures
            final(self).wf(),
            catalog_index(old(self).catalog(), table_name@) is None ==> r == Result::<
                usize,
                Error,
            >::Err(Error::MissingTable) && *final(self) == *old(self),
            ({
                let ti = catalog_index(old(self).catalog(), table_name@);
                ti is Some && !row_matches_schema(
                    row@,
                    old(self).catalog()[ti->Some_0].schema@.columns,
                )
            }) ==> (*final(self) == *old(self) && (if row@.len() != old(self).catalog()[
                catalog_index(old(self).catalog(), table_name@)->Some_0
            ].schema@.columns.len() {
                r == Result::<usize, Error>::Err(Error::RowArity)
            } else {
                r == Result::<usize, Error>::Err(Error::RowType)
            })),
            ({
                let ti = catalog_index(old(self).catalog(), table_name@);
                ti is Some && row_matches_schema(
                    row@,
                    old(self).catalog()[ti->Some_0].schema@.columns,
                ) && !row_record_fits(table_name@, row@)
            }) ==> r == Result::<usize, Error>::Err(Error::Serialization) && *final(self) == *old(self),
            ({
                let ti = catalog_index(old(self).catalog(), table_name@);
                ti is Some && row_matches_schema(
                    row@,
                    old(self).catalog()[ti->Some_0].schema@.columns,
                ) && row_record_fits(table_name@, row@)
            }) ==> (r == Result::<usize, Error>::Ok(old(self).log_view().len() as usize) && final(self).recs() == old(self).recs().push(Record::RowRec { table: table_name@, row: row@ })
                && final(self).catalog().len() == old(self).catalog().len() && (forall|i: int|
                0 <= i < old(self).catalog().len() ==> (#[trigger] final(self).catalog()[i]).schema
                    == old(self).catalog()[i].schema) && final(self).catalog()[
                catalog_index(old(self).catalog(), table_name@)->Some_0
            ].row_count == old(self).catalog()[
                catalog_index(old(self).catalog(), table_name@)->Some_0
            ].row_count + 1 && table_rows(final(self).recs(), table_name@) == table_rows(
                old(self).recs(),
                table_name@,
            ).push(row@)),
    {
        let ghost recs0 = self.recs@;
        let ghost tables0 = self.tables@;
        let ghost indexes0 = self.indexes@;
        let ti = match self.find_table(table_name) {
            Some(i) => i,
            None => {
                return Err(Error::MissingTable);
            },
        };
        match self.tables[ti].schema.validate_row(&row) {
            Ok(_) => {},
            Err(e) => {
                return Err(e);
            },
        }
        let payload = match encode_row(&row) {
            Ok(p) => p,
            Err(_) => {
                return Err(Error::Serialization);
            },
        };
        if payload.len() > u32::MAX as usize {
            return Err(Error::Serialization);
        }
        let nb = table_name.as_str().as_bytes_vec();
        if nb.len() > u16::MAX as usize {
            return Err(Error::Serialization);
        }
        let ghost rec = Record::RowRec { table: table_name@, row: row@ };
        let offset = self.log.len();
        append_row_record(&mut self.log, &nb, &payload, Ghost(table_name@), Ghost(row@));
        proof {
            lemma_records_bytes_push(recs0, rec);
        }
        self.recs = Ghost(recs0.push(rec));
        let ghost recs1 = recs0.push(rec);
        // the appended record extends this table's rows and no other's
        proof {
            assert forall|t: Seq<char>| t != table_name@ implies #[trigger] table_rows_from(
                recs1,
                t,
                0,
            ) == table_rows_from(recs0, t, 0) by {
                lemma_table_rows_from_push(recs0, rec, t, 0);
                assert(table_rows_from(recs0, t, 0) + Seq::<(int, Seq<ValueModel>)>::empty()
                    =~= table_rows_from(recs0, t, 0));
            }
            lemma_table_rows_from_push(recs0, rec, table_name@, 0);
            assert(table_rows_from(recs1, table_name@, 0) == table_rows_from(
                recs0,
                table_name@,
                0,
            ).push((offset as int, row@)));
            assert(table_rows(recs1, table_name@) =~= table_rows(recs0, table_name@).push(row@));
        }
        // row count: the table's rows grew by one
        let rc = self.tables[ti].row_count;
        let newlen = self.log.len();
        proof {
            lemma_catalog_props(tables0, table_name@);
            assert(old(self).catalog() == tables0);
            assert(old(self).recs() == recs0);
            assert(tables0[ti as int].schema@.name == table_name@);
            assert(old(self).catalog()[ti as int].row_count == table_rows(
                recs0,
                old(self).catalog()[ti as int].schema@.name,
            ).len());
            assert(rc == table_rows(recs0, table_name@).len());
            lemma_records_bytes_count(recs0);
            lemma_table_rows_from_len(recs0, table_name@, 0);
            assert(rc <= recs0.len());
            assert(recs0.len() <= records_bytes(recs0).len());
            assert(records_bytes(recs0).len() == offset);
            lemma_record_bytes_shape(rec);
            assert(newlen == offset + record_bytes(rec).len());
            assert(record_bytes(rec).len() >= 7);
            assert(offset + 7 <= newlen <= usize::MAX);
            assert(rc < u64::MAX);
        }
        self.tables[ti].row_count = rc + 1;
        let ghost tables1 = self.tables@;
        proof {
            assert(tables1 =~= tables0.update(
                ti as int,
                TableEntry { schema: tables0[ti as int].schema, row_count: (rc + 1) as u64 },
            ));
            assert forall|name: Seq<char>| #[trigger] catalog_index(tables1, name)
                == catalog_index(tables0, name) by {
                lemma_catalog_same_names(tables1, tables0, name);
            }
        }
        // update every index on this table
        proof {
            assert forall|k: int| 0 <= k < indexes0.len() implies old(self).index_wf(
                #[trigger] self.index_list()[k],
            ) by {
                assert(old(self).index_list()[k] == self.index_list()[k]);
                assert(old(self).index_wf(old(self).index_list()[k]));
            }
        }
        let mut j: usize = 0;
        while j < self.indexes.len()
            invariant
                old(self).wf(),
                tables0 == old(self).catalog(),
                recs0 == old(self).recs(),
                indexes0 == old(self).index_list(),
                self.wf_frame(recs1, tables1),
                table_rows_from(recs1, table_name@, 0) == table_rows_from(
                    recs0,
                    table_name@,
                    0,
                ).push((offset as int, row@)),
                forall|t: Seq<char>| t != table_name@ ==> #[trigger] table_rows_from(recs1, t, 0)
                    == table_rows_from(recs0, t, 0),
                forall|name: Seq<char>| #[trigger] catalog_index(tables1, name) == catalog_index(
                    tables0,
                    name,
                ),
                tables1.len() == tables0.len(),
                forall|i: int| 0 <= i < tables1.len() ==> (#[trigger] tables1[i]).schema
                    == tables0[i].schema,
                catalog_index(tables0, table_name@) == Some(ti as int),
                ti < tables0.len(),
                row_matches_schema(row@, tables0[ti as int].schema@.columns),
                row@.len() == row.values.len(),
                j <= self.index_list().len(),
                self.index_list().len() == indexes0.len(),
                forall|k: int| j <= k < indexes0.len() ==> #[trigger] self.index_list()[k]
                    == indexes0[k],
                forall|k: int| 0 <= k < indexes0.len() ==> ((#[trigger] self.index_list()[k]).table_name
                    == indexes0[k].table_name && self.index_list()[k].column_name
                    == indexes0[k].column_name && self.index_list()[k].column_index
                    == indexes0[k].column_index),
                forall|k: int| 0 <= k < j ==> self.index_wf(#[trigger] self.index_list()[k]),
                forall|k: int| j <= k < indexes0.len() ==> old(self).index_wf(
                    #[trigger] self.index_list()[k],
                ),
            decreases self.indexes.len() - j,
        {
            let ghost idx0 = self.indexes@[j as int];
            proof {
                assert(old(self).index_wf(idx0));
                lemma_catalog_props(tables0, idx0.table_name@);
            }
            if self.indexes[j].table_name == *table_name {
                let ci = self.indexes[j].column_index;
                proof {
                    // the indexed column position lies inside the row
                    assert(old(self).catalog() == tables0);
                    assert(old(self).recs() == recs0);
                    assert(idx0.table_name@ == table_name@);
                    let tj = catalog_index(tables0, idx0.table_name@)->Some_0;
                    assert(tj == ti as int);
                    assert(spec_col_index(tables0[ti as int].schema@.columns, idx0.column_name@)
                        == Some(idx0.column_index as int));
                    crate::types::lemma_col_index_props(
                        tables0[ti as int].schema@.columns,
                        idx0.column_name@,
                    );
                    assert(idx0.column_index < tables0[ti as int].schema@.columns.len());
                    assert(row@.len() == tables0[ti as int].schema@.columns.len());
                    assert(ci < row.values.len());
                }
                let key = row.values[ci].clone();
                self.indexes[j].insert(&key, offset);
                proof {
                    let idx1 = self.indexes@[j as int];
                    let keym = row@[ci as int];
                    assert(key@ == keym);
                    let pairs0 = table_rows_from(recs0, table_name@, 0);
                    let pairs1 = table_rows_from(recs1, table_name@, 0);
                    lemma_pairs_matching_push(pairs0, (offset as int, row@), ci as int, keym);
                    assert(pairs_matching(pairs1, ci as int, keym) =~= pairs_matching(
                        pairs0,
                        ci as int,
                        keym,
                    ).push((offset as int, row@)));
                    assert(matching_offsets(recs1, table_name@, ci as int, keym)
                        =~= matching_offsets(recs0, table_name@, ci as int, keym).push(
                        offset as int,
                    ));
                    assert(spec_index_lookup(idx1.entries@, keym) == spec_index_lookup(
                        idx0.entries@,
                        keym,
                    ).push(offset));
                    assert(spec_index_lookup(idx1.entries@, keym).map_values(|o: usize| o as int)
                        =~= spec_index_lookup(idx0.entries@, keym).map_values(
                        |o: usize| o as int,
                    ).push(offset as int));
                    assert(spec_index_lookup(idx0.entries@, keym).map_values(|o: usize| o as int)
                        == matching_offsets(recs0, table_name@, ci as int, keym));
                    assert forall|k2: ValueModel|
                        (#[trigger] spec_index_lookup(idx1.entries@, k2)).map_values(
                            |o: usize| o as int,
                        ) == matching_offsets(recs1, table_name@, ci as int, k2) by {
                        if k2 != keym {
                            lemma_pairs_matching_push(
                                pairs0,
                                (offset as int, row@),
                                ci as int,
                                k2,
                            );
                            assert(pairs_matching(pairs1, ci as int, k2) =~= pairs_matching(
                                pairs0,
                                ci as int,
                                k2,
                            ));
                            assert(spec_index_lookup(idx1.entries@, k2) == spec_index_lookup(
                                idx0.entries@,
                                k2,
                            ));
                        }
                    }
                    assert(idx1.table_name@ == table_name@);
                    lemma_catalog_props(tables0, idx1.table_name@);
                    let tj2 = catalog_index(tables1, idx1.table_name@)->Some_0;
                    assert(tj2 == ti as int);
                    assert(tables1[tj2].schema == tables0[tj2].schema);
                    assert(spec_col_index(tables1[tj2].schema@.columns, idx1.column_name@)
                        == Some(idx1.column_index as int));
                    assert(self.index_wf(idx1));
                }
            } else {
                proof {
                    let idx = self.indexes@[j as int];
                    assert(idx.table_name@ != table_name@);
                    assert forall|k2: ValueModel|
                        (#[trigger] spec_index_lookup(idx.entries@, k2)).map_values(
                            |o: usize| o as int,
                        ) == matching_offsets(recs1, idx.table_name@, idx.column_index as int, k2)
                        by {
                        assert(table_rows_from(recs1, idx.table_name@, 0) == table_rows_from(
                            recs0,
                            idx.table_name@,
                            0,
                        ));
                        assert(spec_index_lookup(idx.entries@, k2).map_values(|o: usize| o as int)
                            == matching_offsets(
                            recs0,
                            idx.table_name@,
                            idx.column_index as int,
                            k2,
                        ));
                    }
                    lemma_catalog_props(tables0, idx.table_name@);
                    let tj2 = catalog_index(tables0, idx.table_name@)->Some_0;
                    assert(catalog_index(tables1, idx.table_name@) == catalog_index(
                        tables0,
                        idx.table_name@,
                    ));
                    assert(tables1[tj2].schema == tables0[tj2].schema);
                    assert(spec_col_index(tables1[tj2].schema@.columns, idx.column_name@)
                        == Some(idx.column_index as int));
                    assert(self.index_wf(idx));
                }
            }
            j = j + 1;
        }
        proof {
            assert forall|a: int, b: int|
                0 <= a < b < indexes0.len() implies !((#[trigger] indexes0[a]).table_name@ == (
            #[trigger] indexes0[b]).table_name@ && indexes0[a].column_name@
                == indexes0[b].column_name@) by {
                assert(old(self).index_list()[a] == indexes0[a]);
                assert(old(self).index_list()[b] == indexes0[b]);
            }
            self.lemma_insert_wf(recs0, recs1, tables0, tables1, indexes0, table_name@, row@, ti as int, rc, offset);
        }
        Ok(offset)
    }

    /// The parts of the invariant that the index-update loop does not touch.
    pub open spec fn wf_frame(self, recs1: Seq<Record>, tables1: Seq<TableEntry>) -> bool {
        &&& self.recs() == recs1
        &&& self.catalog() == tables1
        &&& self.log_view() == records_bytes(recs1)
    }

    /// After appending a validated row record, bumping the row count, and
    /// updating the indexes, the invariant holds again.
    proof fn lemma_insert_wf(
        self,
        recs0: Seq<Record>,
        recs1: Seq<Record>,
        tables0: Seq<TableEntry>,
        tables1: Seq<TableEntry>,
        indexes0: Seq<Index>,
        table: Seq<char>,
        row: Seq<ValueModel>,
        ti: int,
        rc: u64,
        offset: usize,
    )
        requires
            self.wf_frame(recs1, tables1),
            recs1 == recs0.push(Record::RowRec { table, row }),
            record_fits(Record::RowRec { table, row }),
            forall|i: int| 0 <= i < recs0.len() ==> record_fits(#[trigger] recs0[i]),
            0 <= ti < tables0.len(),
            tables1 =~= tables0.update(
                ti,
                TableEntry { schema: tables0[ti].schema, row_count: (rc + 1) as u64 },
            ),
            rc < u64::MAX,
            rc == tables0[ti].row_count,
            catalog_index(tables0, table) == Some(ti),
            row_matches_schema(row, tables0[ti].schema@.columns),
            forall|name: Seq<char>| #[trigger] catalog_index(tables1, name) == catalog_index(
                tables0,
                name,
            ),
            table_rows_from(recs1, table, 0) == table_rows_from(recs0, table, 0).push(
                (offset as int, row),
            ),
            forall|t: Seq<char>| t != table ==> #[trigger] table_rows_from(recs1, t, 0)
                == table_rows_from(recs0, t, 0),
            forall|i: int, j: int| 0 <= i < j < tables0.len() ==> (#[trigger] tables0[i]).schema@.name
                != (#[trigger] tables0[j]).schema@.name,
            forall|i: int| 0 <= i < tables0.len() ==> (#[trigger] tables0[i]).row_count
                == table_rows(recs0, tables0[i].schema@.name).len(),
            forall|k: int|
                0 <= k < recs0.len() && (#[trigger] recs0[k]) is RowRec ==> (catalog_index(
                    tables0,
                    rec_table(recs0[k]),
                ) matches Some(tk) && row_matches_schema(
                    rec_row(recs0[k]),
                    tables0[tk].schema@.columns,
                )),
            forall|k: int| 0 <= k < self.index_list().len() ==> self.index_wf(
                #[trigger] self.index_list()[k],
            ),
            self.index_list().len() == indexes0.len(),
            forall|k: int| 0 <= k < indexes0.len() ==> ((#[trigger] self.index_list()[k]).table_name
                == indexes0[k].table_name && self.index_list()[k].column_name
                == indexes0[k].column_name),
            forall|i: int, j: int|
                0 <= i < j < indexes0.len() ==> !((#[trigger] indexes0[i]).table_name@
                    == (#[trigger] indexes0[j]).table_name@ && indexes0[i].column_name@
                    == indexes0[j].column_name@),
        ensures
            self.wf(),
    {
        // records fit
        assert forall|i: int| 0 <= i < recs1.len() implies record_fits(#[trigger] recs1[i]) by {
            if i < recs0.len() {
                assert(recs1[i] == recs0[i]);
            } else {
                assert(recs1[i] == (Record::RowRec { table, row }));
            }
        }
        // catalog names are unchanged, so they stay distinct
        assert forall|i: int, j: int| 0 <= i < j < tables1.len() implies (
        #[trigger] tables1[i]).schema@.name != (#[trigger] tables1[j]).schema@.name by {
            assert(tables1[i].schema == tables0[i].schema);
            assert(tables1[j].schema == tables0[j].schema);
        }
        // row counts stay exact
        lemma_catalog_props(tables0, table);
        assert forall|i: int| 0 <= i < tables1.len() implies (#[trigger] tables1[i]).row_count
            == table_rows(recs1, tables1[i].schema@.name).len() by {
            assert(tables1[i].schema == tables0[i].schema);
            if i == ti {
                assert(table_rows(recs1, table) =~= table_rows(recs0, table).push(row));
            } else {
                let n = tables0[i].schema@.name;
                assert(n != table);
                assert(table_rows(recs1, n) == table_rows(recs0, n));
            }
        }
        // every row matches its table's unchanged schema
        assert forall|k: int|
            0 <= k < recs1.len() && (#[trigger] recs1[k]) is RowRec implies (catalog_index(
            tables1,
            rec_table(recs1[k]),
        ) matches Some(tk) && row_matches_schema(
            rec_row(recs1[k]),
            tables1[tk].schema@.columns,
        )) by {
            if k < recs0.len() {
                assert(recs1[k] == recs0[k]);
                let t = rec_table(recs0[k]);
                let tk = catalog_index(tables0, t)->Some_0;
                lemma_catalog_props(tables0, t);
                assert(tables1[tk].schema == tables0[tk].schema);
            } else {
                assert(recs1[k] == (Record::RowRec { table, row }));
                assert(tables1[ti].schema == tables0[ti].schema);
            }
        }
        // index pairs stay distinct
        assert forall|i: int, j: int|
            0 <= i < j < self.index_list().len() implies !((
        #[trigger] self.index_list()[i]).table_name@ == (
        #[trigger] self.index_list()[j]).table_name@ && self.index_list()[i].column_name@
            == self.index_list()[j].column_name@) by {
            assert(self.index_list()[i].table_name == indexes0[i].table_name);
            assert(self.index_list()[j].table_name == indexes0[j].table_name);
            assert(self.index_list()[i].column_name == indexes0[i].column_name);
            assert(self.index_list()[j].column_name == indexes0[j].column_name);
            assert(indexes0[i].table_name@ != indexes0[j].table_name@ || indexes0[i].column_name@
                != indexes0[j].column_name@);
        }
    }

    /// Full scan of a table: rewind to the start of the log, decode every
    /// record, skip schema records, and return the rows whose record names
    /// this table, in log order.  An unknown table yields no rows.
    pub fn scan(&self, table_name: &String) -> (r: Result<Vec<Row>, Error>)
        requires
            self.wf(),
        ensures
            r matches Ok(rows) && rows@.map_values(|row: Row| row@) == table_rows(
                self.recs(),
                table_name@,
            ),
    {
        let ghost rs = self.recs@;
        let mut rows: Vec<Row> = Vec::new();
        let mut pos: usize = 0;
        let ghost k: int = 0;
        let mut ghost_k = Ghost(k);
        proof {
            assert(rs.skip(0) =~= rs);
            assert(self.log@.skip(0) =~= self.log@);
            assert(rows@.map_values(|row: Row| row@) =~= Seq::<Seq<ValueModel>>::empty());
            assert(Seq::<Seq<ValueModel>>::empty() + table_rows_from(rs, table_name@, 0)
                .map_values(|p: (int, Seq<ValueModel>)| p.1) =~= table_rows_from(
                rs,
                table_name@,
                0,
            ).map_values(|p: (int, Seq<ValueModel>)| p.1));
        }
        while pos < self.log.len()
            invariant
                self.wf(),
                rs == self.recs(),
                0 <= ghost_k@ <= rs.len(),
                pos <= self.log_view().len(),
                self.log_view().skip(pos as int) == records_bytes(rs.skip(ghost_k@)),
                table_rows(rs, table_name@) == rows@.map_values(|row: Row| row@)
                    + table_rows_from(rs.skip(ghost_k@), table_name@, pos as int).map_values(
                    |p: (int, Seq<ValueModel>)| p.1,
                ),
            decreases self.log_view().len() - pos,
        {
            let ghost k0 = ghost_k@;
            proof {
                if rs.skip(k0).len() == 0 {
                    assert(records_bytes(rs.skip(k0)) == Seq::<u8>::empty());
                    assert(self.log@.len() - pos == 0);
                }
                assert(rs.skip(k0).len() > 0);
                assert(rs.skip(k0)[0] == rs[k0]);
                assert forall|i: int| 0 <= i < rs.skip(k0).len() implies record_fits(
                    #[trigger] rs.skip(k0)[i],
                ) by {
                    assert(rs.skip(k0)[i] == rs[k0 + i]);
                }
                lemma_record_bytes_shape(rs[k0]);
            }
            let (item, next) = read_record(&self.log, pos, Ghost(rs.skip(k0)));
            let ghost head = rs[k0];
            proof {
                // the suffix relation moves one record forward
                assert(rs.skip(k0).drop_first() =~= rs.skip(k0 + 1));
                assert(records_bytes(rs.skip(k0)) == record_bytes(head) + records_bytes(
                    rs.skip(k0 + 1),
                ));
                crate::log::lemma_log_step(self.log@, rs, k0, pos as int, next as int);
                // the head record's contribution to the table's rows
                assert(table_rows_from(rs.skip(k0), table_name@, pos as int) == (match rs[k0] {
                    Record::RowRec { table: t, row } => if t == table_name@ {
                        seq![(pos as int, row)] + table_rows_from(
                            rs.skip(k0 + 1),
                            table_name@,
                            next as int,
                        )
                    } else {
                        table_rows_from(rs.skip(k0 + 1), table_name@, next as int)
                    },
                    Record::Schema { .. } => table_rows_from(
                        rs.skip(k0 + 1),
                        table_name@,
                        next as int,
                    ),
                }));
            }
            match item {
                Some((name, row)) => {
                    if name == *table_name {
                        proof {
                            let rest = table_rows_from(
                                rs.skip(k0 + 1),
                                table_name@,
                                next as int,
                            );
                            assert((seq![(pos as int, rec_row(head))] + rest).map_values(
                                |p: (int, Seq<ValueModel>)| p.1,
                            ) =~= seq![rec_row(head)] + rest.map_values(
                                |p: (int, Seq<ValueModel>)| p.1,
                            ));
                            assert(rows@.push(row).map_values(|r2: Row| r2@) =~= rows@.map_values(
                                |r2: Row| r2@,
                            ).push(row@));
                            assert(rows@.map_values(|r2: Row| r2@).push(rec_row(head)) + rest
                                .map_values(|p: (int, Seq<ValueModel>)| p.1) =~= rows@.map_values(
                                |r2: Row| r2@,
                            ) + (seq![rec_row(head)] + rest.map_values(
                                |p: (int, Seq<ValueModel>)| p.1,
                            )));
                        }
                        rows.push(row);
                    } else {
                        proof {
                            assert(rec_table(head) != table_name@);
                        }
                    }
                },
                None => {},
            }
            pos = next;
            ghost_k = Ghost(k0 + 1);
        }
        proof {
            let kf = ghost_k@;
            if rs.skip(kf).len() > 0 {
                assert(rs.skip(kf)[0] == rs[kf]);
                lemma_record_bytes_shape(rs[kf]);
                assert(records_bytes(rs.skip(kf)).len() >= record_bytes(rs.skip(kf)[0]).len());
                assert(false);
            }
            assert(rs.skip(kf) =~= Seq::<Record>::empty());
            assert(table_rows_from(Seq::<Record>::empty(), table_name@, pos as int) == Seq::<
                (int, Seq<ValueModel>),
            >::empty());
            assert(rows@.map_values(|row: Row| row@) + Seq::<
                (int, Seq<ValueModel>),
            >::empty().map_values(|p: (int, Seq<ValueModel>)| p.1) =~= rows@.map_values(
                |row: Row| row@,
            ));
        }
        Ok(rows)
    }

    /// Read the single row record that begins at `offset`.
    fn read_row_at_offset(&self, offset: usize, Ghost(k): Ghost<int>) -> (r: Row)
        requires
            self.wf(),
            0 <= k < self.recs().len(),
            self.recs()[k] is RowRec,
            offset as int == records_bytes(self.recs().take(k)).len(),
        ensures
            r@ == rec_row(self.recs()[k]),
    {
        let ghost rs = self.recs@;
        proof {
            lemma_records_bytes_split(rs, k);
            assert forall|i: int|
                0 <= i < self.log@.skip(offset as int).len() implies self.log@.skip(
                offset as int,
            )[i] == records_bytes(rs.skip(k))[i] by {
                assert(self.log@[offset + i] == (records_bytes(rs.take(k)) + records_bytes(
                    rs.skip(k),
                ))[offset + i]);
            }
            assert(self.log@.skip(offset as int) =~= records_bytes(rs.skip(k)));
            assert(rs.skip(k)[0] == rs[k]);
            assert forall|i: int| 0 <= i < rs.skip(k).len() implies record_fits(
                #[trigger] rs.skip(k)[i],
            ) by {
                assert(rs.skip(k)[i] == rs[k + i]);
            }
            assert(offset <= self.log@.len());
        }
        let (item, _next) = read_record(&self.log, offset, Ghost(self.recs@.skip(k)));
        match item {
            Some((_name, row)) => row,
            None => vstd::pervasive::unreached(),
        }
    }

    /// Create an index on a column of a table: validate that the column
    /// exists, replay the whole log from the start collecting the offset of
    /// every row of the table, and store the index.  Re-creating an index on
    /// the same (table, column) pair rebuilds it and replaces the old one,
    /// so the mapping is never duplicated.
    pub fn create_index(&mut self, table_name: &String, column_name: &String) -> (r: Result<
        (),
        Error,
    >)
        requires
            old(self).wf(),
        ensures
            final(self).wf(),
            final(self).recs() == old(self).recs(),
            final(self).catalog() == old(self).catalog(),
            final(self).log_view() == old(self).log_view(),
            catalog_index(old(self).catalog(), table_name@) is None ==> r == Result::<
                (),
                Error,
            >::Err(Error::MissingTable) && *final(self) == *old(self),
            ({
                let ti = catalog_index(old(self).catalog(), table_name@);
                ti is Some && spec_col_index(
                    old(self).catalog()[ti->Some_0].schema@.columns,
                    column_name@,
                ) is None
            }) ==> r == Result::<(), Error>::Err(Error::MissingColumn) && *final(self) == *old(
                self,
            ),
            ({
                let ti = catalog_index(old(self).catalog(), table_name@);
                ti is Some && spec_col_index(
                    old(self).catalog()[ti->Some_0].schema@.columns,
                    column_name@,
                ) is Some
            }) ==> r is Ok && index_pos(final(self).index_list(), table_name@, column_name@)
                is Some,
    {
        let ghost rs = self.recs@;
        let ghost tables0 = self.tables@;
        let ti = match self.find_table(table_name) {
            Some(i) => i,
            None => {
                return Err(Error::MissingTable);
            },
        };
        let ci = match self.tables[ti].schema.get_column_index(column_name.as_str()) {
            Some(c) => c,
            None => {
                return Err(Error::MissingColumn);
            },
        };
        let mut idx = Index::new(table_name.clone(), column_name.clone(), ci);
        // build the index by scanning the log from the start
        let mut pos: usize = 0;
        let mut ghost_k = Ghost(0int);
        let mut ghost_done = Ghost(Seq::<(int, Seq<ValueModel>)>::empty());
        proof {
            assert(rs.skip(0) =~= rs);
            assert(self.log@.skip(0) =~= self.log@);
            assert(Seq::<(int, Seq<ValueModel>)>::empty() + table_rows_from(rs, table_name@, 0)
                =~= table_rows_from(rs, table_name@, 0));
            assert forall|key: ValueModel|
                (#[trigger] spec_index_lookup(idx.entries@, key)).map_values(|o: usize| o as int)
                    == pairs_matching(ghost_done@, ci as int, key).map_values(
                    |p: (int, Seq<ValueModel>)| p.0,
                ) by {
                assert(spec_index_lookup(idx.entries@, key) == Seq::<usize>::empty());
                assert(Seq::<usize>::empty().map_values(|o: usize| o as int) =~= Seq::<
                    int,
                >::empty());
                assert(pairs_matching(Seq::<(int, Seq<ValueModel>)>::empty(), ci as int, key)
                    == Seq::<(int, Seq<ValueModel>)>::empty());
                assert(Seq::<(int, Seq<ValueModel>)>::empty().map_values(
                    |p: (int, Seq<ValueModel>)| p.0,
                ) =~= Seq::<int>::empty());
            }
        }
        while pos < self.log.len()
            invariant
                *self == *old(self),
                old(self).wf(),
                rs == self.recs(),
                tables0 == self.catalog(),
                catalog_index(tables0, table_name@) == Some(ti as int),
                ti < tables0.len(),
                spec_col_index(tables0[ti as int].schema@.columns, column_name@) == Some(
                    ci as int,
                ),
                idx.table_name@ == table_name@,
                idx.column_name@ == column_name@,
                idx.column_index == ci,
                index_keys_distinct(idx.entries@),
                index_entries_nonempty(idx.entries@),
                0 <= ghost_k@ <= rs.len(),
                pos <= self.log_view().len(),
                self.log_view().skip(pos as int) == records_bytes(rs.skip(ghost_k@)),
                table_rows_from(rs, table_name@, 0) == ghost_done@ + table_rows_from(
                    rs.skip(ghost_k@),
                    table_name@,
                    pos as int,
                ),
                forall|key: ValueModel|
                    (#[trigger] spec_index_lookup(idx.entries@, key)).map_values(
                        |o: usize| o as int,
                    ) == pairs_matching(ghost_done@, ci as int, key).map_values(
                        |p: (int, Seq<ValueModel>)| p.0,
                    ),
            decreases self.log_view().len() - pos,
        {
            let ghost k0 = ghost_k@;
            proof {
                if rs.skip(k0).len() == 0 {
                    assert(records_bytes(rs.skip(k0)) == Seq::<u8>::empty());
                    assert(self.log@.len() - pos == 0);
                }
                assert(rs.skip(k0).len() > 0);
                assert(rs.skip(k0)[0] == rs[k0]);
                assert forall|i: int| 0 <= i < rs.skip(k0).len() implies record_fits(
                    #[trigger] rs.skip(k0)[i],
                ) by {
                    assert(rs.skip(k0)[i] == rs[k0 + i]);
                }
                lemma_record_bytes_shape(rs[k0]);
            }
            let (item, next) = read_record(&self.log, pos, Ghost(rs.skip(k0)));
            let ghost head = rs[k0];
            proof {
                assert(rs.skip(k0).drop_first() =~= rs.skip(k0 + 1));
                assert(records_bytes(rs.skip(k0)) == record_bytes(head) + records_bytes(
                    rs.skip(k0 + 1),
                ));
                crate::log::lemma_log_step(self.log@, rs, k0, pos as int, next as int);
                assert(table_rows_from(rs.skip(k0), table_name@, pos as int) == (match rs[k0] {
                    Record::RowRec { table: t, row } => if t == table_name@ {
                        seq![(pos as int, row)] + table_rows_from(
                            rs.skip(k0 + 1),
                            table_name@,
                            next as int,
                        )
                    } else {
                        table_rows_from(rs.skip(k0 + 1), table_name@, next as int)
                    },
                    Record::Schema { .. } => table_rows_from(
                        rs.skip(k0 + 1),
                        table_name@,
                        next as int,
                    ),
                }));
            }
            match item {
                Some((name, row)) => {
                    if name == *table_name {
                        proof {
                            // the row was validated against this schema, so
                            // the indexed position lies inside it
                            assert(rs[k0] is RowRec && rec_table(rs[k0]) == table_name@);
                            assert(catalog_index(tables0, rec_table(rs[k0]))->Some_0
                                == ti as int);
                            assert(row_matches_schema(
                                rec_row(rs[k0]),
                                tables0[ti as int].schema@.columns,
                            ));
                            crate::types::lemma_col_index_props(
                                tables0[ti as int].schema@.columns,
                                column_name@,
                            );
                            assert(ci < row.values.len());
                        }
                        let key = row.values[ci].clone();
                        let ghost entries_before = idx.entries@;
                        idx.insert(&key, pos);
                        proof {
                            let keym = rec_row(head)[ci as int];
                            assert(key@ == keym);
                            let done0 = ghost_done@;
                            let done1 = done0.push((pos as int, rec_row(head)));
                            assert forall|k2: ValueModel|
                                (#[trigger] spec_index_lookup(idx.entries@, k2)).map_values(
                                    |o: usize| o as int,
                                ) == pairs_matching(done1, ci as int, k2).map_values(
                                    |p: (int, Seq<ValueModel>)| p.0,
                                ) by {
                                lemma_pairs_matching_push(
                                    done0,
                                    (pos as int, rec_row(head)),
                                    ci as int,
                                    k2,
                                );
                                if k2 == keym {
                                    assert(spec_index_lookup(idx.entries@, k2)
                                        == spec_index_lookup(entries_before, k2).push(pos));
                                    assert(spec_index_lookup(entries_before, k2).push(
                                        pos,
                                    ).map_values(|o: usize| o as int) =~= spec_index_lookup(
                                        entries_before,
                                        k2,
                                    ).map_values(|o: usize| o as int).push(pos as int));
                                    assert(pairs_matching(done1, ci as int, k2) =~= pairs_matching(
                                        done0,
                                        ci as int,
                                        k2,
                                    ).push((pos as int, rec_row(head))));
                                    assert(pairs_matching(done0, ci as int, k2).push(
                                        (pos as int, rec_row(head)),
                                    ).map_values(|p: (int, Seq<ValueModel>)| p.0)
                                        =~= pairs_matching(done0, ci as int, k2).map_values(
                                        |p: (int, Seq<ValueModel>)| p.0,
                                    ).push(pos as int));
                                } else {
                                    assert(spec_index_lookup(idx.entries@, k2)
                                        == spec_index_lookup(entries_before, k2));
                                    assert(pairs_matching(done1, ci as int, k2) =~= pairs_matching(
                                        done0,
                                        ci as int,
                                        k2,
                                    ));
                                }
                            }
                            // the processed prefix grows by this pair
                            assert(done0 + (seq![(pos as int, rec_row(head))] + table_rows_from(
                                rs.skip(k0 + 1),
                                table_name@,
                                next as int,
                            )) =~= done1 + table_rows_from(
                                rs.skip(k0 + 1),
                                table_name@,
                                next as int,
                            ));
                        }
                        ghost_done = Ghost(ghost_done@.push((pos as int, rec_row(head))));
                    } else {
                        proof {
                            assert(rec_table(head) != table_name@);
                        }
                    }
                },
                None => {},
            }
            pos = next;
            ghost_k = Ghost(k0 + 1);
        }
        proof {
            let kf = ghost_k@;
            if rs.skip(kf).len() > 0 {
                assert(rs.skip(kf)[0] == rs[kf]);
                lemma_record_bytes_shape(rs[kf]);
                assert(false);
            }
            assert(rs.skip(kf) =~= Seq::<Record>::empty());
            assert(table_rows_from(Seq::<Record>::empty(), table_name@, pos as int) == Seq::<
                (int, Seq<ValueModel>),
            >::empty());
            assert(ghost_done@ + Seq::<(int, Seq<ValueModel>)>::empty() =~= ghost_done@);
            assert(ghost_done@ == table_rows_from(rs, table_name@, 0));
        }
        // store the index, replacing any previous one on the same pair
        let ghost indexes0 = self.indexes@;
        proof {
            assert forall|k: int| 0 <= k < indexes0.len() implies self.index_wf(
                #[trigger] indexes0[k],
            ) by {
                assert(old(self).index_list()[k] == indexes0[k]);
                assert(old(self).index_wf(old(self).index_list()[k]));
            }
            assert(self.index_wf(idx));
        }
        match self.find_index(table_name, column_name) {
            Some(j) => {
                let ghost old_j = self.indexes@[j as int];
                self.indexes[j] = idx;
                proof {
                    let indexes1 = self.indexes@;
                    assert(indexes1 =~= indexes0.update(j as int, indexes1[j as int]));
                    assert forall|k: int| 0 <= k < indexes1.len() implies self.index_wf(
                        #[trigger] indexes1[k],
                    ) by {
                        if k != j as int {
                            assert(indexes1[k] == indexes0[k]);
                        }
                    }
                    assert forall|a: int, b: int|
                        0 <= a < b < indexes1.len() implies !((
                    #[trigger] indexes1[a]).table_name@ == (#[trigger] indexes1[b]).table_name@
                        && indexes1[a].column_name@ == indexes1[b].column_name@) by {
                        assert(old(self).index_list()[a] == indexes0[a]);
                        assert(old(self).index_list()[b] == indexes0[b]);
                        assert(indexes1[a].table_name@ == indexes0[a].table_name@
                            && indexes1[a].column_name@ == indexes0[a].column_name@);
                        assert(indexes1[b].table_name@ == indexes0[b].table_name@
                            && indexes1[b].column_name@ == indexes0[b].column_name@);
                    }
                    lemma_index_pos_found(indexes1, table_name@, column_name@, j as int);
                }
            },
            None => {
                self.indexes.push(idx);
                proof {
                    let indexes1 = self.indexes@;
                    assert forall|k: int| 0 <= k < indexes1.len() implies self.index_wf(
                        #[trigger] indexes1[k],
                    ) by {
                        if k < indexes0.len() {
                            assert(indexes1[k] == indexes0[k]);
                        } else {
                            assert(indexes1[k] == idx);
                        }
                    }
                    assert forall|a: int, b: int|
                        0 <= a < b < indexes1.len() implies !((
                    #[trigger] indexes1[a]).table_name@ == (#[trigger] indexes1[b]).table_name@
                        && indexes1[a].column_name@ == indexes1[b].column_name@) by {
                        if b < indexes0.len() {
                            assert(old(self).index_list()[a] == indexes0[a]);
                            assert(old(self).index_list()[b] == indexes0[b]);
                            assert(indexes1[a] == indexes0[a]);
                            assert(indexes1[b] == indexes0[b]);
                        } else {
                            assert(indexes1[a] == indexes0[a]);
                            assert(indexes1[b] == idx);
                            if indexes0[a].table_name@ == table_name@ && indexes0[a].column_name@
                                == column_name@ {
                                lemma_index_pos_found(indexes0, table_name@, column_name@, a);
                            }
                        }
                    }
                    lemma_index_pos_found(
                        indexes1,
                        table_name@,
                        column_name@,
                        indexes0.len() as int,
                    );
                }
            },
        }
        Ok(())
    }

    /// Find the position of the index on a (table, column) pair.
    fn find_index(&self, table_name: &String, column_name: &String) -> (r: Option<usize>)
        ensures
            match r {
                Some(j) => index_pos(self.index_list(), table_name@, column_name@) == Some(
                    j as int,
                ) && j < self.index_list().len() && self.index_list()[j as int].table_name@
                    == table_name@ && self.index_list()[j as int].column_name@ == column_name@,
                None => index_pos(self.index_list(), table_name@, column_name@) is None,
            },
    {
        let mut j: usize = 0;
        while j < self.indexes.len()
            invariant
                j <= self.index_list().len(),
                forall|j2: int| 0 <= j2 < j ==> !((#[trigger] self.index_list()[j2]).table_name@
                    == table_name@ && self.index_list()[j2].column_name@ == column_name@),
            decreases self.index_list().len() - j,
        {
            if self.indexes[j].table_name == *table_name && self.indexes[j].column_name
                == *column_name {
                proof {
                    lemma_index_pos_found(self.index_list(), table_name@, column_name@, j as int);
                }
                return Some(j);
            }
            j = j + 1;
        }
        proof {
            lemma_index_pos_absent(self.index_list(), table_name@, column_name@);
        }
        None
    }

    /// Equality lookup through an index: return the rows read at the
    /// recorded offsets directly, without re-filtering, or report that no
    /// usable index entry exists (no index on the pair, or a key the index
    /// never recorded).
    pub fn index_lookup(&self, table_name: &String, column_name: &String, value: &Value) -> (r:
        Result<Vec<Row>, Error>)
        requires
            self.wf(),
        ensures
            r matches Ok(rows) ==> ({
                let ti = catalog_index(self.catalog(), table_name@);
                let ci = spec_col_index(
                    self.catalog()[ti->Some_0].schema@.columns,
                    column_name@,
                );
                ti is Some && ci is Some && rows@.map_values(|row: Row| row@) == rows_matching(
                    table_rows(self.recs(), table_name@),
                    ci->Some_0,
                    value@,
                )
            }),
            r is Ok <==> ({
                let j = index_pos(self.index_list(), table_name@, column_name@);
                j is Some && spec_index_lookup(
                    self.index_list()[j->Some_0].entries@,
                    value@,
                ).len() > 0
            }),
            r is Err ==> r == Result::<Vec<Row>, Error>::Err(Error::MissingIndex),
    {
        let ghost rs = self.recs@;
        let found = match self.find_index(table_name, column_name) {
            Some(j) => j,
            None => {
                return Err(Error::MissingIndex);
            },
        };
        let ghost idx = self.indexes@[found as int];
        proof {
            assert(self.index_wf(idx));
        }
        let ci = self.indexes[found].column_index;
        let ghost ti = catalog_index(self.catalog(), table_name@)->Some_0;
        let ghost pairs = table_rows_from(rs, table_name@, 0);
        let ghost mp = pairs_matching(pairs, ci as int, value@);
        let offsets = match self.indexes[found].lookup(value) {
            Some(o) => o,
            None => {
                return Err(Error::MissingIndex);
            },
        };
        proof {
            assert(spec_index_lookup(idx.entries@, value@).map_values(|o: usize| o as int)
                == matching_offsets(rs, table_name@, ci as int, value@));
            assert(offsets@.map_values(|o: usize| o as int) == mp.map_values(
                |p: (int, Seq<ValueModel>)| p.0,
            ));
            assert(offsets@.len() == mp.len());
        }
        let mut rows: Vec<Row> = Vec::new();
        let mut i: usize = 0;
        proof {
            assert(rows@.map_values(|row: Row| row@) =~= mp.map_values(
                |p: (int, Seq<ValueModel>)| p.1,
            ).subrange(0, 0));
        }
        while i < offsets.len()
            invariant
                self.wf(),
                rs == self.recs(),
                pairs == table_rows_from(rs, table_name@, 0),
                mp == pairs_matching(pairs, ci as int, value@),
                offsets@.len() == mp.len(),
                offsets@.map_values(|o: usize| o as int) == mp.map_values(
                    |p: (int, Seq<ValueModel>)| p.0,
                ),
                i <= offsets@.len(),
                rows@.map_values(|row: Row| row@) == mp.map_values(
                    |p: (int, Seq<ValueModel>)| p.1,
                ).subrange(0, i as int),
            decreases offsets@.len() - i,
        {
            let off = offsets[i];
            proof {
                assert(offsets@.map_values(|o: usize| o as int)[i as int] == mp.map_values(
                    |p: (int, Seq<ValueModel>)| p.0,
                )[i as int]);
                assert(offsets@.map_values(|o: usize| o as int)[i as int] == off as int);
                assert(mp.map_values(|p: (int, Seq<ValueModel>)| p.0)[i as int] == mp[i as int].0);
                lemma_pairs_matching_member(pairs, ci as int, value@, i as int);
            }
            let ghost j2 = choose|j2: int|
                0 <= j2 < pairs.len() && pairs[j2] == mp[i as int] && 0 <= ci as int && (
                ci as int) < pairs[j2].1.len() && pairs[j2].1[ci as int] == value@;
            proof {
                lemma_table_rows_member(rs, table_name@, 0, j2);
            }
            let ghost k = choose|k: int|
                0 <= k < rs.len() && rs[k] == (Record::RowRec {
                    table: table_name@,
                    row: pairs[j2].1,
                }) && pairs[j2].0 == 0 + records_bytes(rs.take(k)).len() as int;
            let row = self.read_row_at_offset(off, Ghost(k));
            proof {
                assert(row@ == mp[i as int].1);
                assert(rows@.push(row).map_values(|r2: Row| r2@) =~= rows@.map_values(
                    |r2: Row| r2@,
                ).push(row@));
                assert(mp.map_values(|p: (int, Seq<ValueModel>)| p.1).subrange(0, i as int).push(
                    mp[i as int].1,
                ) =~= mp.map_values(|p: (int, Seq<ValueModel>)| p.1).subrange(0, i as int + 1));
            }
            rows.push(row);
            i = i + 1;
        }
        proof {
            assert(mp.map_values(|p: (int, Seq<ValueModel>)| p.1).subrange(0, mp.len() as int)
                =~= mp.map_values(|p: (int, Seq<ValueModel>)| p.1));
            lemma_pairs_rows_matching(pairs, ci as int, value@);
            lemma_catalog_props(self.catalog(), table_name@);
            assert(spec_col_index(self.catalog()[ti].schema@.columns, column_name@) == Some(
                ci as int,
            ));
        }
        Ok(rows)
    }
}

/// Position of the first index on the given (table, column) pair, if any.
pub open spec fn index_pos(indexes: Seq<Index>, table: Seq<char>, column: Seq<char>) -> Option<int>
    decreases indexes.len(),
{
    if indexes.len() == 0 {
        None
    } else if indexes[0].table_name@ == table && indexes[0].column_name@ == column {
        Some(0)
    } else {
        match index_pos(indexes.drop_first(), table, column) {
            Some(i) => Some(i + 1),
            None => None,
        }
    }
}

/// The first index on a pair is at `i` exactly when the indexes before `i`
/// serve other pairs.
pub proof fn lemma_index_pos_found(indexes: Seq<Index>, table: Seq<char>, column: Seq<char>, i: int)
    requires
        0 <= i < indexes.len(),
        indexes[i].table_name@ == table,
        indexes[i].column_name@ == column,
        forall|j: int| 0 <= j < i ==> !((#[trigger] indexes[j]).table_name@ == table
            && indexes[j].column_name@ == column),
    ensures
        index_pos(indexes, table, column) == Some(i),
    decreases i,
{
    if i > 0 {
        assert(!(indexes[0].table_name@ == table && indexes[0].column_name@ == column));
        assert forall|j: int| 0 <= j < i - 1 implies !((#[trigger] indexes.drop_first()[j]).table_name@
            == table && indexes.drop_first()[j].column_name@ == column) by {
            assert(indexes.drop_first()[j] == indexes[j + 1]);
        }
        lemma_index_pos_found(indexes.drop_first(), table, column, i - 1);
    }
}

/// A pair no index serves is not found.
pub proof fn lemma_index_pos_absent(indexes: Seq<Index>, table: Seq<char>, column: Seq<char>)
    requires
        forall|j: int| 0 <= j < indexes.len() ==> !((#[trigger] indexes[j]).table_name@ == table
            && indexes[j].column_name@ == column),
    ensures
        index_pos(indexes, table, column) is None,
    decreases indexes.len(),
{
    if indexes.len() > 0 {
        assert(!(indexes[0].table_name@ == table && indexes[0].column_name@ == column));
        assert forall|j: int| 0 <= j < indexes.drop_first().len() implies !((#[trigger] indexes
            .drop_first()[j]).table_name@ == table && indexes.drop_first()[j].column_name@
            == column) by {
            assert(indexes.drop_first()[j] == indexes[j + 1]);
        }
        lemma_index_pos_absent(indexes.drop_first(), table, column);
    }
}

/// The rows among `rowlist` whose value at position `ci` is `key`, in order.
pub open spec fn rows_matching(
    rowlist: Seq<Seq<ValueModel>>,
    ci: int,
    key: ValueModel,
) -> Seq<Seq<ValueModel>>
    decreases rowlist.len(),
{
    if rowlist.len() == 0 {
        Seq::empty()
    } else {
        let rest = rows_matching(rowlist.drop_first(), ci, key);
        if 0 <= ci < rowlist[0].len() && rowlist[0][ci] == key {
            seq![rowlist[0]] + rest
        } else {
            rest
        }
    }
}

/// Matching pairs project to matching rows.
pub proof fn lemma_pairs_rows_matching(
    pairs: Seq<(int, Seq<ValueModel>)>,
    ci: int,
    key: ValueModel,
)
    ensures
        pairs_matching(pairs, ci, key).map_values(|p: (int, Seq<ValueModel>)| p.1)
            == rows_matching(
            pairs.map_values(|p: (int, Seq<ValueModel>)| p.1),
            ci,
            key,
        ),
    decreases pairs.len(),
{
    let rowlist = pairs.map_values(|p: (int, Seq<ValueModel>)| p.1);
    if pairs.len() == 0 {
        assert(rowlist =~= Seq::<Seq<ValueModel>>::empty());
        assert(pairs_matching(pairs, ci, key).map_values(|p: (int, Seq<ValueModel>)| p.1) =~= Seq::<
            Seq<ValueModel>,
        >::empty());
    } else {
        assert(rowlist[0] == pairs[0].1);
        assert(rowlist.drop_first() =~= pairs.drop_first().map_values(
            |p: (int, Seq<ValueModel>)| p.1,
        ));
        lemma_pairs_rows_matching(pairs.drop_first(), ci, key);
        if 0 <= ci < pairs[0].1.len() && pairs[0].1[ci] == key {
            assert((seq![pairs[0]] + pairs_matching(pairs.drop_first(), ci, key)).map_values(
                |p: (int, Seq<ValueModel>)| p.1,
            ) =~= seq![pairs[0].1] + pairs_matching(pairs.drop_first(), ci, key).map_values(
                |p: (int, Seq<ValueModel>)| p.1,
            ));
            assert(rows_matching(rowlist, ci, key) == seq![rowlist[0]] + rows_matching(
                rowlist.drop_first(),
                ci,
                key,
            ));
        }
    }
}

/// A name the catalog does not find is carried by no entry.
pub proof fn lemma_catalog_none_all(tables: Seq<TableEntry>, name: Seq<char>)
    requires
        catalog_index(tables, name) is None,
    ensures
        forall|j: int| 0 <= j < tables.len() ==> (#[trigger] tables[j]).schema@.name != name,
    decreases tables.len(),
{
    if tables.len() > 0 {
        lemma_catalog_none_all(tables.drop_first(), name);
        assert forall|j: int| 0 <= j < tables.len() implies (#[trigger] tables[j]).schema@.name
            != name by {
            if j > 0 {
                assert(tables.drop_first()[j - 1] == tables[j]);
            }
        }
    }
}

} // verus!
