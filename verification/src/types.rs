//! The typed value domain, column and table schema definitions, row
//! validation, and the in-memory secondary index structure.

use vstd::prelude::*;

verus! {

/// The declared type of a column.
#[derive(Clone, Copy, PartialEq, Eq, Structural, Debug)]
pub enum ColumnType {
    Integer,
    Text,
    Float,
}

/// A single value in a row.
///
/// Floating-point values are carried as their IEEE 754 bit pattern, so the
/// engine's logic stays within the integer domain; conversion to and from
/// `f64` happens at the crate's boundary.  Equality on `Float` compares the
/// bit patterns, so two NaNs with the same bits are equal and `+0.0` differs
/// from `-0.0`; ordering comparisons follow the IEEE rules (see
/// [`f64_bits_lt`]).
#[derive(Debug)]
pub enum Value {
    Integer(i64),
    Text(String),
    Float(u64),
    Null,
}

/// Mathematical model of a [`Value`]: text as a sequence of characters.
pub enum ValueModel {
    Integer(i64),
    Text(Seq<char>),
    Float(u64),
    Null,
}

impl View for Value {
    type V = ValueModel;

    open spec fn view(&self) -> ValueModel {
        match self {
            Value::Integer(i) => ValueModel::Integer(*i),
            Value::Text(s) => ValueModel::Text(s@),
            Value::Float(b) => ValueModel::Float(*b),
            Value::Null => ValueModel::Null,
        }
    }
}

impl Clone for Value {
    fn clone(&self) -> (r: Self)
        ensures
            r == *self,
    {
        match self {
            Value::Integer(i) => Value::Integer(*i),
            Value::Text(s) => Value::Text(s.clone()),
            Value::Float(b) => Value::Float(*b),
            Value::Null => Value::Null,
        }
    }
}

/// True when the bit pattern denotes an IEEE 754 double NaN.
pub open spec fn f64_bits_is_nan(a: u64) -> bool {
    (a & 0x7fff_ffff_ffff_ffff) > 0x7ff0_0000_0000_0000
}

/// True when the bit pattern denotes an IEEE 754 double zero (either sign).
pub open spec fn f64_bits_is_zero(a: u64) -> bool {
    (a & 0x7fff_ffff_ffff_ffff) == 0
}

/// IEEE 754 `<` on two doubles given by their bit patterns: false when either
/// side is NaN, the two zeros are equal, and otherwise sign-magnitude order.
pub open spec fn f64_bits_lt(a: u64, b: u64) -> bool {
    if f64_bits_is_nan(a) || f64_bits_is_nan(b) {
        false
    } else if f64_bits_is_zero(a) && f64_bits_is_zero(b) {
        false
    } else if (a >> 63) != (b >> 63) {
        (a >> 63) == 1
    } else if (a >> 63) == 0 {
        a < b
    } else {
        b < a
    }
}

/// Executable IEEE 754 `<` on double bit patterns.
pub fn f64_bits_lt_exec(a: u64, b: u64) -> (r: bool)
    ensures
        r == f64_bits_lt(a, b),
{
    let na: u64 = a & 0x7fff_ffff_ffff_ffff;
    let nb: u64 = b & 0x7fff_ffff_ffff_ffff;
    if na > 0x7ff0_0000_0000_0000 || nb > 0x7ff0_0000_0000_0000 {
        false
    } else if na == 0 && nb == 0 {
        false
    } else if (a >> 63) != (b >> 63) {
        (a >> 63) == 1
    } else if (a >> 63) == 0 {
        a < b
    } else {
        b < a
    }
}

/// Whether a value may sit in a column of the given declared type.
/// `Null` matches every declared type: an intentional permissiveness.
pub open spec fn spec_matches_type(v: ValueModel, t: ColumnType) -> bool {
    match v {
        ValueModel::Integer(_) => t == ColumnType::Integer,
        ValueModel::Text(_) => t == ColumnType::Text,
        ValueModel::Float(_) => t == ColumnType::Float,
        ValueModel::Null => true,
    }
}

impl Value {
    /// Check if this value matches the column type.
    pub fn matches_type(&self, col_type: &ColumnType) -> (r: bool)
        ensures
            r == spec_matches_type(self@, *col_type),
    {
        match self {
            Value::Integer(_) => *col_type == ColumnType::Integer,
            Value::Text(_) => *col_type == ColumnType::Text,
            Value::Float(_) => *col_type == ColumnType::Float,
            Value::Null => true,
        }
    }
}

/// Structural equality of two values, decided at the model level.
pub fn value_eq(a: &Value, b: &Value) -> (r: bool)
    ensures
        r == (a@ == b@),
{
    match a {
        Value::Integer(x) => match b {
            Value::Integer(y) => *x == *y,
            _ => false,
        },
        Value::Text(x) => match b {
            Value::Text(y) => *x == *y,
            _ => false,
        },
        Value::Float(x) => match b {
            Value::Float(y) => *x == *y,
            _ => false,
        },
        Value::Null => match b {
            Value::Null => true,
            _ => false,
        },
    }
}

/// A column definition in a table.
pub struct Column {
    pub name: String,
    pub column_type: ColumnType,
}

/// Mathematical model of a [`Column`].
pub struct ColumnModel {
    pub name: Seq<char>,
    pub column_type: ColumnType,
}

impl View for Column {
    type V = ColumnModel;

    open spec fn view(&self) -> ColumnModel {
        ColumnModel { name: self.name@, column_type: self.column_type }
    }
}

impl Clone for Column {
    fn clone(&self) -> (r: Self)
        ensures
            r == *self,
    {
        Column { name: self.name.clone(), column_type: self.column_type }
    }
}

/// A single row of data: one value per schema column, positional.
#[derive(Debug)]
pub struct Row {
    pub values: Vec<Value>,
}

impl View for Row {
    type V = Seq<ValueModel>;

    open spec fn view(&self) -> Seq<ValueModel> {
        self.values@.map_values(|v: Value| v@)
    }
}

impl Clone for Row {
    fn clone(&self) -> (r: Self)
        ensures
            r@ == self@,
    {
        let mut values: Vec<Value> = Vec::new();
        let mut i: usize = 0;
        while i < self.values.len()
            invariant
                i <= self.values.len(),
                values@ =~= self.values@.subrange(0, i as int),
            decreases self.values.len() - i,
        {
            values.push(self.values[i].clone());
            i = i + 1;
        }
        proof {
            assert(values@ =~= self.values@);
        }
        Row { values }
    }
}

impl Row {
    pub fn new(values: Vec<Value>) -> (r: Self)
        ensures
            r.values == values,
    {
        Row { values }
    }

    /// Get a value by column index.
    pub fn get(&self, index: usize) -> (r: Option<&Value>)
        ensures
            index < self.values.len() ==> (r matches Some(v) && *v == self.values[index as int]),
            index >= self.values.len() ==> r is None,
    {
        if index < self.values.len() {
            Some(&self.values[index])
        } else {
            None
        }
    }
}

/// Position of the first column with the given name, if any.
pub open spec fn spec_col_index(cols: Seq<ColumnModel>, name: Seq<char>) -> Option<int>
    decreases cols.len(),
{
    if cols.len() == 0 {
        None
    } else if cols[0].name == name {
        Some(0)
    } else {
        match spec_col_index(cols.drop_first(), name) {
            Some(i) => Some(i + 1),
            None => None,
        }
    }
}

/// The first match of a name among the columns is at position `i` exactly
/// when the columns before `i` all carry other names.
pub proof fn lemma_col_index_found(cols: Seq<ColumnModel>, name: Seq<char>, i: int)
    requires
        0 <= i < cols.len(),
        cols[i].name == name,
        forall|j: int| 0 <= j < i ==> cols[j].name != name,
    ensures
        spec_col_index(cols, name) == Some(i),
    decreases i,
{
    if i == 0 {
    } else {
        assert(cols[0].name != name);
        lemma_col_index_found(cols.drop_first(), name, i - 1);
    }
}

/// When no column carries the name, the lookup finds nothing.
pub proof fn lemma_col_index_absent(cols: Seq<ColumnModel>, name: Seq<char>)
    requires
        forall|j: int| 0 <= j < cols.len() ==> cols[j].name != name,
    ensures
        spec_col_index(cols, name) is None,
    decreases cols.len(),
{
    if cols.len() > 0 {
        lemma_col_index_absent(cols.drop_first(), name);
    }
}

/// The found position is in range and carries the name.
pub proof fn lemma_col_index_props(cols: Seq<ColumnModel>, name: Seq<char>)
    ensures
        spec_col_index(cols, name) matches Some(i) ==> 0 <= i < cols.len() && cols[i].name
            == name,
    decreases cols.len(),
{
    if cols.len() > 0 && cols[0].name != name {
        lemma_col_index_props(cols.drop_first(), name);
    }
}

/// Whether a row has the schema's arity and each position's value matches the
/// declared column type (with `Null` matching anything).
pub open spec fn row_matches_schema(row: Seq<ValueModel>, cols: Seq<ColumnModel>) -> bool {
    &&& row.len() == cols.len()
    &&& forall|i: int| 0 <= i < row.len() ==> spec_matches_type(#[trigger] row[i], cols[i].column_type)
}

/// The kinds of failure the engine reports.
#[derive(Clone, Copy, PartialEq, Eq, Structural, Debug)]
pub enum Error {
    /// A table of the same name already exists.
    SchemaExists,
    /// The named table is not in the catalog.
    MissingTable,
    /// The named column is not in the table's schema.
    MissingColumn,
    /// No index exists for the requested (table, column) pair and key.
    MissingIndex,
    /// A row's arity disagrees with its table's schema.
    RowArity,
    /// A row value's type disagrees with its declared column type.
    RowType,
    /// A record in the log is malformed: an unrecognized marker byte, or a
    /// log that ends in the middle of a record.  The engine's own appends
    /// keep the log well formed (its invariant proves it), so no verified
    /// operation reports this; the kind classifies damage to a log image
    /// held outside the engine.
    Corruption,
    /// A schema or row does not fit the record encoding's size limits.
    Serialization,
    /// A recognized but unsupported statement or expression shape.
    Unsupported,
    /// A numeric literal that cannot be converted to a value.
    InvalidNumber,
}

/// A table's schema: a globally unique name and an ordered column list.
pub struct TableSchema {
    pub name: String,
    pub columns: Vec<Column>,
}

/// Mathematical model of a [`TableSchema`].
pub struct SchemaModel {
    pub name: Seq<char>,
    pub columns: Seq<ColumnModel>,
}

impl View for TableSchema {
    type V = SchemaModel;

    open spec fn view(&self) -> SchemaModel {
        SchemaModel { name: self.name@, columns: self.columns@.map_values(|c: Column| c@) }
    }
}

impl Clone for TableSchema {
    fn clone(&self) -> (r: Self)
        ensures
            r@ == self@,
    {
        let mut columns: Vec<Column> = Vec::new();
        let mut i: usize = 0;
        while i < self.columns.len()
            invariant
                i <= self.columns.len(),
                columns@ =~= self.columns@.subrange(0, i as int),
            decreases self.columns.len() - i,
        {
            columns.push(self.columns[i].clone());
            i = i + 1;
        }
        proof {
            assert(columns@ =~= self.columns@);
        }
        TableSchema { name: self.name.clone(), columns }
    }
}

impl TableSchema {
    pub fn new(name: String, columns: Vec<Column>) -> (r: Self)
        ensures
            r.name == name,
            r.columns == columns,
    {
        TableSchema { name, columns }
    }

    /// Get column index by name.
    pub fn get_column_index(&self, name: &str) -> (r: Option<usize>)
        ensures
            match r {
                Some(i) => spec_col_index(self@.columns, name@) == Some(i as int),
                None => spec_col_index(self@.columns, name@) is None,
            },
    {
        let name_owned: String = name.to_owned();
        let mut i: usize = 0;
        while i < self.columns.len()
            invariant
                name_owned@ == name@,
                i <= self.columns.len(),
                forall|j: int| 0 <= j < i ==> self@.columns[j].name != name@,
            decreases self.columns.len() - i,
        {
            proof {
                assert(self@.columns[i as int] == self.columns@[i as int]@);
            }
            if self.columns[i].name == name_owned {
                proof {
                    lemma_col_index_found(self@.columns, name@, i as int);
                }
                return Some(i);
            }
            i = i + 1;
        }
        proof {
            lemma_col_index_absent(self@.columns, name@);
        }
        None
    }

    /// Get column by name.
    pub fn get_column(&self, name: &str) -> (r: Option<&Column>)
        ensures
            match r {
                Some(c) => spec_col_index(self@.columns, name@) matches Some(i) && c@
                    == self@.columns[i],
                None => spec_col_index(self@.columns, name@) is None,
            },
    {
        match self.get_column_index(name) {
            Some(i) => {
                proof {
                    lemma_col_index_props(self@.columns, name@);
                }
                Some(&self.columns[i])
            },
            None => None,
        }
    }

    /// Validate that a row matches this schema: arity first, then each
    /// position's type, with `Null` accepted anywhere.
    pub fn validate_row(&self, row: &Row) -> (r: Result<(), Error>)
        ensures
            r is Ok <==> row_matches_schema(row@, self@.columns),
            row@.len() != self@.columns.len() ==> r == Result::<(), Error>::Err(Error::RowArity),
            r is Err && row@.len() == self@.columns.len() ==> r == Result::<(), Error>::Err(
                Error::RowType,
            ),
    {
        if row.values.len() != self.columns.len() {
            return Err(Error::RowArity);
        }
        let mut i: usize = 0;
        while i < row.values.len()
            invariant
                i <= row.values.len(),
                row@.len() == self@.columns.len(),
                forall|j: int| 0 <= j < i ==> spec_matches_type(
                    #[trigger] row@[j],
                    self@.columns[j].column_type,
                ),
            decreases row.values.len() - i,
        {
            proof {
                assert(row@[i as int] == row.values@[i as int]@);
                assert(self@.columns[i as int] == self.columns@[i as int]@);
            }
            if !row.values[i].matches_type(&self.columns[i].column_type) {
                return Err(Error::RowType);
            }
            i = i + 1;
        }
        Ok(())
    }
}

/// One key of a secondary index together with the log offsets, in encounter
/// order, of the rows whose indexed column holds that key.
pub struct IndexEntry {
    pub key: Value,
    pub offsets: Vec<usize>,
}

/// An in-memory secondary index for one (table, column) pair.
///
/// The index keys on the value itself rather than on a string projection of
/// it, so an integer `42` and the text `"42"` never collide; `Float` keys
/// compare by bit pattern.
pub struct Index {
    pub table_name: String,
    pub column_name: String,
    pub column_index: usize,
    pub entries: Vec<IndexEntry>,
}

/// The offsets recorded under a key: those of the first entry carrying the
/// key, or the empty sequence when no entry does.
pub open spec fn spec_index_lookup(entries: Seq<IndexEntry>, key: ValueModel) -> Seq<usize>
    decreases entries.len(),
{
    if entries.len() == 0 {
        Seq::empty()
    } else if entries[0].key@ == key {
        entries[0].offsets@
    } else {
        spec_index_lookup(entries.drop_first(), key)
    }
}

/// No two entries carry the same key.
pub open spec fn index_keys_distinct(entries: Seq<IndexEntry>) -> bool {
    forall|i: int, j: int| 0 <= i < j < entries.len() ==> (#[trigger] entries[i].key@)
        != (#[trigger] entries[j].key@)
}

/// Every entry records at least one offset.
pub open spec fn index_entries_nonempty(entries: Seq<IndexEntry>) -> bool {
    forall|i: int| 0 <= i < entries.len() ==> (#[trigger] entries[i].offsets@).len() > 0
}

/// A key matched first at position `i` is looked up to that entry's offsets.
pub proof fn lemma_index_lookup_found(entries: Seq<IndexEntry>, key: ValueModel, i: int)
    requires
        0 <= i < entries.len(),
        entries[i].key@ == key,
        forall|j: int| 0 <= j < i ==> (#[trigger] entries[j].key@) != key,
    ensures
        spec_index_lookup(entries, key) == entries[i].offsets@,
    decreases i,
{
    if i > 0 {
        assert(entries[0].key@ != key);
        assert forall|j: int| 0 <= j < i - 1 implies (#[trigger] entries.drop_first()[j].key@)
            != key by {
            assert(entries.drop_first()[j] == entries[j + 1]);
        }
        lemma_index_lookup_found(entries.drop_first(), key, i - 1);
    }
}

/// A key no entry carries is looked up to the empty sequence.
pub proof fn lemma_index_lookup_absent(entries: Seq<IndexEntry>, key: ValueModel)
    requires
        forall|j: int| 0 <= j < entries.len() ==> (#[trigger] entries[j].key@) != key,
    ensures
        spec_index_lookup(entries, key) == Seq::<usize>::empty(),
    decreases entries.len(),
{
    if entries.len() > 0 {
        assert(entries[0].key@ != key);
        assert forall|j: int| 0 <= j < entries.drop_first().len() implies (#[trigger] entries
            .drop_first()[j].key@) != key by {
            assert(entries.drop_first()[j] == entries[j + 1]);
        }
        lemma_index_lookup_absent(entries.drop_first(), key);
    }
}

/// Replacing the (unique) entry of a key changes only that key's offsets.
pub proof fn lemma_index_lookup_update(
    entries: Seq<IndexEntry>,
    i: int,
    e: IndexEntry,
    key: ValueModel,
)
    requires
        0 <= i < entries.len(),
        entries[i].key@ == key,
        e.key@ == key,
        forall|j: int| 0 <= j < i ==> (#[trigger] entries[j].key@) != key,
    ensures
        spec_index_lookup(entries.update(i, e), key) == e.offsets@,
        forall|k: ValueModel| k != key ==> spec_index_lookup(entries.update(i, e), k)
            == spec_index_lookup(entries, k),
    decreases i,
{
    let updated = entries.update(i, e);
    if i == 0 {
        assert(updated[0] == e);
        assert forall|k: ValueModel| k != key implies spec_index_lookup(updated, k)
            == spec_index_lookup(entries, k) by {
            assert(updated.drop_first() =~= entries.drop_first());
        }
    } else {
        assert(updated[0] == entries[0]);
        assert(entries[0].key@ != key);
        assert(updated.drop_first() =~= entries.drop_first().update(i - 1, e));
        assert forall|j: int| 0 <= j < i - 1 implies (#[trigger] entries.drop_first()[j].key@)
            != key by {
            assert(entries.drop_first()[j] == entries[j + 1]);
        }
        lemma_index_lookup_update(entries.drop_first(), i - 1, e, key);
        assert(spec_index_lookup(updated, key) == spec_index_lookup(updated.drop_first(), key));
        assert forall|k: ValueModel| k != key implies spec_index_lookup(updated, k)
            == spec_index_lookup(entries, k) by {
            if updated[0].key@ == k {
                assert(spec_index_lookup(updated, k) == updated[0].offsets@);
                assert(spec_index_lookup(entries, k) == entries[0].offsets@);
            } else {
                assert(spec_index_lookup(updated, k) == spec_index_lookup(
                    updated.drop_first(),
                    k,
                ));
                assert(spec_index_lookup(entries, k) == spec_index_lookup(
                    entries.drop_first(),
                    k,
                ));
            }
        }
    }
}

/// Appending an entry with a fresh key changes only that key's offsets.
pub proof fn lemma_index_lookup_push(entries: Seq<IndexEntry>, e: IndexEntry)
    requires
        forall|j: int| 0 <= j < entries.len() ==> (#[trigger] entries[j].key@) != e.key@,
    ensures
        spec_index_lookup(entries.push(e), e.key@) == e.offsets@,
        forall|k: ValueModel| k != e.key@ ==> spec_index_lookup(entries.push(e), k)
            == spec_index_lookup(entries, k),
    decreases entries.len(),
{
    if entries.len() == 0 {
        assert(entries.push(e)[0] == e);
        assert forall|k: ValueModel| k != e.key@ implies spec_index_lookup(entries.push(e), k)
            == spec_index_lookup(entries, k) by {
            assert(entries.push(e).drop_first() =~= Seq::<IndexEntry>::empty());
            assert(spec_index_lookup(entries.push(e), k) == spec_index_lookup(
                Seq::<IndexEntry>::empty(),
                k,
            ));
            assert(spec_index_lookup(Seq::<IndexEntry>::empty(), k) == Seq::<usize>::empty());
            assert(spec_index_lookup(entries, k) == Seq::<usize>::empty());
        }
    } else {
        let pushed = entries.push(e);
        assert(pushed[0] == entries[0]);
        assert(entries[0].key@ != e.key@);
        assert(pushed.drop_first() =~= entries.drop_first().push(e));
        assert forall|j: int| 0 <= j < entries.drop_first().len() implies (#[trigger] entries
            .drop_first()[j].key@) != e.key@ by {
            assert(entries.drop_first()[j] == entries[j + 1]);
        }
        lemma_index_lookup_push(entries.drop_first(), e);
        assert(spec_index_lookup(pushed, e.key@) == spec_index_lookup(
            pushed.drop_first(),
            e.key@,
        ));
        assert forall|k: ValueModel| k != e.key@ implies spec_index_lookup(pushed, k)
            == spec_index_lookup(entries, k) by {
            if pushed[0].key@ == k {
                assert(spec_index_lookup(pushed, k) == pushed[0].offsets@);
                assert(spec_index_lookup(entries, k) == entries[0].offsets@);
            } else {
                assert(spec_index_lookup(pushed, k) == spec_index_lookup(pushed.drop_first(), k));
                assert(spec_index_lookup(entries, k) == spec_index_lookup(
                    entries.drop_first(),
                    k,
                ));
            }
        }
    }
}

/// Copy a vector of offsets.
fn clone_offsets(v: &Vec<usize>) -> (r: Vec<usize>)
    ensures
        r@ == v@,
{
    let mut r: Vec<usize> = Vec::new();
    let mut i: usize = 0;
    while i < v.len()
        invariant
            i <= v.len(),
            r@ =~= v@.subrange(0, i as int),
        decreases v.len() - i,
    {
        r.push(v[i]);
        i = i + 1;
    }
    proof {
        assert(r@ =~= v@);
    }
    r
}

impl Index {
    pub fn new(table_name: String, column_name: String, column_index: usize) -> (r: Self)
        ensures
            r.table_name == table_name,
            r.column_name == column_name,
            r.column_index == column_index,
            r.entries@ =~= Seq::<IndexEntry>::empty(),
    {
        Index { table_name, column_name, column_index, entries: Vec::new() }
    }

    /// Append `offset` to the list keyed by `value`, creating the key's entry
    /// if it is new.
    pub fn insert(&mut self, value: &Value, offset: usize)
        requires
            index_keys_distinct(old(self).entries@),
        ensures
            final(self).table_name == old(self).table_name,
            final(self).column_name == old(self).column_name,
            final(self).column_index == old(self).column_index,
            index_keys_distinct(final(self).entries@),
            index_entries_nonempty(old(self).entries@) ==> index_entries_nonempty(
                final(self).entries@,
            ),
            spec_index_lookup(final(self).entries@, value@) == spec_index_lookup(
                old(self).entries@,
                value@,
            ).push(offset),
            forall|k: ValueModel| k != value@ ==> spec_index_lookup(final(self).entries@, k)
                == spec_index_lookup(old(self).entries@, k),
    {
        let ghost entries0 = self.entries@;
        let mut i: usize = 0;
        while i < self.entries.len()
            invariant
                *self == *old(self),
                self.entries@ == entries0,
                index_keys_distinct(entries0),
                i <= self.entries.len(),
                forall|j: int| 0 <= j < i ==> (#[trigger] entries0[j].key@) != value@,
            decreases self.entries.len() - i,
        {
            if value_eq(&self.entries[i].key, value) {
                let mut offs = clone_offsets(&self.entries[i].offsets);
                offs.push(offset);
                let key2 = self.entries[i].key.clone();
                let e = IndexEntry { key: key2, offsets: offs };
                proof {
                    lemma_index_lookup_found(entries0, value@, i as int);
                    lemma_index_lookup_update(entries0, i as int, e, value@);
                    let updated = entries0.update(i as int, e);
                    assert forall|a: int, b: int| 0 <= a < b < updated.len() implies (
                    #[trigger] updated[a].key@) != (#[trigger] updated[b].key@) by {
                        assert(updated[a].key@ == entries0[a].key@);
                        assert(updated[b].key@ == entries0[b].key@);
                    }
                    assert forall|j: int|
                        0 <= j < updated.len() && index_entries_nonempty(
                            entries0,
                        ) implies (#[trigger] updated[j].offsets@).len() > 0 by {
                        if j != i as int {
                            assert(updated[j] == entries0[j]);
                        }
                    }
                }
                self.entries.set(i, e);
                return ;
            }
            i = i + 1;
        }
        let mut offs: Vec<usize> = Vec::new();
        offs.push(offset);
        let e = IndexEntry { key: value.clone(), offsets: offs };
        proof {
            lemma_index_lookup_absent(entries0, value@);
            lemma_index_lookup_push(entries0, e);
            assert(spec_index_lookup(entries0, value@).push(offset) =~= e.offsets@);
            let pushed = entries0.push(e);
            assert forall|a: int, b: int| 0 <= a < b < pushed.len() implies (
            #[trigger] pushed[a].key@) != (#[trigger] pushed[b].key@) by {
                if b < entries0.len() {
                    assert(pushed[a] == entries0[a]);
                    assert(pushed[b] == entries0[b]);
                } else {
                    assert(pushed[b] == e);
                    assert(pushed[a] == entries0[a]);
                }
            }
            assert forall|j: int|
                0 <= j < pushed.len() && index_entries_nonempty(entries0) implies (
            #[trigger] pushed[j].offsets@).len() > 0 by {
                if j < entries0.len() {
                    assert(pushed[j] == entries0[j]);
                } else {
                    assert(pushed[j] == e);
                }
            }
        }
        self.entries.push(e);
    }

    /// The offsets recorded for `value`, or nothing when the key was never
    /// recorded.
    pub fn lookup(&self, value: &Value) -> (r: Option<&Vec<usize>>)
        ensures
            match r {
                Some(offs) => spec_index_lookup(self.entries@, value@) == offs@ && (
                index_entries_nonempty(self.entries@) ==> offs@.len() > 0),
                None => spec_index_lookup(self.entries@, value@) == Seq::<usize>::empty(),
            },
    {
        let mut i: usize = 0;
        while i < self.entries.len()
            invariant
                i <= self.entries.len(),
                forall|j: int| 0 <= j < i ==> (#[trigger] self.entries@[j].key@) != value@,
            decreases self.entries.len() - i,
        {
            if value_eq(&self.entries[i].key, value) {
                proof {
                    lemma_index_lookup_found(self.entries@, value@, i as int);
                }
                return Some(&self.entries[i].offsets);
            }
            i = i + 1;
        }
        proof {
            lemma_index_lookup_absent(self.entries@, value@);
        }
        None
    }
}

} // verus!
