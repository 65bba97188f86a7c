//! The query executor: statement dispatch, access-path selection, predicate
//! evaluation, and result shaping.
//!
//! Statements arrive as a plain statement tree.  The SQL grammar itself is
//! an external collaborator: the crate's boundary turns parsed SQL into
//! [`Statement`] values and hands them to [`QueryExecutor::execute`].

use vstd::prelude::*;

use vstd::string::StrSliceExecFns;

use crate::storage::catalog_index;
use crate::storage::lemma_catalog_same_names;
use crate::storage::row_record_fits;
use crate::storage::rows_matching;
use crate::storage::BitcaskStorage;
use crate::log::table_rows;
use crate::log::Record;
use crate::types::row_matches_schema;
use crate::types::f64_bits_lt;
use crate::types::f64_bits_lt_exec;
use crate::types::spec_col_index;
use crate::types::ColumnModel;
use crate::types::ColumnType;
use crate::types::Error;
use crate::types::Row;
use crate::types::Value;
use crate::types::ValueModel;

verus! {

/// A column type descriptor as the external statement tree names it.  The
/// executor maps the supported descriptors onto the internal column types
/// and rejects every other one.
#[derive(Clone, Copy, PartialEq, Eq, Structural, Debug)]
pub enum TypeName {
    Int,
    Integer,
    BigInt,
    SmallInt,
    Text,
    Varchar,
    Char,
    Float,
    Real,
    Double,
    Other,
}

/// One column definition of a CREATE TABLE statement.
pub struct ColumnDef {
    pub name: String,
    pub data_type: TypeName,
}

/// A literal of the statement tree.
///
/// A numeric literal carries its text and, when the text parses as a
/// double, the IEEE 754 bits of that double in `float_bits`: the engine
/// itself holds no floating point, so the boundary that builds the tree
/// supplies the bits.  Whether the literal becomes a float or an integer is
/// decided here, by whether the text contains a decimal point.
pub enum Literal {
    Number { text: String, float_bits: Option<u64> },
    Str(String),
    Null,
    Other,
}

/// A binary operator of a WHERE expression.
#[derive(Clone, Copy, PartialEq, Eq, Structural, Debug)]
pub enum BinVerb {
    Eq,
    Gt,
    Lt,
    Other,
}

/// A WHERE expression.  Only a single top-level comparison is interpreted;
/// any other shape is deliberately vacuously true in the filter (see
/// [`spec_eval`]).
pub enum WhereExpr {
    Column(String),
    Lit(Literal),
    Binary { op: BinVerb, left: Box<WhereExpr>, right: Box<WhereExpr> },
    Other,
}

/// A parsed statement, as the executor consumes it.
pub enum Statement {
    CreateTable { name: String, columns: Vec<ColumnDef> },
    Insert { table: String, rows: Vec<Vec<WhereExpr>> },
    Select { tables: Vec<String>, selection: Option<WhereExpr> },
    Other,
}

/// What one statement produced.
#[derive(Debug)]
pub enum ExecutionResult {
    Created,
    Inserted(usize),
    Selected(Vec<Row>),
}

/// A statement's result together with whether an index served it.  Timing
/// the execution is the caller's business: the engine itself reads no
/// clock.
#[derive(Debug)]
pub struct QueryResult {
    pub result: ExecutionResult,
    pub used_index: bool,
}

/// The internal column type a descriptor maps to, if it is supported.
pub open spec fn column_type_of(t: TypeName) -> Option<ColumnType> {
    match t {
        TypeName::Int => Some(ColumnType::Integer),
        TypeName::Integer => Some(ColumnType::Integer),
        TypeName::BigInt => Some(ColumnType::Integer),
        TypeName::SmallInt => Some(ColumnType::Integer),
        TypeName::Text => Some(ColumnType::Text),
        TypeName::Varchar => Some(ColumnType::Text),
        TypeName::Char => Some(ColumnType::Text),
        TypeName::Float => Some(ColumnType::Float),
        TypeName::Real => Some(ColumnType::Float),
        TypeName::Double => Some(ColumnType::Float),
        TypeName::Other => None,
    }
}

/// Whether a character sequence contains a decimal point.
pub open spec fn spec_has_dot(s: Seq<char>) -> bool {
    exists|i: int| 0 <= i < s.len() && s[i] == '.'
}

/// Whether a character is a decimal digit.
pub open spec fn spec_is_digit(c: char) -> bool {
    '0' <= c && c <= '9'
}

/// The number the digit sequence denotes.
pub open spec fn digits_value(s: Seq<char>) -> int
    decreases s.len(),
{
    if s.len() == 0 {
        0
    } else {
        digits_value(s.drop_last()) * 10 + (s.last() as int - '0' as int)
    }
}

/// Whether the text is an integer literal: an optional leading minus sign
/// followed by one or more digits.
pub open spec fn is_int_text(s: Seq<char>) -> bool {
    if s.len() > 0 && s[0] == '-' {
        s.len() > 1 && forall|i: int| 1 <= i < s.len() ==> spec_is_digit(#[trigger] s[i])
    } else {
        s.len() > 0 && forall|i: int| 0 <= i < s.len() ==> spec_is_digit(#[trigger] s[i])
    }
}

/// The integer an integer literal denotes.
pub open spec fn int_text_value(s: Seq<char>) -> int {
    if s.len() > 0 && s[0] == '-' {
        -digits_value(s.skip(1))
    } else {
        digits_value(s)
    }
}

/// The value a literal converts to: a number with a decimal point becomes a
/// float, any other number an integer, a quoted string text, and NULL the
/// null value.
pub open spec fn spec_lit_value(l: Literal) -> Result<ValueModel, Error> {
    match l {
        Literal::Number { text, float_bits } => if spec_has_dot(text@) {
            match float_bits {
                Some(b) => Ok(ValueModel::Float(b)),
                None => Err(Error::InvalidNumber),
            }
        } else {
            if is_int_text(text@) && i64::MIN <= int_text_value(text@) <= i64::MAX {
                Ok(ValueModel::Integer(int_text_value(text@) as i64))
            } else {
                Err(Error::InvalidNumber)
            }
        },
        Literal::Str(s) => Ok(ValueModel::Text(s@)),
        Literal::Null => Ok(ValueModel::Null),
        Literal::Other => Err(Error::Unsupported),
    }
}

/// The value an insert expression converts to: literals only.
pub open spec fn spec_expr_value(e: WhereExpr) -> Result<ValueModel, Error> {
    match e {
        WhereExpr::Lit(l) => spec_lit_value(l),
        _ => Err(Error::Unsupported),
    }
}

/// An operand of a comparison, resolved against the current row: a column
/// reference by schema position, a literal directly; anything else, and any
/// failure, resolves to null.
pub open spec fn spec_operand(e: WhereExpr, row: Seq<ValueModel>, cols: Seq<ColumnModel>) -> ValueModel {
    match e {
        WhereExpr::Column(name) => match spec_col_index(cols, name@) {
            Some(i) => if i < row.len() {
                row[i]
            } else {
                ValueModel::Null
            },
            None => ValueModel::Null,
        },
        WhereExpr::Lit(l) => match spec_lit_value(l) {
            Ok(v) => v,
            Err(_) => ValueModel::Null,
        },
        _ => ValueModel::Null,
    }
}

/// Numeric greater-than: integers against integers, floats against floats
/// (by the IEEE rules); every other pairing is false.
pub open spec fn spec_num_gt(l: ValueModel, r: ValueModel) -> bool {
    match l {
        ValueModel::Integer(a) => match r {
            ValueModel::Integer(b) => a > b,
            _ => false,
        },
        ValueModel::Float(a) => match r {
            ValueModel::Float(b) => f64_bits_lt(b, a),
            _ => false,
        },
        _ => false,
    }
}

/// Numeric less-than, as [`spec_num_gt`].
pub open spec fn spec_num_lt(l: ValueModel, r: ValueModel) -> bool {
    match l {
        ValueModel::Integer(a) => match r {
            ValueModel::Integer(b) => a < b,
            _ => false,
        },
        ValueModel::Float(a) => match r {
            ValueModel::Float(b) => f64_bits_lt(a, b),
            _ => false,
        },
        _ => false,
    }
}

/// Whether a row satisfies a WHERE expression.  Only a top-level binary
/// comparison is interpreted: equality structurally, ordering numerically.
/// Any other operator is false; any other expression shape is deliberately
/// vacuously true, so an unsupported predicate admits every row.
pub open spec fn spec_eval(e: WhereExpr, row: Seq<ValueModel>, cols: Seq<ColumnModel>) -> bool {
    match e {
        WhereExpr::Binary { op, left, right } => {
            let lv = spec_operand(*left, row, cols);
            let rv = spec_operand(*right, row, cols);
            match op {
                BinVerb::Eq => lv == rv,
                BinVerb::Gt => spec_num_gt(lv, rv),
                BinVerb::Lt => spec_num_lt(lv, rv),
                BinVerb::Other => false,
            }
        },
        _ => true,
    }
}

/// Whether the text contains a decimal point.
fn has_dot(s: &String) -> (r: bool)
    ensures
        r == spec_has_dot(s@),
{
    let st = s.as_str();
    let n = st.unicode_len();
    let mut i: usize = 0;
    while i < n
        invariant
            n == s@.len(),
            st@ == s@,
            i <= n,
            forall|j: int| 0 <= j < i ==> s@[j] != '.',
        decreases n - i,
    {
        if st.get_char(i) == '.' {
            return true;
        }
        i = i + 1;
    }
    false
}

/// Digit sequences denote non-negative numbers.
proof fn lemma_digits_nonneg(s: Seq<char>)
    requires
        forall|i: int| 0 <= i < s.len() ==> spec_is_digit(#[trigger] s[i]),
    ensures
        digits_value(s) >= 0,
    decreases s.len(),
{
    if s.len() > 0 {
        assert forall|i: int| 0 <= i < s.drop_last().len() implies spec_is_digit(
            #[trigger] s.drop_last()[i],
        ) by {
            assert(s.drop_last()[i] == s[i]);
        }
        lemma_digits_nonneg(s.drop_last());
        assert(spec_is_digit(s.last()));
    }
}

/// Parse an integer literal, refusing any text that is not one and any
/// value outside the 64-bit signed range.
fn parse_i64(s: &String) -> (r: Option<i64>)
    ensures
        match r {
            Some(v) => is_int_text(s@) && i64::MIN <= int_text_value(s@) <= i64::MAX && v as int
                == int_text_value(s@),
            None => !(is_int_text(s@) && i64::MIN <= int_text_value(s@) <= i64::MAX),
        },
{
    let st = s.as_str();
    let n = st.unicode_len();
    if n == 0 {
        return None;
    }
    let neg = st.get_char(0) == '-';
    let start: usize = if neg {
        1
    } else {
        0
    };
    if neg && n == 1 {
        return None;
    }
    let ghost digits = if neg {
        s@.skip(1)
    } else {
        s@
    };
    let bound: u64 = if neg {
        9223372036854775808
    } else {
        9223372036854775807
    };
    let mut mag: u64 = 0;
    let mut i: usize = start;
    proof {
        assert(digits.subrange(0, 0) =~= Seq::<char>::empty());
    }
    while i < n
        invariant
            n == s@.len(),
            st@ == s@,
            start <= i <= n,
            start == (if neg {
                1int
            } else {
                0int
            }),
            neg ==> (s@.len() > 1 && s@[0] == '-'),
            !neg ==> (s@.len() > 0 && s@[0] != '-'),
            digits == (if neg {
                s@.skip(1)
            } else {
                s@
            }),
            bound == (if neg {
                9223372036854775808u64
            } else {
                9223372036854775807u64
            }),
            forall|j: int| start <= j < i ==> spec_is_digit(#[trigger] s@[j]),
            mag as int == digits_value(digits.subrange(0, i - start)),
            mag <= bound,
        decreases n - i,
    {
        let c = st.get_char(i);
        if !(c >= '0' && c <= '9') {
            proof {
                assert(!spec_is_digit(s@[i as int]));
                assert(!is_int_text(s@));
            }
            return None;
        }
        let d: u64 = (c as u32 as u64) - 48;
        proof {
            assert(d <= 9);
        }
        if mag > (bound - d) / 10 {
            proof {
                // the value is already out of range, whatever follows
                let q: int = ((bound - d) / 10) as int;
                assert(10 * q <= (bound - d) as int);
                assert(((bound - d) as int) < 10 * (q + 1));
                let pref = digits.subrange(0, i - start + 1);
                assert(pref.drop_last() =~= digits.subrange(0, i - start));
                assert(pref.last() == s@[i as int]);
                assert(digits_value(pref) == mag as int * 10 + d);
                assert(mag as int >= q + 1);
                assert(mag as int * 10 >= (q + 1) * 10) by (nonlinear_arith)
                    requires
                        mag as int >= q + 1,
                ;
                assert(digits_value(pref) > bound as int);
                if is_int_text(s@) {
                    assert forall|j: int| 0 <= j < digits.len() implies spec_is_digit(
                        #[trigger] digits[j],
                    ) by {
                        if neg {
                            assert(digits[j] == s@[j + 1]);
                        } else {
                            assert(digits[j] == s@[j]);
                        }
                    }
                    lemma_digits_out_of_range(digits, i - start + 1, bound as int);
                    if neg {
                        assert(int_text_value(s@) == -digits_value(digits));
                        assert(int_text_value(s@) < i64::MIN);
                    } else {
                        assert(int_text_value(s@) == digits_value(digits));
                        assert(int_text_value(s@) > i64::MAX);
                    }
                }
            }
            return None;
        }
        proof {
            let q: int = ((bound - d) / 10) as int;
            assert(10 * q <= (bound - d) as int);
            let pref = digits.subrange(0, i - start + 1);
            assert(pref.drop_last() =~= digits.subrange(0, i - start));
            assert(pref.last() == s@[i as int]);
            assert(mag as int <= q);
            assert(mag as int * 10 <= q * 10) by (nonlinear_arith)
                requires
                    mag as int <= q,
            ;
            assert(mag as int * 10 + d <= bound as int);
        }
        mag = mag * 10 + d;
        i = i + 1;
    }
    proof {
        assert(digits.subrange(0, digits.len() as int) =~= digits);
        assert(is_int_text(s@));
    }
    if neg {
        if mag == 9223372036854775808 {
            Some(i64::MIN)
        } else {
            Some(-(mag as i64))
        }
    } else {
        Some(mag as i64)
    }
}

/// Once a digit prefix exceeds a bound, the whole digit sequence does.
proof fn lemma_digits_out_of_range(digits: Seq<char>, k: int, bound: int)
    requires
        0 <= k <= digits.len(),
        digits_value(digits.subrange(0, k)) > bound,
        bound >= 0,
        forall|i: int| 0 <= i < digits.len() ==> spec_is_digit(#[trigger] digits[i]),
    ensures
        digits_value(digits) > bound,
    decreases digits.len() - k,
{
    if k < digits.len() {
        let p = digits.subrange(0, k);
        let q = digits.subrange(0, k + 1);
        assert(q.drop_last() =~= p);
        assert forall|i: int| 0 <= i < p.len() implies spec_is_digit(#[trigger] p[i]) by {
            assert(p[i] == digits[i]);
        }
        lemma_digits_nonneg(p);
        assert(digits_value(q) == digits_value(p) * 10 + (q.last() as int - '0' as int));
        assert(digits_value(p) * 10 >= digits_value(p)) by (nonlinear_arith)
            requires
                digits_value(p) >= 0,
        ;
        assert(q.last() == digits[k]);
        assert(spec_is_digit(digits[k]));
        lemma_digits_out_of_range(digits, k + 1, bound);
    } else {
        assert(digits.subrange(0, digits.len() as int) =~= digits);
    }
}

/// Convert a literal of the statement tree to a value.
pub fn sql_value_to_value(l: &Literal) -> (r: Result<Value, Error>)
    ensures
        match r {
            Ok(v) => spec_lit_value(*l) == Ok::<ValueModel, Error>(v@),
            Err(e) => spec_lit_value(*l) == Err::<ValueModel, Error>(e),
        },
{
    match l {
        Literal::Number { text, float_bits } => {
            if has_dot(text) {
                match float_bits {
                    Some(b) => Ok(Value::Float(*b)),
                    None => Err(Error::InvalidNumber),
                }
            } else {
                match parse_i64(text) {
                    Some(v) => Ok(Value::Integer(v)),
                    None => Err(Error::InvalidNumber),
                }
            }
        },
        Literal::Str(s) => Ok(Value::Text(s.clone())),
        Literal::Null => Ok(Value::Null),
        Literal::Other => Err(Error::Unsupported),
    }
}

/// Convert an insert expression to a value: literals only; a column
/// reference or computed expression is rejected.
pub fn expr_to_value(e: &WhereExpr) -> (r: Result<Value, Error>)
    ensures
        match r {
            Ok(v) => spec_expr_value(*e) == Ok::<ValueModel, Error>(v@),
            Err(err) => spec_expr_value(*e) == Err::<ValueModel, Error>(err),
        },
{
    match e {
        WhereExpr::Lit(l) => sql_value_to_value(l),
        _ => Err(Error::Unsupported),
    }
}

/// Resolve one operand of a comparison against the current row.
fn eval_expr_to_value(e: &WhereExpr, row: &Row, schema: &crate::types::TableSchema) -> (r: Value)
    ensures
        r@ == spec_operand(*e, row@, schema@.columns),
{
    match e {
        WhereExpr::Column(name) => {
            match schema.get_column_index(name.as_str()) {
                Some(i) => {
                    if i < row.values.len() {
                        proof {
                            assert(row@[i as int] == row.values@[i as int]@);
                        }
                        row.values[i].clone()
                    } else {
                        Value::Null
                    }
                },
                None => Value::Null,
            }
        },
        WhereExpr::Lit(l) => match sql_value_to_value(l) {
            Ok(v) => v,
            Err(_) => Value::Null,
        },
        _ => Value::Null,
    }
}

/// Whether a row satisfies a WHERE expression.
pub fn evaluate_expr(e: &WhereExpr, row: &Row, schema: &crate::types::TableSchema) -> (r: bool)
    ensures
        r == spec_eval(*e, row@, schema@.columns),
{
    match e {
        WhereExpr::Binary { op, left, right } => {
            let lv = eval_expr_to_value(left, row, schema);
            let rv = eval_expr_to_value(right, row, schema);
            match op {
                BinVerb::Eq => crate::types::value_eq(&lv, &rv),
                BinVerb::Gt => match lv {
                    Value::Integer(a) => match rv {
                        Value::Integer(b) => a > b,
                        _ => false,
                    },
                    Value::Float(a) => match rv {
                        Value::Float(b) => f64_bits_lt_exec(b, a),
                        _ => false,
                    },
                    _ => false,
                },
                BinVerb::Lt => match lv {
                    Value::Integer(a) => match rv {
                        Value::Integer(b) => a < b,
                        _ => false,
                    },
                    Value::Float(a) => match rv {
                        Value::Float(b) => f64_bits_lt_exec(a, b),
                        _ => false,
                    },
                    _ => false,
                },
                BinVerb::Other => false,
            }
        },
        _ => true,
    }
}

/// The rows of a list that satisfy a WHERE expression, in order.
pub open spec fn filtered_rows(
    rowlist: Seq<Seq<ValueModel>>,
    e: WhereExpr,
    cols: Seq<ColumnModel>,
) -> Seq<Seq<ValueModel>>
    decreases rowlist.len(),
{
    if rowlist.len() == 0 {
        Seq::empty()
    } else {
        let rest = filtered_rows(rowlist.drop_first(), e, cols);
        if spec_eval(e, rowlist[0], cols) {
            seq![rowlist[0]] + rest
        } else {
            rest
        }
    }
}

/// What one appended row adds to the filtered rows.
proof fn lemma_filtered_push(
    rowlist: Seq<Seq<ValueModel>>,
    r: Seq<ValueModel>,
    e: WhereExpr,
    cols: Seq<ColumnModel>,
)
    ensures
        filtered_rows(rowlist.push(r), e, cols) == filtered_rows(rowlist, e, cols) + (if spec_eval(
            e,
            r,
            cols,
        ) {
            seq![r]
        } else {
            Seq::empty()
        }),
    decreases rowlist.len(),
{
    let tail: Seq<Seq<ValueModel>> = if spec_eval(e, r, cols) {
        seq![r]
    } else {
        Seq::empty()
    };
    if rowlist.len() == 0 {
        assert(rowlist.push(r)[0] == r);
        assert(rowlist.push(r).drop_first() =~= Seq::<Seq<ValueModel>>::empty());
        assert(filtered_rows(Seq::<Seq<ValueModel>>::empty(), e, cols) == Seq::<
            Seq<ValueModel>,
        >::empty());
        if spec_eval(e, r, cols) {
            assert(filtered_rows(rowlist.push(r), e, cols) == seq![r] + Seq::<
                Seq<ValueModel>,
            >::empty());
            assert(seq![r] + Seq::<Seq<ValueModel>>::empty() =~= tail);
        }
        assert(filtered_rows(rowlist, e, cols) + tail =~= tail);
    } else {
        assert(rowlist.push(r)[0] == rowlist[0]);
        assert(rowlist.push(r).drop_first() =~= rowlist.drop_first().push(r));
        lemma_filtered_push(rowlist.drop_first(), r, e, cols);
        if spec_eval(e, rowlist[0], cols) {
            assert(seq![rowlist[0]] + (filtered_rows(rowlist.drop_first(), e, cols) + tail) =~= (
            seq![rowlist[0]] + filtered_rows(rowlist.drop_first(), e, cols)) + tail);
        }
    }
}

/// Whether an expression is an equality of a bare column reference (on the
/// left) against a literal that converts to `key` (on the right): the one
/// shape the access-path decision sends to an index.
pub open spec fn is_eq_col_lit(e: WhereExpr, name: Seq<char>, key: ValueModel) -> bool {
    match e {
        WhereExpr::Binary { op, left, right } => {
            &&& op == BinVerb::Eq
            &&& match *left {
                WhereExpr::Column(n) => n@ == name,
                _ => false,
            }
            &&& match *right {
                WhereExpr::Lit(l) => spec_lit_value(l) == Ok::<ValueModel, Error>(key),
                _ => false,
            }
        },
        _ => false,
    }
}

/// For an equality predicate on one column, the rows an index on that
/// column selects are exactly the rows the scan-and-filter path keeps:
/// the two access paths return the same row sequence.
pub proof fn lemma_index_filter_agree(
    rowlist: Seq<Seq<ValueModel>>,
    e: WhereExpr,
    cols: Seq<ColumnModel>,
    name: Seq<char>,
    key: ValueModel,
    ci: int,
)
    requires
        is_eq_col_lit(e, name, key),
        spec_col_index(cols, name) == Some(ci),
        forall|i: int| 0 <= i < rowlist.len() ==> (#[trigger] rowlist[i]).len() == cols.len(),
    ensures
        rows_matching(rowlist, ci, key) == filtered_rows(rowlist, e, cols),
    decreases rowlist.len(),
{
    crate::types::lemma_col_index_props(cols, name);
    if rowlist.len() > 0 {
        let row = rowlist[0];
        match e {
            WhereExpr::Binary { op, left, right } => {
                assert(spec_operand(*left, row, cols) == row[ci]);
                assert(spec_operand(*right, row, cols) == key);
                assert(spec_eval(e, row, cols) == (row[ci] == key));
            },
            _ => {},
        }
        assert forall|i: int| 0 <= i < rowlist.drop_first().len() implies (#[trigger] rowlist
            .drop_first()[i]).len() == cols.len() by {
            assert(rowlist.drop_first()[i] == rowlist[i + 1]);
        }
        lemma_index_filter_agree(rowlist.drop_first(), e, cols, name, key, ci);
    }
}

/// Map the declared column descriptors onto internal columns; the first
/// unsupported descriptor rejects the statement.
pub open spec fn map_columns(defs: Seq<ColumnDef>) -> Result<Seq<ColumnModel>, Error>
    decreases defs.len(),
{
    if defs.len() == 0 {
        Ok(Seq::empty())
    } else {
        match column_type_of(defs[0].data_type) {
            None => Err(Error::Unsupported),
            Some(t) => match map_columns(defs.drop_first()) {
                Err(e) => Err(e),
                Ok(rest) => Ok(seq![ColumnModel { name: defs[0].name@, column_type: t }] + rest),
            },
        }
    }
}

/// What one appended descriptor adds to the mapping.
proof fn lemma_map_columns_push(defs: Seq<ColumnDef>, d: ColumnDef)
    ensures
        map_columns(defs.push(d)) == (match map_columns(defs) {
            Err(e) => Err::<Seq<ColumnModel>, Error>(e),
            Ok(rest) => match column_type_of(d.data_type) {
                None => Err(Error::Unsupported),
                Some(t) => Ok(rest.push(ColumnModel { name: d.name@, column_type: t })),
            },
        }),
    decreases defs.len(),
{
    if defs.len() == 0 {
        assert(defs.push(d)[0] == d);
        assert(defs.push(d).drop_first() =~= Seq::<ColumnDef>::empty());
        match column_type_of(d.data_type) {
            None => {},
            Some(t) => {
                assert(seq![ColumnModel { name: d.name@, column_type: t }] + Seq::<
                    ColumnModel,
                >::empty() =~= Seq::<ColumnModel>::empty().push(
                    ColumnModel { name: d.name@, column_type: t },
                ));
            },
        }
    } else {
        assert(defs.push(d)[0] == defs[0]);
        assert(defs.push(d).drop_first() =~= defs.drop_first().push(d));
        lemma_map_columns_push(defs.drop_first(), d);
        match column_type_of(defs[0].data_type) {
            None => {},
            Some(t0) => {
                let head = ColumnModel { name: defs[0].name@, column_type: t0 };
                match map_columns(defs.drop_first()) {
                    Err(_) => {},
                    Ok(rest) => {
                        match column_type_of(d.data_type) {
                            None => {},
                            Some(t) => {
                                assert(seq![head] + rest.push(
                                    ColumnModel { name: d.name@, column_type: t },
                                ) =~= (seq![head] + rest).push(
                                    ColumnModel { name: d.name@, column_type: t },
                                ));
                            },
                        }
                    },
                }
            },
        }
    }
}

/// Convert one row of insert expressions; the first failing expression
/// rejects the row with its own error.
pub open spec fn conv_row(es: Seq<WhereExpr>) -> Result<Seq<ValueModel>, Error>
    decreases es.len(),
{
    if es.len() == 0 {
        Ok(Seq::empty())
    } else {
        match spec_expr_value(es[0]) {
            Err(e) => Err(e),
            Ok(v) => match conv_row(es.drop_first()) {
                Err(e) => Err(e),
                Ok(rest) => Ok(seq![v] + rest),
            },
        }
    }
}

/// What one appended expression adds to the conversion.
proof fn lemma_conv_row_push(es: Seq<WhereExpr>, e: WhereExpr)
    ensures
        conv_row(es.push(e)) == (match conv_row(es) {
            Err(er) => Err::<Seq<ValueModel>, Error>(er),
            Ok(rest) => match spec_expr_value(e) {
                Err(er) => Err(er),
                Ok(v) => Ok(rest.push(v)),
            },
        }),
    decreases es.len(),
{
    if es.len() == 0 {
        assert(es.push(e)[0] == e);
        assert(es.push(e).drop_first() =~= Seq::<WhereExpr>::empty());
        assert(conv_row(Seq::<WhereExpr>::empty()) == Ok::<Seq<ValueModel>, Error>(
            Seq::empty(),
        ));
        assert(conv_row(es) == Ok::<Seq<ValueModel>, Error>(Seq::empty()));
        match spec_expr_value(e) {
            Err(_) => {},
            Ok(v) => {
                assert(seq![v] + Seq::<ValueModel>::empty() =~= Seq::<ValueModel>::empty().push(
                    v,
                ));
            },
        }
    } else {
        assert(es.push(e)[0] == es[0]);
        assert(es.push(e).drop_first() =~= es.drop_first().push(e));
        lemma_conv_row_push(es.drop_first(), e);
        match spec_expr_value(es[0]) {
            Err(_) => {},
            Ok(v0) => {
                match conv_row(es.drop_first()) {
                    Err(_) => {},
                    Ok(rest) => {
                        match spec_expr_value(e) {
                            Err(_) => {},
                            Ok(v) => {
                                assert(seq![v0] + rest.push(v) =~= (seq![v0] + rest).push(v));
                            },
                        }
                    },
                }
            },
        }
    }
}

/// Whether every row of an INSERT converts, matches the table's schema, and
/// fits a row record: the condition under which the whole statement is owed
/// success.
pub open spec fn insert_rows_ok(
    table: Seq<char>,
    rows: Seq<Vec<WhereExpr>>,
    cols: Seq<ColumnModel>,
) -> bool {
    forall|i: int| 0 <= i < rows.len() ==> ((#[trigger] conv_row(rows[i]@)) is Ok
        && row_matches_schema(conv_row(rows[i]@)->Ok_0, cols) && row_record_fits(
        table,
        conv_row(rows[i]@)->Ok_0,
    ))
}

/// The row records that inserting the first `n` rows appends to the log.
pub open spec fn ins_recs(table: Seq<char>, rows: Seq<Vec<WhereExpr>>, n: int) -> Seq<Record> {
    Seq::new(n as nat, |i: int| Record::RowRec { table, row: conv_row(rows[i]@)->Ok_0 })
}

/// The query executor: translates parsed statements into storage
/// operations.  Stateless across calls but for the shared storage engine.
pub struct QueryExecutor {
    pub storage: BitcaskStorage,
}

impl QueryExecutor {
    pub fn new(storage: BitcaskStorage) -> (r: Self)
        ensures
            r.storage == storage,
    {
        QueryExecutor { storage }
    }

    /// CREATE TABLE: map the declared column types, then register the
    /// schema (appending a schema record); a duplicate name fails without
    /// any effect on the existing table.
    pub fn execute_create_table(&mut self, name: &String, columns: &Vec<ColumnDef>) -> (r: Result<
        ExecutionResult,
        Error,
    >)
        requires
            old(self).storage.wf(),
        ensures
            final(self).storage.wf(),
            map_columns(columns@) is Err ==> r == Result::<ExecutionResult, Error>::Err(
                Error::Unsupported,
            ) && *final(self) == *old(self),
            map_columns(columns@) is Ok ==> ({
                let schema = crate::types::SchemaModel {
                    name: name@,
                    columns: map_columns(columns@)->Ok_0,
                };
                &&& (catalog_index(old(self).storage.catalog(), name@) is Some ==> r == Result::<
                    ExecutionResult,
                    Error,
                >::Err(Error::SchemaExists) && *final(self) == *old(self))
                &&& (catalog_index(old(self).storage.catalog(), name@) is None
                    && !crate::storage::schema_record_fits(schema) ==> r == Result::<
                    ExecutionResult,
                    Error,
                >::Err(Error::Serialization) && *final(self) == *old(self))
                &&& (catalog_index(old(self).storage.catalog(), name@) is None
                    && crate::storage::schema_record_fits(schema) ==> (r matches Ok(res)
                    && res is Created && final(self).storage.recs() == old(self).storage.recs().push(
                    Record::Schema { payload: crate::codec::schema_bytes(schema) },
                ) && final(self).storage.catalog().len() == old(self).storage.catalog().len() + 1
                    && final(self).storage.catalog().last().schema@ == schema))
            }),
    {
        let mut cols: Vec<crate::types::Column> = Vec::new();
        let mut i: usize = 0;
        proof {
            assert(columns@.subrange(0, 0) =~= Seq::<ColumnDef>::empty());
            assert(cols@.map_values(|c: crate::types::Column| c@) =~= Seq::<ColumnModel>::empty());
        }
        while i < columns.len()
            invariant
                *self == *old(self),
                old(self).storage.wf(),
                i <= columns@.len(),
                map_columns(columns@.subrange(0, i as int)) == Ok::<Seq<ColumnModel>, Error>(
                    cols@.map_values(|c: crate::types::Column| c@),
                ),
            decreases columns@.len() - i,
        {
            let def = &columns[i];
            let ct = match def.data_type {
                TypeName::Int => ColumnType::Integer,
                TypeName::Integer => ColumnType::Integer,
                TypeName::BigInt => ColumnType::Integer,
                TypeName::SmallInt => ColumnType::Integer,
                TypeName::Text => ColumnType::Text,
                TypeName::Varchar => ColumnType::Text,
                TypeName::Char => ColumnType::Text,
                TypeName::Float => ColumnType::Float,
                TypeName::Real => ColumnType::Float,
                TypeName::Double => ColumnType::Float,
                TypeName::Other => {
                    proof {
                        lemma_map_columns_push(columns@.subrange(0, i as int), columns@[i as int]);
                        assert(columns@.subrange(0, i as int).push(columns@[i as int])
                            =~= columns@.subrange(0, i as int + 1));
                        lemma_map_columns_err_extends(columns@, i as int + 1);
                    }
                    return Err(Error::Unsupported);
                },
            };
            let col = crate::types::Column { name: def.name.clone(), column_type: ct };
            proof {
                lemma_map_columns_push(columns@.subrange(0, i as int), columns@[i as int]);
                assert(columns@.subrange(0, i as int).push(columns@[i as int]) =~= columns@.subrange(
                    0,
                    i as int + 1,
                ));
                assert(cols@.push(col).map_values(|c: crate::types::Column| c@) =~= cols@.map_values(
                    |c: crate::types::Column| c@,
                ).push(col@));
            }
            cols.push(col);
            i = i + 1;
        }
        proof {
            assert(columns@.subrange(0, columns@.len() as int) =~= columns@);
        }
        let schema = crate::types::TableSchema::new(name.clone(), cols);
        match self.storage.create_table(schema) {
            Ok(_) => Ok(ExecutionResult::Created),
            Err(e) => Err(e),
        }
    }

    /// INSERT: convert each row of literal expressions to values, then
    /// validate-append-update, one unit per row; returns the count of rows
    /// inserted.  A failure part way leaves the earlier rows in place.
    pub fn execute_insert(&mut self, table: &String, rows: &Vec<Vec<WhereExpr>>) -> (r: Result<
        ExecutionResult,
        Error,
    >)
        requires
            old(self).storage.wf(),
        ensures
            final(self).storage.wf(),
            final(self).storage.catalog().len() == old(self).storage.catalog().len(),
            r matches Ok(res) ==> (res == ExecutionResult::Inserted(rows@.len() as usize) && (
            forall|i: int| 0 <= i < rows@.len() ==> (#[trigger] conv_row(rows@[i]@)) is Ok)
                && final(self).storage.recs() == old(self).storage.recs() + ins_recs(
                table@,
                rows@,
                rows@.len() as int,
            )),
            r is Err ==> exists|n: int|
                0 <= n <= rows@.len() && final(self).storage.recs() == old(self).storage.recs()
                    + ins_recs(table@, rows@, n),
            ({
                let ti = catalog_index(old(self).storage.catalog(), table@);
                ti is Some && insert_rows_ok(
                    table@,
                    rows@,
                    old(self).storage.catalog()[ti->Some_0].schema@.columns,
                )
            }) ==> r is Ok,
    {
        let ghost recs0 = self.storage.recs();
        let mut inserted: usize = 0;
        proof {
            assert(recs0 + ins_recs(table@, rows@, 0) =~= recs0);
        }
        while inserted < rows.len()
            invariant
                self.storage.wf(),
                recs0 == old(self).storage.recs(),
                self.storage.catalog().len() == old(self).storage.catalog().len(),
                forall|i2: int| 0 <= i2 < self.storage.catalog().len() ==> (
                #[trigger] self.storage.catalog()[i2]).schema == old(
                    self,
                ).storage.catalog()[i2].schema,
                inserted <= rows@.len(),
                forall|i: int| 0 <= i < inserted ==> (#[trigger] conv_row(rows@[i]@)) is Ok,
                self.storage.recs() == recs0 + ins_recs(table@, rows@, inserted as int),
            decreases rows@.len() - inserted,
        {
            let exprs = &rows[inserted];
            let mut values: Vec<Value> = Vec::new();
            let mut j: usize = 0;
            proof {
                assert(exprs@.subrange(0, 0) =~= Seq::<WhereExpr>::empty());
                assert(values@.map_values(|v: Value| v@) =~= Seq::<ValueModel>::empty());
            }
            while j < exprs.len()
                invariant
                    self.storage.wf(),
                    recs0 == old(self).storage.recs(),
                    self.storage.catalog().len() == old(self).storage.catalog().len(),
                    forall|i2: int| 0 <= i2 < self.storage.catalog().len() ==> (
                    #[trigger] self.storage.catalog()[i2]).schema == old(
                        self,
                    ).storage.catalog()[i2].schema,
                    inserted < rows@.len(),
                    forall|i2: int| 0 <= i2 < inserted ==> (#[trigger] conv_row(
                        rows@[i2]@,
                    )) is Ok,
                    self.storage.recs() == recs0 + ins_recs(table@, rows@, inserted as int),
                    exprs == &rows[inserted as int],
                    j <= exprs@.len(),
                    conv_row(exprs@.subrange(0, j as int)) == Ok::<Seq<ValueModel>, Error>(
                        values@.map_values(|v: Value| v@),
                    ),
                decreases exprs@.len() - j,
            {
                let v = match expr_to_value(&exprs[j]) {
                    Ok(v) => v,
                    Err(e) => {
                        proof {
                            lemma_conv_row_push(exprs@.subrange(0, j as int), exprs@[j as int]);
                            assert(exprs@.subrange(0, j as int).push(exprs@[j as int])
                                =~= exprs@.subrange(0, j as int + 1));
                            lemma_conv_row_err_extends(exprs@, j as int + 1);
                            assert(conv_row(rows@[inserted as int]@) is Err);
                        }
                        return Err(e);
                    },
                };
                proof {
                    lemma_conv_row_push(exprs@.subrange(0, j as int), exprs@[j as int]);
                    assert(exprs@.subrange(0, j as int).push(exprs@[j as int]) =~= exprs@.subrange(
                        0,
                        j as int + 1,
                    ));
                    assert(values@.push(v).map_values(|v2: Value| v2@) =~= values@.map_values(
                        |v2: Value| v2@,
                    ).push(v@));
                }
                values.push(v);
                j = j + 1;
            }
            proof {
                assert(exprs@.subrange(0, exprs@.len() as int) =~= exprs@);
            }
            let row = Row::new(values);
            let ghost cat1 = self.storage.catalog();
            match self.storage.insert(table, row) {
                Ok(_) => {},
                Err(e) => {
                    proof {
                        let ocat = old(self).storage.catalog();
                        lemma_catalog_same_names(cat1, ocat, table@);
                        if catalog_index(ocat, table@) is Some {
                            let ti = catalog_index(ocat, table@)->Some_0;
                            crate::storage::lemma_catalog_props(cat1, table@);
                            assert(cat1[ti].schema == ocat[ti].schema);
                            if insert_rows_ok(table@, rows@, ocat[ti].schema@.columns) {
                                assert(conv_row(rows@[inserted as int]@) is Ok);
                                assert(false);
                            }
                        }
                    }
                    return Err(e);
                },
            }
            proof {
                assert(recs0 + ins_recs(table@, rows@, inserted as int + 1) =~= (recs0 + ins_recs(
                    table@,
                    rows@,
                    inserted as int,
                )).push(Record::RowRec { table: table@, row: conv_row(rows@[inserted as int]@)->Ok_0 }));
            }
            inserted = inserted + 1;
        }
        Ok(ExecutionResult::Inserted(inserted))
    }
}

/// The error a WHERE clause's right-hand literal produces, when the clause
/// has the index-eligible shape `column = literal` and the literal is bad.
pub open spec fn where_lit_err(e: WhereExpr) -> Option<Error> {
    match e {
        WhereExpr::Binary { op, left, right } => if op == BinVerb::Eq && (*left) is Column {
            match *right {
                WhereExpr::Lit(l) => match spec_lit_value(l) {
                    Err(er) => Some(er),
                    Ok(_) => None,
                },
                _ => None,
            }
        } else {
            None
        },
        _ => None,
    }
}

impl QueryExecutor {
    /// Answer a WHERE clause on one table.  If and only if the clause is an
    /// equality of a bare column reference against a literal, an index
    /// lookup on that (table, column) is attempted: on a hit its rows are
    /// returned directly, without re-filtering.  Otherwise, and on a miss,
    /// a full scan with an in-memory filter answers the clause.  Either
    /// path returns the same rows; the flag says whether the index served.
    pub fn execute_where(&self, table: &String, expr: &WhereExpr) -> (r: Result<
        (Vec<Row>, bool),
        Error,
    >)
        requires
            self.storage.wf(),
        ensures
            r matches Ok(p) ==> ({
                let ti = catalog_index(self.storage.catalog(), table@);
                ti is Some && p.0@.map_values(|row: Row| row@) == filtered_rows(
                    table_rows(self.storage.recs(), table@),
                    *expr,
                    self.storage.catalog()[ti->Some_0].schema@.columns,
                )
            }),
            r matches Err(er) ==> (where_lit_err(*expr) == Some(er) || (where_lit_err(*expr)
                is None && er == Error::MissingTable && catalog_index(
                self.storage.catalog(),
                table@,
            ) is None)),
            catalog_index(self.storage.catalog(), table@) is Some && where_lit_err(*expr)
                is None ==> r is Ok,
    {
        let ghost rowlist = table_rows(self.storage.recs(), table@);
        match expr {
            WhereExpr::Binary { op, left, right } => {
                if *op == BinVerb::Eq {
                    match &**left {
                        WhereExpr::Column(col_name) => {
                            match &**right {
                                WhereExpr::Lit(l) => {
                                    let value = match sql_value_to_value(l) {
                                        Ok(v) => v,
                                        Err(e) => {
                                            return Err(e);
                                        },
                                    };
                                    match self.storage.index_lookup(table, col_name, &value) {
                                        Ok(rows) => {
                                            proof {
                                                self.lemma_where_index_path(
                                                    table@,
                                                    col_name@,
                                                    *expr,
                                                    value@,
                                                );
                                            }
                                            return Ok((rows, true));
                                        },
                                        Err(_) => {},
                                    }
                                },
                                _ => {},
                            }
                        },
                        _ => {},
                    }
                }
            },
            _ => {},
        }
        // no usable index: full scan with an in-memory filter
        let all = match self.storage.scan(table) {
            Ok(rows) => rows,
            Err(e) => {
                return Err(e);
            },
        };
        let schema = match self.storage.get_schema(table) {
            Some(s) => s,
            None => {
                return Err(Error::MissingTable);
            },
        };
        let ghost cols = schema@.columns;
        let mut out: Vec<Row> = Vec::new();
        let mut i: usize = 0;
        proof {
            assert(all@.map_values(|row: Row| row@) == rowlist);
            assert(rowlist.subrange(0, 0) =~= Seq::<Seq<ValueModel>>::empty());
            assert(out@.map_values(|row: Row| row@) =~= filtered_rows(
                rowlist.subrange(0, 0),
                *expr,
                cols,
            ));
        }
        while i < all.len()
            invariant
                cols == schema@.columns,
                all@.map_values(|row: Row| row@) == rowlist,
                i <= all@.len(),
                out@.map_values(|row: Row| row@) == filtered_rows(
                    rowlist.subrange(0, i as int),
                    *expr,
                    cols,
                ),
            decreases all@.len() - i,
        {
            proof {
                assert(all@.map_values(|row: Row| row@)[i as int] == all@[i as int]@);
                assert(rowlist.subrange(0, i as int).push(rowlist[i as int]) =~= rowlist.subrange(
                    0,
                    i as int + 1,
                ));
                lemma_filtered_push(rowlist.subrange(0, i as int), rowlist[i as int], *expr, cols);
            }
            if evaluate_expr(expr, &all[i], schema) {
                let row = all[i].clone();
                proof {
                    assert(out@.push(row).map_values(|r2: Row| r2@) =~= out@.map_values(
                        |r2: Row| r2@,
                    ).push(row@));
                    assert(filtered_rows(rowlist.subrange(0, i as int), *expr, cols) + seq![
                        rowlist[i as int],
                    ] =~= filtered_rows(rowlist.subrange(0, i as int), *expr, cols).push(
                        rowlist[i as int],
                    ));
                }
                out.push(row);
            } else {
                proof {
                    assert(filtered_rows(rowlist.subrange(0, i as int), *expr, cols) + Seq::<
                        Seq<ValueModel>,
                    >::empty() =~= filtered_rows(rowlist.subrange(0, i as int), *expr, cols));
                }
            }
            i = i + 1;
        }
        proof {
            assert(rowlist.subrange(0, rowlist.len() as int) =~= rowlist);
        }
        Ok((out, false))
    }

    /// On an index hit, the rows the index selects are the rows the filter
    /// would keep.
    proof fn lemma_where_index_path(
        self,
        table: Seq<char>,
        col_name: Seq<char>,
        e: WhereExpr,
        key: ValueModel,
    )
        requires
            self.storage.wf(),
            is_eq_col_lit(e, col_name, key),
            catalog_index(self.storage.catalog(), table) is Some,
            spec_col_index(
                self.storage.catalog()[catalog_index(self.storage.catalog(), table)->Some_0].schema@.columns,
                col_name,
            ) is Some,
        ensures
            ({
                let ti = catalog_index(self.storage.catalog(), table)->Some_0;
                let cols = self.storage.catalog()[ti].schema@.columns;
                let ci = spec_col_index(cols, col_name)->Some_0;
                rows_matching(table_rows(self.storage.recs(), table), ci, key) == filtered_rows(
                    table_rows(self.storage.recs(), table),
                    e,
                    cols,
                )
            }),
    {
        let ti = catalog_index(self.storage.catalog(), table)->Some_0;
        let cols = self.storage.catalog()[ti].schema@.columns;
        let ci = spec_col_index(cols, col_name)->Some_0;
        let rs = self.storage.recs();
        let rowlist = table_rows(rs, table);
        let pairs = crate::log::table_rows_from(rs, table, 0);
        crate::storage::lemma_catalog_props(self.storage.catalog(), table);
        assert forall|i: int| 0 <= i < rowlist.len() implies (#[trigger] rowlist[i]).len()
            == cols.len() by {
            assert(rowlist[i] == pairs[i].1);
            crate::log::lemma_table_rows_member(rs, table, 0, i);
            let k = choose|k: int|
                0 <= k < rs.len() && rs[k] == (Record::RowRec { table, row: pairs[i].1 })
                    && pairs[i].0 == 0 + crate::log::records_bytes(rs.take(k)).len() as int;
            assert(rs[k] is RowRec && crate::log::rec_table(rs[k]) == table);
            assert(catalog_index(self.storage.catalog(), crate::log::rec_table(rs[k]))
                == Some(ti));
            assert(crate::types::row_matches_schema(crate::log::rec_row(rs[k]), cols));
        }
        lemma_index_filter_agree(rowlist, e, cols, col_name, key, ci);
    }

    /// SELECT from exactly one table, all columns: a full scan without a
    /// WHERE clause, the access-path decision of [`Self::execute_where`]
    /// with one.
    pub fn execute_select(&self, tables: &Vec<String>, selection: &Option<WhereExpr>) -> (r:
        Result<(ExecutionResult, bool), Error>)
        requires
            self.storage.wf(),
        ensures
            tables@.len() == 0 ==> r == Result::<(ExecutionResult, bool), Error>::Err(
                Error::Unsupported,
            ),
            tables@.len() > 0 ==> match *selection {
                Option::None => (r matches Ok(p) && !p.1 && (match p.0 {
                    ExecutionResult::Selected(rows) => rows@.map_values(|row: Row| row@)
                        == table_rows(self.storage.recs(), tables@[0]@),
                    _ => false,
                })),
                Option::Some(e) => {
                    &&& (r matches Ok(p) ==> ({
                        let ti = catalog_index(self.storage.catalog(), tables@[0]@);
                        ti is Some && (match p.0 {
                            ExecutionResult::Selected(rows) => rows@.map_values(|row: Row| row@)
                                == filtered_rows(
                                table_rows(self.storage.recs(), tables@[0]@),
                                e,
                                self.storage.catalog()[ti->Some_0].schema@.columns,
                            ),
                            _ => false,
                        })
                    }))
                    &&& (r matches Err(er) ==> (where_lit_err(e) == Some(er) || (where_lit_err(e)
                        is None && er == Error::MissingTable && catalog_index(
                        self.storage.catalog(),
                        tables@[0]@,
                    ) is None)))
                    &&& (catalog_index(self.storage.catalog(), tables@[0]@) is Some
                        && where_lit_err(e) is None ==> r is Ok)
                },
            },
    {
        if tables.len() == 0 {
            return Err(Error::Unsupported);
        }
        let table = &tables[0];
        match selection {
            Some(e) => {
                match self.execute_where(table, e) {
                    Ok((rows, used)) => Ok((ExecutionResult::Selected(rows), used)),
                    Err(er) => Err(er),
                }
            },
            None => {
                match self.storage.scan(table) {
                    Ok(rows) => Ok((ExecutionResult::Selected(rows), false)),
                    Err(er) => Err(er),
                }
            },
        }
    }

    /// Execute one parsed statement.  Statement kinds beyond CREATE TABLE,
    /// INSERT and single-table SELECT are rejected before any effect.
    pub fn execute(&mut self, stmt: &Statement) -> (r: Result<QueryResult, Error>)
        requires
            old(self).storage.wf(),
        ensures
            final(self).storage.wf(),
            match *stmt {
                Statement::Other => r == Result::<QueryResult, Error>::Err(Error::Unsupported)
                    && *final(self) == *old(self),
                Statement::CreateTable { name, columns } => {
                    &&& (map_columns(columns@) is Err ==> r == Result::<QueryResult, Error>::Err(
                        Error::Unsupported,
                    ) && *final(self) == *old(self))
                    &&& (map_columns(columns@) is Ok ==> ({
                        let schema = crate::types::SchemaModel {
                            name: name@,
                            columns: map_columns(columns@)->Ok_0,
                        };
                        &&& (catalog_index(old(self).storage.catalog(), name@) is Some ==> r
                            == Result::<QueryResult, Error>::Err(Error::SchemaExists) && *final(self) == *old(self))
                        &&& (catalog_index(old(self).storage.catalog(), name@) is None
                            && !crate::storage::schema_record_fits(schema) ==> r == Result::<
                            QueryResult,
                            Error,
                        >::Err(Error::Serialization) && *final(self) == *old(self))
                        &&& (catalog_index(old(self).storage.catalog(), name@) is None
                            && crate::storage::schema_record_fits(schema) ==> (r matches Ok(q)
                            && q.result is Created && !q.used_index && final(self).storage.recs()
                            == old(self).storage.recs().push(
                            Record::Schema { payload: crate::codec::schema_bytes(schema) },
                        ) && final(self).storage.catalog().len() == old(self).storage.catalog().len() + 1 && final(self).storage.catalog().last().schema@
                            == schema))
                    }))
                },
                Statement::Insert { table, rows } => {
                    &&& (r matches Ok(q) ==> (q.result == ExecutionResult::Inserted(
                        rows@.len() as usize,
                    ) && !q.used_index && (forall|i: int|
                        0 <= i < rows@.len() ==> (#[trigger] conv_row(rows@[i]@)) is Ok)
                        && final(self).storage.recs() == old(self).storage.recs() + ins_recs(
                        table@,
                        rows@,
                        rows@.len() as int,
                    )))
                    &&& (r is Err ==> exists|n: int|
                        0 <= n <= rows@.len() && final(self).storage.recs()
                            == old(self).storage.recs() + ins_recs(table@, rows@, n))
                    &&& (({
                        let ti = catalog_index(old(self).storage.catalog(), table@);
                        ti is Some && insert_rows_ok(
                            table@,
                            rows@,
                            old(self).storage.catalog()[ti->Some_0].schema@.columns,
                        )
                    }) ==> r is Ok)
                },
                Statement::Select { tables, selection } => {
                    &&& *final(self) == *old(self)
                    &&& (tables@.len() == 0 ==> r == Result::<QueryResult, Error>::Err(
                        Error::Unsupported,
                    ))
                    &&& (tables@.len() > 0 ==> match selection {
                        Option::None => (r matches Ok(q) && !q.used_index && (match q.result {
                            ExecutionResult::Selected(rows) => rows@.map_values(|row: Row| row@)
                                == table_rows(old(self).storage.recs(), tables@[0]@),
                            _ => false,
                        })),
                        Option::Some(e) => {
                            &&& (r matches Ok(q) ==> ({
                                let ti = catalog_index(old(self).storage.catalog(), tables@[0]@);
                                ti is Some && (match q.result {
                                    ExecutionResult::Selected(rows) => rows@.map_values(
                                        |row: Row| row@,
                                    ) == filtered_rows(
                                        table_rows(old(self).storage.recs(), tables@[0]@),
                                        e,
                                        old(self).storage.catalog()[ti->Some_0].schema@.columns,
                                    ),
                                    _ => false,
                                })
                            }))
                            &&& (r matches Err(er) ==> (where_lit_err(e) == Some(er) || (
                            where_lit_err(e) is None && er == Error::MissingTable && catalog_index(
                                old(self).storage.catalog(),
                                tables@[0]@,
                            ) is None)))
                            &&& (catalog_index(old(self).storage.catalog(), tables@[0]@) is Some
                                && where_lit_err(e) is None ==> r is Ok)
                        },
                    })
                },
            },
    {
        match stmt {
            Statement::CreateTable { name, columns } => {
                match self.execute_create_table(name, columns) {
                    Ok(res) => Ok(QueryResult { result: res, used_index: false }),
                    Err(e) => Err(e),
                }
            },
            Statement::Insert { table, rows } => {
                match self.execute_insert(table, rows) {
                    Ok(res) => Ok(QueryResult { result: res, used_index: false }),
                    Err(e) => Err(e),
                }
            },
            Statement::Select { tables, selection } => {
                match self.execute_select(tables, selection) {
                    Ok((res, used)) => Ok(QueryResult { result: res, used_index: used }),
                    Err(e) => Err(e),
                }
            },
            Statement::Other => Err(Error::Unsupported),
        }
    }
}

/// Once a descriptor prefix fails to map, the whole list does.
proof fn lemma_map_columns_err_extends(defs: Seq<ColumnDef>, k: int)
    requires
        0 <= k <= defs.len(),
        map_columns(defs.subrange(0, k)) is Err,
    ensures
        map_columns(defs) is Err,
    decreases defs.len() - k,
{
    if k < defs.len() {
        lemma_map_columns_push(defs.subrange(0, k), defs[k]);
        assert(defs.subrange(0, k).push(defs[k]) =~= defs.subrange(0, k + 1));
        lemma_map_columns_err_extends(defs, k + 1);
    } else {
        assert(defs.subrange(0, defs.len() as int) =~= defs);
    }
}

/// Once an expression prefix fails to convert, the whole row does.
proof fn lemma_conv_row_err_extends(es: Seq<WhereExpr>, k: int)
    requires
        0 <= k <= es.len(),
        conv_row(es.subrange(0, k)) is Err,
    ensures
        conv_row(es) is Err,
    decreases es.len() - k,
{
    if k < es.len() {
        lemma_conv_row_push(es.subrange(0, k), es[k]);
        assert(es.subrange(0, k).push(es[k]) =~= es.subrange(0, k + 1));
        lemma_conv_row_err_extends(es, k + 1);
    } else {
        assert(es.subrange(0, es.len() as int) =~= es);
    }
}

} // verus!
