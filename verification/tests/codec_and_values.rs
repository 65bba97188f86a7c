use bitcask_sql::codec::{decode_row, decode_schema, encode_row, encode_schema};
use bitcask_sql::executor::{
    evaluate_expr, expr_to_value, sql_value_to_value, BinVerb, Literal, WhereExpr,
};
use bitcask_sql::types::{
    f64_bits_lt_exec, value_eq, Column, ColumnType, Error, Row, TableSchema, Value,
};

fn roundtrip_row(row: Row) -> Row {
    let bytes = encode_row(&row).unwrap();
    decode_row(bytes.as_slice()).unwrap()
}

#[test]
fn row_payload_round_trip() {
    let row = Row::new(vec![
        Value::Integer(-42),
        Value::Text("héllo wörld".to_string()),
        Value::Float(3.25f64.to_bits()),
        Value::Null,
        Value::Integer(i64::MAX),
        Value::Integer(i64::MIN),
        Value::Text(String::new()),
    ]);
    let back = roundtrip_row(row);
    assert!(matches!(back.values[0], Value::Integer(-42)));
    assert!(matches!(&back.values[1], Value::Text(s) if s == "héllo wörld"));
    assert!(matches!(back.values[2], Value::Float(b) if f64::from_bits(b) == 3.25));
    assert!(matches!(back.values[3], Value::Null));
    assert!(matches!(back.values[4], Value::Integer(i64::MAX)));
    assert!(matches!(back.values[5], Value::Integer(i64::MIN)));
    assert!(matches!(&back.values[6], Value::Text(s) if s.is_empty()));
}

#[test]
fn empty_row_round_trip() {
    let back = roundtrip_row(Row::new(vec![]));
    assert!(back.values.is_empty());
}

#[test]
fn schema_payload_round_trip() {
    let schema = TableSchema::new(
        "tbl_λ".to_string(),
        vec![
            Column {
                name: "a".to_string(),
                column_type: ColumnType::Integer,
            },
            Column {
                name: "b".to_string(),
                column_type: ColumnType::Text,
            },
            Column {
                name: "c".to_string(),
                column_type: ColumnType::Float,
            },
        ],
    );
    let bytes = encode_schema(&schema).unwrap();
    let back = decode_schema(bytes.as_slice()).unwrap();
    assert_eq!(back.name, "tbl_λ");
    assert_eq!(back.columns.len(), 3);
    assert_eq!(back.columns[0].name, "a");
    assert_eq!(back.columns[0].column_type, ColumnType::Integer);
    assert_eq!(back.columns[1].column_type, ColumnType::Text);
    assert_eq!(back.columns[2].column_type, ColumnType::Float);
}

#[test]
fn decoder_rejects_mangled_payloads() {
    let row = Row::new(vec![Value::Integer(7)]);
    let mut bytes = encode_row(&row).unwrap();
    // truncated payload
    bytes.pop();
    assert!(decode_row(bytes.as_slice()).is_none());
    // unknown tag
    let mut bytes = encode_row(&row).unwrap();
    bytes[4] = 0xee;
    assert!(decode_row(bytes.as_slice()).is_none());
    // trailing garbage is not accepted
    let mut bytes = encode_row(&row).unwrap();
    bytes.push(0);
    assert!(decode_row(bytes.as_slice()).is_none());
}

#[test]
fn value_equality_is_structural() {
    assert!(value_eq(&Value::Integer(5), &Value::Integer(5)));
    assert!(!value_eq(&Value::Integer(5), &Value::Integer(6)));
    assert!(value_eq(
        &Value::Text("a".to_string()),
        &Value::Text("a".to_string())
    ));
    assert!(!value_eq(&Value::Text("a".to_string()), &Value::Integer(5)));
    assert!(value_eq(&Value::Null, &Value::Null));
    assert!(!value_eq(&Value::Null, &Value::Integer(0)));
    // floats compare by bit pattern: a NaN equals the same NaN,
    // and the two zeros differ
    let nan = f64::NAN.to_bits();
    assert!(value_eq(&Value::Float(nan), &Value::Float(nan)));
    assert!(!value_eq(
        &Value::Float(0.0f64.to_bits()),
        &Value::Float((-0.0f64).to_bits())
    ));
}

#[test]
fn float_bit_ordering_follows_ieee() {
    let cases = [
        (1.0f64, 2.0f64),
        (-2.0, -1.0),
        (-1.0, 1.0),
        (-0.5, 0.0),
        (0.0, 0.5),
        (f64::NEG_INFINITY, f64::MIN),
        (f64::MAX, f64::INFINITY),
        (1.0e-308, 1.0e-300),
    ];
    for (a, b) in cases {
        assert!(f64_bits_lt_exec(a.to_bits(), b.to_bits()), "{} < {}", a, b);
        assert!(!f64_bits_lt_exec(b.to_bits(), a.to_bits()), "{} < {}", b, a);
    }
    // NaN compares false both ways; the zeros are equal
    let nan = f64::NAN.to_bits();
    assert!(!f64_bits_lt_exec(nan, 1.0f64.to_bits()));
    assert!(!f64_bits_lt_exec(1.0f64.to_bits(), nan));
    assert!(!f64_bits_lt_exec(0.0f64.to_bits(), (-0.0f64).to_bits()));
    assert!(!f64_bits_lt_exec((-0.0f64).to_bits(), 0.0f64.to_bits()));
}

fn number(text: &str) -> Literal {
    Literal::Number {
        text: text.to_string(),
        float_bits: text.parse::<f64>().ok().map(f64::to_bits),
    }
}

#[test]
fn numeric_literals_convert_by_decimal_point() {
    // no decimal point: integer
    assert!(matches!(
        sql_value_to_value(&number("42")),
        Ok(Value::Integer(42))
    ));
    assert!(matches!(
        sql_value_to_value(&number("-17")),
        Ok(Value::Integer(-17))
    ));
    assert!(matches!(
        sql_value_to_value(&number("9223372036854775807")),
        Ok(Value::Integer(i64::MAX))
    ));
    assert!(matches!(
        sql_value_to_value(&number("-9223372036854775808")),
        Ok(Value::Integer(i64::MIN))
    ));
    // out of range or malformed
    assert_eq!(
        sql_value_to_value(&number("9223372036854775808")).unwrap_err(),
        Error::InvalidNumber
    );
    assert_eq!(
        sql_value_to_value(&number("")).unwrap_err(),
        Error::InvalidNumber
    );
    assert_eq!(
        sql_value_to_value(&number("-")).unwrap_err(),
        Error::InvalidNumber
    );
    assert_eq!(
        sql_value_to_value(&number("12a")).unwrap_err(),
        Error::InvalidNumber
    );
    // with a decimal point: float
    match sql_value_to_value(&number("2.75")) {
        Ok(Value::Float(b)) => assert_eq!(f64::from_bits(b), 2.75),
        other => panic!("unexpected {:?}", other.map(|_| ())),
    }
    // strings and NULL
    assert!(matches!(
        sql_value_to_value(&Literal::Str("hi".to_string())),
        Ok(Value::Text(s)) if s == "hi"
    ));
    assert!(matches!(sql_value_to_value(&Literal::Null), Ok(Value::Null)));
    assert_eq!(
        sql_value_to_value(&Literal::Other).unwrap_err(),
        Error::Unsupported
    );
}

#[test]
fn insert_expressions_must_be_literals() {
    assert!(expr_to_value(&WhereExpr::Lit(number("1"))).is_ok());
    assert_eq!(
        expr_to_value(&WhereExpr::Column("id".to_string())).unwrap_err(),
        Error::Unsupported
    );
    assert_eq!(
        expr_to_value(&WhereExpr::Other).unwrap_err(),
        Error::Unsupported
    );
}

#[test]
fn predicate_evaluation_on_one_row() {
    let schema = TableSchema::new(
        "t".to_string(),
        vec![
            Column {
                name: "id".to_string(),
                column_type: ColumnType::Integer,
            },
            Column {
                name: "name".to_string(),
                column_type: ColumnType::Text,
            },
        ],
    );
    let row = Row::new(vec![Value::Integer(7), Value::Text("x".to_string())]);
    let eq7 = WhereExpr::Binary {
        op: BinVerb::Eq,
        left: Box::new(WhereExpr::Column("id".to_string())),
        right: Box::new(WhereExpr::Lit(number("7"))),
    };
    assert!(evaluate_expr(&eq7, &row, &schema));
    let eq8 = WhereExpr::Binary {
        op: BinVerb::Eq,
        left: Box::new(WhereExpr::Column("id".to_string())),
        right: Box::new(WhereExpr::Lit(number("8"))),
    };
    assert!(!evaluate_expr(&eq8, &row, &schema));
    // an unknown column resolves to null, and null equals null
    let unknown_is_null = WhereExpr::Binary {
        op: BinVerb::Eq,
        left: Box::new(WhereExpr::Column("nosuch".to_string())),
        right: Box::new(WhereExpr::Lit(Literal::Null)),
    };
    assert!(evaluate_expr(&unknown_is_null, &row, &schema));
    // non-comparison shapes are vacuously true
    assert!(evaluate_expr(&WhereExpr::Other, &row, &schema));
    assert!(evaluate_expr(&WhereExpr::Column("id".to_string()), &row, &schema));
}

#[test]
fn schema_helpers_find_columns_by_name() {
    let schema = TableSchema::new(
        "t".to_string(),
        vec![
            Column {
                name: "a".to_string(),
                column_type: ColumnType::Integer,
            },
            Column {
                name: "b".to_string(),
                column_type: ColumnType::Text,
            },
        ],
    );
    assert_eq!(schema.get_column_index("a"), Some(0));
    assert_eq!(schema.get_column_index("b"), Some(1));
    assert_eq!(schema.get_column_index("c"), None);
    assert_eq!(schema.get_column("b").unwrap().column_type, ColumnType::Text);
    assert!(schema.get_column("c").is_none());
    let row = Row::new(vec![Value::Integer(1), Value::Text("x".to_string())]);
    assert!(schema.validate_row(&row).is_ok());
    assert!(row.get(0).is_some());
    assert!(row.get(2).is_none());
}
