use bitcask_sql::executor::{
    BinVerb, ColumnDef, ExecutionResult, Literal, QueryExecutor, Statement, TypeName, WhereExpr,
};
use bitcask_sql::storage::BitcaskStorage;
use bitcask_sql::types::{Column, ColumnType, Error, Row, TableSchema, Value};

fn users_schema() -> TableSchema {
    TableSchema::new(
        "users".to_string(),
        vec![
            Column {
                name: "id".to_string(),
                column_type: ColumnType::Integer,
            },
            Column {
                name: "name".to_string(),
                column_type: ColumnType::Text,
            },
            Column {
                name: "age".to_string(),
                column_type: ColumnType::Integer,
            },
        ],
    )
}

fn orders_schema() -> TableSchema {
    TableSchema::new(
        "orders".to_string(),
        vec![Column {
            name: "id".to_string(),
            column_type: ColumnType::Integer,
        }],
    )
}

fn user_row(id: i64, name: &str, age: i64) -> Row {
    Row::new(vec![
        Value::Integer(id),
        Value::Text(name.to_string()),
        Value::Integer(age),
    ])
}

fn assert_user_row(row: &Row, id: i64, name: &str, age: i64) {
    assert_eq!(row.values.len(), 3);
    assert!(matches!(row.values[0], Value::Integer(v) if v == id));
    assert!(matches!(&row.values[1], Value::Text(s) if s == name));
    assert!(matches!(row.values[2], Value::Integer(v) if v == age));
}

#[test]
fn scan_returns_rows_of_each_table_in_order() {
    // log: schema(users), row(users,(1,"a",10)), row(users,(2,"b",20)), row(orders,(9,))
    let mut st = BitcaskStorage::new();
    st.create_table(users_schema()).unwrap();
    st.create_table(orders_schema()).unwrap();
    st.insert(&"users".to_string(), user_row(1, "a", 10)).unwrap();
    st.insert(&"users".to_string(), user_row(2, "b", 20)).unwrap();
    st.insert(&"orders".to_string(), Row::new(vec![Value::Integer(9)]))
        .unwrap();

    let users = st.scan(&"users".to_string()).unwrap();
    assert_eq!(users.len(), 2);
    assert_user_row(&users[0], 1, "a", 10);
    assert_user_row(&users[1], 2, "b", 20);

    let orders = st.scan(&"orders".to_string()).unwrap();
    assert_eq!(orders.len(), 1);
    assert!(matches!(orders[0].values[0], Value::Integer(9)));

    let missing = st.scan(&"missing".to_string()).unwrap();
    assert!(missing.is_empty());
}

#[test]
fn inserts_then_scan_in_insertion_order() {
    let mut st = BitcaskStorage::new();
    st.create_table(users_schema()).unwrap();
    for i in 0..50i64 {
        st.insert(&"users".to_string(), user_row(i, &format!("u{}", i), i * 2))
            .unwrap();
    }
    let rows = st.scan(&"users".to_string()).unwrap();
    assert_eq!(rows.len(), 50);
    for (i, row) in rows.iter().enumerate() {
        assert_user_row(row, i as i64, &format!("u{}", i), i as i64 * 2);
    }
}

#[test]
fn invalid_rows_are_rejected_and_never_appended() {
    let mut st = BitcaskStorage::new();
    st.create_table(users_schema()).unwrap();

    // wrong arity
    let r = st.insert(&"users".to_string(), Row::new(vec![Value::Integer(1)]));
    assert_eq!(r.unwrap_err(), Error::RowArity);

    // wrong type at position 1 (Integer where Text is declared)
    let bad = Row::new(vec![
        Value::Integer(2),
        Value::Integer(999),
        Value::Integer(25),
    ]);
    let r = st.insert(&"users".to_string(), bad);
    assert_eq!(r.unwrap_err(), Error::RowType);

    // unknown table
    let r = st.insert(&"nosuch".to_string(), user_row(1, "a", 1));
    assert_eq!(r.unwrap_err(), Error::MissingTable);

    // nothing reached the log
    assert!(st.scan(&"users".to_string()).unwrap().is_empty());
}

#[test]
fn null_matches_any_declared_type() {
    let mut st = BitcaskStorage::new();
    st.create_table(users_schema()).unwrap();
    let row = Row::new(vec![Value::Null, Value::Null, Value::Null]);
    st.insert(&"users".to_string(), row).unwrap();
    let rows = st.scan(&"users".to_string()).unwrap();
    assert_eq!(rows.len(), 1);
    assert!(matches!(rows[0].values[0], Value::Null));
}

#[test]
fn create_table_duplicate_fails_and_schema_is_unchanged() {
    let mut st = BitcaskStorage::new();
    st.create_table(users_schema()).unwrap();
    let other = TableSchema::new(
        "users".to_string(),
        vec![Column {
            name: "something".to_string(),
            column_type: ColumnType::Float,
        }],
    );
    let r = st.create_table(other);
    assert_eq!(r.unwrap_err(), Error::SchemaExists);
    // re-fetching yields the original columns
    let schema = st.get_schema(&"users".to_string()).unwrap();
    assert_eq!(schema.columns.len(), 3);
    assert_eq!(schema.columns[0].name, "id");
    assert_eq!(schema.columns[0].column_type, ColumnType::Integer);
    assert_eq!(schema.columns[1].name, "name");
    assert_eq!(schema.columns[1].column_type, ColumnType::Text);
    assert_eq!(schema.columns[2].name, "age");
    assert_eq!(schema.columns[2].column_type, ColumnType::Integer);
}

#[test]
fn index_lookup_matches_scan_filter() {
    let mut st = BitcaskStorage::new();
    st.create_table(users_schema()).unwrap();
    // duplicate ages: several rows under one key
    for i in 0..20i64 {
        st.insert(&"users".to_string(), user_row(i, &format!("u{}", i), i % 3))
            .unwrap();
    }
    st.create_index(&"users".to_string(), &"age".to_string())
        .unwrap();
    let via_index = st
        .index_lookup(
            &"users".to_string(),
            &"age".to_string(),
            &Value::Integer(1),
        )
        .unwrap();
    let via_scan: Vec<Row> = st
        .scan(&"users".to_string())
        .unwrap()
        .into_iter()
        .filter(|r| matches!(r.values[2], Value::Integer(1)))
        .collect();
    assert_eq!(via_index.len(), via_scan.len());
    for (a, b) in via_index.iter().zip(via_scan.iter()) {
        assert!(matches!((&a.values[0], &b.values[0]),
            (Value::Integer(x), Value::Integer(y)) if x == y));
    }
}

#[test]
fn index_stays_current_for_later_inserts() {
    let mut st = BitcaskStorage::new();
    st.create_table(users_schema()).unwrap();
    st.insert(&"users".to_string(), user_row(1, "a", 10)).unwrap();
    st.create_index(&"users".to_string(), &"id".to_string())
        .unwrap();
    // inserted after the index was built
    st.insert(&"users".to_string(), user_row(2, "b", 20)).unwrap();
    let rows = st
        .index_lookup(&"users".to_string(), &"id".to_string(), &Value::Integer(2))
        .unwrap();
    assert_eq!(rows.len(), 1);
    assert_user_row(&rows[0], 2, "b", 20);
}

#[test]
fn recreating_an_index_does_not_duplicate_offsets() {
    let mut st = BitcaskStorage::new();
    st.create_table(users_schema()).unwrap();
    st.insert(&"users".to_string(), user_row(1, "a", 10)).unwrap();
    st.insert(&"users".to_string(), user_row(2, "b", 10)).unwrap();
    st.create_index(&"users".to_string(), &"age".to_string())
        .unwrap();
    st.create_index(&"users".to_string(), &"age".to_string())
        .unwrap();
    let rows = st
        .index_lookup(
            &"users".to_string(),
            &"age".to_string(),
            &Value::Integer(10),
        )
        .unwrap();
    assert_eq!(rows.len(), 2);
    assert_user_row(&rows[0], 1, "a", 10);
    assert_user_row(&rows[1], 2, "b", 10);
}

#[test]
fn index_errors_for_missing_table_column_or_key() {
    let mut st = BitcaskStorage::new();
    st.create_table(users_schema()).unwrap();
    assert_eq!(
        st.create_index(&"nosuch".to_string(), &"id".to_string())
            .unwrap_err(),
        Error::MissingTable
    );
    assert_eq!(
        st.create_index(&"users".to_string(), &"nosuch".to_string())
            .unwrap_err(),
        Error::MissingColumn
    );
    // no index at all
    assert_eq!(
        st.index_lookup(&"users".to_string(), &"id".to_string(), &Value::Integer(1))
            .unwrap_err(),
        Error::MissingIndex
    );
    // index exists, key never recorded
    st.create_index(&"users".to_string(), &"id".to_string())
        .unwrap();
    assert_eq!(
        st.index_lookup(&"users".to_string(), &"id".to_string(), &Value::Integer(1))
            .unwrap_err(),
        Error::MissingIndex
    );
}

#[test]
fn integer_and_text_keys_never_collide_in_an_index() {
    // the index keys on the value itself, not on a string projection
    let mut st = BitcaskStorage::new();
    st.create_table(TableSchema::new(
        "t".to_string(),
        vec![Column {
            name: "k".to_string(),
            column_type: ColumnType::Text,
        }],
    ))
    .unwrap();
    st.insert(&"t".to_string(), Row::new(vec![Value::Text("42".to_string())]))
        .unwrap();
    st.create_index(&"t".to_string(), &"k".to_string()).unwrap();
    let hit = st.index_lookup(&"t".to_string(), &"k".to_string(), &Value::Text("42".to_string()));
    assert_eq!(hit.unwrap().len(), 1);
    let miss = st.index_lookup(&"t".to_string(), &"k".to_string(), &Value::Integer(42));
    assert_eq!(miss.unwrap_err(), Error::MissingIndex);
}

fn num(text: &str) -> WhereExpr {
    let float_bits = text.parse::<f64>().ok().map(f64::to_bits);
    WhereExpr::Lit(Literal::Number {
        text: text.to_string(),
        float_bits,
    })
}

fn stext(s: &str) -> WhereExpr {
    WhereExpr::Lit(Literal::Str(s.to_string()))
}

fn create_users_stmt() -> Statement {
    Statement::CreateTable {
        name: "users".to_string(),
        columns: vec![
            ColumnDef {
                name: "id".to_string(),
                data_type: TypeName::Integer,
            },
            ColumnDef {
                name: "name".to_string(),
                data_type: TypeName::Text,
            },
            ColumnDef {
                name: "age".to_string(),
                data_type: TypeName::Integer,
            },
        ],
    }
}

fn select_where(table: &str, expr: WhereExpr) -> Statement {
    Statement::Select {
        tables: vec![table.to_string()],
        selection: Some(expr),
    }
}

fn eq(col: &str, right: WhereExpr) -> WhereExpr {
    WhereExpr::Binary {
        op: BinVerb::Eq,
        left: Box::new(WhereExpr::Column(col.to_string())),
        right: Box::new(right),
    }
}

#[test]
fn select_by_id_returns_the_same_row_with_and_without_index() {
    let mut ex = QueryExecutor::new(BitcaskStorage::new());
    ex.execute(&create_users_stmt()).unwrap();
    for i in 1..=1000i64 {
        let stmt = Statement::Insert {
            table: "users".to_string(),
            rows: vec![vec![
                num(&i.to_string()),
                stext(&format!("User{}", i)),
                num(&(20 + (i % 30)).to_string()),
            ]],
        };
        let q = ex.execute(&stmt).unwrap();
        assert!(matches!(q.result, ExecutionResult::Inserted(1)));
    }

    // scan + filter path (no index yet)
    let q = ex.execute(&select_where("users", eq("id", num("500")))).unwrap();
    assert!(!q.used_index);
    let rows_scan = match q.result {
        ExecutionResult::Selected(rows) => rows,
        _ => panic!("expected rows"),
    };
    assert_eq!(rows_scan.len(), 1);
    assert_user_row(&rows_scan[0], 500, "User500", 20 + (500 % 30));

    // index path
    ex.storage
        .create_index(&"users".to_string(), &"id".to_string())
        .unwrap();
    let q = ex.execute(&select_where("users", eq("id", num("500")))).unwrap();
    assert!(q.used_index);
    let rows_index = match q.result {
        ExecutionResult::Selected(rows) => rows,
        _ => panic!("expected rows"),
    };
    assert_eq!(rows_index.len(), 1);
    assert_user_row(&rows_index[0], 500, "User500", 20 + (500 % 30));
}

#[test]
fn select_without_where_scans_everything() {
    let mut ex = QueryExecutor::new(BitcaskStorage::new());
    ex.execute(&create_users_stmt()).unwrap();
    for i in 1..=3i64 {
        ex.execute(&Statement::Insert {
            table: "users".to_string(),
            rows: vec![vec![
                num(&i.to_string()),
                stext(&format!("u{}", i)),
                num("30"),
            ]],
        })
        .unwrap();
    }
    let q = ex
        .execute(&Statement::Select {
            tables: vec!["users".to_string()],
            selection: None,
        })
        .unwrap();
    match q.result {
        ExecutionResult::Selected(rows) => assert_eq!(rows.len(), 3),
        _ => panic!("expected rows"),
    }
}

#[test]
fn comparison_predicates_filter_numerically() {
    let mut ex = QueryExecutor::new(BitcaskStorage::new());
    ex.execute(&create_users_stmt()).unwrap();
    for i in 1..=10i64 {
        ex.execute(&Statement::Insert {
            table: "users".to_string(),
            rows: vec![vec![
                num(&i.to_string()),
                stext(&format!("u{}", i)),
                num(&(i * 10).to_string()),
            ]],
        })
        .unwrap();
    }
    let gt = WhereExpr::Binary {
        op: BinVerb::Gt,
        left: Box::new(WhereExpr::Column("age".to_string())),
        right: Box::new(num("70")),
    };
    let q = ex.execute(&select_where("users", gt)).unwrap();
    match q.result {
        ExecutionResult::Selected(rows) => assert_eq!(rows.len(), 3),
        _ => panic!("expected rows"),
    }
    let lt = WhereExpr::Binary {
        op: BinVerb::Lt,
        left: Box::new(WhereExpr::Column("age".to_string())),
        right: Box::new(num("31")),
    };
    let q = ex.execute(&select_where("users", lt)).unwrap();
    match q.result {
        ExecutionResult::Selected(rows) => assert_eq!(rows.len(), 3),
        _ => panic!("expected rows"),
    }
    // a type-mismatched comparison is false, not an error
    let mismatched = WhereExpr::Binary {
        op: BinVerb::Gt,
        left: Box::new(WhereExpr::Column("age".to_string())),
        right: Box::new(stext("x")),
    };
    let q = ex.execute(&select_where("users", mismatched)).unwrap();
    match q.result {
        ExecutionResult::Selected(rows) => assert!(rows.is_empty()),
        _ => panic!("expected rows"),
    }
}

#[test]
fn unsupported_predicate_shapes_admit_every_row() {
    let mut ex = QueryExecutor::new(BitcaskStorage::new());
    ex.execute(&create_users_stmt()).unwrap();
    for i in 1..=4i64 {
        ex.execute(&Statement::Insert {
            table: "users".to_string(),
            rows: vec![vec![num(&i.to_string()), stext("u"), num("1")]],
        })
        .unwrap();
    }
    // a non-comparison top-level expression is vacuously true
    let q = ex
        .execute(&select_where("users", WhereExpr::Other))
        .unwrap();
    match q.result {
        ExecutionResult::Selected(rows) => assert_eq!(rows.len(), 4),
        _ => panic!("expected rows"),
    }
    // an unsupported operator admits no rows
    let other_op = WhereExpr::Binary {
        op: BinVerb::Other,
        left: Box::new(WhereExpr::Column("id".to_string())),
        right: Box::new(num("1")),
    };
    let q = ex.execute(&select_where("users", other_op)).unwrap();
    match q.result {
        ExecutionResult::Selected(rows) => assert!(rows.is_empty()),
        _ => panic!("expected rows"),
    }
}

#[test]
fn executor_statement_errors() {
    let mut ex = QueryExecutor::new(BitcaskStorage::new());
    // unsupported statement kind
    assert_eq!(ex.execute(&Statement::Other).unwrap_err(), Error::Unsupported);
    // unsupported column type
    let bad_create = Statement::CreateTable {
        name: "t".to_string(),
        columns: vec![ColumnDef {
            name: "c".to_string(),
            data_type: TypeName::Other,
        }],
    };
    assert_eq!(ex.execute(&bad_create).unwrap_err(), Error::Unsupported);
    // duplicate table
    ex.execute(&create_users_stmt()).unwrap();
    assert_eq!(
        ex.execute(&create_users_stmt()).unwrap_err(),
        Error::SchemaExists
    );
    // insert of a non-literal expression
    let bad_insert = Statement::Insert {
        table: "users".to_string(),
        rows: vec![vec![
            WhereExpr::Column("id".to_string()),
            stext("x"),
            num("1"),
        ]],
    };
    assert_eq!(ex.execute(&bad_insert).unwrap_err(), Error::Unsupported);
    // select with an empty FROM list
    let no_table = Statement::Select {
        tables: vec![],
        selection: None,
    };
    assert_eq!(ex.execute(&no_table).unwrap_err(), Error::Unsupported);
    // select with WHERE on an unknown table
    let q = ex.execute(&select_where("nosuch", eq("id", num("1"))));
    assert_eq!(q.unwrap_err(), Error::MissingTable);
    // select without WHERE on an unknown table scans to nothing
    let q = ex
        .execute(&Statement::Select {
            tables: vec!["nosuch".to_string()],
            selection: None,
        })
        .unwrap();
    match q.result {
        ExecutionResult::Selected(rows) => assert!(rows.is_empty()),
        _ => panic!("expected rows"),
    }
}

#[test]
fn float_literals_and_float_predicates() {
    let mut ex = QueryExecutor::new(BitcaskStorage::new());
    ex.execute(&Statement::CreateTable {
        name: "m".to_string(),
        columns: vec![
            ColumnDef {
                name: "id".to_string(),
                data_type: TypeName::Integer,
            },
            ColumnDef {
                name: "x".to_string(),
                data_type: TypeName::Double,
            },
        ],
    })
    .unwrap();
    for (i, x) in [(1i64, "1.5"), (2, "2.5"), (3, "-0.5")] {
        ex.execute(&Statement::Insert {
            table: "m".to_string(),
            rows: vec![vec![num(&i.to_string()), num(x)]],
        })
        .unwrap();
    }
    let gt = WhereExpr::Binary {
        op: BinVerb::Gt,
        left: Box::new(WhereExpr::Column("x".to_string())),
        right: Box::new(num("1.0")),
    };
    let q = ex.execute(&select_where("m", gt)).unwrap();
    match q.result {
        ExecutionResult::Selected(rows) => {
            assert_eq!(rows.len(), 2);
            assert!(matches!(rows[0].values[1], Value::Float(b) if f64::from_bits(b) == 1.5));
            assert!(matches!(rows[1].values[1], Value::Float(b) if f64::from_bits(b) == 2.5));
        }
        _ => panic!("expected rows"),
    }
    let eq_f = eq("x", num("-0.5"));
    let q = ex.execute(&select_where("m", eq_f)).unwrap();
    match q.result {
        ExecutionResult::Selected(rows) => assert_eq!(rows.len(), 1),
        _ => panic!("expected rows"),
    }
}

#[test]
fn log_bytes_grow_with_each_record_and_start_with_markers() {
    let mut st = BitcaskStorage::new();
    assert!(st.log_bytes().is_empty());
    st.create_table(users_schema()).unwrap();
    let after_schema = st.log_bytes().len();
    assert!(after_schema > 0);
    assert_eq!(st.log_bytes()[0], 0xff);
    let offset = st
        .insert(&"users".to_string(), user_row(1, "a", 10))
        .unwrap();
    assert_eq!(offset, after_schema);
    assert_eq!(st.log_bytes()[offset], 0xaa);
    assert!(st.log_bytes().len() > after_schema);
}
