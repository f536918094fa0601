use std::collections::BTreeMap;

use camellia::ast::{
    ColumnDef, DataType, Literal, OrderByExpr, SelectItem, SetExpr, SqlBinaryOp, SqlExpr,
    SqlQuery, SqlSelect, SqlStatement,
};
use camellia::engine::{self, TableScan};
use camellia::schema::Schema;
use camellia::table::{hidden_pk_after, Table};
use camellia::{Error, ErrorKind, Output, RowSet, Value};

/// An in-memory stand-in for the ordered key-value store: one map of schemas
/// by table name, and one ordered map of entries per table.
#[derive(Default)]
struct Store {
    schemas: BTreeMap<String, Vec<u8>>,
    families: BTreeMap<String, BTreeMap<Vec<u8>, Vec<u8>>>,
}

impl Store {
    fn load(&self, name: &str) -> Result<TableScan, Error> {
        let bytes = self
            .schemas
            .get(name)
            .ok_or_else(|| Error::new(ErrorKind::Resolution, "no such table"))?;
        let schema = Schema::deserialize(bytes)?;
        let entries = self.families[name]
            .iter()
            .map(|(k, v)| (k.clone(), v.clone()))
            .collect();
        Ok(TableScan { schema, entries })
    }

    fn table(&self, name: &str) -> Result<Table, Error> {
        let scan = self.load(name)?;
        let hidden = if scan.schema.primary_key.is_none() {
            hidden_pk_after(self.families[name].keys().next_back())?
        } else {
            0
        };
        Ok(Table::new(scan.schema, hidden))
    }

    fn input(&self, query: &SqlQuery) -> Result<Option<TableScan>, Error> {
        match engine::source_table(query) {
            Some(name) => Ok(Some(self.load(name)?)),
            None => Ok(None),
        }
    }

    fn run(&mut self, statement: SqlStatement) -> Result<Output, Error> {
        match statement {
            SqlStatement::CreateTable { name, columns } => {
                let schema = Schema::new(&columns)?;
                if self.schemas.contains_key(&name) {
                    return Err(Error::new(ErrorKind::Storage, "table already exists"));
                }
                let mut bytes = Vec::new();
                schema.serialize(&mut bytes)?;
                self.schemas.insert(name.clone(), bytes);
                self.families.insert(name, BTreeMap::new());
                Ok(Output::Affected(0))
            }
            SqlStatement::Drop { name } => {
                self.schemas.remove(&name);
                self.families.remove(&name);
                Ok(Output::Affected(0))
            }
            SqlStatement::Query(query) => {
                let input = self.input(&query)?;
                Ok(Output::Rows(engine::query(&query, input)?))
            }
            SqlStatement::Insert { table, columns, source } => {
                let mut t = self.table(&table)?;
                let input = self.input(&source)?;
                let writes = engine::insert(&mut t, &columns, &source, input)?;
                let family = self.families.get_mut(&table).unwrap();
                let stored: Vec<bool> = writes.iter().map(|(k, _)| family.contains_key(k)).collect();
                engine::check_keys(&writes, &stored)?;
                let n = writes.len();
                family.extend(writes);
                Ok(Output::Affected(n))
            }
            SqlStatement::Unsupported => Err(Error::new(ErrorKind::ParseShape, "not supported")),
        }
    }
}

fn ident(name: &str) -> SqlExpr {
    SqlExpr::Identifier(name.to_string())
}

fn num(n: &str) -> SqlExpr {
    SqlExpr::Value(Literal::Number(n.to_string()))
}

fn text(s: &str) -> SqlExpr {
    SqlExpr::Value(Literal::SingleQuotedString(s.to_string()))
}

fn bin(l: SqlExpr, op: SqlBinaryOp, r: SqlExpr) -> SqlExpr {
    SqlExpr::BinaryOp(Box::new(l), op, Box::new(r))
}

fn col(name: &str, data_type: DataType, primary_key: bool) -> ColumnDef {
    ColumnDef { name: name.to_string(), data_type, primary_key }
}

fn create(name: &str, columns: Vec<ColumnDef>) -> SqlStatement {
    SqlStatement::CreateTable { name: name.to_string(), columns }
}

fn insert(table: &str, rows: Vec<Vec<SqlExpr>>) -> SqlStatement {
    SqlStatement::Insert {
        table: table.to_string(),
        columns: Vec::new(),
        source: SqlQuery { body: SetExpr::Values(rows), order_by: Vec::new() },
    }
}

fn order(expr: SqlExpr) -> OrderByExpr {
    OrderByExpr { expr, asc: None, nulls_first: None }
}

fn select(
    projection: Vec<SelectItem>,
    from: Option<&str>,
    selection: Option<SqlExpr>,
    order_by: Vec<OrderByExpr>,
) -> SqlStatement {
    SqlStatement::Query(SqlQuery {
        body: SetExpr::Select(SqlSelect {
            projection,
            from: from.map(|s| s.to_string()),
            selection,
        }),
        order_by,
    })
}

fn rows(out: Output) -> RowSet {
    match out {
        Output::Rows(set) => set,
        Output::Affected(n) => panic!("expected rows, got {} affected", n),
    }
}

fn values(set: &RowSet) -> Vec<Vec<Value>> {
    set.rows.iter().map(|r| r.0.clone()).collect()
}

fn affected(out: Result<Output, Error>) -> usize {
    match out {
        Ok(Output::Affected(n)) => n,
        Ok(Output::Rows(_)) => panic!("expected a count"),
        Err(e) => panic!("statement failed: {:?}", e),
    }
}

fn s(v: &str) -> Value {
    Value::String(v.to_string())
}

#[test]
fn primary_key_scan_in_key_order() {
    let mut db = Store::default();
    let t = create("t", vec![col("id", DataType::Integer, true), col("name", DataType::Text, false)]);
    assert_eq!(affected(db.run(t)), 0);
    assert_eq!(affected(db.run(insert("t", vec![vec![num("2"), text("b")]]))), 1);
    assert_eq!(affected(db.run(insert("t", vec![vec![num("1"), text("a")]]))), 1);
    let set = rows(db.run(select(vec![SelectItem::Wildcard], Some("t"), None, vec![])).unwrap());
    assert_eq!(values(&set), vec![vec![Value::Int(1), s("a")], vec![Value::Int(2), s("b")]]);
    assert_eq!(set.header(), vec!["id".to_string(), "name".to_string()]);
}

#[test]
fn hidden_primary_key_keeps_insert_order() {
    let mut db = Store::default();
    db.run(create("p", vec![col("x", DataType::Integer, false)])).unwrap();
    assert_eq!(affected(db.run(insert("p", vec![vec![num("10")]]))), 1);
    assert_eq!(affected(db.run(insert("p", vec![vec![num("20")]]))), 1);
    let sorted = rows(db.run(select(vec![SelectItem::Wildcard], Some("p"), None, vec![order(ident("x"))])).unwrap());
    assert_eq!(values(&sorted), vec![vec![Value::Int(10)], vec![Value::Int(20)]]);
    let plain = rows(db.run(select(vec![SelectItem::Wildcard], Some("p"), None, vec![])).unwrap());
    assert_eq!(values(&plain), vec![vec![Value::Int(10)], vec![Value::Int(20)]]);
    let keys: Vec<Vec<u8>> = db.families["p"].keys().cloned().collect();
    assert_eq!(keys, vec![vec![0, 0, 0, 0, 0, 0, 0, 0], vec![0, 0, 0, 0, 0, 0, 0, 1]]);
}

#[test]
fn select_without_from() {
    let mut db = Store::default();
    let item = SelectItem::ExprWithAlias(bin(num("1"), SqlBinaryOp::Plus, num("2")), "s".to_string());
    let set = rows(db.run(select(vec![item], None, None, vec![])).unwrap());
    assert_eq!(values(&set), vec![vec![Value::Int(3)]]);
    assert_eq!(set.schema.columns[0].name, "s");
    assert_eq!(set.schema.columns[0].type_, camellia::Type::Integer);
}

#[test]
fn duplicate_primary_key_is_a_constraint_error() {
    let mut db = Store::default();
    db.run(create("u", vec![col("k", DataType::Integer, true)])).unwrap();
    assert_eq!(affected(db.run(insert("u", vec![vec![num("1")]]))), 1);
    let err = db.run(insert("u", vec![vec![num("1")]])).unwrap_err();
    assert_eq!(err.kind, ErrorKind::Constraint);
    let set = rows(db.run(select(vec![SelectItem::Wildcard], Some("u"), None, vec![])).unwrap());
    assert_eq!(values(&set), vec![vec![Value::Int(1)]]);
}

#[test]
fn failed_insert_leaves_table_unchanged() {
    let mut db = Store::default();
    db.run(create("u", vec![col("k", DataType::Integer, true)])).unwrap();
    db.run(insert("u", vec![vec![num("2")]])).unwrap();
    let err = db.run(insert("u", vec![vec![num("1")], vec![num("2")]])).unwrap_err();
    assert_eq!(err.kind, ErrorKind::Constraint);
    let set = rows(db.run(select(vec![SelectItem::Wildcard], Some("u"), None, vec![])).unwrap());
    assert_eq!(values(&set), vec![vec![Value::Int(2)]]);
}

#[test]
fn where_and_order_by() {
    let mut db = Store::default();
    db.run(create("t", vec![col("id", DataType::Integer, true), col("v", DataType::Integer, false)])).unwrap();
    let data = vec![vec![num("1"), num("30")], vec![num("2"), num("10")], vec![num("3"), num("20")]];
    assert_eq!(affected(db.run(insert("t", data))), 3);
    let query = select(
        vec![SelectItem::UnnamedExpr(ident("v"))],
        Some("t"),
        Some(bin(ident("v"), SqlBinaryOp::Gt, num("10"))),
        vec![order(ident("v"))],
    );
    let set = rows(db.run(query).unwrap());
    assert_eq!(values(&set), vec![vec![Value::Int(20)], vec![Value::Int(30)]]);
    assert_eq!(set.schema.columns[0].name, "?column?");
}

#[test]
fn case_when_picks_first_true_branch() {
    let mut db = Store::default();
    let case = SqlExpr::Case(
        vec![(bin(num("1"), SqlBinaryOp::Lt, num("2")), text("yes"))],
        Some(Box::new(text("no"))),
    );
    let set = rows(db.run(select(vec![SelectItem::UnnamedExpr(case)], None, None, vec![])).unwrap());
    assert_eq!(values(&set), vec![vec![s("yes")]]);
}

#[test]
fn case_without_match_or_else_is_false() {
    let mut db = Store::default();
    let case = SqlExpr::Case(vec![(bin(num("2"), SqlBinaryOp::Lt, num("1")), num("5"))], None);
    let set = rows(db.run(select(vec![SelectItem::UnnamedExpr(case)], None, None, vec![])).unwrap());
    assert_eq!(values(&set), vec![vec![Value::Bool(false)]]);
}

#[test]
fn select_star_returns_inserted_rows() {
    let mut db = Store::default();
    db.run(create("m", vec![col("a", DataType::Integer, false), col("b", DataType::Bool, false)])).unwrap();
    db.run(insert("m", vec![vec![num("7"), SqlExpr::Value(Literal::Boolean(true))]])).unwrap();
    db.run(insert("m", vec![vec![num("-3"), SqlExpr::Value(Literal::Boolean(false))]])).unwrap();
    let set = rows(db.run(select(vec![SelectItem::Wildcard], Some("m"), None, vec![])).unwrap());
    let mut got = values(&set);
    got.sort_by_key(|r| format!("{:?}", r));
    let mut want = vec![vec![Value::Int(7), Value::Bool(true)], vec![Value::Int(-3), Value::Bool(false)]];
    want.sort_by_key(|r| format!("{:?}", r));
    assert_eq!(got, want);
}

#[test]
fn order_by_position_matches_order_by_name() {
    let mut db = Store::default();
    db.run(create("t", vec![col("a", DataType::Integer, false), col("b", DataType::Text, false), col("c", DataType::Integer, false)])).unwrap();
    let data = vec![
        vec![num("3"), text("x"), num("1")],
        vec![num("1"), text("y"), num("2")],
        vec![num("2"), text("z"), num("3")],
    ];
    db.run(insert("t", data)).unwrap();
    let items = || vec![
        SelectItem::UnnamedExpr(ident("a")),
        SelectItem::UnnamedExpr(ident("b")),
        SelectItem::UnnamedExpr(ident("c")),
    ];
    let by_position = rows(db.run(select(items(), Some("t"), None, vec![order(num("1"))])).unwrap());
    let by_name = rows(db.run(select(items(), Some("t"), None, vec![order(ident("a"))])).unwrap());
    assert_eq!(values(&by_position), values(&by_name));
    assert_eq!(values(&by_name)[0], vec![Value::Int(1), s("y"), Value::Int(2)]);
}

#[test]
fn order_by_position_out_of_range() {
    let mut db = Store::default();
    let err = db.run(select(vec![SelectItem::UnnamedExpr(num("1"))], None, None, vec![order(num("2"))])).unwrap_err();
    assert_eq!(err.kind, ErrorKind::Resolution);
}

#[test]
fn order_by_desc_is_unsupported() {
    let mut db = Store::default();
    let term = OrderByExpr { expr: num("1"), asc: Some(false), nulls_first: None };
    let err = db.run(select(vec![SelectItem::UnnamedExpr(num("1"))], None, None, vec![term])).unwrap_err();
    assert_eq!(err.kind, ErrorKind::Unsupported);
}

#[test]
fn drop_then_create_shows_no_stale_rows() {
    let mut db = Store::default();
    db.run(create("t", vec![col("x", DataType::Integer, false)])).unwrap();
    db.run(insert("t", vec![vec![num("1")]])).unwrap();
    assert_eq!(affected(db.run(SqlStatement::Drop { name: "t".to_string() })), 0);
    assert_eq!(affected(db.run(create("t", vec![col("x", DataType::Integer, false)]))), 0);
    let set = rows(db.run(select(vec![SelectItem::Wildcard], Some("t"), None, vec![])).unwrap());
    assert!(set.rows.is_empty());
}

#[test]
fn empty_values_yields_no_rows() {
    let mut db = Store::default();
    let query = SqlStatement::Query(SqlQuery { body: SetExpr::Values(vec![]), order_by: vec![] });
    let set = rows(db.run(query).unwrap());
    assert!(set.rows.is_empty());
    assert!(set.schema.columns.is_empty());
}

#[test]
fn values_rows_get_synthetic_column_names() {
    let mut db = Store::default();
    let query = SqlStatement::Query(SqlQuery {
        body: SetExpr::Values(vec![vec![num("1"), text("a")], vec![num("2"), text("b")]]),
        order_by: vec![],
    });
    let set = rows(db.run(query).unwrap());
    assert_eq!(set.header(), vec!["column1".to_string(), "column2".to_string()]);
    assert_eq!(values(&set), vec![vec![Value::Int(1), s("a")], vec![Value::Int(2), s("b")]]);
}

#[test]
fn values_rows_must_share_types() {
    let mut db = Store::default();
    let query = SqlStatement::Query(SqlQuery {
        body: SetExpr::Values(vec![vec![num("1")], vec![text("a")]]),
        order_by: vec![],
    });
    assert_eq!(db.run(query).unwrap_err().kind, ErrorKind::Type);
}

#[test]
fn division_errors_are_arithmetic() {
    let mut db = Store::default();
    let div0 = bin(num("1"), SqlBinaryOp::Divide, num("0"));
    let err = db.run(select(vec![SelectItem::UnnamedExpr(div0)], None, None, vec![])).unwrap_err();
    assert_eq!(err.kind, ErrorKind::Arithmetic);
    let overflow = bin(num("-9223372036854775808"), SqlBinaryOp::Divide, num("-1"));
    let err = db.run(select(vec![SelectItem::UnnamedExpr(overflow)], None, None, vec![])).unwrap_err();
    assert_eq!(err.kind, ErrorKind::Arithmetic);
    let too_big = SqlExpr::UnaryOp(camellia::ast::SqlUnaryOp::Minus, Box::new(num("9223372036854775808")));
    let err = db.run(select(vec![SelectItem::UnnamedExpr(too_big)], None, None, vec![])).unwrap_err();
    assert_eq!(err.kind, ErrorKind::Value);
}

#[test]
fn min_divided_by_minus_one_overflows() {
    let min = Value::Int(i64::MIN);
    assert_eq!(min.div(Value::Int(-1)).unwrap_err().kind, ErrorKind::Arithmetic);
    assert_eq!(Value::Int(7).div(Value::Int(0)).unwrap_err().kind, ErrorKind::Arithmetic);
    assert_eq!(Value::Int(-7).div(Value::Int(2)).unwrap(), Value::Int(-3));
}

#[test]
fn two_primary_keys_are_a_schema_error() {
    let mut db = Store::default();
    let err = db
        .run(create("t", vec![col("a", DataType::Integer, true), col("b", DataType::Integer, true)]))
        .unwrap_err();
    assert_eq!(err.kind, ErrorKind::Schema);
    let err = db.run(create("t", vec![col("a", DataType::Unsupported, false)])).unwrap_err();
    assert_eq!(err.kind, ErrorKind::Schema);
}

#[test]
fn unknown_table_and_column_are_resolution_errors() {
    let mut db = Store::default();
    let err = db.run(select(vec![SelectItem::Wildcard], Some("nope"), None, vec![])).unwrap_err();
    assert_eq!(err.kind, ErrorKind::Resolution);
    db.run(create("t", vec![col("x", DataType::Integer, false)])).unwrap();
    let err = db.run(select(vec![SelectItem::UnnamedExpr(ident("y"))], Some("t"), None, vec![])).unwrap_err();
    assert_eq!(err.kind, ErrorKind::Resolution);
}

#[test]
fn insert_type_mismatch_is_a_type_error() {
    let mut db = Store::default();
    db.run(create("t", vec![col("x", DataType::Integer, false)])).unwrap();
    let err = db.run(insert("t", vec![vec![text("a")]])).unwrap_err();
    assert_eq!(err.kind, ErrorKind::Type);
}

#[test]
fn insert_with_column_list_reorders() {
    let mut db = Store::default();
    db.run(create("t", vec![col("id", DataType::Integer, true), col("name", DataType::Text, false)])).unwrap();
    let statement = SqlStatement::Insert {
        table: "t".to_string(),
        columns: vec!["name".to_string(), "id".to_string()],
        source: SqlQuery { body: SetExpr::Values(vec![vec![text("a"), num("5")]]), order_by: vec![] },
    };
    assert_eq!(affected(db.run(statement)), 1);
    let set = rows(db.run(select(vec![SelectItem::Wildcard], Some("t"), None, vec![])).unwrap());
    assert_eq!(values(&set), vec![vec![Value::Int(5), s("a")]]);
}

#[test]
fn unsupported_statement_is_rejected() {
    let mut db = Store::default();
    assert_eq!(db.run(SqlStatement::Unsupported).unwrap_err().kind, ErrorKind::ParseShape);
}

#[test]
fn duplicate_keys_within_one_insert_are_rejected() {
    let mut db = Store::default();
    db.run(create("u", vec![col("k", DataType::Integer, true)])).unwrap();
    let err = db.run(insert("u", vec![vec![num("4")], vec![num("4")]])).unwrap_err();
    assert_eq!(err.kind, ErrorKind::Constraint);
    let set = rows(db.run(select(vec![SelectItem::Wildcard], Some("u"), None, vec![])).unwrap());
    assert!(set.rows.is_empty());
}

#[test]
fn check_keys_decides_commit() {
    let writes = vec![(vec![1u8], vec![]), (vec![2u8], vec![])];
    assert!(engine::check_keys(&writes, &vec![false, false]).is_ok());
    assert_eq!(engine::check_keys(&writes, &vec![false, true]).unwrap_err().kind, ErrorKind::Constraint);
    let dup = vec![(vec![1u8], vec![]), (vec![1u8], vec![9u8])];
    assert_eq!(engine::check_keys(&dup, &vec![false, false]).unwrap_err().kind, ErrorKind::Constraint);
}
