use camellia::ast::{ColumnDef, DataType, Literal, OrderByExpr, SqlBinaryOp, SqlExpr, SqlUnaryOp};
use camellia::expression::{Expression, Op, UnaryOp};
use camellia::ops::eval::Eval;
use camellia::ops::filter::Filter;
use camellia::ops::fullscan::FullScan;
use camellia::ops::sort::Sort;
use camellia::ops::values::Values;
use camellia::ops::Output;
use camellia::table::{be_u64, from_be_u64, hidden_pk_after, Table};
use camellia::{Column, ErrorKind, Row, Schema, Type, Value};

fn schema(cols: &[(&str, Type)], primary_key: Option<usize>) -> Schema {
    Schema {
        primary_key,
        columns: cols.iter().map(|(n, t)| Column { name: n.to_string(), type_: *t }).collect(),
    }
}

fn row(values: Vec<Value>) -> Row {
    Row::new(values)
}

fn s(v: &str) -> Value {
    Value::String(v.to_string())
}

fn batch_values(out: Output) -> Vec<Vec<Value>> {
    match out {
        Output::Batch(rows) => rows.into_iter().map(|r| r.0).collect(),
        Output::Finished => panic!("expected a batch"),
    }
}

#[test]
fn row_round_trip() {
    let original = row(vec![Value::Null, Value::Bool(true), Value::Int(-5), s("héllo"), Value::Int(i64::MIN)]);
    let mut bytes = Vec::new();
    original.serialize(&mut bytes).unwrap();
    let sch = schema(&[], None);
    let decoded = Row::deserialize(&bytes, &sch).unwrap();
    assert_eq!(decoded.0, original.0);
}

#[test]
fn row_encoding_matches_fixed_layout() {
    let mut bytes = Vec::new();
    row(vec![Value::Int(5)]).serialize(&mut bytes).unwrap();
    assert_eq!(bytes, bincode::serialize(&(1u64, 2u32, 5i64)).unwrap());
    let mut bytes = Vec::new();
    row(vec![s("ab")]).serialize(&mut bytes).unwrap();
    assert_eq!(bytes, bincode::serialize(&(1u64, 3u32, "ab")).unwrap());
}

#[test]
fn corrupt_row_is_a_storage_error() {
    let sch = schema(&[], None);
    assert_eq!(Row::deserialize(&vec![1, 2, 3], &sch).unwrap_err().kind, ErrorKind::Storage);
    let mut bytes = Vec::new();
    row(vec![s("x")]).serialize(&mut bytes).unwrap();
    let last = bytes.len() - 1;
    bytes[last] = 0xff;
    assert_eq!(Row::deserialize(&bytes, &sch).unwrap_err().kind, ErrorKind::Storage);
    bytes.push(0);
    assert_eq!(Row::deserialize(&bytes, &sch).unwrap_err().kind, ErrorKind::Storage);
}

#[test]
fn schema_round_trip() {
    let original = schema(&[("id", Type::Integer), ("name", Type::Text), ("ok", Type::Bool)], Some(0));
    let mut bytes = Vec::new();
    original.serialize(&mut bytes).unwrap();
    let decoded = Schema::deserialize(&bytes).unwrap();
    assert_eq!(decoded.primary_key, Some(0));
    assert_eq!(decoded.columns.len(), 3);
    assert_eq!(decoded.columns[1].name, "name");
    assert_eq!(decoded.columns[2].type_, Type::Bool);
}

#[test]
fn schema_check_accepts_matching_types_and_nulls() {
    let sch = schema(&[("a", Type::Integer), ("b", Type::Text)], None);
    assert!(sch.check(&row(vec![Value::Int(1), s("x")])).is_ok());
    assert!(sch.check(&row(vec![Value::Null, Value::Null])).is_ok());
    assert_eq!(sch.check(&row(vec![Value::Int(1)])).unwrap_err().kind, ErrorKind::Type);
    assert_eq!(sch.check(&row(vec![s("x"), s("y")])).unwrap_err().kind, ErrorKind::Type);
    assert_eq!(sch.check(&row(vec![Value::Bool(true), s("y")])).unwrap_err().kind, ErrorKind::Type);
}

#[test]
fn check_compatible_compares_types() {
    let a = schema(&[("a", Type::Integer), ("b", Type::Text)], None);
    let b = schema(&[("x", Type::Integer), ("y", Type::Text)], Some(0));
    let c = schema(&[("x", Type::Integer)], None);
    assert!(a.check_compatible(&b).is_ok());
    assert_eq!(a.check_compatible(&c).unwrap_err().kind, ErrorKind::Type);
}

#[test]
fn convertibility() {
    assert!(Type::Bool.convertable_to(Type::Integer));
    assert!(Type::Integer.convertable_to(Type::Bool));
    assert!(Type::Null.convertable_to(Type::Null));
    assert!(!Type::Null.convertable_to(Type::Integer));
    assert!(!Type::Text.convertable_to(Type::Integer));
    assert!(Type::Text.convertable_to(Type::Text));
}

#[test]
fn integer_keys_sort_numerically() {
    let mut t = Table::new(schema(&[("k", Type::Integer)], Some(0)), 0);
    let mut keys = Vec::new();
    for v in [i64::MIN, -2, -1, 0, 1, 300, i64::MAX] {
        keys.push(t.get_key(&row(vec![Value::Int(v)])).unwrap());
    }
    for w in keys.windows(2) {
        assert!(w[0] < w[1]);
    }
    assert_eq!(keys[3], vec![0x80, 0, 0, 0, 0, 0, 0, 0]);
}

#[test]
fn other_key_kinds() {
    let mut t = Table::new(schema(&[("k", Type::Text)], Some(0)), 0);
    assert_eq!(t.get_key(&row(vec![s("ab")])).unwrap(), b"ab".to_vec());
    assert_eq!(t.get_key(&row(vec![Value::Null])).unwrap_err().kind, ErrorKind::Constraint);
    let mut b = Table::new(schema(&[("k", Type::Bool)], Some(0)), 0);
    assert_eq!(b.get_key(&row(vec![Value::Bool(true)])).unwrap(), vec![1]);
}

#[test]
fn hidden_keys_increase() {
    let mut t = Table::new(schema(&[("x", Type::Integer)], None), 255);
    let a = t.get_key(&row(vec![Value::Int(9)])).unwrap();
    let b = t.get_key(&row(vec![Value::Int(9)])).unwrap();
    assert_eq!(a, vec![0, 0, 0, 0, 0, 0, 0, 255]);
    assert_eq!(b, vec![0, 0, 0, 0, 0, 0, 1, 0]);
    assert!(a < b);
    let mut full = Table::new(schema(&[("x", Type::Integer)], None), u64::MAX);
    assert_eq!(full.get_key(&row(vec![Value::Int(1)])).unwrap_err().kind, ErrorKind::Constraint);
}

#[test]
fn hidden_counter_restarts_after_last_key() {
    assert_eq!(hidden_pk_after(None).unwrap(), 0);
    assert_eq!(hidden_pk_after(Some(&vec![0, 0, 0, 0, 0, 0, 1, 4])).unwrap(), 261);
    assert_eq!(hidden_pk_after(Some(&vec![1, 2])).unwrap_err().kind, ErrorKind::Storage);
    assert_eq!(from_be_u64(&be_u64(0x0102_0304_0506_0708)), 0x0102_0304_0506_0708);
    assert_eq!(be_u64(258), vec![0, 0, 0, 0, 0, 0, 1, 2]);
}

#[test]
fn full_scan_emits_entries_in_order() {
    let sch = schema(&[("x", Type::Integer)], None);
    let mut entries = Vec::new();
    for v in [3i64, 1, 2] {
        let mut bytes = Vec::new();
        row(vec![Value::Int(v)]).serialize(&mut bytes).unwrap();
        entries.push((be_u64(entries.len() as u64), bytes));
    }
    let mut scan = FullScan::new(sch, entries).unwrap();
    let got = batch_values(scan.poll().unwrap());
    assert_eq!(got, vec![vec![Value::Int(3)], vec![Value::Int(1)], vec![Value::Int(2)]]);
    assert!(matches!(scan.poll().unwrap(), Output::Finished));
}

#[test]
fn values_emit_batches_of_at_most_1024() {
    let rows: Vec<Row> = (0..1500).map(|i| row(vec![Value::Int(i)])).collect();
    let mut v = Values::new(rows, schema(&[("x", Type::Integer)], None)).unwrap();
    assert_eq!(batch_values(v.poll().unwrap()).len(), 1024);
    assert_eq!(batch_values(v.poll().unwrap()).len(), 476);
    assert!(matches!(v.poll().unwrap(), Output::Finished));
}

#[test]
fn empty_emits_one_empty_row() {
    let mut e = camellia::ops::empty::Empty::new();
    assert_eq!(batch_values(e.poll().unwrap()), vec![Vec::<Value>::new()]);
    assert!(matches!(e.poll().unwrap(), Output::Finished));
}

#[test]
fn sort_is_stable() {
    let sch = schema(&[("k", Type::Integer), ("tag", Type::Text)], None);
    let order = vec![OrderByExpr { expr: SqlExpr::Identifier("k".to_string()), asc: None, nulls_first: None }];
    let select: Vec<Expression> = Vec::new();
    let mut sort = Sort::new(&order, &select, &sch).unwrap();
    assert_eq!(sort.schema().columns.len(), 2);
    assert_eq!(sort.schema().columns[1].name, "tag");
    let first = vec![row(vec![Value::Int(2), s("a")]), row(vec![Value::Int(1), s("b")])];
    let second = vec![row(vec![Value::Int(2), s("c")]), row(vec![Value::Int(1), s("d")]), row(vec![Value::Int(2), s("e")])];
    sort.read(first, &select).unwrap();
    sort.read(second, &select).unwrap();
    sort.finish().unwrap();
    let got = batch_values(sort.poll().unwrap());
    let tags: Vec<Value> = got.iter().map(|r| r[1].clone()).collect();
    assert_eq!(tags, vec![s("b"), s("d"), s("a"), s("c"), s("e")]);
    assert!(matches!(sort.poll().unwrap(), Output::Finished));
}

#[test]
fn sort_merges_many_runs() {
    let sch = schema(&[("k", Type::Integer)], None);
    let order = vec![OrderByExpr { expr: SqlExpr::Identifier("k".to_string()), asc: None, nulls_first: None }];
    let select: Vec<Expression> = Vec::new();
    let mut sort = Sort::new(&order, &select, &sch).unwrap();
    let mut expected = Vec::new();
    for run in 0..40i64 {
        let batch: Vec<Row> = (0..30i64).map(|i| row(vec![Value::Int((i * 37 + run * 11) % 101)])).collect();
        for r in &batch {
            expected.push(r.0[0].clone());
        }
        sort.read(batch, &select).unwrap();
    }
    sort.finish().unwrap();
    let mut got = Vec::new();
    loop {
        match sort.poll().unwrap() {
            Output::Batch(rows) => {
                assert!(rows.len() <= 1024);
                got.extend(rows.into_iter().map(|r| r.0[0].clone()));
            }
            Output::Finished => break,
        }
    }
    expected.sort_by_key(|v| match v {
        Value::Int(n) => *n,
        _ => 0,
    });
    assert_eq!(got, expected);
}

#[test]
fn sort_rejects_keys_of_different_types() {
    let sch = schema(&[("k", Type::Integer)], None);
    let order = vec![OrderByExpr { expr: SqlExpr::Identifier("k".to_string()), asc: None, nulls_first: None }];
    let select: Vec<Expression> = Vec::new();
    let mut sort = Sort::new(&order, &select, &sch).unwrap();
    sort.read(vec![row(vec![Value::Int(1)]), row(vec![Value::Null])], &select).unwrap();
    assert_eq!(sort.finish().unwrap_err().kind, ErrorKind::Type);
}

#[test]
fn eval_output_has_one_value_per_expression() {
    let exprs = vec![
        Expression::Field(1),
        Expression::Const(Value::Int(7)),
        Expression::BinOp(Box::new(Expression::Field(0)), Op::Mul, Box::new(Expression::Const(Value::Int(3)))),
    ];
    let out_schema = schema(&[("a", Type::Text), ("b", Type::Integer), ("c", Type::Integer)], None);
    let e = Eval::new(exprs, out_schema).unwrap();
    let out = e.apply(&vec![row(vec![Value::Int(2), s("x")])]).unwrap();
    assert_eq!(out[0].0, vec![s("x"), Value::Int(7), Value::Int(6)]);
    assert_eq!(e.schema().columns.len(), 3);
}

#[test]
fn filter_keeps_order_and_drops_falsy() {
    let sch = schema(&[("x", Type::Integer)], None);
    let pred = SqlExpr::BinaryOp(
        Box::new(SqlExpr::Identifier("x".to_string())),
        SqlBinaryOp::Gt,
        Box::new(SqlExpr::Value(Literal::Number("1".to_string()))),
    );
    let f = Filter::new(&pred, &sch).unwrap();
    let input: Vec<Row> = [3i64, 1, 5, 0, 2].iter().map(|v| row(vec![Value::Int(*v)])).collect();
    let out: Vec<Value> = f.apply(&input).unwrap().into_iter().map(|r| r.0[0].clone()).collect();
    assert_eq!(out, vec![Value::Int(3), Value::Int(5), Value::Int(2)]);
    let not_bool = Filter::new(&SqlExpr::Identifier("x".to_string()), &sch).unwrap();
    let kept = not_bool.apply(&input).unwrap().len();
    assert_eq!(kept, 4);
}

#[test]
fn expression_evaluation() {
    let r = row(vec![Value::Int(-4), s("b")]);
    let abs = Expression::Abs(Box::new(Expression::Field(0)));
    assert_eq!(abs.eval(&r).unwrap(), Value::Int(4));
    let not = Expression::UnaryOp(UnaryOp::Not, Box::new(Expression::Const(Value::Int(0))));
    assert_eq!(not.eval(&r).unwrap(), Value::Bool(true));
    let bad_not = Expression::UnaryOp(UnaryOp::Not, Box::new(Expression::Field(1)));
    assert_eq!(bad_not.eval(&r).unwrap_err().kind, ErrorKind::Value);
    let lt = Expression::BinOp(Box::new(Expression::Field(1)), Op::Less, Box::new(Expression::Const(s("c"))));
    assert_eq!(lt.eval(&r).unwrap(), Value::Bool(true));
    let mixed = Expression::BinOp(Box::new(Expression::Field(1)), Op::Less, Box::new(Expression::Field(0)));
    assert_eq!(mixed.eval(&r).unwrap_err().kind, ErrorKind::Type);
    let eq = Expression::BinOp(Box::new(Expression::Const(Value::Null)), Op::Equal, Box::new(Expression::Const(Value::Null)));
    assert_eq!(eq.eval(&r).unwrap(), Value::Bool(true));
    let and = Expression::BinOp(Box::new(Expression::Const(Value::Int(2))), Op::And, Box::new(Expression::Const(Value::Bool(true))));
    assert_eq!(and.eval(&r).unwrap(), Value::Bool(true));
    let neg_min = Expression::UnaryOp(UnaryOp::Minus, Box::new(Expression::Const(Value::Int(i64::MIN))));
    assert_eq!(neg_min.eval(&r).unwrap_err().kind, ErrorKind::Arithmetic);
    let add = Expression::BinOp(Box::new(Expression::Const(Value::Int(i64::MAX))), Op::Add, Box::new(Expression::Const(Value::Bool(true))));
    assert_eq!(add.eval(&r).unwrap_err().kind, ErrorKind::Arithmetic);
}

#[test]
fn result_types() {
    let sch = schema(&[("a", Type::Integer), ("b", Type::Text)], None);
    let cmp = Expression::BinOp(Box::new(Expression::Field(0)), Op::Less, Box::new(Expression::Const(Value::Int(1))));
    assert_eq!(cmp.result_type(&sch).unwrap(), Type::Bool);
    let bad = Expression::BinOp(Box::new(Expression::Field(1)), Op::Add, Box::new(Expression::Field(0)));
    assert_eq!(bad.result_type(&sch).unwrap_err().kind, ErrorKind::Type);
    let case = Expression::Case(
        vec![(Expression::Const(Value::Bool(true)), Expression::Field(0))],
        Some(Box::new(Expression::Const(Value::Bool(false)))),
    );
    assert_eq!(case.result_type(&sch).unwrap(), Type::Integer);
    let empty_case = Expression::Case(vec![], None);
    assert_eq!(empty_case.result_type(&sch).unwrap_err().kind, ErrorKind::Type);
    assert_eq!(Expression::Field(5).result_type(&sch).unwrap_err().kind, ErrorKind::Resolution);
}

#[test]
fn parse_resolves_and_folds() {
    let sch = schema(&[("a", Type::Integer), ("a", Type::Text)], None);
    match Expression::parse(&SqlExpr::Identifier("a".to_string()), &sch).unwrap() {
        Expression::Field(i) => assert_eq!(i, 0),
        other => panic!("unexpected {:?}", other),
    }
    let neg = SqlExpr::UnaryOp(SqlUnaryOp::Minus, Box::new(SqlExpr::Value(Literal::Number("12".to_string()))));
    match Expression::parse(&neg, &sch).unwrap() {
        Expression::Const(v) => assert_eq!(v, Value::Int(-12)),
        other => panic!("unexpected {:?}", other),
    }
    let too_big = SqlExpr::Value(Literal::Number("99999999999999999999".to_string()));
    assert_eq!(Expression::parse(&too_big, &sch).unwrap_err().kind, ErrorKind::Value);
    let abs = SqlExpr::Function("ABS".to_string(), vec![SqlExpr::Value(Literal::Number("-3".to_string()))]);
    assert!(matches!(Expression::parse(&abs, &sch).unwrap(), Expression::Abs(_)));
    let other = SqlExpr::Function("sqrt".to_string(), vec![SqlExpr::Value(Literal::Number("4".to_string()))]);
    assert_eq!(Expression::parse(&other, &sch).unwrap_err().kind, ErrorKind::Unsupported);
}

#[test]
fn schema_from_column_definitions() {
    let defs = vec![
        ColumnDef { name: "id".to_string(), data_type: DataType::Integer, primary_key: true },
        ColumnDef { name: "t".to_string(), data_type: DataType::Text, primary_key: false },
    ];
    let sch = Schema::new(&defs).unwrap();
    assert_eq!(sch.primary_key, Some(0));
    assert_eq!(sch.columns[1].type_, Type::Text);
}

#[test]
fn rendering() {
    assert_eq!(Value::Int(-42).render(), "-42");
    assert_eq!(Value::Null.render(), "null");
    assert_eq!(Value::Bool(false).render(), "false");
    assert_eq!(s("raw").render(), "raw");
    assert_eq!(row(vec![Value::Int(0), Value::Bool(true)]).render(), vec!["0".to_string(), "true".to_string()]);
}

#[test]
fn order_by_resolves_positions() {
    let sch = schema(&[("a", Type::Integer)], None);
    let select = vec![Expression::Field(0)];
    let pos = vec![OrderByExpr { expr: SqlExpr::Value(Literal::Number("0".to_string())), asc: None, nulls_first: None }];
    assert_eq!(Sort::new(&pos, &select, &sch).err().unwrap().kind, ErrorKind::Resolution);
    let nulls = vec![OrderByExpr { expr: SqlExpr::Identifier("a".to_string()), asc: None, nulls_first: Some(true) }];
    assert_eq!(Sort::new(&nulls, &select, &sch).err().unwrap().kind, ErrorKind::Unsupported);
}

fn drain(op: &mut dyn camellia::ops::Operation) -> Vec<usize> {
    let mut sizes = Vec::new();
    loop {
        match op.poll().unwrap() {
            Output::Batch(rows) => sizes.push(rows.len()),
            Output::Finished => return sizes,
        }
    }
}

#[test]
fn operators_follow_the_batch_protocol() {
    let rows: Vec<Row> = (0..2049).map(|i| row(vec![Value::Int(i)])).collect();
    let mut values = Values::new(rows, schema(&[("x", Type::Integer)], None)).unwrap();
    assert_eq!(drain(&mut values), vec![1024, 1024, 1]);
    let mut empty = camellia::ops::empty::Empty::new();
    assert_eq!(drain(&mut empty), vec![1]);
    assert_eq!(camellia::ops::Operation::schema(&empty).columns.len(), 0);
}

#[test]
fn unsupported_operator_and_function_are_rejected() {
    let sch = schema(&[("x", Type::Integer)], None);
    let bad_op = SqlExpr::BinaryOp(
        Box::new(SqlExpr::Identifier("x".to_string())),
        camellia::ast::SqlBinaryOp::Other,
        Box::new(SqlExpr::Identifier("x".to_string())),
    );
    assert_eq!(Expression::parse(&bad_op, &sch).unwrap_err().kind, ErrorKind::Unsupported);
    let items = vec![camellia::ast::SelectItem::UnnamedExpr(SqlExpr::Function(
        "len".to_string(),
        vec![SqlExpr::Identifier("x".to_string())],
    ))];
    let err = camellia::engine::expand_select(&items, &sch).unwrap_err();
    assert_eq!(err.kind, ErrorKind::Unsupported);
}
