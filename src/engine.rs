use vstd::prelude::*;
use vstd::string::StringExecFns;

use crate::ast::{OrderByExpr, SelectItem, SetExpr, SqlExpr, SqlQuery, SqlSelect};
use crate::codec::row_bytes;
use crate::error::{Error, ErrorKind};
use crate::expression::{eval_spec, expr_type, parse_fail, parses, Expression};
use crate::ops::empty::Empty;
use crate::ops::eval::{eval_row_spec, eval_rows_spec, Eval};
use crate::ops::filter::Filter;
use crate::ops::fullscan::FullScan;
use crate::ops::pipeline::{produces, runs_ok, Pipeline, Source};
use crate::ops::rows_view;
use crate::ops::sort::{resolves, Sort, SortKey};
use crate::ops::values::Values;
use crate::schema::{col_types, types_of, Column, Schema, Type};
use crate::table::Table;
use crate::types::{decimal, type_spec, Row, RowSet, Value};

verus! {

/// The result of a statement: the rows of a query, or the number of rows
/// a statement changed.
#[derive(Debug)]
pub enum Output {
    Rows(RowSet),
    Affected(usize),
}

/// The stored contents of the table a query reads: its schema and its
/// `(key, value)` entries in ascending key order.
#[derive(Debug)]
pub struct TableScan {
    pub schema: Schema,
    pub entries: Vec<(Vec<u8>, Vec<u8>)>,
}

/// Relies on `u64`'s `ToString` (through `Display`): the decimal digits of `n`.
#[verifier::external_body]
fn render_u64(n: u64) -> (r: String)
    ensures
        r@ == decimal(n as int),
{
    n.to_string()
}

/// The synthetic name of the `n`-th column of a `VALUES` list.
fn column_name(n: u64) -> (r: String)
    ensures
        r@ == "column"@ + decimal(n as int),
{
    let mut name = "column".to_string();
    name.append(render_u64(n).as_str());
    name
}

/// The column name of an unaliased expression.
pub open spec fn unnamed() -> Seq<char> {
    "?column?"@
}

/// `es` and `names` are the expansion of the select list over the input
/// columns: `*` gives a field per input column under that column's name, an
/// expression its resolved form under `?column?` or under its alias.
pub open spec fn expands(items: Seq<SelectItem>, cols: Seq<Column>, es: Seq<Expression>, names: Seq<Seq<char>>) -> bool
    decreases items.len(),
{
    if items.len() == 0 {
        es.len() == 0 && names.len() == 0
    } else {
        let n = es.len();
        match items.last() {
            SelectItem::Wildcard => {
                let m = cols.len();
                &&& n >= m
                &&& names.len() == n
                &&& forall|k: int|
                    0 <= k < m ==> #[trigger] es[n - m + k] == Expression::Field(k as usize) && names[n - m + k]
                        == cols[k].name@
                &&& expands(items.drop_last(), cols, es.take(n - m), names.take(n - m))
            },
            SelectItem::UnnamedExpr(x) => {
                &&& n >= 1
                &&& names.len() == n
                &&& parses(x, cols, es.last())
                &&& names.last() == unnamed()
                &&& expands(items.drop_last(), cols, es.drop_last(), names.drop_last())
            },
            SelectItem::ExprWithAlias(x, alias) => {
                &&& n >= 1
                &&& names.len() == n
                &&& parses(x, cols, es.last())
                &&& names.last() == alias@
                &&& expands(items.drop_last(), cols, es.drop_last(), names.drop_last())
            },
            SelectItem::Unsupported => false,
        }
    }
}

/// The expression resolves against the columns, and every form it resolves
/// to has a type.
pub open spec fn expr_ok(x: SqlExpr, cols: Seq<Column>) -> bool {
    &&& parse_fail(x, cols) is None
    &&& forall|e: Expression| #[trigger] parses(x, cols, e) ==> (expr_type(e, col_types(cols)) is Ok)
}

/// The expression fails to resolve, or to type-check, with an error of this kind.
pub open spec fn expr_fails(x: SqlExpr, cols: Seq<Column>, kind: ErrorKind) -> bool {
    ||| parse_fail(x, cols) == Some(kind)
    ||| (parse_fail(x, cols) is None && exists|e: Expression|
        parses(x, cols, e) && expr_type(e, col_types(cols)) == Err::<Type, ErrorKind>(kind))
}

/// A select item expands without error.
pub open spec fn item_ok(item: SelectItem, cols: Seq<Column>) -> bool {
    match item {
        SelectItem::Wildcard => true,
        SelectItem::UnnamedExpr(x) => expr_ok(x, cols),
        SelectItem::ExprWithAlias(x, _) => expr_ok(x, cols),
        SelectItem::Unsupported => false,
    }
}

/// A select item fails to expand, with an error of this kind.
pub open spec fn item_fails(item: SelectItem, cols: Seq<Column>, kind: ErrorKind) -> bool {
    match item {
        SelectItem::Wildcard => false,
        SelectItem::UnnamedExpr(x) => expr_fails(x, cols, kind),
        SelectItem::ExprWithAlias(x, _) => expr_fails(x, cols, kind),
        SelectItem::Unsupported => kind == ErrorKind::Unsupported,
    }
}

/// Every item of the select list expands without error.
pub open spec fn select_list_ok(items: Seq<SelectItem>, cols: Seq<Column>) -> bool {
    forall|i: int| 0 <= i < items.len() ==> item_ok(#[trigger] items[i], cols)
}

/// The names of a schema's columns.
pub open spec fn names_of(s: Schema) -> Seq<Seq<char>> {
    s.columns@.map_values(|c: Column| c.name@)
}

/// Expands a `SELECT` list against the schema of its input: `*` becomes
/// every input column, an unaliased expression a column named `?column?`,
/// and `expr AS alias` a column named by the alias; each column has its
/// expression's type.
pub fn expand_select(items: &Vec<SelectItem>, schema: &Schema) -> (r: Result<(Schema, Vec<Expression>), Error>)
    ensures
        select_list_ok(items@, schema.columns@) ==> r is Ok,
        r matches Err(e) ==> exists|i: int|
            0 <= i < items@.len() && item_fails(#[trigger] items@[i], schema.columns@, e.kind),
        r matches Ok((s, es)) ==> {
            &&& s.primary_key is None
            &&& s.columns@.len() == es@.len()
            &&& expands(items@, schema.columns@, es@, names_of(s))
            &&& forall|k: int|
                0 <= k < es@.len() ==> expr_type(#[trigger] es@[k], types_of(*schema)) == Ok::<
                    Type,
                    ErrorKind,
                >(s.columns@[k].type_)
        },
{
    let ghost cols = types_of(*schema);
    let mut columns: Vec<Column> = Vec::new();
    let mut exprs: Vec<Expression> = Vec::new();
    let mut i: usize = 0;
    proof {
        assert(items@.take(0) =~= Seq::<SelectItem>::empty());
        assert(names_of(Schema { primary_key: None, columns }) =~= Seq::<Seq<char>>::empty());
    }
    while i < items.len()
        invariant
            i <= items@.len(),
            cols == types_of(*schema),
            columns@.len() == exprs@.len(),
            expands(items@.take(i as int), schema.columns@, exprs@, columns@.map_values(|c: Column| c.name@)),
            forall|k: int|
                0 <= k < exprs@.len() ==> expr_type(#[trigger] exprs@[k], cols) == Ok::<Type, ErrorKind>(
                    columns@[k].type_,
                ),
        decreases items@.len() - i,
    {
        let ghost (c0, e0) = (columns@, exprs@);
        proof {
            assert(items@.take(i + 1).drop_last() =~= items@.take(i as int));
            assert(items@.take(i + 1).last() == items@[i as int]);
        }
        match &items[i] {
            SelectItem::Wildcard => {
                let mut c: usize = 0;
                while c < schema.columns.len()
                    invariant
                        c <= schema.columns@.len(),
                        cols == types_of(*schema),
                        columns@.len() == exprs@.len(),
                        exprs@.len() == e0.len() + c,
                        exprs@.take(e0.len() as int) == e0,
                        columns@.take(e0.len() as int) == c0,
                        c0.len() == e0.len(),
                        forall|k: int|
                            0 <= k < c ==> #[trigger] exprs@[e0.len() + k] == Expression::Field(k as usize)
                                && columns@[e0.len() + k].name@ == schema.columns@[k].name@,
                        forall|k: int|
                            0 <= k < exprs@.len() ==> expr_type(#[trigger] exprs@[k], cols) == Ok::<
                                Type,
                                ErrorKind,
                            >(columns@[k].type_),
                    decreases schema.columns@.len() - c,
                {
                    let ghost (bc, be) = (columns@, exprs@);
                    columns.push(schema.columns[c].copy());
                    exprs.push(Expression::Field(c));
                    proof {
                        assert forall|k: int| 0 <= k < exprs@.len() implies expr_type(#[trigger] exprs@[k], cols)
                            == Ok::<Type, ErrorKind>(columns@[k].type_) by {
                            if k < be.len() {
                                assert(exprs@[k] == be[k] && columns@[k] == bc[k]);
                            }
                        }
                        assert(exprs@.take(e0.len() as int) =~= be.take(e0.len() as int));
                        assert(columns@.take(e0.len() as int) =~= bc.take(e0.len() as int));
                        assert forall|k: int| 0 <= k < c + 1 implies #[trigger] exprs@[e0.len() + k]
                            == Expression::Field(k as usize) && columns@[e0.len() + k].name@
                            == schema.columns@[k].name@ by {
                            if k < c {
                                assert(exprs@[e0.len() + k] == be[e0.len() + k]);
                                assert(columns@[e0.len() + k] == bc[e0.len() + k]);
                            }
                        }
                    }
                    c = c + 1;
                }
                proof {
                    let n = exprs@.len() as int;
                    let m = schema.columns@.len() as int;
                    let nv = columns@.map_values(|col: Column| col.name@);
                    assert(n - m == e0.len());
                    assert forall|k: int| 0 <= k < m implies #[trigger] exprs@[n - m + k] == Expression::Field(
                        k as usize,
                    ) && nv[n - m + k] == schema.columns@[k].name@ by {
                        assert(exprs@[e0.len() + k] == Expression::Field(k as usize));
                        assert(columns@[e0.len() + k].name@ == schema.columns@[k].name@);
                    }
                    assert(exprs@.take(n - m) =~= e0);
                    assert(nv.take(n - m) =~= c0.map_values(|col: Column| col.name@));
                }
            },
            SelectItem::UnnamedExpr(e) => {
                let ghost x = *e;
                let e = match Expression::parse(e, schema) {
                    Ok(e) => e,
                    Err(err) => {
                        proof {
                            assert(item_fails(items@[i as int], schema.columns@, err.kind));
                        }
                        return Err(err);
                    },
                };
                let t = match e.result_type(schema) {
                    Ok(t) => t,
                    Err(err) => {
                        proof {
                            assert(col_types(schema.columns@) == types_of(*schema));
                            assert(parses(x, schema.columns@, e));
                            assert(item_fails(items@[i as int], schema.columns@, err.kind));
                        }
                        return Err(err);
                    },
                };
                let ghost ge = e;
                let name = "?column?".to_string();
                proof {
                    assert(name@ == unnamed());
                }
                push_column(&mut columns, &mut exprs, name, t, e, Ghost(cols));
                proof {
                    assert(exprs@.drop_last() =~= e0);
                    assert(columns@.map_values(|col: Column| col.name@).drop_last() =~= c0.map_values(
                        |col: Column| col.name@,
                    ));
                }
            },
            SelectItem::ExprWithAlias(e, alias) => {
                let ghost x = *e;
                let e = match Expression::parse(e, schema) {
                    Ok(e) => e,
                    Err(err) => {
                        proof {
                            assert(item_fails(items@[i as int], schema.columns@, err.kind));
                        }
                        return Err(err);
                    },
                };
                let t = match e.result_type(schema) {
                    Ok(t) => t,
                    Err(err) => {
                        proof {
                            assert(col_types(schema.columns@) == types_of(*schema));
                            assert(parses(x, schema.columns@, e));
                            assert(item_fails(items@[i as int], schema.columns@, err.kind));
                        }
                        return Err(err);
                    },
                };
                push_column(&mut columns, &mut exprs, alias.clone(), t, e, Ghost(cols));
                proof {
                    assert(exprs@.drop_last() =~= e0);
                    assert(columns@.map_values(|col: Column| col.name@).drop_last() =~= c0.map_values(
                        |col: Column| col.name@,
                    ));
                }
            },
            SelectItem::Unsupported => {
                proof {
                    assert(item_fails(items@[i as int], schema.columns@, ErrorKind::Unsupported));
                }
                return Err(Error::new(ErrorKind::Unsupported, "unsupported projection item"));
            },
        }
        i = i + 1;
    }
    proof {
        assert(items@.take(i as int) =~= items@);
    }
    Ok((Schema { primary_key: None, columns }, exprs))
}

fn push_column(
    columns: &mut Vec<Column>,
    exprs: &mut Vec<Expression>,
    name: String,
    t: Type,
    e: Expression,
    Ghost(cols): Ghost<Seq<Type>>,
)
    requires
        old(columns)@.len() == old(exprs)@.len(),
        expr_type(e, cols) == Ok::<Type, ErrorKind>(t),
        forall|k: int|
            0 <= k < old(exprs)@.len() ==> expr_type(#[trigger] old(exprs)@[k], cols) == Ok::<Type, ErrorKind>(
                old(columns)@[k].type_,
            ),
    ensures
        final(columns)@.len() == final(exprs)@.len(),
        final(exprs)@.len() == old(exprs)@.len() + 1,
        final(columns)@.last().name@ == name@,
        final(exprs)@.last() == e,
        final(exprs)@.drop_last() == old(exprs)@,
        final(columns)@.drop_last() == old(columns)@,
        forall|k: int|
            0 <= k < final(exprs)@.len() ==> expr_type(#[trigger] final(exprs)@[k], cols) == Ok::<Type, ErrorKind>(
                final(columns)@[k].type_,
            ),
{
    let ghost (bc, be) = (columns@, exprs@);
    let ghost ge = e;
    columns.push(Column { name, type_: t });
    exprs.push(e);
    proof {
        assert(exprs@.drop_last() =~= be);
        assert(columns@.drop_last() =~= bc);
        assert forall|k: int| 0 <= k < exprs@.len() implies expr_type(#[trigger] exprs@[k], cols) == Ok::<
            Type,
            ErrorKind,
        >(columns@[k].type_) by {
            if k < be.len() {
                assert(exprs@[k] == be[k] && columns@[k] == bc[k]);
            } else {
                assert(exprs@[k] == ge);
            }
        }
    }
}

/// `v` is the value of the literal expression `x`: resolved with no input
/// columns, evaluated on the empty row.
pub open spec fn literal(x: SqlExpr, v: Value) -> bool {
    exists|e: Expression| parses(x, Seq::empty(), e) && eval_spec(e, Seq::empty()) == Ok::<Value, ErrorKind>(v)
}

/// `vals` are the values of a row of literal expressions.
pub open spec fn literal_row(exprs: Seq<SqlExpr>, vals: Seq<Value>) -> bool {
    &&& vals.len() == exprs.len()
    &&& forall|j: int| 0 <= j < exprs.len() ==> literal(#[trigger] exprs[j], vals[j])
}

/// The literal expression resolves with no input columns and evaluates.
pub open spec fn literal_ok(x: SqlExpr) -> bool {
    &&& parse_fail(x, Seq::empty()) is None
    &&& forall|e: Expression| #[trigger] parses(x, Seq::empty(), e) ==> (eval_spec(e, Seq::empty()) is Ok)
}

/// A `VALUES` list can be built: every literal evaluates, and every later row
/// has the first row's arity and, in each column, the first row's type or `Null`.
pub open spec fn values_ok(rows: Seq<Vec<SqlExpr>>) -> bool {
    &&& forall|k: int, j: int| 0 <= k < rows.len() && 0 <= j < rows[k]@.len() ==> literal_ok(#[trigger] rows[k]@[j])
    &&& forall|k: int| 1 <= k < rows.len() ==> (#[trigger] rows[k])@.len() == rows[0]@.len()
    &&& forall|k: int, j: int, v0: Value, v: Value|
        1 <= k < rows.len() && 0 <= j < rows[0]@.len() && #[trigger] literal(rows[0]@[j], v0) && #[trigger] literal(
            rows[k]@[j],
            v,
        ) ==> type_spec(v) == type_spec(v0) || type_spec(v) == Type::Null
}

/// Evaluates one row of literal expressions, with no input columns.
fn build_row(exprs: &Vec<SqlExpr>) -> (r: Result<Row, Error>)
    ensures
        r matches Ok(row) ==> literal_row(exprs@, row@),
        (forall|j: int| 0 <= j < exprs@.len() ==> literal_ok(#[trigger] exprs@[j])) ==> r is Ok,
{
    let empty_schema = Schema::empty();
    let empty_row = Row::new(Vec::new());
    let mut values: Vec<Value> = Vec::new();
    let mut i: usize = 0;
    while i < exprs.len()
        invariant
            i <= exprs@.len(),
            values@.len() == i,
            empty_schema.columns@.len() == 0,
            empty_row@.len() == 0,
            forall|j: int| 0 <= j < i ==> literal(#[trigger] exprs@[j], values@[j]),
        decreases exprs@.len() - i,
    {
        let e = match Expression::parse(&exprs[i], &empty_schema) {
            Ok(e) => e,
            Err(err) => {
                proof {
                    assert(empty_schema.columns@ =~= Seq::<Column>::empty());
                    assert(!literal_ok(exprs@[i as int]));
                }
                return Err(err);
            },
        };
        let v = match e.eval(&empty_row) {
            Ok(v) => v,
            Err(err) => {
                proof {
                    assert(empty_schema.columns@ =~= Seq::<Column>::empty());
                    assert(empty_row@ =~= Seq::<Value>::empty());
                    assert(parses(exprs@[i as int], Seq::empty(), e));
                    assert(!literal_ok(exprs@[i as int]));
                }
                return Err(err);
            },
        };
        proof {
            assert(empty_schema.columns@ =~= Seq::<Column>::empty());
            assert(empty_row@ =~= Seq::<Value>::empty());
            assert(parses(exprs@[i as int], Seq::empty(), e) && eval_spec(e, Seq::empty()) == Ok::<Value, ErrorKind>(v));
        }
        let ghost before = values@;
        values.push(v);
        proof {
            assert forall|j: int| 0 <= j < i + 1 implies literal(#[trigger] exprs@[j], values@[j]) by {
                if j < i {
                    assert(values@[j] == before[j]);
                }
            }
        }
        i = i + 1;
    }
    Ok(Row::new(values))
}

/// The plan of a `VALUES` list: the first row fixes the schema, with
/// columns `column1, column2, ...` typed by its values; every later row must
/// fit that schema. An empty list yields no rows.
pub fn build_values(rows: &Vec<Vec<SqlExpr>>) -> (r: Result<Pipeline, Error>)
    ensures
        r matches Ok(p) ==> p.wf(),
        r matches Ok(p) ==> p.predicate() is None && p.sort_terms() is None,
        r matches Ok(p) ==> p.exprs().len() <= usize::MAX,
        r matches Ok(p) ==> forall|j: int| 0 <= j < p.exprs().len() ==> #[trigger] p.exprs()[j] == Expression::Field(j as usize),
        r matches Ok(p) ==> forall|out: Seq<Seq<Value>>|
            #[trigger] p.emits(out) ==> out.len() == rows@.len() && forall|k: int|
                0 <= k < out.len() ==> literal_row(rows@[k]@, #[trigger] out[k]) && out[k].len() == p.exprs().len(),
        r matches Ok(p) ==> rows@.len() > 0 ==> p.schema_spec().columns@.len() == rows@[0]@.len(),
        r matches Ok(p) ==> rows@.len() > 0 ==> exists|first: Seq<Value>|
            literal_row(rows@[0]@, first) && forall|j: int|
                0 <= j < first.len() ==> (#[trigger] p.schema_spec().columns@[j]).type_ == type_spec(first[j]),
        r matches Ok(p) ==> rows@.len() == 0 ==> p.schema_spec().columns@.len() == 0,
        rows@.len() == 0 ==> r is Ok,
        values_ok(rows@) ==> r is Ok,
        r matches Ok(p) ==> exists|out: Seq<Seq<Value>>| p.emits(out),
{
    if rows.len() == 0 {
        let values = match Values::new(Vec::new(), Schema::empty()) {
            Ok(v) => v,
            Err(e) => return Err(e),
        };
        let eval = match Eval::new(Vec::new(), Schema::empty()) {
            Ok(e) => e,
            Err(e) => return Err(e),
        };
        let p = Pipeline::new(Source::Values(values), None, None, eval);
        proof {
            assert(p.emits(Source::Values(values)->Values_0.remaining()));
            assert forall|out: Seq<Seq<Value>>| #[trigger] p.emits(out) implies out.len() == rows@.len() && forall|k: int|
                0 <= k < out.len() ==> literal_row(rows@[k]@, #[trigger] out[k]) && out[k].len() == p.exprs().len() by {
                assert(p.emits(out) == Source::Values(values).emits(out));
            }
        }
        return Ok(p);
    }
    let first = match build_row(&rows[0]) {
        Ok(row) => row,
        Err(e) => {
            proof {
                if values_ok(rows@) {
                    assert forall|j: int| 0 <= j < rows@[0]@.len() implies literal_ok(#[trigger] rows@[0]@[j]) by {
                        assert(literal_ok(rows@[0]@[j]));
                    }
                }
            }
            return Err(e);
        },
    };
    let ghost gfirst = first@;
    let n = first.len();
    let mut columns: Vec<Column> = Vec::new();
    let mut exprs: Vec<Expression> = Vec::new();
    let mut i: usize = 0;
    while i < n
        invariant
            i <= n,
            n == first@.len(),
            columns@.len() == i,
            exprs@.len() == i,
            first@.len() == rows@[0]@.len(),
            forall|j: int| 0 <= j < i ==> #[trigger] exprs@[j] == Expression::Field(j as usize),
            forall|j: int| 0 <= j < i ==> (#[trigger] columns@[j]).type_ == type_spec(first@[j]),
        decreases n - i,
    {
        let name = column_name(i as u64 + 1);
        columns.push(Column { name, type_: first.get(i).type_() });
        exprs.push(Expression::Field(i));
        i = i + 1;
    }
    let schema = Schema { primary_key: None, columns };
    let mut values: Vec<Row> = Vec::new();
    values.push(first);
    let mut k: usize = 1;
    while k < rows.len()
        invariant
            1 <= k <= rows@.len(),
            values@.len() == k,
            schema.columns@.len() == n,
            forall|m: int| 0 <= m < k ==> literal_row(rows@[m]@, #[trigger] values@[m]@) && values@[m]@.len() == n,
            n == rows@[0]@.len(),
            literal_row(rows@[0]@, gfirst),
            forall|j: int| 0 <= j < n ==> (#[trigger] schema.columns@[j]).type_ == type_spec(gfirst[j]),
        decreases rows@.len() - k,
    {
        let row = match build_row(&rows[k]) {
            Ok(row) => row,
            Err(e) => {
                proof {
                    if values_ok(rows@) {
                        assert forall|j: int| 0 <= j < rows@[k as int]@.len() implies literal_ok(#[trigger] rows@[k as int]@[j]) by {
                            assert(literal_ok(rows@[k as int]@[j]));
                        }
                    }
                }
                return Err(e);
            },
        };
        match schema.check(&row) {
            Ok(()) => {},
            Err(e) => {
                proof {
                    if values_ok(rows@) {
                        assert(row@.len() == n);
                        assert forall|j: int| 0 <= j < row@.len() implies (type_spec(#[trigger] row@[j]) == schema.columns@[j].type_
                            || type_spec(row@[j]) == Type::Null) by {
                            assert(literal(rows@[0]@[j], gfirst[j]));
                            assert(literal(rows@[k as int]@[j], row@[j]));
                        }
                    }
                }
                return Err(e);
            },
        }
        let ghost before = values@;
        values.push(row);
        proof {
            assert forall|m: int| 0 <= m < k + 1 implies literal_row(rows@[m]@, #[trigger] values@[m]@) && values@[m]@.len() == n by {
                if m < k {
                    assert(values@[m] == before[m]);
                }
            }
        }
        k = k + 1;
    }
    let ghost gexprs = exprs@;
    let eval = match Eval::new(exprs, schema.copy()) {
        Ok(e) => e,
        Err(e) => return Err(e),
    };
    let ghost vview = rows_view(values@);
    let source = match Values::new(values, schema) {
        Ok(v) => v,
        Err(e) => return Err(e),
    };
    let p = Pipeline::new(Source::Values(source), None, None, eval);
    proof {
        assert(p.emits(source.remaining()));
        assert forall|out: Seq<Seq<Value>>| #[trigger] p.emits(out) implies out.len() == rows@.len() && forall|m: int|
            0 <= m < out.len() ==> literal_row(rows@[m]@, #[trigger] out[m]) && out[m].len() == p.exprs().len() by {
            assert(p.emits(out) == Source::Values(source).emits(out));
            if p.emits(out) {
                assert(out == vview);
                assert forall|m: int| 0 <= m < out.len() implies literal_row(rows@[m]@, #[trigger] out[m]) && out[m].len()
                    == p.exprs().len() by {
                    assert(out[m] == values@[m]@);
                }
            }
        }
    }
    Ok(p)
}

/// The table a query reads, if any: the storage layer loads it before planning.
pub fn source_table(query: &SqlQuery) -> (r: Option<&String>)
    ensures
        query.body matches SetExpr::Select(sel) ==> (r is Some <==> sel.from is Some) && (r is Some
            ==> *r->Some_0 == sel.from->Some_0),
        query.body is Values ==> r is None,
{
    match &query.body {
        SetExpr::Select(select) => select.from.as_ref(),
        SetExpr::Values(_) => None,
    }
}

/// `rows` are the rows whose stored forms are the entries, in order.
pub open spec fn stored_rows(entries: Seq<(Vec<u8>, Vec<u8>)>, rows: Seq<Seq<Value>>) -> bool {
    &&& rows.len() == entries.len()
    &&& forall|k: int| 0 <= k < rows.len() ==> row_bytes(#[trigger] rows[k]) == entries[k].1@
}

/// The columns a `SELECT` reads: those of its table, or none without `FROM`.
pub open spec fn input_columns(select: SqlSelect, input: Option<TableScan>) -> Seq<Column> {
    if select.from is Some && input is Some {
        input->Some_0.schema.columns@
    } else {
        Seq::empty()
    }
}

/// The rows a `SELECT` reads: the stored rows of its table, or one empty row
/// without `FROM`.
pub open spec fn reads(select: SqlSelect, input: Option<TableScan>, rows: Seq<Seq<Value>>) -> bool {
    if select.from is Some {
        input is Some && stored_rows(input->Some_0.entries@, rows)
    } else {
        rows == seq![Seq::<Value>::empty()]
    }
}

/// The parts of a `SELECT` resolved against its input columns: the `WHERE`
/// predicate, the `ORDER BY` terms, and the output expressions and names.
pub open spec fn plans(
    select: SqlSelect,
    order_by: Seq<OrderByExpr>,
    cols: Seq<Column>,
    pred: Option<Expression>,
    terms: Option<Seq<SortKey>>,
    exprs: Seq<Expression>,
    names: Seq<Seq<char>>,
) -> bool {
    &&& match select.selection {
        Some(x) => pred is Some && parses(x, cols, pred->Some_0),
        None => pred is None,
    }
    &&& expands(select.projection@, cols, exprs, names)
    &&& if order_by.len() == 0 {
        terms is None
    } else {
        &&& terms is Some
        &&& terms->Some_0.len() == order_by.len()
        &&& forall|i: int|
            0 <= i < order_by.len() ==> resolves(#[trigger] order_by[i], cols, exprs.len(), terms->Some_0[i])
    }
}

/// How many output columns a select list expands to.
pub open spec fn expand_len(items: Seq<SelectItem>, cols: Seq<Column>) -> nat
    decreases items.len(),
{
    if items.len() == 0 {
        0
    } else {
        expand_len(items.drop_last(), cols) + if items.last() is Wildcard {
            cols.len()
        } else {
            1
        }
    }
}

proof fn lemma_expand_len(items: Seq<SelectItem>, cols: Seq<Column>, es: Seq<Expression>, names: Seq<Seq<char>>)
    requires
        expands(items, cols, es, names),
    ensures
        es.len() == expand_len(items, cols),
    decreases items.len(),
{
    if items.len() > 0 {
        let n = es.len();
        if items.last() is Wildcard {
            let m = cols.len();
            lemma_expand_len(items.drop_last(), cols, es.take(n - m), names.take(n - m));
        } else {
            lemma_expand_len(items.drop_last(), cols, es.drop_last(), names.drop_last());
        }
    }
}

/// An `ORDER BY` term resolves: ascending, default null placement, its
/// expression resolves, and a positional constant names a select expression.
pub open spec fn order_ok(item: OrderByExpr, cols: Seq<Column>, n: nat) -> bool {
    &&& item.asc != Some(false)
    &&& item.nulls_first is None
    &&& parse_fail(item.expr, cols) is None
    &&& forall|e: Expression| #[trigger] parses(item.expr, cols, e) ==> !(crate::ops::sort::position_of(e, n) matches Some(Err(_)))
}

/// A `SELECT` can be planned: its table is given when it has one, `WHERE`
/// resolves, the select list expands, and every `ORDER BY` term resolves.
pub open spec fn select_ok(select: SqlSelect, order_by: Seq<OrderByExpr>, input: Option<TableScan>) -> bool {
    let cols = input_columns(select, input);
    &&& select.from is None || input is Some
    &&& select.selection matches Some(x) ==> parse_fail(x, cols) is None
    &&& select_list_ok(select.projection@, cols)
    &&& forall|i: int| 0 <= i < order_by.len() ==> order_ok(#[trigger] order_by[i], cols, expand_len(select.projection@, cols))
}

/// The plan of a `SELECT`: a scan of `input` (or one empty row without
/// `FROM`), then `WHERE`, then `ORDER BY` (resolved against the input
/// columns and the select list), then the projection.
pub fn build_select(select: &SqlSelect, order_by: &Vec<OrderByExpr>, input: Option<TableScan>) -> (r: Result<
    Pipeline,
    Error,
>)
    ensures
        r matches Ok(p) ==> {
            &&& p.wf()
            &&& forall|rows: Seq<Seq<Value>>| #[trigger] p.emits(rows) <==> reads(*select, input, rows)
            &&& plans(
                *select,
                order_by@,
                input_columns(*select, input),
                p.predicate(),
                p.sort_terms(),
                p.exprs(),
                names_of(p.schema_spec()),
            )
            &&& typed(p.exprs(), input_columns(*select, input), p.schema_spec())
        },
        select.from is Some && input is None ==> (r matches Err(e) && e.kind == ErrorKind::Resolution),
        select_ok(*select, order_by@, input) ==> r is Ok,
{
    let ghost cols = input_columns(*select, input);
    let (source, in_schema) = match (&select.from, input) {
        (Some(_), Some(scan)) => {
            let in_schema = scan.schema.copy();
            let scan = match FullScan::new(scan.schema, scan.entries) {
                Ok(s) => s,
                Err(e) => return Err(e),
            };
            (Source::Scan(scan), in_schema)
        },
        (Some(_), None) => return Err(Error::new(ErrorKind::Resolution, "no such table")),
        (None, _) => (Source::Empty(Empty::new()), Schema::empty()),
    };
    proof {
        assert(in_schema.columns@ =~= cols);
        assert forall|rows: Seq<Seq<Value>>| #[trigger] source.emits(rows) <==> reads(*select, input, rows) by {
            if select.from is Some {
                if source.emits(rows) {
                    assert forall|k: int| 0 <= k < rows.len() implies row_bytes(#[trigger] rows[k])
                        == input->Some_0.entries@[k].1@ by {
                        assert(row_bytes(rows[k]) == source->Scan_0.entries()[source->Scan_0.position() + k].1@);
                    }
                }
            }
        }
    }
    let filter = match &select.selection {
        Some(selection) => match Filter::new(selection, &in_schema) {
            Ok(f) => Some(f),
            Err(e) => return Err(e),
        },
        None => None,
    };
    let (schema, exprs) = match expand_select(&select.projection, &in_schema) {
        Ok(x) => x,
        Err(e) => return Err(e),
    };
    let sort = if order_by.len() > 0 {
        proof {
            lemma_expand_len(select.projection@, cols, exprs@, names_of(schema));
        }
        match Sort::new(order_by, &exprs, &in_schema) {
            Ok(s) => Some(s),
            Err(e) => {
                proof {
                    if select_ok(*select, order_by@, input) {
                        let i = choose|i: int|
                            0 <= i < order_by@.len() && crate::ops::sort::rejects(
                                #[trigger] order_by@[i],
                                in_schema.columns@,
                                exprs@.len() as nat,
                                e.kind,
                            );
                        assert(order_ok(order_by@[i], cols, expand_len(select.projection@, cols)));
                    }
                }
                return Err(e);
            },
        }
    } else {
        None
    };
    let ghost gexprs = exprs@;
    let ghost gschema = schema;
    let eval = match Eval::new(exprs, schema) {
        Ok(e) => e,
        Err(e) => return Err(e),
    };
    let p = Pipeline::new(source, filter, sort, eval);
    proof {
        assert forall|rows: Seq<Seq<Value>>| #[trigger] p.emits(rows) <==> reads(*select, input, rows) by {
            assert(p.emits(rows) == source.emits(rows));
        }
    }
    Ok(p)
}

/// The plan of a query. `ORDER BY` on a bare `VALUES` list is not supported.
pub fn build_query(query: &SqlQuery, input: Option<TableScan>) -> (r: Result<Pipeline, Error>)
    ensures
        r matches Ok(p) ==> p.wf(),
        (query.body is Values && query.order_by@.len() > 0) ==> (r matches Err(e) && e.kind
            == ErrorKind::Unsupported),
        query.body matches SetExpr::Select(sel) ==> (select_ok(sel, query.order_by@, input) ==> r is Ok),
        query.body matches SetExpr::Values(vals) ==> (query.order_by@.len() == 0 && values_ok(vals@) ==> r is Ok),
        query.body is Values ==> (r matches Ok(p) ==> exists|out: Seq<Seq<Value>>| p.emits(out)),
        query.body matches SetExpr::Values(vals) ==> (r matches Ok(p) ==> value_schema(vals@, p.schema_spec())),
        query.body matches SetExpr::Values(vals) ==> (r matches Ok(p) ==> {
            &&& p.predicate() is None
            &&& p.sort_terms() is None
            &&& p.exprs().len() <= usize::MAX
            &&& forall|j: int| 0 <= j < p.exprs().len() ==> #[trigger] p.exprs()[j] == Expression::Field(j as usize)
            &&& forall|out: Seq<Seq<Value>>|
                #[trigger] p.emits(out) ==> out.len() == vals@.len() && forall|k: int|
                    0 <= k < out.len() ==> literal_row(vals@[k]@, #[trigger] out[k]) && out[k].len() == p.exprs().len()
        }),
        query.body matches SetExpr::Select(sel) ==> (r matches Ok(p) ==> {
            &&& forall|rows: Seq<Seq<Value>>| #[trigger] p.emits(rows) <==> reads(sel, input, rows)
            &&& plans(
                sel,
                query.order_by@,
                input_columns(sel, input),
                p.predicate(),
                p.sort_terms(),
                p.exprs(),
                names_of(p.schema_spec()),
            )
            &&& typed(p.exprs(), input_columns(sel, input), p.schema_spec())
        }),
{
    match &query.body {
        SetExpr::Select(select) => build_select(select, &query.order_by, input),
        SetExpr::Values(rows) => {
            if query.order_by.len() > 0 {
                return Err(Error::new(ErrorKind::Unsupported, "ORDER BY on VALUES is not supported"));
            }
            build_values(rows)
        },
    }
}

/// `out` is the result of the query on the given input: for `VALUES`, the
/// literal rows; for a `SELECT`, what its plan makes of the rows it reads.
pub open spec fn answers(q: SqlQuery, input: Option<TableScan>, out: Seq<Seq<Value>>) -> bool {
    match q.body {
        SetExpr::Values(vals) => out.len() == vals@.len() && forall|k: int|
            0 <= k < vals@.len() ==> literal_row(vals@[k]@, #[trigger] out[k]),
        SetExpr::Select(sel) => exists|
            rows: Seq<Seq<Value>>,
            pred: Option<Expression>,
            terms: Option<Seq<SortKey>>,
            exprs: Seq<Expression>,
            names: Seq<Seq<char>>,
        |
            {
                &&& reads(sel, input, rows)
                &&& plans(sel, q.order_by@, input_columns(sel, input), pred, terms, exprs, names)
                &&& produces(pred, terms, exprs, rows, out)
            },
    }
}

/// Column `k` of the schema has the type of output expression `k`.
pub open spec fn typed(exprs: Seq<Expression>, cols: Seq<Column>, s: Schema) -> bool {
    &&& s.columns@.len() == exprs.len()
    &&& forall|k: int|
        0 <= k < exprs.len() ==> expr_type(#[trigger] exprs[k], col_types(cols)) == Ok::<Type, ErrorKind>(
            s.columns@[k].type_,
        )
}

/// The schema of a `VALUES` list: the types of its first row's values.
pub open spec fn value_schema(vals: Seq<Vec<SqlExpr>>, s: Schema) -> bool {
    &&& vals.len() == 0 ==> s.columns@.len() == 0
    &&& vals.len() > 0 ==> s.columns@.len() == vals[0]@.len() && exists|first: Seq<Value>|
        literal_row(vals[0]@, first) && forall|j: int|
            0 <= j < first.len() ==> (#[trigger] s.columns@[j]).type_ == type_spec(first[j])
}

/// `s` is the schema of the query's result: the types of the resolved select
/// list, or of the first `VALUES` row.
pub open spec fn result_schema(q: SqlQuery, input: Option<TableScan>, s: Schema) -> bool {
    match q.body {
        SetExpr::Select(sel) => exists|
            pred: Option<Expression>,
            terms: Option<Seq<SortKey>>,
            exprs: Seq<Expression>,
        |
            plans(sel, q.order_by@, input_columns(sel, input), pred, terms, exprs, names_of(s)) && typed(
                exprs,
                input_columns(sel, input),
                s,
            ),
        SetExpr::Values(vals) => value_schema(vals@, s),
    }
}

/// A query runs without error: a `SELECT` can be planned, its table's
/// entries are stored rows, and whatever plan it resolves to runs on the rows
/// it reads; a `VALUES` list can be built and has no `ORDER BY`.
pub open spec fn query_ok(q: SqlQuery, input: Option<TableScan>) -> bool {
    match q.body {
        SetExpr::Select(sel) => {
            &&& select_ok(sel, q.order_by@, input)
            &&& exists|rows: Seq<Seq<Value>>| reads(sel, input, rows)
            &&& forall|
                pred: Option<Expression>,
                terms: Option<Seq<SortKey>>,
                exprs: Seq<Expression>,
                names: Seq<Seq<char>>,
                rows: Seq<Seq<Value>>,
            |
                #![trigger plans(sel, q.order_by@, input_columns(sel, input), pred, terms, exprs, names), reads(sel, input, rows)]
                plans(sel, q.order_by@, input_columns(sel, input), pred, terms, exprs, names) && reads(sel, input, rows)
                    ==> runs_ok(pred, terms, exprs, rows)
        },
        SetExpr::Values(vals) => q.order_by@.len() == 0 && values_ok(vals@),
    }
}

/// Runs a query to completion and collects its rows with their schema. For
/// a `SELECT`, the rows are what its plan makes of the rows it reads: those
/// passing `WHERE`, in a stable `ORDER BY` order when there is one, each
/// evaluated through the select list.
pub fn query(statement: &SqlQuery, input: Option<TableScan>) -> (r: Result<RowSet, Error>)
    ensures
        r matches Ok(set) ==> forall|i: int|
            0 <= i < set.rows@.len() ==> (#[trigger] set.rows@[i])@.len() == set.schema.columns@.len(),
        r matches Ok(set) ==> (statement.body matches SetExpr::Select(sel) ==> exists|
            rows: Seq<Seq<Value>>,
            pred: Option<Expression>,
            terms: Option<Seq<SortKey>>,
            exprs: Seq<Expression>,
        |
            {
                &&& reads(sel, input, rows)
                &&& plans(sel, statement.order_by@, input_columns(sel, input), pred, terms, exprs, names_of(set.schema))
                &&& produces(pred, terms, exprs, rows, rows_view(set.rows@))
            }),
        r matches Ok(set) ==> (statement.body matches SetExpr::Values(vals) ==> set.rows@.len() == vals@.len()
            && forall|k: int| 0 <= k < vals@.len() ==> literal_row(vals@[k]@, #[trigger] set.rows@[k]@)),
        r matches Ok(set) ==> answers(*statement, input, rows_view(set.rows@)),
        query_ok(*statement, input) ==> r is Ok,
        r matches Ok(set) ==> result_schema(*statement, input, set.schema),
{
    let mut plan = match build_query(statement, input) {
        Ok(p) => p,
        Err(e) => return Err(e),
    };
    let ghost before = plan;
    proof {
        if query_ok(*statement, input) {
            if statement.body is Select {
                let sel = statement.body->Select_0;
                let rows0 = choose|rows: Seq<Seq<Value>>| reads(sel, input, rows);
                assert(before.emits(rows0));
                assert forall|inp: Seq<Seq<Value>>| #[trigger] before.emits(inp) implies runs_ok(
                    before.predicate(),
                    before.sort_terms(),
                    before.exprs(),
                    inp,
                ) by {
                    assert(reads(sel, input, inp));
                    assert(plans(sel, statement.order_by@, input_columns(sel, input), before.predicate(), before.sort_terms(), before.exprs(), names_of(before.schema_spec())));
                }
            } else {
                assert forall|inp: Seq<Seq<Value>>| #[trigger] before.emits(inp) implies runs_ok(
                    before.predicate(),
                    before.sort_terms(),
                    before.exprs(),
                    inp,
                ) by {
                    assert(crate::ops::pipeline::filtered(before.predicate(), inp) == Ok::<Seq<Seq<Value>>, ErrorKind>(inp));
                    assert forall|k: int| 0 <= k < inp.len() implies (eval_row_spec(before.exprs(), #[trigger] inp[k]) is Ok) by {
                        lemma_identity_row(before.exprs(), inp[k]);
                    }
                }
            }
            assert(before.can_run());
        }
    }
    let rows = match plan.run() {
        Ok(rows) => rows,
        Err(e) => return Err(e),
    };
    let set = RowSet { schema: plan.schema().copy(), rows };
    proof {
        if statement.body is Values {
            let out = rows_view(set.rows@);
            let src = choose|src: Seq<Seq<Value>>|
                before.emits(src) && produces(before.predicate(), before.sort_terms(), before.exprs(), src, out);
            assert(before.predicate() is None && before.sort_terms() is None);
            assert(eval_rows_spec(before.exprs(), src) == Ok::<Seq<Seq<Value>>, ErrorKind>(out));
            lemma_identity_rows(before.exprs(), src);
            assert(out == src);
            assert forall|k: int| 0 <= k < statement.body->Values_0@.len() implies literal_row(
                statement.body->Values_0@[k]@,
                #[trigger] set.rows@[k]@,
            ) by {
                assert(set.rows@[k]@ == out[k]);
            }
            assert(answers(*statement, input, out));
        }
        if statement.body is Select {
            let sel = statement.body->Select_0;
            let out = rows_view(set.rows@);
            let src = choose|src: Seq<Seq<Value>>|
                before.emits(src) && produces(before.predicate(), before.sort_terms(), before.exprs(), src, out);
            assert(names_of(set.schema) =~= names_of(before.schema_spec()));
            assert(reads(sel, input, src));
            assert(plans(sel, statement.order_by@, input_columns(sel, input), before.predicate(), before.sort_terms(), before.exprs(), names_of(set.schema)));
            assert(answers(*statement, input, out));
            assert(set.schema.columns@ == before.schema_spec().columns@);
            assert(typed(before.exprs(), input_columns(sel, input), set.schema));
            assert(result_schema(*statement, input, set.schema));
        }
    }
    Ok(set)
}

/// The position of each table column in an INSERT's column list: the
/// identity without a list, else the first list entry with that name.
pub open spec fn reorders(cols: Seq<Column>, columns: Seq<String>, perm: Seq<usize>) -> bool {
    &&& perm.len() == cols.len()
    &&& forall|j: int| 0 <= j < perm.len() ==> #[trigger] perm[j] < cols.len()
    &&& columns.len() == 0 ==> forall|j: int| 0 <= j < perm.len() ==> #[trigger] perm[j] == j
    &&& columns.len() > 0 ==> {
        &&& columns.len() == cols.len()
        &&& forall|j: int|
            0 <= j < perm.len() ==> columns[#[trigger] perm[j] as int]@ == cols[j].name@ && forall|p: int|
                0 <= p < perm[j] ==> columns[p]@ != cols[j].name@
    }
}

fn column_order(target: &Schema, columns: &Vec<String>) -> (r: Result<Vec<usize>, Error>)
    ensures
        r matches Ok(perm) ==> reorders(target.columns@, columns@, perm@),
        r is Err ==> forall|perm: Seq<usize>| !#[trigger] reorders(target.columns@, columns@, perm),
{
    let n = target.columns.len();
    let mut perm: Vec<usize> = Vec::new();
    if columns.len() == 0 {
        let mut j: usize = 0;
        while j < n
            invariant
                j <= n,
                n == target.columns@.len(),
                perm@.len() == j,
                forall|k: int| 0 <= k < j ==> #[trigger] perm@[k] == k,
            decreases n - j,
        {
            perm.push(j);
            j = j + 1;
        }
        return Ok(perm);
    }
    if columns.len() != n {
        return Err(Error::new(ErrorKind::Type, "number of columns does not match"));
    }
    let mut j: usize = 0;
    while j < n
        invariant
            j <= n,
            n == target.columns@.len(),
            n == columns@.len(),
            perm@.len() == j,
            forall|k: int| 0 <= k < j ==> #[trigger] perm@[k] < n,
            forall|k: int|
                0 <= k < j ==> columns@[#[trigger] perm@[k] as int]@ == target.columns@[k].name@ && forall|q: int|
                    0 <= q < perm@[k] ==> columns@[q]@ != target.columns@[k].name@,
        decreases n - j,
    {
        let mut p: usize = 0;
        while p < n && !columns[p].eq(&target.columns[j].name)
            invariant
                p <= n,
                n == columns@.len(),
                j < n,
                n == target.columns@.len(),
                forall|q: int| 0 <= q < p ==> columns@[q]@ != target.columns@[j as int].name@,
            decreases n - p,
        {
            p = p + 1;
        }
        if p == n {
            proof {
                assert forall|perm: Seq<usize>| !#[trigger] reorders(target.columns@, columns@, perm) by {
                    if reorders(target.columns@, columns@, perm) {
                        let q = perm[j as int] as int;
                        assert(columns@[q]@ == target.columns@[j as int].name@);
                    }
                }
            }
            return Err(Error::new(ErrorKind::Resolution, "no such column in INSERT column list"));
        }
        perm.push(p);
        j = j + 1;
    }
    Ok(perm)
}

fn permute_values(row: &Row, perm: &Vec<usize>) -> (r: Row)
    requires
        forall|j: int| 0 <= j < perm@.len() ==> #[trigger] perm@[j] < row@.len(),
    ensures
        r@.len() == perm@.len(),
        forall|j: int| 0 <= j < perm@.len() ==> #[trigger] r@[j] == row@[perm@[j] as int],
{
    let mut vals: Vec<Value> = Vec::new();
    let mut j: usize = 0;
    while j < perm.len()
        invariant
            j <= perm@.len(),
            forall|k: int| 0 <= k < perm@.len() ==> #[trigger] perm@[k] < row@.len(),
            vals@.len() == j,
            forall|k: int| 0 <= k < j ==> #[trigger] vals@[k] == row@[perm@[k] as int],
        decreases perm@.len() - j,
    {
        vals.push(row.get(perm[j]).copy());
        j = j + 1;
    }
    Row::new(vals)
}

/// A write of an INSERT: the stored form of a row with one value per
/// column, under that row's declared primary key when the table has one.
pub open spec fn stored_write(schema: Schema, w: (Vec<u8>, Vec<u8>)) -> bool {
    exists|vals: Seq<Value>|
        {
            &&& vals.len() == schema.columns@.len()
            &&& w.1@ == row_bytes(vals)
            &&& schema.primary_key matches Some(i) ==> crate::table::declared_key(vals[i as int]) == Some(w.0@)
        }
}

/// A query result can be inserted into a table: the column list orders the
/// table's columns, the result has the table's arity and, reordered, its
/// column types, every row has its declared key, and the hidden counter does
/// not run out.
pub open spec fn insertable(schema: Schema, counter: u64, columns: Seq<String>, set: RowSet) -> bool {
    &&& schema.primary_key matches Some(i) ==> i < schema.columns@.len()
    &&& exists|perm: Seq<usize>| reorders(schema.columns@, columns, perm)
    &&& forall|perm: Seq<usize>| #[trigger] reorders(schema.columns@, columns, perm) ==> {
        &&& set.schema.columns@.len() == perm.len()
        &&& forall|j: int|
            0 <= j < perm.len() ==> set.schema.columns@[#[trigger] perm[j] as int].type_ == schema.columns@[j].type_
        &&& schema.primary_key matches Some(i) ==> forall|k: int|
            0 <= k < set.rows@.len() ==> (crate::table::declared_key(
                (#[trigger] set.rows@[k])@[perm[i as int] as int],
            ) is Some)
    }
    &&& schema.primary_key is None ==> counter + set.rows@.len() <= u64::MAX
}

/// `set` is a possible result of the query.
pub open spec fn result_of(q: SqlQuery, input: Option<TableScan>, set: RowSet) -> bool {
    &&& answers(q, input, rows_view(set.rows@))
    &&& result_schema(q, input, set.schema)
    &&& forall|i: int| 0 <= i < set.rows@.len() ==> (#[trigger] set.rows@[i])@.len() == set.schema.columns@.len()
}

/// The error of an INSERT whose key is already stored.
pub fn duplicate_key() -> (r: Error)
    ensures
        r.kind == ErrorKind::Constraint,
{
    Error::new(ErrorKind::Constraint, "entry with such primary key already exists")
}

fn same_bytes(a: &Vec<u8>, b: &Vec<u8>) -> (r: bool)
    ensures
        r == (a@ == b@),
{
    if a.len() != b.len() {
        return false;
    }
    let mut i: usize = 0;
    while i < a.len()
        invariant
            a@.len() == b@.len(),
            i <= a@.len(),
            forall|j: int| 0 <= j < i ==> a@[j] == b@[j],
        decreases a@.len() - i,
    {
        if a[i] != b[i] {
            return false;
        }
        i = i + 1;
    }
    proof {
        assert(a@ =~= b@);
    }
    true
}

/// Decides whether an INSERT may commit, given for each write whether the
/// store already holds its key: it may when no key is stored and no two
/// writes share a key; otherwise it fails with a constraint error, and the
/// caller applies none of the writes.
pub fn check_keys(writes: &Vec<(Vec<u8>, Vec<u8>)>, stored: &Vec<bool>) -> (r: Result<(), Error>)
    requires
        writes@.len() == stored@.len(),
    ensures
        r is Ok <==> (forall|k: int| 0 <= k < stored@.len() ==> !#[trigger] stored@[k]) && (forall|i: int, j: int|
            0 <= i < j < writes@.len() ==> (#[trigger] writes@[i]).0@ != (#[trigger] writes@[j]).0@),
        r is Err ==> r->Err_0.kind == ErrorKind::Constraint,
{
    let mut k: usize = 0;
    while k < writes.len()
        invariant
            writes@.len() == stored@.len(),
            k <= writes@.len(),
            forall|m: int| 0 <= m < k ==> !#[trigger] stored@[m],
            forall|i: int, j: int| 0 <= i < j < k ==> (#[trigger] writes@[i]).0@ != (#[trigger] writes@[j]).0@,
        decreases writes@.len() - k,
    {
        if stored[k] {
            return Err(duplicate_key());
        }
        let mut i: usize = 0;
        while i < k
            invariant
                k < writes@.len(),
                i <= k,
                forall|m: int| 0 <= m < i ==> (#[trigger] writes@[m]).0@ != writes@[k as int].0@,
            decreases k - i,
        {
            if same_bytes(&writes[i].0, &writes[k].0) {
                return Err(duplicate_key());
            }
            i = i + 1;
        }
        k = k + 1;
    }
    Ok(())
}

/// The writes of an INSERT: runs the source, checks that its rows have the
/// table's arity and column types (after reordering by the column list),
/// and gives each row's key and stored form, in order. The caller writes
/// them in one transaction, failing with `duplicate_key` on a key already
/// stored.
pub fn insert(table: &mut Table, columns: &Vec<String>, source: &SqlQuery, input: Option<TableScan>) -> (r: Result<
    Vec<(Vec<u8>, Vec<u8>)>,
    Error,
>)
    ensures
        final(table).schema_spec() == old(table).schema_spec(),
        r matches Ok(writes) ==> (old(table).schema_spec().primary_key is None ==> final(table).counter()
            == old(table).counter() + writes@.len()),
        r matches Ok(writes) ==> (old(table).schema_spec().primary_key is None ==> forall|k: int|
            0 <= k < writes@.len() ==> (#[trigger] writes@[k]).0@ == crate::table::hidden_key(
                (old(table).counter() + k) as u64,
            )),
        r matches Ok(writes) ==> forall|k: int|
            0 <= k < writes@.len() ==> #[trigger] stored_write(old(table).schema_spec(), writes@[k]),
        (query_ok(*source, input) && forall|set: RowSet| #[trigger] result_of(*source, input, set) ==> insertable(
            old(table).schema_spec(),
            old(table).counter(),
            columns@,
            set,
        )) ==> r is Ok,
        r matches Ok(writes) ==> exists|src: Seq<Seq<Value>>, perm: Seq<usize>|
            {
                &&& answers(*source, input, src)
                &&& reorders(old(table).schema_spec().columns@, columns@, perm)
                &&& src.len() == writes@.len()
                &&& forall|k: int|
                    0 <= k < writes@.len() ==> (#[trigger] writes@[k]).1@ == row_bytes(
                        Seq::new(perm.len(), |j: int| src[k][perm[j] as int]),
                    )
            },
{
    let set = match query(source, input) {
        Ok(set) => set,
        Err(e) => return Err(e),
    };
    let ghost good = query_ok(*source, input) && forall|set: RowSet| #[trigger] result_of(*source, input, set) ==> insertable(
        old(table).schema_spec(),
        old(table).counter(),
        columns@,
        set,
    );
    proof {
        if good {
            assert(result_of(*source, input, set));
        }
    }
    let perm = match column_order(table.schema(), columns) {
        Ok(p) => p,
        Err(e) => {
            proof {
                if good {
                    let q = choose|q: Seq<usize>| reorders(table.schema_spec().columns@, columns@, q);
                    assert(!reorders(table.schema_spec().columns@, columns@, q));
                }
            }
            return Err(e);
        },
    };
    proof {
        if good {
            assert(reorders(old(table).schema_spec().columns@, columns@, perm@));
        }
    }
    if set.schema.columns.len() != perm.len() {
        return Err(Error::new(ErrorKind::Type, "number of columns does not match"));
    }
    let mut reordered: Vec<Column> = Vec::new();
    let mut j: usize = 0;
    while j < perm.len()
        invariant
            j <= perm@.len(),
            set.schema.columns@.len() == perm@.len(),
            forall|k: int| 0 <= k < perm@.len() ==> #[trigger] perm@[k] < perm@.len(),
            reordered@.len() == j,
            forall|k: int| 0 <= k < j ==> (#[trigger] reordered@[k]).type_ == set.schema.columns@[perm@[k] as int].type_,
        decreases perm@.len() - j,
    {
        reordered.push(set.schema.columns[perm[j]].copy());
        j = j + 1;
    }
    let ghost rview = reordered@;
    match table.schema().check_compatible(&Schema { primary_key: None, columns: reordered }) {
        Ok(()) => {},
        Err(e) => {
            proof {
                if good {
                    assert forall|k: int| 0 <= k < table.schema_spec().columns@.len() implies (#[trigger] table.schema_spec().columns@[k]).type_
                        == rview[k].type_ by {
                        assert(set.schema.columns@[perm@[k] as int].type_ == old(table).schema_spec().columns@[k].type_);
                    }
                }
            }
            return Err(e);
        },
    }
    let rows = set.rows;
    let ghost src = rows_view(rows@);
    let mut writes: Vec<(Vec<u8>, Vec<u8>)> = Vec::new();
    let mut i: usize = 0;
    while i < rows.len()
        invariant
            i <= rows@.len(),
            src == rows_view(rows@),
            writes@.len() == i,
            table.schema_spec() == old(table).schema_spec(),
            old(table).schema_spec().primary_key is None ==> table.counter() == old(table).counter() + i,
            old(table).schema_spec().primary_key is None ==> forall|k: int|
                0 <= k < writes@.len() ==> (#[trigger] writes@[k]).0@ == crate::table::hidden_key(
                    (old(table).counter() + k) as u64,
                ),
            forall|k: int| 0 <= k < writes@.len() ==> #[trigger] stored_write(old(table).schema_spec(), writes@[k]),
            forall|k: int|
                0 <= k < writes@.len() ==> (#[trigger] writes@[k]).1@ == row_bytes(
                    Seq::new(perm@.len(), |j: int| src[k][perm@[j] as int]),
                ),
            perm@.len() == old(table).schema_spec().columns@.len(),
            forall|k: int| 0 <= k < rows@.len() ==> (#[trigger] rows@[k])@.len() == perm@.len(),
            good == (query_ok(*source, input) && forall|st: RowSet| #[trigger] result_of(*source, input, st) ==> insertable(
                old(table).schema_spec(),
                old(table).counter(),
                columns@,
                st,
            )),
            good ==> insertable(old(table).schema_spec(), old(table).counter(), columns@, set),
            good ==> reorders(old(table).schema_spec().columns@, columns@, perm@),
            rows == set.rows,
            forall|k: int| 0 <= k < perm@.len() ==> #[trigger] perm@[k] < perm@.len(),
        decreases rows@.len() - i,
    {
        let row = permute_values(&rows[i], &perm);
        let key = match table.get_key(&row) {
            Ok(k) => k,
            Err(e) => {
                proof {
                    if good {
                        if let Some(pk) = old(table).schema_spec().primary_key {
                            assert(row@[pk as int] == set.rows@[i as int]@[perm@[pk as int] as int]);
                            assert(crate::table::declared_key(set.rows@[i as int]@[perm@[pk as int] as int]) is Some);
                        } else {
                            assert(old(table).counter() + set.rows@.len() <= u64::MAX);
                        }
                        assert(false);
                    }
                }
                return Err(e);
            },
        };
        let mut value: Vec<u8> = Vec::new();
        match row.serialize(&mut value) {
            Ok(()) => {},
            Err(e) => return Err(e),
        }
        proof {
            assert(value@ =~= row_bytes(row@));
            assert(stored_write(old(table).schema_spec(), (key, value)));
            assert(row@ =~= Seq::new(perm@.len(), |j: int| src[i as int][perm@[j] as int]));
        }
        writes.push((key, value));
        i = i + 1;
    }
    proof {
        assert(answers(*source, input, src));
        assert(reorders(old(table).schema_spec().columns@, columns@, perm@));
    }
    Ok(writes)
}

proof fn lemma_eval_rows_len(exprs: Seq<Expression>, rows: Seq<Seq<Value>>)
    requires
        eval_rows_spec(exprs, rows) is Ok,
    ensures
        eval_rows_spec(exprs, rows)->Ok_0.len() == rows.len(),
    decreases rows.len(),
{
    if rows.len() > 0 {
        lemma_eval_rows_len(exprs, rows.drop_last());
    }
}

proof fn lemma_identity_row(exprs: Seq<Expression>, row: Seq<Value>)
    requires
        exprs.len() <= row.len() <= usize::MAX,
        forall|j: int| 0 <= j < exprs.len() ==> #[trigger] exprs[j] == Expression::Field(j as usize),
    ensures
        eval_row_spec(exprs, row) == Ok::<Seq<Value>, ErrorKind>(row.take(exprs.len() as int)),
    decreases exprs.len(),
{
    if exprs.len() == 0 {
        assert(row.take(0) =~= Seq::<Value>::empty());
    } else {
        let m = exprs.len() as int;
        assert forall|j: int| 0 <= j < m - 1 implies #[trigger] exprs.drop_last()[j] == Expression::Field(j as usize) by {
            assert(exprs.drop_last()[j] == exprs[j]);
        }
        lemma_identity_row(exprs.drop_last(), row);
        assert(exprs.last() == Expression::Field((m - 1) as usize));
        assert(row.take(m - 1).push(row[m - 1]) =~= row.take(m));
    }
}

/// Evaluating each column in place gives back the rows.
proof fn lemma_identity_rows(exprs: Seq<Expression>, rows: Seq<Seq<Value>>)
    requires
        exprs.len() <= usize::MAX,
        forall|j: int| 0 <= j < exprs.len() ==> #[trigger] exprs[j] == Expression::Field(j as usize),
        forall|k: int| 0 <= k < rows.len() ==> (#[trigger] rows[k]).len() == exprs.len(),
    ensures
        eval_rows_spec(exprs, rows) == Ok::<Seq<Seq<Value>>, ErrorKind>(rows),
    decreases rows.len(),
{
    if rows.len() == 0 {
        assert(rows =~= Seq::<Seq<Value>>::empty());
    } else {
        lemma_identity_rows(exprs, rows.drop_last());
        let r = rows.last();
        assert(r.len() == exprs.len());
        lemma_identity_row(exprs, r);
        assert(r.take(exprs.len() as int) =~= r);
        assert(rows.drop_last().push(r) =~= rows);
    }
}

/// `SELECT * FROM t` returns exactly the stored rows of `t`, in the order of
/// their entries: each result row has the stored form of its entry. With the
/// round trip of row encoding, the result holds the values that were
/// inserted, one row per stored entry.
pub proof fn lemma_select_star(q: SqlQuery, input: Option<TableScan>, out: Seq<Seq<Value>>)
    requires
        q.body is Select,
        q.body->Select_0.projection@ == seq![SelectItem::Wildcard],
        q.body->Select_0.selection is None,
        q.body->Select_0.from is Some,
        q.order_by@.len() == 0,
        input is Some,
        input->Some_0.schema.columns@.len() <= usize::MAX,
        forall|k: int|
            0 <= k < input->Some_0.entries@.len() ==> (#[trigger] input->Some_0.entries@[k]).1@.len()
                < crate::table::pow256(8) && exists|vals: Seq<Value>|
                vals.len() == input->Some_0.schema.columns@.len() && row_bytes(vals)
                    == input->Some_0.entries@[k].1@,
        answers(q, input, out),
    ensures
        out.len() == input->Some_0.entries@.len(),
        forall|k: int| 0 <= k < out.len() ==> row_bytes(#[trigger] out[k]) == input->Some_0.entries@[k].1@,
{
    let sel = q.body->Select_0;
    let scan = input->Some_0;
    let cols = input_columns(sel, input);
    let m = cols.len();
    let (rows, pred, terms, exprs, names) = choose|
        rows: Seq<Seq<Value>>,
        pred: Option<Expression>,
        terms: Option<Seq<SortKey>>,
        exprs: Seq<Expression>,
        names: Seq<Seq<char>>,
    |
        {
            &&& reads(sel, input, rows)
            &&& plans(sel, q.order_by@, cols, pred, terms, exprs, names)
            &&& produces(pred, terms, exprs, rows, out)
        };
    let items = sel.projection@;
    assert(items.last() == SelectItem::Wildcard);
    assert(items.drop_last() =~= Seq::<SelectItem>::empty());
    assert(exprs.len() == m) by {
        let n = exprs.len();
        assert(expands(items.drop_last(), cols, exprs.take(n - m), names.take(n - m)));
    }
    assert forall|j: int| 0 <= j < exprs.len() implies #[trigger] exprs[j] == Expression::Field(j as usize) by {
        assert(exprs[exprs.len() - m + j] == Expression::Field(j as usize));
    }
    assert forall|k: int| 0 <= k < rows.len() implies (#[trigger] rows[k]).len() == exprs.len() by {
        let vals = choose|vals: Seq<Value>| vals.len() == m && row_bytes(vals) == scan.entries@[k].1@;
        crate::codec::lemma_row_round_trip(vals, rows[k]);
    }
    lemma_identity_rows(exprs, rows);
}

/// A query over a table with no stored entries returns no rows: after
/// `DROP TABLE t` and a new `CREATE TABLE t`, whose entries start empty,
/// nothing of the old table shows.
pub proof fn lemma_empty_table(q: SqlQuery, input: Option<TableScan>, out: Seq<Seq<Value>>)
    requires
        q.body is Select,
        q.body->Select_0.from is Some,
        input is Some,
        input->Some_0.entries@.len() == 0,
        answers(q, input, out),
    ensures
        out.len() == 0,
{
    let sel = q.body->Select_0;
    let cols = input_columns(sel, input);
    let (rows, pred, terms, exprs, names) = choose|
        rows: Seq<Seq<Value>>,
        pred: Option<Expression>,
        terms: Option<Seq<SortKey>>,
        exprs: Seq<Expression>,
        names: Seq<Seq<char>>,
    |
        {
            &&& reads(sel, input, rows)
            &&& plans(sel, q.order_by@, cols, pred, terms, exprs, names)
            &&& produces(pred, terms, exprs, rows, out)
        };
    assert(rows =~= Seq::<Seq<Value>>::empty());
    let kept = crate::ops::pipeline::filtered(pred, rows)->Ok_0;
    assert(kept =~= Seq::<Seq<Value>>::empty());
    if let Some(t) = terms {
        let (keys, order) = choose|keys: Seq<Seq<Value>>, order: Seq<usize>|
            {
                &&& keys.len() == kept.len()
                &&& forall|i: int|
                    0 <= i < kept.len() ==> crate::ops::sort::sort_key_spec(t, exprs, #[trigger] kept[i])
                        == Ok::<Seq<Value>, ErrorKind>(keys[i])
                &&& crate::ops::sort::all_comparable(keys)
                &&& crate::ops::sort::sorted_by(keys, order)
                &&& crate::ops::sort::in_bounds(keys, order)
                &&& order.to_multiset() == crate::ops::sort::span(0, kept.len()).to_multiset()
                &&& eval_rows_spec(exprs, crate::ops::sort::emit_view(kept, order)) == Ok::<
                    Seq<Seq<Value>>,
                    ErrorKind,
                >(out)
            };
        vstd::seq_lib::to_multiset_len(order);
        vstd::seq_lib::to_multiset_len(crate::ops::sort::span(0, 0));
        assert(crate::ops::sort::emit_view(kept, order) =~= Seq::<Seq<Value>>::empty());
    }
}

/// `SELECT * FROM t` runs without error when every stored entry of `t` is
/// the stored form of a row with `t`'s arity, as every INSERT writes it: with
/// the success clause of `query`, the query then returns the stored rows
/// (see `lemma_select_star`). This holds for a table with no entries too.
pub proof fn lemma_select_star_ok(q: SqlQuery, input: Option<TableScan>)
    requires
        q.body is Select,
        q.body->Select_0.projection@ == seq![SelectItem::Wildcard],
        q.body->Select_0.selection is None,
        q.body->Select_0.from is Some,
        q.order_by@.len() == 0,
        input is Some,
        input->Some_0.schema.columns@.len() <= usize::MAX,
        forall|k: int|
            0 <= k < input->Some_0.entries@.len() ==> (#[trigger] input->Some_0.entries@[k]).1@.len()
                < crate::table::pow256(8) && exists|vals: Seq<Value>|
                vals.len() == input->Some_0.schema.columns@.len() && row_bytes(vals)
                    == input->Some_0.entries@[k].1@,
    ensures
        query_ok(q, input),
{
    let sel = q.body->Select_0;
    let scan = input->Some_0;
    let cols = input_columns(sel, input);
    let m = cols.len();
    let items = sel.projection@;
    assert(items.last() == SelectItem::Wildcard);
    assert(items.drop_last() =~= Seq::<SelectItem>::empty());
    assert(select_list_ok(items, cols)) by {
        assert forall|i: int| 0 <= i < items.len() implies item_ok(#[trigger] items[i], cols) by {
            assert(items[i] == SelectItem::Wildcard);
        }
    }
    let rows0 = Seq::new(
        scan.entries@.len(),
        |k: int| choose|vals: Seq<Value>| vals.len() == m && row_bytes(vals) == scan.entries@[k].1@,
    );
    assert(reads(sel, input, rows0));
    assert forall|
        pred: Option<Expression>,
        terms: Option<Seq<SortKey>>,
        exprs: Seq<Expression>,
        names: Seq<Seq<char>>,
        rows: Seq<Seq<Value>>,
    |
        #![trigger plans(sel, q.order_by@, cols, pred, terms, exprs, names), reads(sel, input, rows)]
        plans(sel, q.order_by@, cols, pred, terms, exprs, names) && reads(sel, input, rows) implies runs_ok(
        pred,
        terms,
        exprs,
        rows,
    ) by {
        assert(exprs.len() == m) by {
            let n = exprs.len();
            assert(expands(items.drop_last(), cols, exprs.take(n - m), names.take(n - m)));
        }
        assert forall|j: int| 0 <= j < exprs.len() implies #[trigger] exprs[j] == Expression::Field(j as usize) by {
            assert(exprs[exprs.len() - m + j] == Expression::Field(j as usize));
        }
        assert(crate::ops::pipeline::filtered(pred, rows) == Ok::<Seq<Seq<Value>>, ErrorKind>(rows));
        assert forall|k: int| 0 <= k < rows.len() implies (eval_row_spec(exprs, #[trigger] rows[k]) is Ok) by {
            let vals = choose|vals: Seq<Value>| vals.len() == m && row_bytes(vals) == scan.entries@[k].1@;
            crate::codec::lemma_row_round_trip(vals, rows[k]);
            lemma_identity_row(exprs, rows[k]);
        }
    }
}

} // verus!
