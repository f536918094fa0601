use vstd::prelude::*;

use crate::error::{Error, ErrorKind};
use crate::expression::{eval_spec, Expression};
use crate::ops::rows_view;
use crate::schema::Schema;
use crate::types::{Row, Value};

verus! {

/// The values of the expressions on one row, in order; the first error otherwise.
pub open spec fn eval_row_spec(exprs: Seq<Expression>, row: Seq<Value>) -> Result<
    Seq<Value>,
    ErrorKind,
>
    decreases exprs.len(),
{
    if exprs.len() == 0 {
        Ok(Seq::empty())
    } else {
        match eval_row_spec(exprs.drop_last(), row) {
            Ok(vals) => match eval_spec(exprs.last(), row) {
                Ok(v) => Ok(vals.push(v)),
                Err(k) => Err(k),
            },
            Err(k) => Err(k),
        }
    }
}

/// Each row mapped through the expressions, in order; the first error otherwise.
pub open spec fn eval_rows_spec(exprs: Seq<Expression>, rows: Seq<Seq<Value>>) -> Result<
    Seq<Seq<Value>>,
    ErrorKind,
>
    decreases rows.len(),
{
    if rows.len() == 0 {
        Ok(Seq::empty())
    } else {
        match eval_rows_spec(exprs, rows.drop_last()) {
            Ok(out) => match eval_row_spec(exprs, rows.last()) {
                Ok(vals) => Ok(out.push(vals)),
                Err(k) => Err(k),
            },
            Err(k) => Err(k),
        }
    }
}

/// A row evaluated through a list of expressions has one value per expression.
pub proof fn lemma_eval_arity(exprs: Seq<Expression>, row: Seq<Value>)
    requires
        eval_row_spec(exprs, row) is Ok,
    ensures
        eval_row_spec(exprs, row)->Ok_0.len() == exprs.len(),
        forall|i: int|
            0 <= i < exprs.len() ==> eval_spec(#[trigger] exprs[i], row) == Ok::<Value, ErrorKind>(
                eval_row_spec(exprs, row)->Ok_0[i],
            ),
    decreases exprs.len(),
{
    if exprs.len() > 0 {
        lemma_eval_arity(exprs.drop_last(), row);
        assert forall|i: int| 0 <= i < exprs.len() implies eval_spec(#[trigger] exprs[i], row)
            == Ok::<Value, ErrorKind>(eval_row_spec(exprs, row)->Ok_0[i]) by {
            if i < exprs.len() - 1 {
                assert(exprs[i] == exprs.drop_last()[i]);
            }
        }
    }
}

/// Evaluating two batches one after the other is evaluating them together.
pub proof fn lemma_eval_rows_concat(exprs: Seq<Expression>, a: Seq<Seq<Value>>, b: Seq<Seq<Value>>)
    requires
        eval_rows_spec(exprs, a) is Ok,
    ensures
        eval_rows_spec(exprs, a + b) == match eval_rows_spec(exprs, b) {
            Ok(y) => Ok::<Seq<Seq<Value>>, ErrorKind>(eval_rows_spec(exprs, a)->Ok_0 + y),
            Err(k) => Err(k),
        },
    decreases b.len(),
{
    if b.len() == 0 {
        assert(a + b =~= a);
        assert(eval_rows_spec(exprs, a)->Ok_0 + Seq::<Seq<Value>>::empty() =~= eval_rows_spec(exprs, a)->Ok_0);
    } else {
        lemma_eval_rows_concat(exprs, a, b.drop_last());
        assert((a + b).drop_last() =~= a + b.drop_last());
        assert((a + b).last() == b.last());
        if eval_rows_spec(exprs, b) is Ok {
            let x = eval_rows_spec(exprs, a)->Ok_0;
            let y0 = eval_rows_spec(exprs, b.drop_last())->Ok_0;
            let v = eval_row_spec(exprs, b.last())->Ok_0;
            assert((x + y0).push(v) =~= x + y0.push(v));
        }
    }
}

proof fn lemma_row_err_prefix(exprs: Seq<Expression>, row: Seq<Value>, j: int, k: ErrorKind)
    requires
        0 <= j <= exprs.len(),
        eval_row_spec(exprs.take(j), row) == Err::<Seq<Value>, ErrorKind>(k),
    ensures
        eval_row_spec(exprs, row) == Err::<Seq<Value>, ErrorKind>(k),
    decreases exprs.len() - j,
{
    if j == exprs.len() {
        assert(exprs.take(j) =~= exprs);
    } else {
        assert(exprs.take(j + 1).drop_last() =~= exprs.take(j));
        lemma_row_err_prefix(exprs, row, j + 1, k);
    }
}

proof fn lemma_rows_err_prefix(
    exprs: Seq<Expression>,
    rows: Seq<Seq<Value>>,
    j: int,
    k: ErrorKind,
)
    requires
        0 <= j <= rows.len(),
        eval_rows_spec(exprs, rows.take(j)) == Err::<Seq<Seq<Value>>, ErrorKind>(k),
    ensures
        eval_rows_spec(exprs, rows) == Err::<Seq<Seq<Value>>, ErrorKind>(k),
    decreases rows.len() - j,
{
    if j == rows.len() {
        assert(rows.take(j) =~= rows);
    } else {
        assert(rows.take(j + 1).drop_last() =~= rows.take(j));
        lemma_rows_err_prefix(exprs, rows, j + 1, k);
    }
}

/// Evaluates the output expressions of a projection on each row.
pub struct Eval {
    schema: Schema,
    expressions: Vec<Expression>,
}

impl Eval {
    pub closed spec fn schema_spec(&self) -> Schema {
        self.schema
    }

    pub closed spec fn exprs(&self) -> Seq<Expression> {
        self.expressions@
    }

    /// The output schema is fixed here, once.
    pub fn new(expressions: Vec<Expression>, schema: Schema) -> (r: Result<Eval, Error>)
        ensures
            r is Ok,
            r->Ok_0.exprs() == expressions@,
            r->Ok_0.schema_spec() == schema,
    {
        Ok(Eval { schema, expressions })
    }

    pub fn schema(&self) -> (r: &Schema)
        ensures
            *r == self.schema_spec(),
    {
        &self.schema
    }

    pub fn expressions(&self) -> (r: &Vec<Expression>)
        ensures
            r@ == self.exprs(),
    {
        &self.expressions
    }

    /// The values of every expression on one row.
    pub fn eval_on(&self, row: &Row) -> (r: Result<Row, Error>)
        ensures
            match r {
                Ok(out) => eval_row_spec(self.exprs(), row@) == Ok::<Seq<Value>, ErrorKind>(out@),
                Err(e) => eval_row_spec(self.exprs(), row@) == Err::<Seq<Value>, ErrorKind>(e.kind),
            },
    {
        eval_all(&self.expressions, row)
    }

    /// Maps every row of the batch through the expressions.
    pub fn apply(&self, batch: &Vec<Row>) -> (r: Result<Vec<Row>, Error>)
        ensures
            match r {
                Ok(out) => eval_rows_spec(self.exprs(), rows_view(batch@)) == Ok::<
                    Seq<Seq<Value>>,
                    ErrorKind,
                >(rows_view(out@)),
                Err(e) => eval_rows_spec(self.exprs(), rows_view(batch@)) == Err::<
                    Seq<Seq<Value>>,
                    ErrorKind,
                >(e.kind),
            },
    {
        let mut out: Vec<Row> = Vec::new();
        let mut i: usize = 0;
        proof {
            assert(rows_view(batch@).take(0) =~= Seq::<Seq<Value>>::empty());
            assert(rows_view(out@) =~= Seq::<Seq<Value>>::empty());
        }
        while i < batch.len()
            invariant
                i <= batch@.len(),
                eval_rows_spec(self.expressions@, rows_view(batch@).take(i as int)) == Ok::<
                    Seq<Seq<Value>>,
                    ErrorKind,
                >(rows_view(out@)),
            decreases batch@.len() - i,
        {
            proof {
                assert(rows_view(batch@).take(i + 1).drop_last() =~= rows_view(batch@).take(i as int));
                assert(rows_view(batch@).take(i + 1).last() == batch@[i as int]@);
            }
            let row = match eval_all(&self.expressions, &batch[i]) {
                Ok(row) => row,
                Err(e) => {
                    proof {
                        lemma_rows_err_prefix(self.expressions@, rows_view(batch@), i + 1, e.kind);
                    }
                    return Err(e);
                },
            };
            let ghost before = out@;
            out.push(row);
            proof {
                assert(rows_view(out@) =~= rows_view(before).push(row@));
            }
            i = i + 1;
        }
        proof {
            assert(rows_view(batch@).take(i as int) =~= rows_view(batch@));
        }
        Ok(out)
    }
}

/// The values of a list of expressions on one row.
pub fn eval_all(exprs: &Vec<Expression>, row: &Row) -> (r: Result<Row, Error>)
    ensures
        match r {
            Ok(out) => eval_row_spec(exprs@, row@) == Ok::<Seq<Value>, ErrorKind>(out@),
            Err(e) => eval_row_spec(exprs@, row@) == Err::<Seq<Value>, ErrorKind>(e.kind),
        },
{
    let mut vals: Vec<Value> = Vec::new();
    let mut i: usize = 0;
    proof {
        assert(exprs@.take(0) =~= Seq::<Expression>::empty());
    }
    while i < exprs.len()
        invariant
            i <= exprs@.len(),
            eval_row_spec(exprs@.take(i as int), row@) == Ok::<Seq<Value>, ErrorKind>(vals@),
        decreases exprs@.len() - i,
    {
        proof {
            assert(exprs@.take(i + 1).drop_last() =~= exprs@.take(i as int));
            assert(exprs@.take(i + 1).last() == exprs@[i as int]);
        }
        let v = match exprs[i].eval(row) {
            Ok(v) => v,
            Err(e) => {
                proof {
                    lemma_row_err_prefix(exprs@, row@, i + 1, e.kind);
                }
                return Err(e);
            },
        };
        vals.push(v);
        i = i + 1;
    }
    proof {
        assert(exprs@.take(i as int) =~= exprs@);
    }
    Ok(Row::new(vals))
}

} // verus!
