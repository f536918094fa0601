use vstd::prelude::*;

use crate::ast::SqlExpr;
use crate::error::{Error, ErrorKind};
use crate::expression::{eval_spec, parse_fail, parses, Expression};
use crate::ops::rows_view;
use crate::schema::Schema;
use crate::types::{truthy, Row, Value};

verus! {

/// The predicate holds of the row: it evaluates without error to a truthy value.
pub open spec fn holds(pred: Expression, row: Seq<Value>) -> bool {
    eval_spec(pred, row) matches Ok(v) && truthy(v)
}

/// The rows whose predicate is truthy, in order; the first evaluation error
/// otherwise.
pub open spec fn filter_spec(pred: Expression, rows: Seq<Seq<Value>>) -> Result<
    Seq<Seq<Value>>,
    ErrorKind,
>
    decreases rows.len(),
{
    if rows.len() == 0 {
        Ok(Seq::empty())
    } else {
        match filter_spec(pred, rows.drop_last()) {
            Ok(out) => match eval_spec(pred, rows.last()) {
                Ok(v) => Ok(
                    if truthy(v) {
                        out.push(rows.last())
                    } else {
                        out
                    },
                ),
                Err(k) => Err(k),
            },
            Err(k) => Err(k),
        }
    }
}

/// Filtering never invents or reorders rows: what it keeps is the
/// subsequence of the input whose predicate holds, and it drops only rows
/// whose predicate is falsy.
pub proof fn lemma_filter_subsequence(pred: Expression, rows: Seq<Seq<Value>>)
    requires
        filter_spec(pred, rows) is Ok,
    ensures
        filter_spec(pred, rows)->Ok_0 == rows.filter(|r: Seq<Value>| holds(pred, r)),
        forall|i: int| 0 <= i < rows.len() ==> (eval_spec(pred, #[trigger] rows[i]) is Ok),
    decreases rows.len(),
{
    if rows.len() > 0 {
        lemma_filter_subsequence(pred, rows.drop_last());
        assert(rows.filter(|r: Seq<Value>| holds(pred, r)) == rows.drop_last().filter(
            |r: Seq<Value>| holds(pred, r),
        ) + (if holds(pred, rows.last()) {
            seq![rows.last()]
        } else {
            Seq::empty()
        })) by {
            reveal(Seq::filter);
        }
        assert forall|i: int| 0 <= i < rows.len() implies (eval_spec(pred, #[trigger] rows[i]) is Ok) by {
            if i < rows.len() - 1 {
                assert(rows[i] == rows.drop_last()[i]);
            }
        }
        if holds(pred, rows.last()) {
            assert(filter_spec(pred, rows)->Ok_0 =~= rows.filter(|r: Seq<Value>| holds(pred, r)));
        } else {
            assert(filter_spec(pred, rows)->Ok_0 =~= rows.filter(|r: Seq<Value>| holds(pred, r)));
        }
    } else {
        assert(rows.filter(|r: Seq<Value>| holds(pred, r)) =~= Seq::empty()) by {
            reveal(Seq::filter);
        }
    }
}

/// Filtering two batches one after the other is filtering them together.
pub proof fn lemma_filter_concat(pred: Expression, a: Seq<Seq<Value>>, b: Seq<Seq<Value>>)
    requires
        filter_spec(pred, a) is Ok,
    ensures
        filter_spec(pred, a + b) == match filter_spec(pred, b) {
            Ok(y) => Ok::<Seq<Seq<Value>>, ErrorKind>(filter_spec(pred, a)->Ok_0 + y),
            Err(k) => Err(k),
        },
    decreases b.len(),
{
    if b.len() == 0 {
        assert(a + b =~= a);
        assert(filter_spec(pred, a)->Ok_0 + Seq::<Seq<Value>>::empty() =~= filter_spec(pred, a)->Ok_0);
    } else {
        lemma_filter_concat(pred, a, b.drop_last());
        assert((a + b).drop_last() =~= a + b.drop_last());
        assert((a + b).last() == b.last());
        if filter_spec(pred, b) is Ok {
            let x = filter_spec(pred, a)->Ok_0;
            let y0 = filter_spec(pred, b.drop_last())->Ok_0;
            assert((x + y0).push(b.last()) =~= x + y0.push(b.last()));
        }
    }
}

pub(crate) proof fn lemma_filter_err_prefix(
    pred: Expression,
    rows: Seq<Seq<Value>>,
    j: int,
    k: ErrorKind,
)
    requires
        0 <= j <= rows.len(),
        filter_spec(pred, rows.take(j)) == Err::<Seq<Seq<Value>>, ErrorKind>(k),
    ensures
        filter_spec(pred, rows) == Err::<Seq<Seq<Value>>, ErrorKind>(k),
    decreases rows.len() - j,
{
    if j == rows.len() {
        assert(rows.take(j) =~= rows);
    } else {
        assert(rows.take(j + 1).drop_last() =~= rows.take(j));
        lemma_filter_err_prefix(pred, rows, j + 1, k);
    }
}

/// Keeps the rows on which a predicate is truthy.
pub struct Filter {
    filter: Expression,
}

impl Filter {
    pub closed spec fn predicate(&self) -> Expression {
        self.filter
    }

    /// Resolves the predicate against the schema of the rows to filter.
    pub fn new(selection: &SqlExpr, schema: &Schema) -> (r: Result<Filter, Error>)
        ensures
            match r {
                Ok(f) => parse_fail(*selection, schema.columns@) is None && parses(
                    *selection,
                    schema.columns@,
                    f.predicate(),
                ),
                Err(e) => parse_fail(*selection, schema.columns@) == Some(e.kind),
            },
    {
        match Expression::parse(selection, schema) {
            Ok(filter) => Ok(Filter { filter }),
            Err(e) => Err(e),
        }
    }

    /// The rows of the batch on which the predicate is truthy, in order.
    pub fn apply(&self, batch: &Vec<Row>) -> (r: Result<Vec<Row>, Error>)
        ensures
            match r {
                Ok(out) => filter_spec(self.predicate(), rows_view(batch@)) == Ok::<
                    Seq<Seq<Value>>,
                    ErrorKind,
                >(rows_view(out@)),
                Err(e) => filter_spec(self.predicate(), rows_view(batch@)) == Err::<
                    Seq<Seq<Value>>,
                    ErrorKind,
                >(e.kind),
            },
    {
        let mut out: Vec<Row> = Vec::new();
        let mut i: usize = 0;
        proof {
            assert(rows_view(batch@).take(0) =~= Seq::<Seq<Value>>::empty());
            assert(rows_view(out@) =~= Seq::<Seq<Value>>::empty());
        }
        while i < batch.len()
            invariant
                i <= batch@.len(),
                filter_spec(self.filter, rows_view(batch@).take(i as int)) == Ok::<
                    Seq<Seq<Value>>,
                    ErrorKind,
                >(rows_view(out@)),
            decreases batch@.len() - i,
        {
            proof {
                assert(rows_view(batch@).take(i + 1).drop_last() =~= rows_view(batch@).take(i as int));
                assert(rows_view(batch@).take(i + 1).last() == batch@[i as int]@);
            }
            let v = match self.filter.eval(&batch[i]) {
                Ok(v) => v,
                Err(e) => {
                    proof {
                        lemma_filter_err_prefix(self.filter, rows_view(batch@), i + 1, e.kind);
                    }
                    return Err(e);
                },
            };
            if v.to_bool() == Some(true) {
                let ghost before = out@;
                out.push(batch[i].copy());
                proof {
                    assert(rows_view(out@) =~= rows_view(before).push(batch@[i as int]@));
                }
            }
            i = i + 1;
        }
        proof {
            assert(rows_view(batch@).take(i as int) =~= rows_view(batch@));
        }
        Ok(out)
    }
}

} // verus!
