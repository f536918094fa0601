use vstd::prelude::*;

use crate::error::Error;
use crate::ops::{rows_view, Output};
use crate::schema::Schema;
use crate::types::Row;

verus! {

/// A source that emits exactly one row with no columns, then finishes: the
/// input of a `SELECT` without `FROM`.
pub struct Empty {
    schema: Schema,
    finished: bool,
}

impl Empty {
    pub closed spec fn is_finished(&self) -> bool {
        self.finished
    }

    /// Rows not yet emitted.
    pub open spec fn pending(&self) -> nat {
        if self.is_finished() {
            0
        } else {
            1
        }
    }

    pub closed spec fn schema_spec(&self) -> Schema {
        self.schema
    }

    pub fn new() -> (r: Empty)
        ensures
            !r.is_finished(),
            r.schema_spec().columns@.len() == 0,
            r.schema_spec().primary_key is None,
    {
        Empty { schema: Schema::empty(), finished: false }
    }

    pub fn schema(&self) -> (r: &Schema)
        ensures
            *r == self.schema_spec(),
    {
        &self.schema
    }

    /// One batch holding one empty row, then `Finished`.
    pub fn poll(&mut self) -> (r: Result<Output, Error>)
        ensures
            final(self).is_finished(),
            final(self).pending() == 0,
            r matches Ok(Output::Batch(_)) ==> old(self).pending() == 1,
            final(self).schema_spec() == old(self).schema_spec(),
            old(self).is_finished() ==> r matches Ok(Output::Finished),
            !old(self).is_finished() ==> (r matches Ok(Output::Batch(b)) && rows_view(b@) == seq![
                Seq::<crate::types::Value>::empty(),
            ]),
    {
        if self.finished {
            Ok(Output::Finished)
        } else {
            self.finished = true;
            let mut batch: Vec<Row> = Vec::new();
            batch.push(Row::new(Vec::new()));
            proof {
                assert(rows_view(batch@) =~= seq![Seq::<crate::types::Value>::empty()]);
            }
            Ok(Output::Batch(batch))
        }
    }
}

impl crate::ops::Operation for Empty {
    open spec fn ready(&self) -> bool {
        true
    }

    fn schema(&self) -> &Schema {
        Empty::schema(self)
    }

    fn poll(&mut self) -> (r: Result<Output, Error>) {
        let r = Empty::poll(self);
        proof {
            if r is Ok && r->Ok_0 is Batch {
                assert(crate::ops::rows_view(r->Ok_0->Batch_0@).len() == r->Ok_0->Batch_0@.len());
            }
        }
        r
    }
}

} // verus!
