use vstd::prelude::*;

use crate::error::Error;
use crate::ops::{batch_len, rows_view, Output, BATCH_SIZE};
use crate::schema::Schema;
use crate::types::{Row, Value};

verus! {

/// A source that streams a fixed list of rows in batches.
pub struct Values {
    schema: Schema,
    values: Vec<Row>,
    next: usize,
}

impl Values {
    /// The rows not yet emitted.
    pub closed spec fn remaining(&self) -> Seq<Seq<Value>> {
        rows_view(self.values@).skip(self.next as int)
    }

    /// Rows not yet emitted.
    pub open spec fn pending(&self) -> nat {
        self.remaining().len()
    }

    pub closed spec fn schema_spec(&self) -> Schema {
        self.schema
    }

    pub closed spec fn wf(&self) -> bool {
        self.next <= self.values@.len()
    }

    pub fn new(values: Vec<Row>, schema: Schema) -> (r: Result<Values, Error>)
        ensures
            r is Ok,
            r->Ok_0.wf(),
            r->Ok_0.remaining() == rows_view(values@),
            r->Ok_0.schema_spec() == schema,
    {
        let v = Values { schema, values, next: 0 };
        proof {
            assert(v.remaining() =~= rows_view(values@));
        }
        Ok(v)
    }

    pub fn schema(&self) -> (r: &Schema)
        ensures
            *r == self.schema_spec(),
    {
        &self.schema
    }

    /// The next batch of up to `BATCH_SIZE` pending rows, in order; `Finished`
    /// when none are left.
    pub fn poll(&mut self) -> (r: Result<Output, Error>)
        requires
            old(self).wf(),
        ensures
            final(self).wf(),
            final(self).schema_spec() == old(self).schema_spec(),
            old(self).remaining().len() == 0 ==> (r matches Ok(Output::Finished)
                && final(self).remaining() == old(self).remaining()),
            old(self).remaining().len() > 0 ==> (r matches Ok(Output::Batch(b)) && rows_view(b@)
                == old(self).remaining().take(batch_len(old(self).remaining().len()) as int)
                && final(self).remaining() == old(self).remaining().skip(
                batch_len(old(self).remaining().len()) as int,
            )),
    {
        let ghost rem = self.remaining();
        if self.next >= self.values.len() {
            return Ok(Output::Finished);
        }
        let start = self.next;
        let mut batch: Vec<Row> = Vec::new();
        while self.next < self.values.len() && batch.len() < BATCH_SIZE
            invariant
                start <= self.next <= self.values@.len(),
                self.schema == old(self).schema,
                batch@.len() == self.next - start,
                batch@.len() <= BATCH_SIZE,
                rem == rows_view(self.values@).skip(start as int),
                rows_view(batch@) == rows_view(self.values@).subrange(start as int, self.next as int),
            decreases self.values@.len() - self.next,
        {
            let row = self.values[self.next].copy();
            batch.push(row);
            proof {
                assert(rows_view(batch@) =~= rows_view(self.values@).subrange(start as int, self.next + 1));
            }
            self.next = self.next + 1;
        }
        proof {
            let n = batch_len(rem.len()) as int;
            assert(n == self.next - start);
            assert(rows_view(batch@) =~= rem.take(n));
            assert(self.remaining() =~= rem.skip(n));
        }
        Ok(Output::Batch(batch))
    }
}

impl crate::ops::Operation for Values {
    open spec fn ready(&self) -> bool {
        self.wf()
    }

    fn schema(&self) -> &Schema {
        Values::schema(self)
    }

    fn poll(&mut self) -> (r: Result<Output, Error>) {
        let r = Values::poll(self);
        proof {
            if r is Ok && r->Ok_0 is Batch {
                assert(crate::ops::rows_view(r->Ok_0->Batch_0@).len() == r->Ok_0->Batch_0@.len());
            }
        }
        r
    }
}

} // verus!
