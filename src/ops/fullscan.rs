use vstd::prelude::*;

use crate::codec::row_bytes;
use crate::error::{Error, ErrorKind};
use crate::ops::{batch_len, Output, BATCH_SIZE};
use crate::schema::Schema;
use crate::types::{Row, Value};

verus! {

/// The bytes are the stored form of some row.
pub open spec fn stored_form(bytes: Seq<u8>) -> bool {
    exists|vals: Seq<Value>| row_bytes(vals) == bytes
}

/// Streams the rows of a table, decoding each stored entry in the order the
/// entries are given: the store hands them over in ascending key order.
pub struct FullScan {
    schema: Schema,
    entries: Vec<(Vec<u8>, Vec<u8>)>,
    next: usize,
}

impl FullScan {
    /// The stored `(key, value)` entries, in scan order.
    pub closed spec fn entries(&self) -> Seq<(Vec<u8>, Vec<u8>)> {
        self.entries@
    }

    /// How many entries have been decoded and emitted.
    pub closed spec fn position(&self) -> nat {
        self.next as nat
    }

    pub closed spec fn schema_spec(&self) -> Schema {
        self.schema
    }

    pub closed spec fn wf(&self) -> bool {
        self.next <= self.entries@.len()
    }

    /// Every entry not yet emitted is the stored form of some row.
    pub open spec fn decodable(&self) -> bool {
        forall|k: int|
            self.position() <= k < self.entries().len() ==> stored_form(#[trigger] self.entries()[k].1@)
    }

    /// Entries not yet emitted.
    pub open spec fn pending(&self) -> nat {
        (self.entries().len() - self.position()) as nat
    }

    pub fn new(schema: Schema, entries: Vec<(Vec<u8>, Vec<u8>)>) -> (r: Result<FullScan, Error>)
        ensures
            r is Ok,
            r->Ok_0.wf(),
            r->Ok_0.entries() == entries@,
            r->Ok_0.position() == 0,
            r->Ok_0.schema_spec() == schema,
    {
        Ok(FullScan { schema, entries, next: 0 })
    }

    pub fn schema(&self) -> (r: &Schema)
        ensures
            *r == self.schema_spec(),
    {
        &self.schema
    }

    /// Decodes the next batch of up to `BATCH_SIZE` entries, in order:
    /// row `k` of the batch is the value of entry `position + k`.
    pub fn poll(&mut self) -> (r: Result<Output, Error>)
        requires
            old(self).wf(),
        ensures
            final(self).wf(),
            old(self).position() <= old(self).entries().len(),
            final(self).position() <= final(self).entries().len(),
            final(self).entries() == old(self).entries(),
            final(self).schema_spec() == old(self).schema_spec(),
            old(self).pending() == 0 ==> (r matches Ok(Output::Finished)),
            r matches Ok(Output::Batch(b)) ==> {
                &&& b@.len() == batch_len(old(self).pending())
                &&& b@.len() > 0
                &&& final(self).position() == old(self).position() + b@.len()
                &&& forall|k: int|
                    0 <= k < b@.len() ==> row_bytes(#[trigger] b@[k]@) == old(self).entries()[old(
                        self,
                    ).position() + k].1@
            },
            r is Err ==> r->Err_0.kind == ErrorKind::Storage,
            old(self).decodable() ==> r is Ok && final(self).decodable(),
            old(self).pending() > 0 ==> !(r matches Ok(Output::Finished)),
            r matches Ok(Output::Batch(_)) ==> final(self).pending() < old(self).pending(),
    {
        if self.next >= self.entries.len() {
            return Ok(Output::Finished);
        }
        let start = self.next;
        let mut batch: Vec<Row> = Vec::new();
        while self.next < self.entries.len() && batch.len() < BATCH_SIZE
            invariant
                start <= self.next <= self.entries@.len(),
                start == old(self).next,
                self.entries == old(self).entries,
                self.schema == old(self).schema,
                batch@.len() == self.next - start,
                batch@.len() <= BATCH_SIZE,
                forall|k: int| 0 <= k < batch@.len() ==> row_bytes(#[trigger] batch@[k]@) == self.entries@[start + k].1@,
                old(self).decodable() ==> self.decodable(),
            decreases self.entries@.len() - self.next,
        {
            proof {
                if old(self).decodable() {
                    assert(self.entries()[self.next as int] == self.entries@[self.next as int]);
                    assert(stored_form(self.entries()[self.next as int].1@));
                    assert(exists|vals: Seq<Value>| row_bytes(vals) == self.entries@[self.next as int].1@);
                }
            }
            let row = match Row::deserialize(&self.entries[self.next].1, &self.schema) {
                Ok(row) => row,
                Err(e) => return Err(e),
            };
            let ghost before = batch@;
            batch.push(row);
            proof {
                assert forall|k: int| 0 <= k < batch@.len() implies row_bytes(#[trigger] batch@[k]@)
                    == self.entries@[start + k].1@ by {
                    if k < before.len() {
                        assert(batch@[k] == before[k]);
                    }
                }
            }
            self.next = self.next + 1;
        }
        Ok(Output::Batch(batch))
    }
}

impl crate::ops::Operation for FullScan {
    open spec fn ready(&self) -> bool {
        self.wf()
    }

    fn schema(&self) -> &Schema {
        FullScan::schema(self)
    }

    fn poll(&mut self) -> (r: Result<Output, Error>) {
        let r = FullScan::poll(self);
        proof {
            if r is Ok && r->Ok_0 is Batch {
                assert(crate::ops::rows_view(r->Ok_0->Batch_0@).len() == r->Ok_0->Batch_0@.len());
            }
        }
        r
    }
}

} // verus!
