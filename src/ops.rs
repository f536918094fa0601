use vstd::prelude::*;

use crate::error::Error;
use crate::schema::Schema;
use crate::types::{Row, Value};

pub mod empty;
pub mod eval;
pub mod filter;
pub mod fullscan;
pub mod pipeline;
pub mod sort;
pub mod values;

verus! {

/// The largest number of rows in one batch.
pub const BATCH_SIZE: usize = 1024;

/// One step of a pull-based operator: a batch of rows, or the end of the stream.
#[derive(Debug)]
pub enum Output {
    Batch(Vec<Row>),
    Finished,
}

/// The values of each row.
pub open spec fn rows_view(rows: Seq<Row>) -> Seq<Seq<Value>> {
    rows.map_values(|r: Row| r@)
}

/// The size of the next batch out of `n` pending rows.
pub open spec fn batch_len(n: nat) -> nat {
    if n < BATCH_SIZE {
        n
    } else {
        BATCH_SIZE as nat
    }
}

/// The operator protocol: the schema of the rows an operator emits, and a
/// pull of its next step, which is a batch of one to `BATCH_SIZE` rows or
/// the end of the stream.
pub trait Operation {
    /// The operator can be polled.
    spec fn ready(&self) -> bool;

    fn schema(&self) -> &Schema;

    fn poll(&mut self) -> (r: Result<Output, Error>)
        requires
            old(self).ready(),
        ensures
            final(self).ready(),
            r matches Ok(Output::Batch(b)) ==> 1 <= b@.len() <= BATCH_SIZE,
    ;
}

} // verus!
