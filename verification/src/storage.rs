//! The storage adapter contract: a read-write transaction buffers row and
//! field writes and makes them visible atomically on commit; a read-only
//! transaction sees a consistent snapshot and lists rows by schema and
//! fields by row.

pub mod memory;

use vstd::prelude::*;

use crate::op::{Field, FieldV, Row, RowV};

verus! {

/// A buffered write transaction.  Its writes become visible only when the
/// storage commits it.
pub trait RWTransaction: Sized {
    type Error;

    /// Whether this kind of transaction never refuses an operation.
    spec fn spec_infallible() -> bool;

    /// The rows buffered so far.
    spec fn rows(&self) -> Seq<RowV>;

    /// The fields buffered so far.
    spec fn fields(&self) -> Seq<FieldV>;

    /// Buffer one row write.
    fn store_row(&mut self, row: Row) -> (r: Result<(), Self::Error>)
        ensures
            (r is Ok ==> final(self).rows() == old(self).rows().push(row@) && final(self).fields()
                == old(self).fields()),
            (Self::spec_infallible() ==> r is Ok),
    ;

    /// Buffer one field write.
    fn store_field(&mut self, field: Field) -> (r: Result<(), Self::Error>)
        ensures
            (r is Ok ==> final(self).fields() == old(self).fields().push(field@)
                && final(self).rows() == old(self).rows()),
            (Self::spec_infallible() ==> r is Ok),
    ;
}

/// A read-only snapshot of the storage at the time it was opened.
pub trait ROTransaction: Sized {
    type Error;

    /// Whether this kind of transaction never refuses an operation.
    spec fn spec_infallible() -> bool;

    /// The rows of the snapshot.
    spec fn rows(&self) -> Seq<RowV>;

    /// The fields of the snapshot.
    spec fn fields(&self) -> Seq<FieldV>;

    /// The rows recorded for `schema`, in storage order.
    fn list_rows(&self, schema: &String) -> (r: Result<Vec<Row>, Self::Error>)
        ensures
            (r matches Ok(v) ==> crate::op::row_views(v@) == self.rows().filter(
                |row: RowV| row.schema == schema@,
            )),
            (Self::spec_infallible() ==> r is Ok),
    ;

    /// The fields recorded for the row `id`, in storage order.
    fn list_fields(&self, id: u128) -> (r: Result<Vec<Field>, Self::Error>)
        ensures
            (r matches Ok(v) ==> crate::op::field_views(v@) == self.fields().filter(
                |f: FieldV| f.row_id == id,
            )),
            (Self::spec_infallible() ==> r is Ok),
    ;
}

/// A storage backend holding rows and fields, written through transactions.
pub trait Storage: Sized {
    type Error;

    type RWTx: RWTransaction<Error = Self::Error>;

    type ROTx: ROTransaction<Error = Self::Error>;

    /// Whether this backend never refuses an operation.
    spec fn spec_infallible() -> bool;

    /// The rows the storage holds.
    spec fn rows(&self) -> Seq<RowV>;

    /// The fields the storage holds.
    spec fn fields(&self) -> Seq<FieldV>;

    /// Open a write transaction with empty buffers.
    fn rw_transaction(&mut self) -> (r: Result<Self::RWTx, Self::Error>)
        ensures
            final(self).rows() == old(self).rows(),
            final(self).fields() == old(self).fields(),
            (r matches Ok(tx) ==> tx.rows() == Seq::<RowV>::empty() && tx.fields() == Seq::<
                FieldV,
            >::empty()),
            (Self::spec_infallible() ==> r is Ok),
    ;

    /// Open a read transaction over the current contents.
    fn ro_transaction(&self) -> (r: Result<Self::ROTx, Self::Error>)
        ensures
            (r matches Ok(tx) ==> tx.rows() == self.rows() && tx.fields() == self.fields()),
            (Self::spec_infallible() ==> r is Ok),
    ;

    /// Make a transaction's buffered writes visible, all at once.
    fn commit(&mut self, tx: Self::RWTx) -> (r: Result<(), Self::Error>)
        ensures
            (r is Ok ==> final(self).rows() == old(self).rows() + tx.rows() && final(self).fields()
                == old(self).fields() + tx.fields()),
            (r is Err ==> final(self).rows() == old(self).rows() && final(self).fields()
                == old(self).fields()),
            (Self::spec_infallible() ==> r is Ok),
    ;

    /// Drop a transaction's buffered writes, leaving the storage untouched.
    fn abort(&mut self, tx: Self::RWTx) -> (r: Result<(), Self::Error>)
        ensures
            final(self).rows() == old(self).rows(),
            final(self).fields() == old(self).fields(),
            (Self::spec_infallible() ==> r is Ok),
    ;
}

} // verus!
