//! The in-memory storage backend: plain vectors of rows and fields, with
//! transactions that buffer writes until commit.

use vstd::prelude::*;

use super::{ROTransaction, RWTransaction, Storage};
use crate::op::{field_views, row_views, Field, FieldV, Row, RowV};

verus! {

#[derive(Debug, PartialEq)]
pub struct MemoryStorage {
    pub rows: Vec<Row>,
    pub fields: Vec<Field>,
}

/// In-memory storage never fails; no operation ever constructs this error.
#[derive(Debug, PartialEq)]
pub enum Error {
    Never,
}

impl Default for MemoryStorage {
    /// An empty storage.
    fn default() -> (r: Self)
        ensures
            r.rows@.len() == 0,
            r.fields@.len() == 0,
    {
        MemoryStorage { rows: Vec::new(), fields: Vec::new() }
    }
}

/// A write transaction buffering rows and fields until commit.
#[derive(Debug, PartialEq)]
pub struct RWMemoryTransaction {
    pub rows: Vec<Row>,
    pub fields: Vec<Field>,
}

impl RWTransaction for RWMemoryTransaction {
    type Error = Error;

    open spec fn spec_infallible() -> bool {
        true
    }

    open spec fn rows(&self) -> Seq<RowV> {
        row_views(self.rows@)
    }

    open spec fn fields(&self) -> Seq<FieldV> {
        field_views(self.fields@)
    }

    fn store_row(&mut self, row: Row) -> (r: Result<(), Error>)
        ensures
            r is Ok,
            final(self).rows() == old(self).rows().push(row@),
            final(self).fields() == old(self).fields(),
    {
        let ghost pre = self.rows@;
        self.rows.push(row);
        proof {
            assert(row_views(self.rows@) =~= row_views(pre).push(self.rows@.last()@));
        }
        Ok(())
    }

    fn store_field(&mut self, field: Field) -> (r: Result<(), Error>)
        ensures
            r is Ok,
            final(self).fields() == old(self).fields().push(field@),
            final(self).rows() == old(self).rows(),
    {
        let ghost pre = self.fields@;
        self.fields.push(field);
        proof {
            assert(field_views(self.fields@) =~= field_views(pre).push(self.fields@.last()@));
        }
        Ok(())
    }
}

/// A read transaction over a snapshot of the storage contents.
#[derive(Debug, PartialEq)]
pub struct ROMemoryTransaction {
    pub rows: Vec<Row>,
    pub fields: Vec<Field>,
}

impl ROTransaction for ROMemoryTransaction {
    type Error = Error;

    open spec fn spec_infallible() -> bool {
        true
    }

    open spec fn rows(&self) -> Seq<RowV> {
        row_views(self.rows@)
    }

    open spec fn fields(&self) -> Seq<FieldV> {
        field_views(self.fields@)
    }

    fn list_rows(&self, schema: &String) -> (r: Result<Vec<Row>, Error>)
        ensures
            r is Ok,
            crate::op::row_views(r->Ok_0@) == self.rows().filter(
                |row: RowV| row.schema == schema@,
            ),
    {
        let n = self.rows.len();
        let mut out: Vec<Row> = Vec::new();
        let mut i: usize = 0;
        proof {
            reveal(Seq::filter);
            assert(row_views(self.rows@.take(0)).filter(|row: RowV| row.schema == schema@)
                =~= row_views(out@));
        }
        while i < n
            invariant
                n == self.rows@.len(),
                i <= n,
                row_views(out@) == row_views(self.rows@.take(i as int)).filter(
                    |row: RowV| row.schema == schema@,
                ),
            decreases n - i,
        {
            let ghost pre = out@;
            if self.rows[i].schema.eq(schema) {
                out.push(self.rows[i].duplicate());
            }
            proof {
                reveal(Seq::filter);
                let prefix = row_views(self.rows@.take(i as int));
                let next = row_views(self.rows@.take(i as int + 1));
                assert(next.drop_last() =~= prefix);
                assert(next.last() == self.rows@[i as int]@);
                if self.rows@[i as int]@.schema == schema@ {
                    assert(row_views(out@) =~= row_views(pre).push(self.rows@[i as int]@));
                } else {
                    assert(row_views(out@) =~= row_views(pre));
                }
            }
            i += 1;
        }
        proof {
            assert(self.rows@.take(n as int) =~= self.rows@);
        }
        Ok(out)
    }

    fn list_fields(&self, id: u128) -> (r: Result<Vec<Field>, Error>)
        ensures
            r is Ok,
            crate::op::field_views(r->Ok_0@) == self.fields().filter(|f: FieldV| f.row_id == id),
    {
        let n = self.fields.len();
        let mut out: Vec<Field> = Vec::new();
        let mut i: usize = 0;
        proof {
            reveal(Seq::filter);
            assert(field_views(self.fields@.take(0)).filter(|f: FieldV| f.row_id == id)
                =~= field_views(out@));
        }
        while i < n
            invariant
                n == self.fields@.len(),
                i <= n,
                field_views(out@) == field_views(self.fields@.take(i as int)).filter(
                    |f: FieldV| f.row_id == id,
                ),
            decreases n - i,
        {
            let ghost pre = out@;
            if self.fields[i].row_id == id {
                out.push(self.fields[i].duplicate());
            }
            proof {
                reveal(Seq::filter);
                let prefix = field_views(self.fields@.take(i as int));
                let next = field_views(self.fields@.take(i as int + 1));
                assert(next.drop_last() =~= prefix);
                assert(next.last() == self.fields@[i as int]@);
                if self.fields@[i as int]@.row_id == id {
                    assert(field_views(out@) =~= field_views(pre).push(self.fields@[i as int]@));
                } else {
                    assert(field_views(out@) =~= field_views(pre));
                }
            }
            i += 1;
        }
        proof {
            assert(self.fields@.take(n as int) =~= self.fields@);
        }
        Ok(out)
    }
}

impl Storage for MemoryStorage {
    type Error = Error;

    type RWTx = RWMemoryTransaction;

    type ROTx = ROMemoryTransaction;

    open spec fn spec_infallible() -> bool {
        true
    }

    open spec fn rows(&self) -> Seq<RowV> {
        row_views(self.rows@)
    }

    open spec fn fields(&self) -> Seq<FieldV> {
        field_views(self.fields@)
    }

    fn rw_transaction(&mut self) -> (r: Result<RWMemoryTransaction, Error>)
        ensures
            r is Ok,
            *final(self) == *old(self),
            r->Ok_0.rows() == Seq::<RowV>::empty(),
            r->Ok_0.fields() == Seq::<FieldV>::empty(),
    {
        let tx = RWMemoryTransaction { rows: Vec::new(), fields: Vec::new() };
        proof {
            assert(tx.rows() =~= Seq::<RowV>::empty());
            assert(tx.fields() =~= Seq::<FieldV>::empty());
        }
        Ok(tx)
    }

    fn ro_transaction(&self) -> (r: Result<ROMemoryTransaction, Error>)
        ensures
            r is Ok,
            r->Ok_0.rows() == self.rows(),
            r->Ok_0.fields() == self.fields(),
    {
        let tx = ROMemoryTransaction {
            rows: duplicate_rows(&self.rows),
            fields: duplicate_fields(&self.fields),
        };
        proof {
            assert(tx.rows() =~= self.rows());
            assert(tx.fields() =~= self.fields());
        }
        Ok(tx)
    }

    fn commit(&mut self, tx: RWMemoryTransaction) -> (r: Result<(), Error>)
        ensures
            r is Ok,
            final(self).rows() == old(self).rows() + tx.rows(),
            final(self).fields() == old(self).fields() + tx.fields(),
    {
        let ghost pre_rows = self.rows@;
        let ghost pre_fields = self.fields@;
        let mut tx = tx;
        let ghost tx_rows = tx.rows@;
        let ghost tx_fields = tx.fields@;
        self.rows.append(&mut tx.rows);
        self.fields.append(&mut tx.fields);
        proof {
            assert(self.rows@ == pre_rows + tx_rows);
            assert(self.fields@ == pre_fields + tx_fields);
            assert(row_views(self.rows@) =~= row_views(pre_rows) + row_views(tx_rows));
            assert(field_views(self.fields@) =~= field_views(pre_fields) + field_views(tx_fields));
        }
        Ok(())
    }

    fn abort(&mut self, tx: RWMemoryTransaction) -> (r: Result<(), Error>) {
        let _ = tx;
        Ok(())
    }
}

/// Copy a row list, preserving its abstract shapes.
fn duplicate_rows(rows: &Vec<Row>) -> (r: Vec<Row>)
    ensures
        row_views(r@) == row_views(rows@),
{
    let n = rows.len();
    let mut out: Vec<Row> = Vec::new();
    let mut i: usize = 0;
    while i < n
        invariant
            n == rows@.len(),
            i <= n,
            out@.len() == i,
            forall|j: int| 0 <= j < i ==> out@[j]@ == rows@[j]@,
        decreases n - i,
    {
        out.push(rows[i].duplicate());
        i += 1;
    }
    proof {
        assert(row_views(out@) =~= row_views(rows@));
    }
    out
}

/// Copy a field list, preserving its abstract shapes.
fn duplicate_fields(fields: &Vec<Field>) -> (r: Vec<Field>)
    ensures
        field_views(r@) == field_views(fields@),
{
    let n = fields.len();
    let mut out: Vec<Field> = Vec::new();
    let mut i: usize = 0;
    while i < n
        invariant
            n == fields@.len(),
            i <= n,
            out@.len() == i,
            forall|j: int| 0 <= j < i ==> out@[j]@ == fields@[j]@,
        decreases n - i,
    {
        out.push(fields[i].duplicate());
        i += 1;
    }
    proof {
        assert(field_views(out@) =~= field_views(fields@));
    }
    out
}

} // verus!
