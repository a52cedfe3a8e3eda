//! Chunks of rows, and how rows are gathered into chunks.
//!
//! A row is a vector of datums. What a datum is stays open: nothing here looks into one.

use vstd::prelude::*;

verus! {

/// What a row of a chunk does to the table.
#[derive(Clone, Copy, Debug, PartialEq, Eq, Structural)]
pub enum Op {
    Insert,
    Delete,
    UpdateDelete,
    UpdateInsert,
}

/// The contents of rows.
pub open spec fn row_views<D>(rows: Seq<Vec<D>>) -> Seq<Seq<D>> {
    Seq::new(rows.len(), |i: int| rows[i]@)
}

/// Rows without operations.
#[derive(Debug)]
pub struct DataChunk<D> {
    pub rows: Vec<Vec<D>>,
}

impl<D> DataChunk<D> {
    /// Number of rows.
    pub fn capacity(&self) -> (r: usize)
        ensures
            r == self.rows@.len(),
    {
        self.rows.len()
    }
}

/// Rows, each with its operation.
#[derive(Debug)]
pub struct StreamChunk<D> {
    pub ops: Vec<Op>,
    pub rows: Vec<Vec<D>>,
}

impl<D> StreamChunk<D> {
    /// Every row has an operation.
    pub open spec fn well_formed(self) -> bool {
        self.ops@.len() == self.rows@.len()
    }

    /// The rows with their operations.
    pub open spec fn entries(self) -> Seq<(Op, Vec<D>)> {
        Seq::new(self.rows@.len(), |i: int| (self.ops@[i], self.rows@[i]))
    }

    /// Puts operations to rows.
    pub fn from_parts(ops: Vec<Op>, chunk: DataChunk<D>) -> (r: Self)
        requires
            ops@.len() == chunk.rows@.len(),
        ensures
            r.well_formed(),
            r.ops == ops,
            r.rows == chunk.rows,
    {
        StreamChunk { ops, rows: chunk.rows }
    }

    /// Number of rows.
    pub fn cardinality(&self) -> (r: usize)
        ensures
            r == self.rows@.len(),
    {
        self.rows.len()
    }
}

/// Gathers rows into chunks of `batch_size`.
#[derive(Debug)]
pub struct DataChunkBuilder<D> {
    pub batch_size: usize,
    /// The rows gathered so far.
    pub rows: Vec<Vec<D>>,
}

impl<D> DataChunkBuilder<D> {
    /// There is room for another row: a full batch never stays in the builder.
    pub open spec fn well_formed(self) -> bool {
        self.rows@.len() < self.batch_size
    }

    /// An empty builder.
    pub fn new(batch_size: usize) -> (r: Self)
        requires
            batch_size > 0,
        ensures
            r.well_formed(),
            r.batch_size == batch_size,
            r.rows@ == Seq::<Vec<D>>::empty(),
    {
        DataChunkBuilder { batch_size, rows: Vec::new() }
    }

    /// Number of rows that make a chunk.
    pub fn batch_size(&self) -> (r: usize)
        ensures
            r == self.batch_size,
    {
        self.batch_size
    }

    /// Whether `count` more rows fit the batch.
    pub fn can_append(&self, count: usize) -> (r: bool)
        requires
            self.well_formed(),
        ensures
            r == (self.rows@.len() + count <= self.batch_size),
    {
        count <= self.batch_size - self.rows.len()
    }

    /// Adds a row; the batch comes out if that fills it.
    pub fn append_one_row(&mut self, row: Vec<D>) -> (r: Option<DataChunk<D>>)
        requires
            old(self).well_formed(),
        ensures
            final(self).well_formed(),
            final(self).batch_size == old(self).batch_size,
            match r {
                Some(chunk) => {
                    &&& old(self).rows@.len() + 1 == old(self).batch_size
                    &&& chunk.rows@ == old(self).rows@.push(row)
                    &&& final(self).rows@ == Seq::<Vec<D>>::empty()
                },
                None => {
                    &&& old(self).rows@.len() + 1 < old(self).batch_size
                    &&& final(self).rows@ == old(self).rows@.push(row)
                },
            },
    {
        self.rows.push(row);
        if self.rows.len() == self.batch_size {
            self.consume_all()
        } else {
            None
        }
    }

    /// Takes out what was gathered, if anything was.
    pub fn consume_all(&mut self) -> (r: Option<DataChunk<D>>)
        requires
            old(self).batch_size > 0,
        ensures
            final(self).well_formed(),
            final(self).batch_size == old(self).batch_size,
            final(self).rows@ == Seq::<Vec<D>>::empty(),
            match r {
                Some(chunk) => {
                    &&& old(self).rows@.len() > 0
                    &&& chunk.rows@ == old(self).rows@
                },
                None => old(self).rows@.len() == 0,
            },
    {
        if self.rows.len() > 0 {
            let mut rows: Vec<Vec<D>> = Vec::new();
            core::mem::swap(&mut rows, &mut self.rows);
            Some(DataChunk { rows })
        } else {
            None
        }
    }
}

/// Each entry of a chunk is a row of it with the operation at the same place, and each row is in one.
pub proof fn lemma_entries<D>(chunk: StreamChunk<D>)
    ensures
        chunk.entries().len() == chunk.rows@.len(),
        forall|i: int|
            0 <= i < chunk.rows@.len() ==> (#[trigger] chunk.entries()[i]).0 == chunk.ops@[i]
                && chunk.entries()[i].1 == chunk.rows@[i],
        chunk.well_formed() <==> chunk.ops@.len() == chunk.rows@.len(),
{
}

/// The contents of rows are those of each row, in their order.
pub proof fn lemma_row_views<D>(rows: Seq<Vec<D>>)
    ensures
        row_views(rows) == rows.map_values(|row: Vec<D>| row@),
{
}

} // verus!
