//! Reading the rows of a snapshot into chunks of insertions.

use crate::chunk::{row_views, DataChunk, DataChunkBuilder, Op, StreamChunk};
use crate::stream::mapping::{columns_in_row, mapping_chunk, projects, rows_fit};
use vstd::arithmetic::div_mod::{
    lemma_fundamental_div_mod, lemma_fundamental_div_mod_converse,
};
use vstd::prelude::*;

verus! {

/// As many insertions as there are rows.
pub open spec fn insertions(n: nat) -> Seq<Op> {
    Seq::new(n, |i: int| Op::Insert)
}

/// `chunk` inserts the named columns of each of `rows`, in their order, and nothing else.
pub open spec fn inserts<D: Clone>(
    chunk: StreamChunk<D>,
    rows: Seq<Seq<D>>,
    indices: Seq<usize>,
) -> bool {
    &&& chunk.ops@ == insertions(rows.len())
    &&& chunk.rows@.len() == rows.len()
    &&& forall|i: int|
        0 <= i < rows.len() ==> projects(rows[i], indices, (#[trigger] chunk.rows@[i])@)
}

/// The `k`th of the batches into which `rows` are cut: `batch_size` rows, fewer at the end.
pub open spec fn batch_of<D>(rows: Seq<Seq<D>>, batch_size: nat, k: nat) -> Seq<Seq<D>> {
    let end = (k + 1) * batch_size;
    rows.subrange(
        (k * batch_size) as int,
        if end <= rows.len() {
            end as int
        } else {
            rows.len() as int
        },
    )
}

/// Number of batches into which `n` rows are cut.
pub open spec fn batch_count(n: nat, batch_size: nat) -> nat {
    (n + batch_size - 1) as nat / batch_size
}

/// Turns the rows of a snapshot into chunks as they come.
#[derive(Debug)]
pub struct SnapshotReader<D> {
    pub builder: DataChunkBuilder<D>,
    /// The columns to keep.
    pub output_indices: Vec<usize>,
}

impl<D: Clone> SnapshotReader<D> {
    /// The builder is sound, and its rows have the columns to keep.
    pub open spec fn well_formed(self) -> bool {
        &&& self.builder.well_formed()
        &&& rows_fit(self.builder.rows@, self.output_indices@)
    }

    /// The rows that were read and are in no chunk yet.
    pub open spec fn pending(self) -> Seq<Seq<D>> {
        row_views(self.builder.rows@)
    }

    /// A reader that has read nothing.
    pub fn new(builder: DataChunkBuilder<D>, output_indices: Vec<usize>) -> (r: Self)
        requires
            builder.well_formed(),
            builder.rows@.len() == 0,
        ensures
            r.well_formed(),
            r.builder == builder,
            r.output_indices == output_indices,
            r.pending() == Seq::<Seq<D>>::empty(),
    {
        let r = SnapshotReader { builder, output_indices };
        assert(r.pending() =~= Seq::<Seq<D>>::empty());
        r
    }

    /// Makes `data_chunk` a chunk of insertions.
    fn complete(&self, data_chunk: DataChunk<D>) -> (r: StreamChunk<D>)
        requires
            rows_fit(data_chunk.rows@, self.output_indices@),
        ensures
            r.well_formed(),
            inserts(r, row_views(data_chunk.rows@), self.output_indices@),
    {
        let n: usize = data_chunk.capacity();
        let ops: Vec<Op> = vec![Op::Insert; n];
        assert(ops@ =~= insertions(n as nat)) by {
            assert forall|i: int| 0 <= i < n implies ops@[i] == Op::Insert by {
                assert(cloned(Op::Insert, ops@[i]));
            }
        }
        mapping_chunk(StreamChunk::from_parts(ops, data_chunk), self.output_indices.as_slice())
    }

    /// Reads one row. Gives the chunk that it completes, if it completes one.
    pub fn read(&mut self, row: Vec<D>) -> (r: Option<StreamChunk<D>>)
        requires
            old(self).well_formed(),
            columns_in_row(row@, old(self).output_indices@),
        ensures
            final(self).well_formed(),
            final(self).builder.batch_size == old(self).builder.batch_size,
            final(self).output_indices == old(self).output_indices,
            match r {
                Some(chunk) => {
                    &&& old(self).pending().len() + 1 == old(self).builder.batch_size
                    &&& chunk.well_formed()
                    &&& inserts(chunk, old(self).pending().push(row@), old(self).output_indices@)
                    &&& final(self).pending() == Seq::<Seq<D>>::empty()
                },
                None => {
                    &&& old(self).pending().len() + 1 < old(self).builder.batch_size
                    &&& final(self).pending() == old(self).pending().push(row@)
                },
            },
    {
        match self.builder.append_one_row(row) {
            Some(data_chunk) => {
                assert(row_views(data_chunk.rows@) =~= old(self).pending().push(row@));
                assert(self.pending() =~= Seq::<Seq<D>>::empty());
                Some(self.complete(data_chunk))
            },
            None => {
                assert(self.pending() =~= old(self).pending().push(row@));
                None
            },
        }
    }

    /// Ends the snapshot. Gives the chunk of what was pending, if anything was.
    pub fn finish(&mut self) -> (r: Option<StreamChunk<D>>)
        requires
            old(self).well_formed(),
        ensures
            final(self).well_formed(),
            final(self).builder.batch_size == old(self).builder.batch_size,
            final(self).output_indices == old(self).output_indices,
            final(self).pending() == Seq::<Seq<D>>::empty(),
            match r {
                Some(chunk) => {
                    &&& old(self).pending().len() > 0
                    &&& chunk.well_formed()
                    &&& inserts(chunk, old(self).pending(), old(self).output_indices@)
                },
                None => old(self).pending().len() == 0,
            },
    {
        let data = self.builder.consume_all();
        assert(self.pending() =~= Seq::<Seq<D>>::empty());
        match data {
            Some(data_chunk) => Some(self.complete(data_chunk)),
            None => None,
        }
    }
}

proof fn lemma_next_cut(k: nat, batch_size: nat)
    ensures
        (k + 1) * batch_size == k * batch_size + batch_size,
        0 <= k * batch_size,
{
    assert((k + 1) * batch_size == k * batch_size + batch_size) by (nonlinear_arith);
}

proof fn lemma_batch_count(n: nat, m: nat, rest: nat, batch_size: nat)
    requires
        n == m * batch_size + rest,
        rest < batch_size,
    ensures
        batch_count(n, batch_size) == if rest == 0 {
            m
        } else {
            m + 1
        },
{
    let b = batch_size as int;
    if rest == 0 {
        lemma_fundamental_div_mod_converse(
            n + b - 1,
            b,
            m as int,
            b - 1,
        );
    } else {
        lemma_next_cut(m, batch_size);
        lemma_fundamental_div_mod_converse(
            n + b - 1,
            b,
            m as int + 1,
            rest - 1,
        );
    }
}

/// Reads a whole snapshot into chunks of insertions: each holds the next `batch_size` rows, the last
/// one what is left.
pub fn make_snapshot_stream<D: Clone>(
    rows: Vec<Vec<D>>,
    builder: DataChunkBuilder<D>,
    output_indices: Vec<usize>,
) -> (r: Vec<StreamChunk<D>>)
    requires
        builder.well_formed(),
        builder.rows@.len() == 0,
        forall|i: int|
            0 <= i < rows@.len() ==> columns_in_row((#[trigger] rows@[i])@, output_indices@),
    ensures
        r@.len() == batch_count(rows@.len(), builder.batch_size as nat),
        forall|k: int|
            0 <= k < r@.len() ==> {
                &&& (#[trigger] r@[k]).well_formed()
                &&& inserts(
                    r@[k],
                    batch_of(row_views(rows@), builder.batch_size as nat, k as nat),
                    output_indices@,
                )
            },
{
    let ghost b = builder.batch_size as nat;
    let ghost all = rows@;
    let ghost views = row_views(all);
    let ghost indices = output_indices@;
    let mut reader = SnapshotReader::new(builder, output_indices);
    let mut out: Vec<StreamChunk<D>> = Vec::new();
    assert(views.subrange(0, 0) =~= Seq::<Seq<D>>::empty());
    assert(0 * b == 0);
    for row in it: rows
        invariant
            it.seq() == all,
            views == row_views(all),
            forall|i: int| 0 <= i < all.len() ==> columns_in_row((#[trigger] all[i])@, indices),
            reader.well_formed(),
            reader.builder.batch_size == b,
            reader.output_indices@ == indices,
            it.index() == out@.len() * b + reader.pending().len(),
            it.index() <= all.len(),
            reader.pending() == views.subrange((out@.len() * b) as int, it.index() as int),
            forall|k: int|
                0 <= k < out@.len() ==> {
                    &&& (#[trigger] out@[k]).well_formed()
                    &&& inserts(out@[k], batch_of(views, b, k as nat), indices)
                },
    {
        let ghost n = it.index() as int;
        let ghost m = out@.len();
        assert(row == all[n]);
        proof {
            lemma_next_cut(m, b);
            assert(views.subrange((m * b) as int, n).push(views[n]) =~= views.subrange(
                (m * b) as int,
                n + 1,
            ));
        }
        if let Some(chunk) = reader.read(row) {
            out.push(chunk);
            assert(views.subrange(n + 1, n + 1) =~= Seq::<Seq<D>>::empty());
        }
    }
    let ghost m = out@.len();
    proof {
        lemma_next_cut(m, b);
        lemma_batch_count(all.len(), m, reader.pending().len(), b);
    }
    if let Some(chunk) = reader.finish() {
        out.push(chunk);
    }
    out
}

/// The batches of a snapshot.
pub open spec fn snapshot_batches<D>(rows: Seq<Seq<D>>, batch_size: nat) -> Seq<Seq<Seq<D>>> {
    Seq::new(batch_count(rows.len(), batch_size), |k: int| batch_of(rows, batch_size, k as nat))
}

proof fn lemma_first_batches<D>(rows: Seq<Seq<D>>, batch_size: nat, m: nat)
    requires
        batch_size > 0,
        m * batch_size <= rows.len(),
    ensures
        Seq::new(m, |k: int| batch_of(rows, batch_size, k as nat)).flatten() == rows.take(
            (m * batch_size) as int,
        ),
    decreases m,
{
    let firsts = Seq::new(m, |k: int| batch_of(rows, batch_size, k as nat));
    if m == 0 {
        assert(firsts.flatten() =~= rows.take(0));
    } else {
        let w = (m - 1) as nat;
        lemma_next_cut(w, batch_size);
        lemma_first_batches(rows, batch_size, w);
        let fewer = Seq::new(w, |k: int| batch_of(rows, batch_size, k as nat));
        fewer.lemma_flatten_push(batch_of(rows, batch_size, w));
        assert(fewer.push(batch_of(rows, batch_size, w)) =~= firsts);
        assert(rows.take((w * batch_size) as int) + batch_of(rows, batch_size, w) =~= rows.take(
            (m * batch_size) as int,
        ));
    }
}

/// Cutting a snapshot into batches loses nothing, repeats nothing and keeps the order; no batch is
/// empty and none is over the batch size.
pub proof fn lemma_snapshot_batches<D>(rows: Seq<Seq<D>>, batch_size: nat)
    requires
        batch_size > 0,
    ensures
        snapshot_batches(rows, batch_size).flatten() == rows,
        forall|k: int|
            0 <= k < snapshot_batches(rows, batch_size).len() ==> 1 <= (
            #[trigger] snapshot_batches(rows, batch_size)[k]).len() <= batch_size,
{
    let n = rows.len();
    let m = n / batch_size;
    let rest = n % batch_size;
    lemma_fundamental_div_mod(n as int, batch_size as int);
    assert(batch_size * m == m * batch_size) by (nonlinear_arith);
    lemma_batch_count(n, m, rest, batch_size);
    lemma_first_batches(rows, batch_size, m);
    let firsts = Seq::new(m, |k: int| batch_of(rows, batch_size, k as nat));
    let s = snapshot_batches(rows, batch_size);
    lemma_next_cut(m, batch_size);
    if rest == 0 {
        assert(s =~= firsts);
        assert(rows.take((m * batch_size) as int) =~= rows);
    } else {
        firsts.lemma_flatten_push(batch_of(rows, batch_size, m));
        assert(s =~= firsts.push(batch_of(rows, batch_size, m)));
        assert(rows.take((m * batch_size) as int) + batch_of(rows, batch_size, m) =~= rows);
    }
    assert forall|k: int| 0 <= k < s.len() implies 1 <= (#[trigger] s[k]).len() <= batch_size by {
        lemma_next_cut(k as nat, batch_size);
        if k < m {
            assert((k + 1) * batch_size <= m * batch_size) by (nonlinear_arith)
                requires
                    k + 1 <= m,
            ;
        }
    }
}

/// Every chunk of a snapshot but the last is full.
pub proof fn lemma_full_snapshot_batches<D>(rows: Seq<Seq<D>>, batch_size: nat)
    requires
        batch_size > 0,
    ensures
        forall|k: int|
            0 <= k < snapshot_batches(rows, batch_size).len() - 1 ==> (
            #[trigger] snapshot_batches(rows, batch_size)[k]).len() == batch_size,
{
    let n = rows.len();
    let m = n / batch_size;
    let rest = n % batch_size;
    lemma_fundamental_div_mod(n as int, batch_size as int);
    assert(batch_size * m == m * batch_size) by (nonlinear_arith);
    lemma_batch_count(n, m, rest, batch_size);
    let s = snapshot_batches(rows, batch_size);
    assert forall|k: int| 0 <= k < s.len() - 1 implies (#[trigger] s[k]).len() == batch_size by {
        lemma_next_cut(k as nat, batch_size);
        assert((k + 1) * batch_size <= m * batch_size) by (nonlinear_arith)
            requires
                k + 1 <= m,
        ;
    }
}

/// A chunk of insertions has one insertion for each row, in their order, with the named columns of the
/// row.
pub proof fn lemma_inserts<D: Clone>(
    chunk: StreamChunk<D>,
    rows: Seq<Seq<D>>,
    indices: Seq<usize>,
    i: int,
    j: int,
)
    requires
        inserts(chunk, rows, indices),
        0 <= i < rows.len(),
        0 <= j < indices.len(),
    ensures
        chunk.ops@.len() == rows.len(),
        chunk.rows@.len() == rows.len(),
        chunk.ops@[i] == Op::Insert,
        chunk.rows@[i]@.len() == indices.len(),
        cloned(rows[i][indices[j] as int], chunk.rows@[i]@[j]),
{
    assert(projects(rows[i], indices, chunk.rows@[i]@));
}

} // verus!
