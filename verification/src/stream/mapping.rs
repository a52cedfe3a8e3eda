//! Keeping the columns that go downstream.

use crate::chunk::StreamChunk;
use crate::stream::barrier::{Message, Watermark};
use vstd::prelude::*;

verus! {

/// Every index is a column of `row`.
pub open spec fn columns_in_row<D>(row: Seq<D>, indices: Seq<usize>) -> bool {
    forall|j: int| 0 <= j < indices.len() ==> (#[trigger] indices[j]) < row.len()
}

/// Every index is a column of each of `rows`.
pub open spec fn rows_fit<D>(rows: Seq<Vec<D>>, indices: Seq<usize>) -> bool {
    forall|i: int| 0 <= i < rows.len() ==> columns_in_row((#[trigger] rows[i])@, indices)
}

/// `r` holds clones of the columns of `row` that `indices` name, in their order.
pub open spec fn projects<D: Clone>(row: Seq<D>, indices: Seq<usize>, r: Seq<D>) -> bool {
    &&& r.len() == indices.len()
    &&& forall|j: int| 0 <= j < r.len() ==> cloned(row[indices[j] as int], #[trigger] r[j])
}

/// `r` is `chunk` with the columns of each row that `indices` name, in their order.
pub open spec fn maps_chunk<D: Clone>(
    chunk: StreamChunk<D>,
    indices: Seq<usize>,
    r: StreamChunk<D>,
) -> bool {
    &&& r.ops == chunk.ops
    &&& r.rows@.len() == chunk.rows@.len()
    &&& forall|i: int|
        0 <= i < r.rows@.len() ==> projects(chunk.rows@[i]@, indices, (#[trigger] r.rows@[i])@)
}

/// The first place at which `indices` name the column is `p`.
pub open spec fn first_place(indices: Seq<usize>, col_idx: usize, p: usize) -> bool {
    &&& p < indices.len()
    &&& indices[p as int] == col_idx
    &&& forall|j: int| 0 <= j < p ==> #[trigger] indices[j] != col_idx
}

/// `r` is what becomes of `watermark` where only the columns that `indices` name go downstream: it
/// speaks of the first place that its column gets there, and falls away if the column gets none.
pub open spec fn maps_watermark<D>(
    watermark: Watermark<D>,
    indices: Seq<usize>,
    r: Option<Watermark<D>>,
) -> bool {
    match r {
        Some(w) => first_place(indices, watermark.col_idx, w.col_idx) && w.val == watermark.val,
        None => !indices.contains(watermark.col_idx),
    }
}

/// `r` is what becomes of `message` where only the columns that `indices` name go downstream.
pub open spec fn maps_message<D: Clone>(
    message: Message<D>,
    indices: Seq<usize>,
    r: Option<Message<D>>,
) -> bool {
    match message {
        Message::Chunk(chunk) => r matches Some(Message::Chunk(mapped)) && maps_chunk(
            chunk,
            indices,
            mapped,
        ),
        Message::Barrier(_) => r == Some(message),
        Message::Watermark(watermark) => match r {
            Some(Message::Watermark(mapped)) => maps_watermark(watermark, indices, Some(mapped)),
            Some(_) => false,
            None => maps_watermark(watermark, indices, None),
        },
    }
}

/// The rows of `message`, if it is a chunk, have the columns that `indices` name.
pub open spec fn message_fits<D>(message: Message<D>, indices: Seq<usize>) -> bool {
    message matches Message::Chunk(chunk) ==> rows_fit(chunk.rows@, indices)
}

/// Whether every index is a column of `row`.
pub fn has_columns<D>(row: &Vec<D>, indices: &[usize]) -> (r: bool)
    ensures
        r == columns_in_row(row@, indices@),
{
    let mut j: usize = 0;
    while j < indices.len()
        invariant
            j <= indices@.len(),
            columns_in_row(row@, indices@.take(j as int)),
        decreases indices@.len() - j,
    {
        if indices[j] >= row.len() {
            assert(!(indices@[j as int] < row@.len()));
            return false;
        }
        assert forall|k: int| 0 <= k < j + 1 implies (#[trigger] indices@.take(j + 1)[k])
            < row@.len() by {
            if k < j {
                assert(indices@.take(j as int)[k] < row@.len());
            }
        }
        j = j + 1;
    }
    assert(indices@.take(j as int) =~= indices@);
    true
}

/// Whether every index is a column of each row of `message`, if it is a chunk.
pub fn can_map<D>(message: &Message<D>, indices: &[usize]) -> (r: bool)
    ensures
        r == message_fits(*message, indices@),
{
    if let Message::Chunk(chunk) = message {
        let mut i: usize = 0;
        while i < chunk.rows.len()
            invariant
                *message == Message::Chunk(*chunk),
                i <= chunk.rows@.len(),
                forall|k: int|
                    0 <= k < i ==> columns_in_row((#[trigger] chunk.rows@[k])@, indices@),
            decreases chunk.rows@.len() - i,
        {
            if !has_columns(&chunk.rows[i], indices) {
                assert(!columns_in_row(chunk.rows@[i as int]@, indices@));
                return false;
            }
            i = i + 1;
        }
    }
    true
}

fn project_row<D: Clone>(row: &Vec<D>, indices: &[usize]) -> (r: Vec<D>)
    requires
        columns_in_row(row@, indices@),
    ensures
        projects(row@, indices@, r@),
{
    let mut out: Vec<D> = Vec::new();
    let mut j: usize = 0;
    while j < indices.len()
        invariant
            j <= indices@.len(),
            columns_in_row(row@, indices@),
            projects(row@, indices@.take(j as int), out@),
        decreases indices@.len() - j,
    {
        assert(indices@[j as int] < row@.len());
        let ghost before = out@;
        let datum: D = row[indices[j]].clone();
        out.push(datum);
        j = j + 1;
        assert forall|k: int| 0 <= k < out@.len() implies cloned(
            row@[indices@.take(j as int)[k] as int],
            #[trigger] out@[k],
        ) by {
            if k < before.len() {
                assert(cloned(row@[indices@.take(j - 1)[k] as int], before[k]));
            }
        }
    }
    assert(indices@.take(j as int) =~= indices@);
    out
}

/// Keeps the columns of a chunk that `output_indices` name, in their order.
pub fn mapping_chunk<D: Clone>(chunk: StreamChunk<D>, output_indices: &[usize]) -> (r: StreamChunk<D>)
    requires
        rows_fit(chunk.rows@, output_indices@),
    ensures
        maps_chunk(chunk, output_indices@, r),
{
    let mut rows: Vec<Vec<D>> = Vec::new();
    let mut i: usize = 0;
    while i < chunk.rows.len()
        invariant
            i <= chunk.rows@.len(),
            rows_fit(chunk.rows@, output_indices@),
            rows@.len() == i,
            forall|k: int|
                0 <= k < i ==> projects(
                    chunk.rows@[k]@,
                    output_indices@,
                    (#[trigger] rows@[k])@,
                ),
        decreases chunk.rows@.len() - i,
    {
        rows.push(project_row(&chunk.rows[i], output_indices));
        i = i + 1;
    }
    StreamChunk { ops: chunk.ops, rows }
}

/// What becomes of a watermark where only the columns that `output_indices` name go downstream.
pub fn mapping_watermark<D>(watermark: Watermark<D>, output_indices: &[usize]) -> (r: Option<
    Watermark<D>,
>)
    ensures
        maps_watermark(watermark, output_indices@, r),
{
    let mut p: usize = 0;
    while p < output_indices.len()
        invariant
            p <= output_indices@.len(),
            forall|j: int| 0 <= j < p ==> #[trigger] output_indices@[j] != watermark.col_idx,
        decreases output_indices@.len() - p,
    {
        if output_indices[p] == watermark.col_idx {
            return Some(Watermark { col_idx: p, val: watermark.val });
        }
        p = p + 1;
    }
    None
}

/// What becomes of a message where only the columns that `output_indices` name go downstream: a chunk
/// keeps those columns, a barrier stays as it is, and a watermark follows its column or falls away
/// with it.
pub fn map_message<D: Clone>(message: Message<D>, output_indices: &[usize]) -> (r: Option<
    Message<D>,
>)
    requires
        message_fits(message, output_indices@),
    ensures
        maps_message(message, output_indices@, r),
{
    match message {
        Message::Chunk(chunk) => Some(Message::Chunk(mapping_chunk(chunk, output_indices))),
        Message::Barrier(barrier) => Some(Message::Barrier(barrier)),
        Message::Watermark(watermark) => match mapping_watermark(watermark, output_indices) {
            Some(mapped) => Some(Message::Watermark(mapped)),
            None => None,
        },
    }
}

/// A row has the columns that indices name exactly if each named column is one of its own.
pub proof fn lemma_columns_in_row<D>(row: Seq<D>, indices: Seq<usize>)
    ensures
        columns_in_row(row, indices) <==> forall|column: usize| #[trigger]
            indices.contains(column) ==> column < row.len(),
{
    if forall|column: usize| #[trigger] indices.contains(column) ==> column < row.len() {
        assert forall|j: int| 0 <= j < indices.len() implies (#[trigger] indices[j])
            < row.len() by {
            assert(indices.contains(indices[j]));
        }
    }
}

/// A message fits unless it is a chunk with a row that lacks a named column.
pub proof fn lemma_message_fits<D>(message: Message<D>, indices: Seq<usize>)
    ensures
        message_fits(message, indices) <==> match message {
            Message::Chunk(chunk) => forall|i: int|
                0 <= i < chunk.rows@.len() ==> columns_in_row((#[trigger] chunk.rows@[i])@, indices),
            _ => true,
        },
{
}

/// Projecting a row to some columns and then some more is projecting it to each in turn; to a single
/// column, it is that column.
pub proof fn lemma_projects<D: Clone>(row: Seq<D>, a: Seq<usize>, b: Seq<usize>, r: Seq<D>)
    ensures
        projects(row, a + b, r) <==> {
            &&& r.len() == a.len() + b.len()
            &&& projects(row, a, r.take(a.len() as int))
            &&& projects(row, b, r.skip(a.len() as int))
        },
        forall|column: usize, s: Seq<D>|
            #![trigger projects(row, seq![column], s)]
            projects(row, seq![column], s) <==> s.len() == 1 && cloned(row[column as int], s[0]),
{
    let n = a.len() as int;
    let indices = a + b;
    if projects(row, indices, r) {
        assert forall|j: int| 0 <= j < n implies cloned(
            row[a[j] as int],
            #[trigger] r.take(n)[j],
        ) by {
            assert(cloned(row[indices[j] as int], r[j]));
        }
        assert forall|j: int| 0 <= j < b.len() implies cloned(
            row[b[j] as int],
            #[trigger] r.skip(n)[j],
        ) by {
            assert(cloned(row[indices[n + j] as int], r[n + j]));
        }
    }
    if r.len() == a.len() + b.len() && projects(row, a, r.take(n)) && projects(row, b, r.skip(n)) {
        assert forall|j: int| 0 <= j < r.len() implies cloned(
            row[indices[j] as int],
            #[trigger] r[j],
        ) by {
            if j < n {
                assert(cloned(row[a[j] as int], r.take(n)[j]));
            } else {
                assert(cloned(row[b[j - n] as int], r.skip(n)[j - n]));
            }
        }
    }
    assert forall|column: usize, s: Seq<D>|
        #![trigger projects(row, seq![column], s)]
        projects(row, seq![column], s) <==> s.len() == 1 && cloned(row[column as int], s[0]) by {
        if projects(row, seq![column], s) {
            assert(cloned(row[seq![column][0] as int], s[0]));
        }
    }
}

/// A mapped chunk has the operations of the chunk, and in each row, at each place, the column that is
/// named there.
pub proof fn lemma_maps_chunk<D: Clone>(
    chunk: StreamChunk<D>,
    indices: Seq<usize>,
    r: StreamChunk<D>,
    i: int,
    j: int,
)
    requires
        maps_chunk(chunk, indices, r),
        0 <= i < chunk.rows@.len(),
        0 <= j < indices.len(),
    ensures
        r.ops@ == chunk.ops@,
        r.rows@.len() == chunk.rows@.len(),
        r.rows@[i]@.len() == indices.len(),
        cloned(chunk.rows@[i]@[indices[j] as int], r.rows@[i]@[j]),
{
    assert(projects(chunk.rows@[i]@, indices, r.rows@[i]@));
}

/// A mapped watermark is the watermark at the first place of its column, and there is none exactly if
/// the column has no place.
pub proof fn lemma_maps_watermark<D>(
    watermark: Watermark<D>,
    indices: Seq<usize>,
    r: Option<Watermark<D>>,
)
    requires
        indices.len() <= usize::MAX,
    ensures
        maps_watermark(watermark, indices, r) <==> r == match indices.index_of_first(
            watermark.col_idx,
        ) {
            Some(place) => Some(Watermark { col_idx: place as usize, val: watermark.val }),
            None => None,
        },
{
    indices.index_of_first_ensures(watermark.col_idx);
    if let Some(w) = r {
        if maps_watermark(watermark, indices, r) {
            let p = w.col_idx as int;
            assert(indices[p] == watermark.col_idx);
            let place = indices.index_of_first(watermark.col_idx)->0;
            if place < p {
                assert(indices[place] != watermark.col_idx);
            }
        }
    }
}

/// Mapping keeps what a message is: a chunk becomes the mapped chunk, a barrier stays as it is, and a
/// watermark becomes the mapped watermark or nothing.
pub proof fn lemma_maps_message<D: Clone>(
    message: Message<D>,
    indices: Seq<usize>,
    r: Option<Message<D>>,
)
    requires
        maps_message(message, indices, r),
    ensures
        message matches Message::Barrier(barrier) ==> r == Some(Message::<D>::Barrier(barrier)),
        message matches Message::Chunk(chunk) ==> r is Some && r->0 is Chunk && maps_chunk(
            chunk,
            indices,
            r->0->Chunk_0,
        ),
        message matches Message::Watermark(watermark) ==> {
            &&& r is None <==> !indices.contains(watermark.col_idx)
            &&& r is Some ==> r->0 is Watermark && maps_watermark(
                watermark,
                indices,
                Some(r->0->Watermark_0),
            )
        },
{
    if let Message::Watermark(watermark) = message {
        if let Some(Message::Watermark(w)) = r {
            assert(indices[w.col_idx as int] == watermark.col_idx);
        }
    }
}

} // verus!
