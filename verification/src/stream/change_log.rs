//! Reading a change log into chunks.

use crate::chunk::{DataChunk, DataChunkBuilder, Op, StreamChunk};
use crate::stream::mapping::{columns_in_row, mapping_chunk, projects, rows_fit};
use vstd::prelude::*;
use vstd::seq_lib::lemma_flatten_concat;

verus! {

/// One change of a table.
#[derive(Debug)]
pub enum ChangeLogRow<D> {
    Insert(Vec<D>),
    Update { old_value: Vec<D>, new_value: Vec<D> },
    Delete(Vec<D>),
}

/// The rows, with their operations, that stand for a change in a chunk.
pub open spec fn change_entries<D>(row: ChangeLogRow<D>) -> Seq<(Op, Vec<D>)> {
    match row {
        ChangeLogRow::Insert(row) => seq![(Op::Insert, row)],
        ChangeLogRow::Update { old_value, new_value } => seq![
            (Op::UpdateDelete, old_value),
            (Op::UpdateInsert, new_value),
        ],
        ChangeLogRow::Delete(row) => seq![(Op::Delete, row)],
    }
}

/// Adds `group` to what is `pending`, in batches of `batch_size`. Gives the batches that come out
/// and what is pending then.
///
/// A group that does not fit pushes out what is pending, so no group is split. A full batch comes
/// out at once.
pub open spec fn add_group<E>(pending: Seq<E>, group: Seq<E>, batch_size: nat) -> (Seq<Seq<E>>, Seq<E>) {
    let fits = pending.len() + group.len() <= batch_size;
    let head = if !fits && pending.len() > 0 {
        seq![pending]
    } else {
        Seq::empty()
    };
    let kept = if fits {
        pending + group
    } else {
        group
    };
    if kept.len() == batch_size {
        (head.push(kept), Seq::empty())
    } else {
        (head, kept)
    }
}

/// Adds `groups` one after the other to nothing pending.
pub open spec fn add_groups<E>(groups: Seq<Seq<E>>, batch_size: nat) -> (Seq<Seq<E>>, Seq<E>)
    decreases groups.len(),
{
    if groups.len() == 0 {
        (Seq::empty(), Seq::empty())
    } else {
        let before = add_groups(groups.drop_last(), batch_size);
        let last = add_group(before.1, groups.last(), batch_size);
        (before.0 + last.0, last.1)
    }
}

/// The batches that `groups` make, the last one as full as it got.
pub open spec fn batches<E>(groups: Seq<Seq<E>>, batch_size: nat) -> Seq<Seq<E>> {
    let r = add_groups(groups, batch_size);
    if r.1.len() > 0 {
        r.0.push(r.1)
    } else {
        r.0
    }
}

/// The groups of entries of a change log.
pub open spec fn change_groups<D>(rows: Seq<ChangeLogRow<D>>) -> Seq<Seq<(Op, Vec<D>)>> {
    Seq::new(rows.len(), |i: int| change_entries(rows[i]))
}

/// The rows of the change have the columns that `indices` name.
pub open spec fn change_fits<D>(row: ChangeLogRow<D>, indices: Seq<usize>) -> bool {
    match row {
        ChangeLogRow::Insert(row) => columns_in_row(row@, indices),
        ChangeLogRow::Update { old_value, new_value } => {
            &&& columns_in_row(old_value@, indices)
            &&& columns_in_row(new_value@, indices)
        },
        ChangeLogRow::Delete(row) => columns_in_row(row@, indices),
    }
}

/// `r` has the operation of `entry` and the columns of its row that `indices` name.
pub open spec fn maps_entry<D: Clone>(
    entry: (Op, Vec<D>),
    indices: Seq<usize>,
    r: (Op, Vec<D>),
) -> bool {
    &&& r.0 == entry.0
    &&& projects(entry.1@, indices, r.1@)
}

/// `r` are `entries`, each with the columns of its row that `indices` name.
pub open spec fn maps_entries<D: Clone>(
    entries: Seq<(Op, Vec<D>)>,
    indices: Seq<usize>,
    r: Seq<(Op, Vec<D>)>,
) -> bool {
    &&& r.len() == entries.len()
    &&& forall|i: int| 0 <= i < r.len() ==> maps_entry(entries[i], indices, #[trigger] r[i])
}

/// Each of `chunks` holds the entries of one of `batches`, in their order, with the columns that
/// `indices` name and nothing else.
pub open spec fn carries<D: Clone>(
    chunks: Seq<StreamChunk<D>>,
    batches: Seq<Seq<(Op, Vec<D>)>>,
    indices: Seq<usize>,
) -> bool {
    &&& chunks.len() == batches.len()
    &&& forall|k: int|
        0 <= k < chunks.len() ==> {
            &&& (#[trigger] chunks[k]).well_formed()
            &&& maps_entries(batches[k], indices, chunks[k].entries())
        }
}

/// The entries of each chunk.
pub open spec fn chunk_entries<D>(chunks: Seq<StreamChunk<D>>) -> Seq<Seq<(Op, Vec<D>)>> {
    Seq::new(chunks.len(), |i: int| chunks[i].entries())
}

/// Turns changes into chunks as they come, with the columns that go downstream.
#[derive(Debug)]
pub struct ChangeLogReader<D> {
    pub builder: DataChunkBuilder<D>,
    /// The operations of the rows in the builder.
    pub ops: Vec<Op>,
    /// The columns to keep.
    pub output_indices: Vec<usize>,
}

impl<D: Clone> ChangeLogReader<D> {
    /// The builder is sound, and its rows have their operations and the columns to keep.
    pub open spec fn well_formed(self) -> bool {
        &&& self.builder.well_formed()
        &&& self.ops@.len() == self.builder.rows@.len()
        &&& rows_fit(self.builder.rows@, self.output_indices@)
    }

    /// What was read and is in no chunk yet.
    pub open spec fn pending(self) -> Seq<(Op, Vec<D>)> {
        Seq::new(self.builder.rows@.len(), |i: int| (self.ops@[i], self.builder.rows@[i]))
    }

    /// A reader that has read nothing.
    pub fn new(builder: DataChunkBuilder<D>, output_indices: Vec<usize>) -> (r: Self)
        requires
            builder.well_formed(),
            builder.rows@.len() == 0,
        ensures
            r.well_formed(),
            r.builder == builder,
            r.output_indices == output_indices,
            r.pending() == Seq::<(Op, Vec<D>)>::empty(),
    {
        let r = ChangeLogReader { builder, ops: Vec::new(), output_indices };
        assert(r.pending() =~= Seq::<(Op, Vec<D>)>::empty());
        r
    }

    /// Puts the operations gathered so far to `chunk`, keeps the columns that go downstream, and
    /// starts over.
    fn complete(&mut self, chunk: DataChunk<D>, Ghost(entries): Ghost<Seq<(Op, Vec<D>)>>) -> (r:
        StreamChunk<D>)
        requires
            old(self).builder.rows@.len() == 0,
            old(self).builder.well_formed(),
            old(self).ops@.len() == chunk.rows@.len(),
            rows_fit(chunk.rows@, old(self).output_indices@),
            entries == Seq::new(
                chunk.rows@.len(),
                |i: int| (old(self).ops@[i], chunk.rows@[i]),
            ),
        ensures
            final(self).well_formed(),
            final(self).builder == old(self).builder,
            final(self).output_indices == old(self).output_indices,
            r.well_formed(),
            maps_entries(entries, old(self).output_indices@, r.entries()),
    {
        let mut ops: Vec<Op> = Vec::new();
        core::mem::swap(&mut ops, &mut self.ops);
        let all = StreamChunk::from_parts(ops, chunk);
        let r = mapping_chunk(all, self.output_indices.as_slice());
        assert forall|i: int| 0 <= i < r.entries().len() implies maps_entry(
            entries[i],
            self.output_indices@,
            #[trigger] r.entries()[i],
        ) by {
            assert(projects(all.rows@[i]@, self.output_indices@, r.rows@[i]@));
        }
        r
    }

    /// Adds one row with its operation.
    fn add_entry(&mut self, op: Op, row: Vec<D>) -> (r: Option<StreamChunk<D>>)
        requires
            old(self).well_formed(),
            columns_in_row(row@, old(self).output_indices@),
        ensures
            final(self).well_formed(),
            final(self).builder.batch_size == old(self).builder.batch_size,
            final(self).output_indices == old(self).output_indices,
            match r {
                Some(chunk) => {
                    &&& old(self).pending().len() + 1 == old(self).builder.batch_size
                    &&& chunk.well_formed()
                    &&& maps_entries(
                        old(self).pending().push((op, row)),
                        old(self).output_indices@,
                        chunk.entries(),
                    )
                    &&& final(self).pending() == Seq::<(Op, Vec<D>)>::empty()
                },
                None => {
                    &&& old(self).pending().len() + 1 < old(self).builder.batch_size
                    &&& final(self).pending() == old(self).pending().push((op, row))
                },
            },
    {
        let ghost entries = self.pending().push((op, row));
        self.ops.push(op);
        match self.builder.append_one_row(row) {
            Some(chunk) => {
                assert(entries =~= Seq::new(
                    chunk.rows@.len(),
                    |i: int| (self.ops@[i], chunk.rows@[i]),
                ));
                let r = self.complete(chunk, Ghost(entries));
                assert(self.pending() =~= Seq::<(Op, Vec<D>)>::empty());
                Some(r)
            },
            None => {
                assert(self.pending() =~= entries);
                None
            },
        }
    }

    /// Reads one change. Gives the chunks that it completes.
    pub fn read(&mut self, row: ChangeLogRow<D>) -> (r: Vec<StreamChunk<D>>)
        requires
            old(self).well_formed(),
            change_fits(row, old(self).output_indices@),
            row is Update ==> old(self).builder.batch_size >= 2,
        ensures
            final(self).well_formed(),
            final(self).builder.batch_size == old(self).builder.batch_size,
            final(self).output_indices == old(self).output_indices,
            ({
                let added = add_group(
                    old(self).pending(),
                    change_entries(row),
                    old(self).builder.batch_size as nat,
                );
                &&& carries(r@, added.0, old(self).output_indices@)
                &&& final(self).pending() == added.1
            }),
    {
        let mut out: Vec<StreamChunk<D>> = Vec::new();
        let ghost p0 = self.pending();
        let ghost b = self.builder.batch_size as nat;
        let ghost group = change_entries(row);
        let ghost added = add_group(p0, group, b);
        match row {
            ChangeLogRow::Insert(row) => {
                assert(p0 + group =~= p0.push(group[0]));
                if let Some(chunk) = self.add_entry(Op::Insert, row) {
                    out.push(chunk);
                }
            },
            ChangeLogRow::Update { old_value, new_value } => {
                if !self.builder.can_append(2) {
                    if let Some(chunk) = self.builder.consume_all() {
                        assert(p0 =~= Seq::new(
                            chunk.rows@.len(),
                            |i: int| (self.ops@[i], chunk.rows@[i]),
                        ));
                        out.push(self.complete(chunk, Ghost(p0)));
                    }
                    assert(self.pending() =~= Seq::<(Op, Vec<D>)>::empty());
                }
                let ghost p1 = self.pending();
                assert(p1 + group =~= p1.push(group[0]).push(group[1]));
                assert(Seq::<(Op, Vec<D>)>::empty() + group =~= group);
                let first = self.add_entry(Op::UpdateDelete, old_value);
                assert(first is None);
                if let Some(chunk) = self.add_entry(Op::UpdateInsert, new_value) {
                    out.push(chunk);
                }
            },
            ChangeLogRow::Delete(row) => {
                assert(p0 + group =~= p0.push(group[0]));
                if let Some(chunk) = self.add_entry(Op::Delete, row) {
                    out.push(chunk);
                }
            },
        }
        assert(carries(out@, added.0, self.output_indices@));
        out
    }

    /// Ends the log. Gives the chunk of what was pending, if anything was.
    pub fn finish(&mut self) -> (r: Option<StreamChunk<D>>)
        requires
            old(self).well_formed(),
        ensures
            final(self).well_formed(),
            final(self).builder.batch_size == old(self).builder.batch_size,
            final(self).output_indices == old(self).output_indices,
            final(self).pending() == Seq::<(Op, Vec<D>)>::empty(),
            match r {
                Some(chunk) => {
                    &&& chunk.well_formed()
                    &&& maps_entries(
                        old(self).pending(),
                        old(self).output_indices@,
                        chunk.entries(),
                    )
                    &&& old(self).pending().len() > 0
                },
                None => old(self).pending().len() == 0,
            },
    {
        let ghost p = self.pending();
        let r = match self.builder.consume_all() {
            Some(chunk) => {
                assert(p =~= Seq::new(
                    chunk.rows@.len(),
                    |i: int| (self.ops@[i], chunk.rows@[i]),
                ));
                Some(self.complete(chunk, Ghost(p)))
            },
            None => None,
        };
        assert(self.pending() =~= Seq::<(Op, Vec<D>)>::empty());
        r
    }
}

/// Reads a whole change log into chunks of at most the builder's batch size, with the columns that
/// go downstream.
pub fn read_change_log<D: Clone>(
    rows: Vec<ChangeLogRow<D>>,
    builder: DataChunkBuilder<D>,
    output_indices: Vec<usize>,
) -> (r: Vec<StreamChunk<D>>)
    requires
        builder.well_formed(),
        builder.rows@.len() == 0,
        forall|i: int|
            0 <= i < rows@.len() ==> {
                &&& change_fits(#[trigger] rows@[i], output_indices@)
                &&& rows@[i] is Update ==> builder.batch_size >= 2
            },
    ensures
        carries(
            r@,
            batches(change_groups(rows@), builder.batch_size as nat),
            output_indices@,
        ),
{
    let ghost b = builder.batch_size as nat;
    let ghost all = rows@;
    let ghost indices = output_indices@;
    let mut reader = ChangeLogReader::new(builder, output_indices);
    let mut out: Vec<StreamChunk<D>> = Vec::new();
    for row in it: rows
        invariant
            it.seq() == all,
            reader.well_formed(),
            reader.builder.batch_size == b,
            reader.output_indices@ == indices,
            forall|i: int|
                0 <= i < all.len() ==> {
                    &&& change_fits(#[trigger] all[i], indices)
                    &&& all[i] is Update ==> b >= 2
                },
            carries(out@, add_groups(change_groups(all.take(it.index() as int)), b).0, indices),
            reader.pending() == add_groups(change_groups(all.take(it.index() as int)), b).1,
    {
        let ghost n = it.index() as int;
        let ghost before = out@;
        assert(row == all[n]);
        let mut chunks = reader.read(row);
        proof {
            let g = change_groups(all.take(n + 1));
            assert(g.drop_last() =~= change_groups(all.take(n)));
            assert(g.last() == change_entries(all[n]));
            lemma_carries_concat(
                before,
                add_groups(change_groups(all.take(n)), b).0,
                chunks@,
                add_group(
                    add_groups(change_groups(all.take(n)), b).1,
                    change_entries(all[n]),
                    b,
                ).0,
                indices,
            );
        }
        out.append(&mut chunks);
    }
    assert(all.take(all.len() as int) =~= all);
    if let Some(chunk) = reader.finish() {
        out.push(chunk);
    }
    out
}

proof fn lemma_carries_concat<D: Clone>(
    a: Seq<StreamChunk<D>>,
    x: Seq<Seq<(Op, Vec<D>)>>,
    b: Seq<StreamChunk<D>>,
    y: Seq<Seq<(Op, Vec<D>)>>,
    indices: Seq<usize>,
)
    requires
        carries(a, x, indices),
        carries(b, y, indices),
    ensures
        carries(a + b, x + y, indices),
{
    let c = a + b;
    assert forall|k: int| 0 <= k < c.len() implies (#[trigger] c[k]).well_formed() && maps_entries(
        (x + y)[k],
        indices,
        c[k].entries(),
    ) by {
        if k < a.len() {
            assert(c[k] == a[k]);
        } else {
            assert(c[k] == b[k - a.len()]);
        }
    }
}

proof fn lemma_add_group_lossless<E>(pending: Seq<E>, group: Seq<E>, batch_size: nat)
    ensures
        ({
            let r = add_group(pending, group, batch_size);
            r.0.flatten() + r.1 == pending + group
        }),
{
    broadcast use Seq::lemma_flatten_push;

    let r = add_group(pending, group, batch_size);
    let none = Seq::<Seq<E>>::empty();
    assert(seq![pending] =~= none.push(pending));
    assert(none.flatten() =~= Seq::<E>::empty());
    assert(r.0.flatten() + r.1 =~= pending + group);
}

proof fn lemma_add_groups_lossless<E>(groups: Seq<Seq<E>>, batch_size: nat)
    ensures
        ({
            let r = add_groups(groups, batch_size);
            r.0.flatten() + r.1 == groups.flatten()
        }),
    decreases groups.len(),
{
    if groups.len() == 0 {
        assert(groups.flatten() =~= Seq::<E>::empty());
        assert(Seq::<Seq<E>>::empty().flatten() =~= Seq::<E>::empty());
    } else {
        let rest = groups.drop_last();
        let before = add_groups(rest, batch_size);
        let last = add_group(before.1, groups.last(), batch_size);
        lemma_add_groups_lossless(rest, batch_size);
        lemma_add_group_lossless(before.1, groups.last(), batch_size);
        lemma_flatten_concat(before.0, last.0);
        rest.lemma_flatten_push(groups.last());
        assert(rest.push(groups.last()) =~= groups);
        assert((before.0 + last.0).flatten() + last.1 =~= before.0.flatten() + (last.0.flatten()
            + last.1));
        assert(before.0.flatten() + (before.1 + groups.last()) =~= (before.0.flatten() + before.1)
            + groups.last());
    }
}

/// Batching loses nothing, repeats nothing and keeps the order: the batches one after the other are
/// the groups one after the other.
pub proof fn lemma_batches_lossless<E>(groups: Seq<Seq<E>>, batch_size: nat)
    ensures
        batches(groups, batch_size).flatten() == groups.flatten(),
{
    let r = add_groups(groups, batch_size);
    lemma_add_groups_lossless(groups, batch_size);
    r.0.lemma_flatten_push(r.1);
    assert(r.0.flatten() + r.1 =~= batches(groups, batch_size).flatten());
}

proof fn lemma_add_groups_sizes<E>(groups: Seq<Seq<E>>, batch_size: nat)
    requires
        forall|i: int| 0 <= i < groups.len() ==> 1 <= (#[trigger] groups[i]).len() <= batch_size,
    ensures
        ({
            let r = add_groups(groups, batch_size);
            &&& forall|i: int| 0 <= i < r.0.len() ==> 1 <= (#[trigger] r.0[i]).len() <= batch_size
            &&& r.1.len() < batch_size || groups.len() == 0
        }),
    decreases groups.len(),
{
    if groups.len() > 0 {
        let rest = groups.drop_last();
        assert forall|i: int| 0 <= i < rest.len() implies 1 <= (#[trigger] rest[i]).len()
            <= batch_size by {
            assert(rest[i] == groups[i]);
        }
        lemma_add_groups_sizes(rest, batch_size);
        let before = add_groups(rest, batch_size);
        let group = groups[groups.len() - 1];
        let last = add_group(before.1, group, batch_size);
        let r = add_groups(groups, batch_size);
        assert(r.0 == before.0 + last.0 && r.1 == last.1);
        assert forall|i: int| 0 <= i < last.0.len() implies 1 <= (#[trigger] last.0[i]).len()
            <= batch_size by {
            if before.1.len() + group.len() <= batch_size {
                assert(last.0[i] == before.1 + group);
            } else if i == 0 && before.1.len() > 0 {
                assert(last.0[i] == before.1);
            } else {
                assert(last.0[i] == group);
            }
        }
        assert forall|i: int| 0 <= i < r.0.len() implies 1 <= (#[trigger] r.0[i]).len()
            <= batch_size by {
            if i < before.0.len() {
                assert(r.0[i] == before.0[i]);
            } else {
                assert(r.0[i] == last.0[i - before.0.len()]);
            }
        }
    }
}

/// Of groups that fit a batch and are not empty, no batch is empty and none is over the batch size.
pub proof fn lemma_batch_sizes<E>(groups: Seq<Seq<E>>, batch_size: nat)
    requires
        forall|i: int| 0 <= i < groups.len() ==> 1 <= (#[trigger] groups[i]).len() <= batch_size,
    ensures
        forall|i: int|
            0 <= i < batches(groups, batch_size).len() ==> 1 <= (#[trigger] batches(
                groups,
                batch_size,
            )[i]).len() <= batch_size,
{
    lemma_add_groups_sizes(groups, batch_size);
}

/// The batch at `i` of `s` is full, or an update that would not have fit begins the next one: then
/// just one row is missing.
pub open spec fn full_or_before_update<D>(
    s: Seq<Seq<(Op, Vec<D>)>>,
    batch_size: nat,
    i: int,
) -> bool {
    s[i].len() < batch_size ==> {
        &&& s[i].len() == batch_size - 1
        &&& s[i + 1].len() > 0
        &&& s[i + 1][0].0 == Op::UpdateDelete
    }
}

proof fn lemma_add_groups_full<D>(rows: Seq<ChangeLogRow<D>>, batch_size: nat)
    requires
        batch_size >= 1,
        forall|i: int|
            0 <= i < rows.len() && (#[trigger] rows[i]) is Update ==> batch_size >= 2,
    ensures
        ({
            let r = add_groups(change_groups(rows), batch_size);
            let s = r.0.push(r.1);
            &&& r.1.len() < batch_size
            &&& forall|i: int|
                0 <= i < s.len() - 1 ==> #[trigger] full_or_before_update(s, batch_size, i)
        }),
    decreases rows.len(),
{
    let groups = change_groups(rows);
    if rows.len() > 0 {
        let rest = rows.drop_last();
        assert forall|i: int|
            0 <= i < rest.len() && (#[trigger] rest[i]) is Update implies batch_size >= 2 by {
            assert(rest[i] == rows[i]);
        }
        lemma_add_groups_full(rest, batch_size);
        assert(groups.drop_last() =~= change_groups(rest));
        let before = add_groups(change_groups(rest), batch_size);
        let group = change_entries(rows.last());
        assert(rows.last() == rows[rows.len() - 1]);
        assert(groups.last() == group);
        let last = add_group(before.1, group, batch_size);
        let r = add_groups(groups, batch_size);
        assert(r.0 == before.0 + last.0 && r.1 == last.1);
        let s = before.0.push(before.1);
        let t = r.0.push(r.1);
        let n = before.0.len() as int;
        assert forall|i: int| 0 <= i < t.len() - 1 implies #[trigger] full_or_before_update(
            t,
            batch_size,
            i,
        ) by {
            if i < n {
                assert(full_or_before_update(s, batch_size, i));
                assert(t[i] == s[i]);
                if i + 1 < n {
                    assert(t[i + 1] == s[i + 1]);
                } else if before.1.len() > 0 {
                    assert(t[i + 1].len() > 0 && t[i + 1][0] == before.1[0]);
                }
            } else {
                assert(t[i] == last.0[i - n]);
            }
        }
    }
}

/// A chunk of a change log is short of the batch size only at the end of the log, or by one row where
/// an update that would not have fit begins the next chunk.
pub proof fn lemma_full_batches<D>(rows: Seq<ChangeLogRow<D>>, batch_size: nat)
    requires
        batch_size >= 1,
        forall|i: int|
            0 <= i < rows.len() && (#[trigger] rows[i]) is Update ==> batch_size >= 2,
    ensures
        forall|i: int|
            0 <= i < batches(change_groups(rows), batch_size).len() - 1
                ==> #[trigger] full_or_before_update(
                batches(change_groups(rows), batch_size),
                batch_size,
                i,
            ),
{
    let r = add_groups(change_groups(rows), batch_size);
    let s = r.0.push(r.1);
    let b = batches(change_groups(rows), batch_size);
    lemma_add_groups_full(rows, batch_size);
    assert forall|i: int| 0 <= i < b.len() - 1 implies #[trigger] full_or_before_update(
        b,
        batch_size,
        i,
    ) by {
        assert(full_or_before_update(s, batch_size, i));
        assert(b[i] == s[i] && b[i + 1] == s[i + 1]);
    }
}

/// An update has a row at `i` of `s` only together with its other row: the row that it deletes is
/// directly followed by the row that it inserts.
pub open spec fn update_whole_at<D>(s: Seq<(Op, Vec<D>)>, i: int) -> bool {
    &&& s[i].0 == Op::UpdateDelete ==> i + 1 < s.len() && s[i + 1].0 == Op::UpdateInsert
    &&& s[i].0 == Op::UpdateInsert ==> i > 0 && s[i - 1].0 == Op::UpdateDelete
}

/// Every update stands whole in `s`.
pub open spec fn updates_whole<D>(s: Seq<(Op, Vec<D>)>) -> bool {
    forall|i: int| 0 <= i < s.len() ==> #[trigger] update_whole_at(s, i)
}

proof fn lemma_updates_whole_concat<D>(a: Seq<(Op, Vec<D>)>, b: Seq<(Op, Vec<D>)>)
    requires
        updates_whole(a),
        updates_whole(b),
    ensures
        updates_whole(a + b),
{
    let s = a + b;
    assert forall|i: int| 0 <= i < s.len() implies #[trigger] update_whole_at(s, i) by {
        if i < a.len() {
            assert(update_whole_at(a, i));
        } else {
            assert(update_whole_at(b, i - a.len()));
        }
    }
}

proof fn lemma_add_groups_updates_whole<D>(rows: Seq<ChangeLogRow<D>>, batch_size: nat)
    ensures
        ({
            let r = add_groups(change_groups(rows), batch_size);
            &&& forall|i: int| 0 <= i < r.0.len() ==> updates_whole(#[trigger] r.0[i])
            &&& updates_whole(r.1)
        }),
    decreases rows.len(),
{
    let groups = change_groups(rows);
    if rows.len() > 0 {
        lemma_add_groups_updates_whole(rows.drop_last(), batch_size);
        assert(groups.drop_last() =~= change_groups(rows.drop_last()));
        let before = add_groups(groups.drop_last(), batch_size);
        let group = change_entries(rows.last());
        assert(groups.last() == group);
        assert(updates_whole(group));
        lemma_updates_whole_concat(before.1, group);
        let last = add_group(before.1, group, batch_size);
        let r = add_groups(groups, batch_size);
        assert forall|i: int| 0 <= i < r.0.len() implies updates_whole(#[trigger] r.0[i]) by {
            if i < before.0.len() {
                assert(r.0[i] == before.0[i]);
            } else {
                assert(r.0[i] == last.0[i - before.0.len()]);
            }
        }
    }
}

/// No chunk of a change log splits an update: its two rows stand side by side in one chunk.
pub proof fn lemma_updates_not_split<D>(rows: Seq<ChangeLogRow<D>>, batch_size: nat)
    ensures
        forall|i: int|
            0 <= i < batches(change_groups(rows), batch_size).len() ==> updates_whole(
                #[trigger] batches(change_groups(rows), batch_size)[i],
            ),
{
    lemma_add_groups_updates_whole(rows, batch_size);
}

proof fn lemma_maps_flatten<D: Clone>(
    a: Seq<Seq<(Op, Vec<D>)>>,
    b: Seq<Seq<(Op, Vec<D>)>>,
    indices: Seq<usize>,
)
    requires
        a.len() == b.len(),
        forall|k: int| 0 <= k < b.len() ==> maps_entries(a[k], indices, #[trigger] b[k]),
    ensures
        maps_entries(a.flatten(), indices, b.flatten()),
    decreases a.len(),
{
    if a.len() > 0 {
        let x = a.drop_first();
        let y = b.drop_first();
        assert forall|k: int| 0 <= k < y.len() implies maps_entries(x[k], indices, #[trigger] y[k]) by {
            assert(y[k] == b[k + 1]);
        }
        lemma_maps_flatten(x, y, indices);
        let p = a.flatten();
        let q = b.flatten();
        assert(maps_entries(a[0], indices, b[0]));
        assert(p == a[0] + x.flatten());
        assert(q == b[0] + y.flatten());
        assert forall|i: int| 0 <= i < q.len() implies maps_entry(p[i], indices, #[trigger] q[i]) by {
            if i < b[0].len() {
                assert(maps_entry(a[0][i], indices, b[0][i]));
            } else {
                let j = i - b[0].len();
                assert(maps_entry(x.flatten()[j], indices, y.flatten()[j]));
            }
        }
    }
}

/// The chunks of a change log hold every change once, in order, with the columns that go downstream
/// and no others: `chunks` are what [`read_change_log`] makes of `rows`.
pub proof fn lemma_log_columns<D: Clone>(
    rows: Seq<ChangeLogRow<D>>,
    batch_size: nat,
    indices: Seq<usize>,
    chunks: Seq<StreamChunk<D>>,
)
    requires
        carries(chunks, batches(change_groups(rows), batch_size), indices),
    ensures
        maps_entries(change_groups(rows).flatten(), indices, chunk_entries(chunks).flatten()),
{
    let b = batches(change_groups(rows), batch_size);
    assert forall|k: int| 0 <= k < chunks.len() implies maps_entries(
        b[k],
        indices,
        #[trigger] chunk_entries(chunks)[k],
    ) by {
        assert(chunks[k].well_formed());
    }
    lemma_maps_flatten(b, chunk_entries(chunks), indices);
    lemma_batches_lossless(change_groups(rows), batch_size);
}

/// What stands for a change: an inserted row, a deleted row, or for an update the row that it deletes
/// and then the row that it inserts, whatever the rows hold.
pub proof fn lemma_change_entries<D>(a: Vec<D>, b: Vec<D>)
    ensures
        change_entries(ChangeLogRow::Insert(a)) == seq![(Op::Insert, a)],
        change_entries(ChangeLogRow::Delete(a)) == seq![(Op::Delete, a)],
        change_entries(ChangeLogRow::Update { old_value: a, new_value: b }) == seq![
            (Op::UpdateDelete, a),
            (Op::UpdateInsert, b),
        ],
{
}

/// The entries of a log are those of its changes one after the other: a log in two parts has the
/// entries of the first part, then those of the second.
pub proof fn lemma_change_groups<D>(a: Seq<ChangeLogRow<D>>, b: Seq<ChangeLogRow<D>>)
    ensures
        change_groups(a + b) == change_groups(a) + change_groups(b),
        change_groups(a) == a.map_values(|row: ChangeLogRow<D>| change_entries(row)),
{
    assert(change_groups(a + b) =~= change_groups(a) + change_groups(b));
}

/// A change fits exactly if each of the rows that stand for it has the named columns.
pub proof fn lemma_change_fits<D>(row: ChangeLogRow<D>, indices: Seq<usize>)
    ensures
        change_fits(row, indices) <==> forall|i: int|
            0 <= i < change_entries(row).len() ==> columns_in_row(
                (#[trigger] change_entries(row)[i]).1@,
                indices,
            ),
{
    let entries = change_entries(row);
    if forall|i: int|
        0 <= i < entries.len() ==> columns_in_row((#[trigger] entries[i]).1@, indices) {
        assert(columns_in_row(entries[0].1@, indices));
        if entries.len() == 2 {
            assert(columns_in_row(entries[1].1@, indices));
        }
    }
}

/// Mapped entries have the operations of the entries and the named columns of their rows.
pub proof fn lemma_maps_entries<D: Clone>(
    entries: Seq<(Op, Vec<D>)>,
    indices: Seq<usize>,
    r: Seq<(Op, Vec<D>)>,
    i: int,
    j: int,
)
    requires
        maps_entries(entries, indices, r),
        0 <= i < entries.len(),
        0 <= j < indices.len(),
    ensures
        r.len() == entries.len(),
        r[i].0 == entries[i].0,
        r[i].1@.len() == indices.len(),
        cloned(entries[i].1@[indices[j] as int], r[i].1@[j]),
{
    assert(maps_entry(entries[i], indices, r[i]));
}

/// There is a chunk for each batch, with as many rows, each with its operation.
pub proof fn lemma_carries<D: Clone>(
    chunks: Seq<StreamChunk<D>>,
    batches: Seq<Seq<(Op, Vec<D>)>>,
    indices: Seq<usize>,
    k: int,
    i: int,
)
    requires
        carries(chunks, batches, indices),
        0 <= k < batches.len(),
        0 <= i < batches[k].len(),
    ensures
        chunks.len() == batches.len(),
        chunks[k].rows@.len() == batches[k].len(),
        chunks[k].ops@.len() == batches[k].len(),
        chunks[k].ops@[i] == batches[k][i].0,
        projects(batches[k][i].1@, indices, chunks[k].rows@[i]@),
{
    assert(chunks[k].well_formed());
    assert(maps_entry(batches[k][i], indices, chunks[k].entries()[i]));
}

} // verus!
