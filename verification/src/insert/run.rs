//! An insertion step by step: which batch is appended when, and what comes of it.
//!
//! Whoever runs an insertion performs the actions one after the other and hands back what each
//! brought.

use crate::catalog::TableId;
use crate::chunk::DataChunk;
use crate::insert::{
    holds_only, lemma_total_is_sum, total, ExecutorResult, InsertError, InsertExecutor, Insertion, TableKind,
};
use vstd::prelude::*;

verus! {

/// What an action of an insertion may bring.
#[derive(Debug)]
pub enum InsertEvent<D, E> {
    /// The kind of the table that was looked up.
    Table(TableKind),
    /// The next batch of the child, or none where there are no more.
    Child(Option<DataChunk<D>>),
    /// The batch was appended: how many rows it had.
    Appended(usize),
    /// The lookup, the child or the table failed.
    Failed(E),
}

/// What an insertion does next.
#[derive(Debug)]
pub enum InsertAction<D, E> {
    /// Looks up the table.
    LookUp(TableId),
    /// Executes the child once.
    Poll,
    /// Appends the batch to the table.
    Append(DataChunk<D>),
    /// Gives the result.
    Give(ExecutorResult),
    /// Gives an error of its own.
    Refuse(InsertError),
    /// Gives the error that it met.
    Fail(E),
}

/// Where an insertion is.
#[derive(Clone, Copy, Debug)]
pub enum InsertState {
    /// The table is being looked up.
    LookingUp,
    /// The next batch of the child is awaited.
    Polling(Insertion),
    /// A batch is being appended.
    Appending(Insertion),
    /// The result or an error was given.
    Ended,
}

impl InsertState {
    /// The event can come now, and its rows can be counted.
    pub open spec fn accepts<D, E>(self, event: InsertEvent<D, E>) -> bool {
        match (self, event) {
            (InsertState::LookingUp, InsertEvent::Table(_)) => true,
            (InsertState::Polling(_), InsertEvent::Child(_)) => true,
            (InsertState::Appending(insertion), InsertEvent::Appended(rows)) => {
                insertion.rows_inserted + rows <= usize::MAX
            },
            (InsertState::Ended, _) => false,
            (_, InsertEvent::Failed(_)) => true,
            _ => false,
        }
    }

    /// Where an event that is accepted leads.
    pub open spec fn next<D, E>(self, event: InsertEvent<D, E>) -> InsertState {
        match (self, event) {
            (InsertState::LookingUp, InsertEvent::Table(TableKind::Columnar)) => {
                InsertState::Polling(Insertion { rows_inserted: 0 })
            },
            (InsertState::Polling(insertion), InsertEvent::Child(Some(_))) => {
                InsertState::Appending(insertion)
            },
            (InsertState::Appending(insertion), InsertEvent::Appended(rows)) => {
                InsertState::Polling(
                    Insertion { rows_inserted: (insertion.rows_inserted + rows) as usize },
                )
            },
            _ => InsertState::Ended,
        }
    }

    /// The event ends the insertion well: the child has no more batches.
    pub open spec fn completes<D, E>(self, event: InsertEvent<D, E>) -> bool {
        self is Polling && event matches InsertEvent::Child(None)
    }

    /// `action` is what the insertion does on an event that it accepts: a batch is appended as it
    /// is, the number of rows is given once the child has no more, and a failure is handed on.
    pub open spec fn acts<D, E>(self, event: InsertEvent<D, E>, action: InsertAction<D, E>) -> bool {
        match (self, event) {
            (InsertState::LookingUp, InsertEvent::Table(kind)) => {
                action == if kind == TableKind::Columnar {
                    InsertAction::<D, E>::Poll
                } else {
                    InsertAction::<D, E>::Refuse(InsertError::NotColumnar)
                }
            },
            (InsertState::Polling(_), InsertEvent::Child(Some(batch))) => {
                action == InsertAction::<D, E>::Append(batch)
            },
            (InsertState::Polling(insertion), InsertEvent::Child(None)) => {
                &&& action matches InsertAction::Give(ExecutorResult::Batch(chunk))
                &&& holds_only(chunk, insertion.rows_inserted as i32)
            },
            (InsertState::Appending(_), InsertEvent::Appended(_)) => {
                action == InsertAction::<D, E>::Poll
            },
            (_, InsertEvent::Failed(e)) => action == InsertAction::<D, E>::Fail(e),
            _ => false,
        }
    }

    /// Whether the event can come now and its rows can be counted.
    pub fn can_accept<D, E>(&self, event: &InsertEvent<D, E>) -> (r: bool)
        ensures
            r == self.accepts(*event),
    {
        match (self, event) {
            (InsertState::LookingUp, InsertEvent::Table(_)) => true,
            (InsertState::Polling(_), InsertEvent::Child(_)) => true,
            (InsertState::Appending(insertion), InsertEvent::Appended(rows)) => {
                *rows <= usize::MAX - insertion.rows_inserted
            },
            (InsertState::Ended, _) => false,
            (_, InsertEvent::Failed(_)) => true,
            _ => false,
        }
    }
}

impl InsertExecutor {
    /// Starts an insertion: the table is looked up, or nothing more is given where the insertion was
    /// executed already.
    pub fn start<D, E>(&self) -> (r: (InsertState, InsertAction<D, E>))
        ensures
            r == if self.executed {
                (InsertState::Ended, InsertAction::<D, E>::Give(ExecutorResult::Done))
            } else {
                (InsertState::LookingUp, InsertAction::<D, E>::LookUp(self.table_id))
            },
    {
        match self.target() {
            Some(table_id) => (InsertState::LookingUp, InsertAction::LookUp(table_id)),
            None => (InsertState::Ended, InsertAction::Give(ExecutorResult::Done)),
        }
    }

    /// Goes on with an event. Only the end of the child's batches makes the insertion an executed
    /// one; a failure leaves that as it was.
    pub fn step<D, E>(&mut self, state: InsertState, event: InsertEvent<D, E>) -> (r: (
        InsertState,
        InsertAction<D, E>,
    ))
        requires
            state.accepts(event),
        ensures
            r.0 == state.next(event),
            state.acts(event, r.1),
            final(self).executed == (old(self).executed || state.completes(event)),
            final(self).table_id == old(self).table_id,
            final(self).schema == old(self).schema,
    {
        match (state, event) {
            (InsertState::LookingUp, InsertEvent::Table(kind)) => match Insertion::begin(kind) {
                Ok(insertion) => (InsertState::Polling(insertion), InsertAction::Poll),
                Err(e) => (InsertState::Ended, InsertAction::Refuse(e)),
            },
            (InsertState::Polling(insertion), InsertEvent::Child(Some(batch))) => {
                (InsertState::Appending(insertion), InsertAction::Append(batch))
            },
            (InsertState::Polling(insertion), InsertEvent::Child(None)) => {
                (InsertState::Ended, InsertAction::Give(self.finish(insertion)))
            },
            (InsertState::Appending(insertion), InsertEvent::Appended(rows)) => {
                let mut insertion = insertion;
                insertion.appended(rows);
                (InsertState::Polling(insertion), InsertAction::Poll)
            },
            (_, InsertEvent::Failed(e)) => (InsertState::Ended, InsertAction::Fail(e)),
            (_, _) => (InsertState::Ended, InsertAction::Poll),
        }
    }
}

/// An event and what the insertion did on it.
pub struct InsertStep<D, E> {
    pub event: InsertEvent<D, E>,
    pub action: InsertAction<D, E>,
}

/// Where `steps` lead from the lookup of the table.
pub open spec fn insert_state<D, E>(steps: Seq<InsertStep<D, E>>) -> InsertState
    decreases steps.len(),
{
    if steps.len() == 0 {
        InsertState::LookingUp
    } else {
        insert_state(steps.drop_last()).next(steps.last().event)
    }
}

/// `steps` make a run from the lookup of the table.
pub open spec fn inserts<D, E>(steps: Seq<InsertStep<D, E>>) -> bool
    decreases steps.len(),
{
    steps.len() == 0 || {
        let before = insert_state(steps.drop_last());
        &&& inserts(steps.drop_last())
        &&& before.accepts(steps.last().event)
        &&& before.acts(steps.last().event, steps.last().action)
    }
}

/// What the insertion did.
pub open spec fn actions<D, E>(steps: Seq<InsertStep<D, E>>) -> Seq<InsertAction<D, E>> {
    Seq::new(steps.len(), |i: int| steps[i].action)
}

/// The batches that the child gave, in their order.
pub open spec fn child_batches<D, E>(steps: Seq<InsertStep<D, E>>) -> Seq<DataChunk<D>>
    decreases steps.len(),
{
    if steps.len() == 0 {
        Seq::empty()
    } else {
        match steps.last().event {
            InsertEvent::Child(Some(batch)) => child_batches(steps.drop_last()).push(batch),
            _ => child_batches(steps.drop_last()),
        }
    }
}

/// The batches that were handed to the table, in their order.
pub open spec fn handed_over<D, E>(steps: Seq<InsertStep<D, E>>) -> Seq<DataChunk<D>>
    decreases steps.len(),
{
    if steps.len() == 0 {
        Seq::empty()
    } else {
        match steps.last().action {
            InsertAction::Append(batch) => handed_over(steps.drop_last()).push(batch),
            _ => handed_over(steps.drop_last()),
        }
    }
}

/// The numbers of rows that the table said it appended, in their order.
pub open spec fn row_counts<D, E>(steps: Seq<InsertStep<D, E>>) -> Seq<usize>
    decreases steps.len(),
{
    if steps.len() == 0 {
        Seq::empty()
    } else {
        match steps.last().event {
            InsertEvent::Appended(rows) => row_counts(steps.drop_last()).push(rows),
            _ => row_counts(steps.drop_last()),
        }
    }
}

/// The child is polled, then each of `batches` is appended and the child polled again.
pub open spec fn polls_and_appends<D, E>(batches: Seq<DataChunk<D>>) -> Seq<InsertAction<D, E>>
    decreases batches.len(),
{
    if batches.len() == 0 {
        seq![InsertAction::Poll]
    } else {
        polls_and_appends::<D, E>(batches.drop_last()) + seq![
            InsertAction::Append(batches.last()),
            InsertAction::Poll,
        ]
    }
}

/// The batches of the child are appended as they are, once each and in their order, however the
/// insertion ends.
pub proof fn lemma_every_batch_appended<D, E>(steps: Seq<InsertStep<D, E>>)
    requires
        inserts(steps),
    ensures
        handed_over(steps) == child_batches(steps),
    decreases steps.len(),
{
    if steps.len() > 0 {
        lemma_every_batch_appended(steps.drop_last());
    }
}

/// How far the actions of a run from the lookup got: after a batch nothing is done before it is
/// appended, and after that the child is polled.
spec fn actions_fit<D, E>(steps: Seq<InsertStep<D, E>>) -> bool {
    let batches = child_batches(steps);
    let counts = row_counts(steps);
    match insert_state(steps) {
        InsertState::LookingUp => steps.len() == 0,
        InsertState::Polling(insertion) => {
            &&& actions(steps) == polls_and_appends::<D, E>(batches)
            &&& counts.len() == batches.len()
            &&& insertion.rows_inserted == total(counts)
        },
        InsertState::Appending(insertion) => {
            &&& batches.len() > 0
            &&& actions(steps) == polls_and_appends::<D, E>(batches.drop_last()).push(
                InsertAction::Append(batches.last()),
            )
            &&& counts.len() + 1 == batches.len()
            &&& insertion.rows_inserted == total(counts)
        },
        InsertState::Ended => true,
    }
}

proof fn lemma_actions_fit<D, E>(steps: Seq<InsertStep<D, E>>)
    requires
        inserts(steps),
    ensures
        actions_fit(steps),
    decreases steps.len(),
{
    if steps.len() > 0 {
        let rest = steps.drop_last();
        lemma_actions_fit(rest);
        let action = steps.last().action;
        let batches = child_batches(steps);
        assert(actions(steps) =~= actions(rest).push(action));
        match insert_state(steps) {
            InsertState::Polling(_) => {
                if insert_state(rest) is Appending {
                    assert(row_counts(steps).drop_last() =~= row_counts(rest));
                    assert(actions(steps) =~= polls_and_appends::<D, E>(batches));
                } else {
                    assert(rest =~= Seq::empty());
                    assert(actions(steps) =~= seq![InsertAction::<D, E>::Poll]);
                }
            },
            InsertState::Appending(_) => {
                assert(batches.drop_last() =~= child_batches(rest));
            },
            _ => {},
        }
    }
}

/// An insertion that gives a result has polled the child, appended each batch that it gave before it
/// polled again, and polled once more than there were batches. The result holds the sum of the rows
/// that the table said it appended, also where there was no batch.
pub proof fn lemma_insertion<D, E>(steps: Seq<InsertStep<D, E>>)
    requires
        inserts(steps),
        steps.len() > 0,
        steps.last().action is Give,
    ensures
        actions(steps.drop_last()) == polls_and_appends::<D, E>(child_batches(steps)),
        row_counts(steps).len() == child_batches(steps).len(),
        steps.last().action matches InsertAction::Give(ExecutorResult::Batch(chunk)) && holds_only(
            chunk,
            total(row_counts(steps)) as i32,
        ),
{
    lemma_actions_fit(steps.drop_last());
}

/// What is taken at each point: the kind of the table while it is looked up, what the child gives
/// while it is polled, the number of rows while a batch is appended unless it cannot be counted, a
/// failure at any of them, and nothing at the end.
pub proof fn lemma_insert_takes<D, E>(state: InsertState, event: InsertEvent<D, E>)
    ensures
        state.accepts(event) <==> match state {
            InsertState::LookingUp => event is Table || event is Failed,
            InsertState::Polling(_) => event is Child || event is Failed,
            InsertState::Appending(insertion) => event is Failed || (
            event matches InsertEvent::Appended(rows) && insertion.rows_inserted + rows
                <= usize::MAX),
            InsertState::Ended => false,
        },
{
}

/// An insertion counts as executed exactly where it gives a result: neither a refusal nor a failure
/// makes it so, nor anything on the way.
pub proof fn lemma_executed_with_result<D, E>(
    state: InsertState,
    event: InsertEvent<D, E>,
    action: InsertAction<D, E>,
)
    requires
        state.accepts(event),
        state.acts(event, action),
    ensures
        state.completes(event) <==> action is Give,
        state.next(event) is Ended <==> action is Give || action is Refuse || action is Fail,
        state.next(event) is Polling <==> action is Poll,
        state.next(event) is Appending <==> action is Append,
{
}

proof fn lemma_insert_prefix<D, E>(steps: Seq<InsertStep<D, E>>, i: int)
    requires
        inserts(steps),
        0 <= i < steps.len(),
    ensures
        inserts(steps.take(i)),
        insert_state(steps.take(i)).accepts(steps[i].event),
        insert_state(steps.take(i)).acts(steps[i].event, steps[i].action),
        insert_state(steps.take(i + 1)) == insert_state(steps.take(i)).next(steps[i].event),
    decreases steps.len(),
{
    let rest = steps.drop_last();
    if i == steps.len() - 1 {
        assert(steps.take(i) =~= rest);
        assert(steps.take(i + 1) =~= steps);
    } else {
        lemma_insert_prefix(rest, i);
        assert(rest.take(i) =~= steps.take(i));
        assert(rest.take(i + 1) =~= steps.take(i + 1));
        assert(rest[i] == steps[i]);
    }
}

/// What each step of an insertion does, and what can follow it.
///
/// The kind of the table comes first. A batch is appended as it is, and what follows is the number of
/// its rows or a failure; after that number the child is polled, and what follows is a batch, the end
/// or a failure. Nothing follows the end, a refusal or a failure, which is handed on as it is.
pub proof fn lemma_insert_order<D, E>(steps: Seq<InsertStep<D, E>>, i: int)
    requires
        inserts(steps),
        0 <= i < steps.len(),
    ensures
        match steps[i].event {
            InsertEvent::Table(kind) => {
                &&& i == 0
                &&& kind == TableKind::Columnar ==> steps[i].action is Poll
                &&& kind != TableKind::Columnar ==> steps[i].action
                    == InsertAction::<D, E>::Refuse(InsertError::NotColumnar)
            },
            InsertEvent::Child(Some(batch)) => {
                &&& i > 0 && steps[i - 1].action is Poll
                &&& steps[i].action == InsertAction::<D, E>::Append(batch)
            },
            InsertEvent::Child(None) => {
                &&& i > 0 && steps[i - 1].action is Poll
                &&& steps[i].action is Give
            },
            InsertEvent::Appended(_) => {
                &&& i > 0 && steps[i - 1].action is Append
                &&& steps[i].action is Poll
            },
            InsertEvent::Failed(e) => steps[i].action == InsertAction::<D, E>::Fail(e),
        },
        i + 1 < steps.len() ==> steps[i].action is Poll || steps[i].action is Append,
{
    lemma_insert_prefix(steps, i);
    assert(steps.take(0) =~= Seq::<InsertStep<D, E>>::empty());
    if i > 0 {
        lemma_insert_prefix(steps, i - 1);
    }
    if i + 1 < steps.len() {
        lemma_insert_prefix(steps, i + 1);
    }
}

/// The traces are what their names say: the batches of the child, those handed to the table and the
/// numbers of rows, each in their order and nothing else.
pub proof fn lemma_insert_traces<D, E>(steps: Seq<InsertStep<D, E>>)
    ensures
        child_batches(steps) == steps.filter_map(
            |step: InsertStep<D, E>|
                match step.event {
                    InsertEvent::Child(Some(batch)) => Some(batch),
                    _ => None,
                },
        ),
        handed_over(steps) == steps.filter_map(
            |step: InsertStep<D, E>|
                match step.action {
                    InsertAction::Append(batch) => Some(batch),
                    _ => None,
                },
        ),
        row_counts(steps) == steps.filter_map(
            |step: InsertStep<D, E>|
                match step.event {
                    InsertEvent::Appended(rows) => Some(rows),
                    _ => None,
                },
        ),
    decreases steps.len(),
{
    if steps.len() > 0 {
        lemma_insert_traces(steps.drop_last());
    }
}

/// An insertion that gives a result gives one row with one number: the sum of all rows that the table
/// said it appended, whatever they are and however many there were.
pub proof fn lemma_result_is_sum<D, E>(steps: Seq<InsertStep<D, E>>)
    requires
        inserts(steps),
        steps.len() > 0,
        steps.last().action is Give,
    ensures
        ({
            let counts = steps.filter_map(
                |step: InsertStep<D, E>|
                    match step.event {
                        InsertEvent::Appended(rows) => Some(rows),
                        _ => None,
                    },
            );
            let sum = counts.fold_left(0nat, |sum: nat, n: usize| sum + n as nat);
            &&& steps.last().action matches InsertAction::Give(ExecutorResult::Batch(chunk))
            &&& chunk.rows@.len() == 1
            &&& chunk.rows@[0]@ == seq![Some(sum as i32)]
        }),
{
    lemma_insertion(steps);
    lemma_insert_traces(steps);
    lemma_total_is_sum(row_counts(steps), Seq::empty());
}

/// While a batch is appended, the number of its rows is refused only if the sum of all rows would not
/// be a `usize`.
pub proof fn lemma_counts_until_overflow<D, E>(steps: Seq<InsertStep<D, E>>, rows: usize)
    requires
        inserts(steps),
        steps.len() > 0,
        steps.last().action is Append,
    ensures
        insert_state(steps).accepts(InsertEvent::<D, E>::Appended(rows)) <==> row_counts(
            steps,
        ).fold_left(0nat, |sum: nat, n: usize| sum + n as nat) + rows <= usize::MAX,
{
    lemma_actions_fit(steps);
    lemma_total_is_sum(row_counts(steps), Seq::empty());
}

} // verus!
