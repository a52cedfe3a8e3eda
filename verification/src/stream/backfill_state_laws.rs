//! What the state of a backfill takes, awaits and fails on, told from the history of its run.

use crate::chunk::StreamChunk;
use crate::stream::backfill_laws::{
    awaiting_twin, backfills, before_log, buffer_of, chunks_of, chunks_read, consumer_of,
    effects_of, epochs, epochs_fit, finish_due, first_after_end, held, injected,
    lemma_arrivals_fit, lemma_epochs_linked_and_fit, lemma_forwarding, lemma_injected_pass,
    lemma_progress, lemma_snapshot_read_once, lemma_step, lemma_upstream_order,
    lemma_within_backfill, logs_read, maps_all, passed, passed_by_snapshot, reported,
    rows_since_barrier, runs, snapshot_ended, snapshot_rows, snapshots_read, state_after,
    updates_due, upstream, within_backfill, yielded, Step,
};
use crate::stream::barrier::{lemma_added_subscribers, Barrier, Message, Mutation};
use crate::stream::error::BackfillError;
use crate::stream::mapping::{maps_message, rows_fit};
use crate::stream::snapshot_backfill::{
    Awaits, Effect, Event, Execution, RunState, SnapshotBackfillExecutor,
};
use crate::stream::snapshot_consume::{lemma_held_back, ConsumePhase, Progress};
use crate::stream::upstream_buffer::{barriers_of, lemma_consume_one};
use vstd::prelude::*;

verus! {

/// Nothing is to be backfilled exactly if the two first barriers have the same epoch in both parts.
/// Otherwise a backfill starts with nothing read, nothing counted and nothing waiting, at the epoch
/// that the first barrier of the upstream ends, for the one subscriber that this barrier puts on the
/// upstream table.
pub proof fn lemma_start(
    executor: SnapshotBackfillExecutor,
    first_barrier: Barrier,
    first_injected: Barrier,
)
    ensures
        ({
            let start = executor.start_state(first_barrier, first_injected);
            let same = first_barrier.epoch.curr == first_injected.epoch.curr
                && first_barrier.epoch.prev == first_injected.epoch.prev;
            &&& same ==> start == (RunState::Skip { first_barrier })
            &&& !same ==> {
                &&& start is SnapshotStart
                &&& start->SnapshotStart_first_barrier == first_barrier
                &&& start->SnapshotStart_injected == first_injected
                &&& start->SnapshotStart_consumer.snapshot_epoch == first_barrier.epoch.prev
                &&& start->SnapshotStart_consumer.rate_limit == executor.rate_limit
                &&& start->SnapshotStart_consumer.barrier_epoch == first_injected.epoch
                &&& start->SnapshotStart_consumer.count == 0
                &&& start->SnapshotStart_consumer.epoch_row_count == 0
                &&& start->SnapshotStart_consumer.phase == ConsumePhase::Reading
                &&& start->SnapshotStart_buffer.waiting.len() == 0
                &&& start->SnapshotStart_buffer.row_count == 0
                &&& !start->SnapshotStart_buffer.is_finished
                &&& start->SnapshotStart_buffer.upstream_table_id == executor.upstream_table_id
            }
            &&& !same && first_barrier.added_subscribers(executor.upstream_table_id).len() > 0 ==> {
                &&& first_barrier.mutation matches Some(Mutation::Add { subscriptions_to_add })
                &&& subscriptions_to_add@.contains(
                    (executor.upstream_table_id, start->SnapshotStart_buffer.subscriber_id),
                )
            }
        }),
{
    let table_id = executor.upstream_table_id;
    let added = first_barrier.added_subscribers(table_id);
    if added.len() > 0 {
        lemma_added_subscribers(first_barrier, table_id, added[0]);
        assert(added.contains(added[0]));
    }
}

/// What each state awaits.
///
/// Where a barrier of the upstream was taken and its injected twin has not come, only the twin is
/// awaited, and the upstream is left alone. The upstream is consumed besides the snapshot and the
/// change log, until the buffer is finished.
pub proof fn lemma_awaits(state: RunState)
    ensures
        state.awaits() == match state {
            RunState::SnapshotStart { buffer, .. } => Awaits {
                inject: false,
                upstream: !buffer.is_finished,
                snapshot: false,
                log: false,
                quiet: true,
            },
            RunState::Snapshot { consumer, buffer, .. } => Awaits {
                inject: consumer.phase != ConsumePhase::Done,
                upstream: !buffer.is_finished,
                snapshot: consumer.phase == ConsumePhase::Reading && (consumer.rate_limit is None
                    || consumer.epoch_row_count <= consumer.rate_limit->0),
                log: false,
                quiet: consumer.phase == ConsumePhase::Done,
            },
            RunState::LogNext { buffer, .. } => Awaits {
                inject: false,
                upstream: !buffer.is_finished,
                snapshot: false,
                log: false,
                quiet: false,
            },
            RunState::LogRead { buffer, .. } => Awaits {
                inject: false,
                upstream: !buffer.is_finished,
                snapshot: false,
                log: true,
                quiet: false,
            },
            RunState::Forward => Awaits {
                inject: false,
                upstream: true,
                snapshot: false,
                log: false,
                quiet: false,
            },
            RunState::Done => Awaits {
                inject: false,
                upstream: false,
                snapshot: false,
                log: false,
                quiet: false,
            },
            _ => Awaits {
                inject: true,
                upstream: false,
                snapshot: false,
                log: false,
                quiet: false,
            },
        },
{
    if let RunState::Snapshot { consumer, .. } = state {
        lemma_held_back(consumer);
    }
}

/// A backfill takes exactly what it awaits, unless the stream is out of order.
///
/// Where the upstream is awaited, its end, every watermark and every chunk is taken, but for a chunk
/// to be forwarded that lacks an output column, and every barrier but one that drops the subscriber
/// on other tables only. Where the snapshot is awaited, its end and every chunk that can be counted is
/// taken; where the log is awaited, whatever it brings. Where a barrier is awaited, the one with the
/// right epoch is taken and no other.
pub proof fn lemma_takes_exactly_what_it_awaits<D>(
    indices: Seq<usize>,
    state: RunState,
    event: Event<D>,
)
    ensures
        state.accepts(indices, event) <==> match event {
            Event::Quiet => state.awaits().quiet,
            Event::Log(_) => state.awaits().log,
            Event::Snapshot(None) => state.awaits().snapshot,
            Event::Snapshot(Some(chunk)) => {
                &&& state.awaits().snapshot
                &&& consumer_of(state) matches Some(consumer)
                &&& consumer.count + chunk.rows@.len() <= usize::MAX
                &&& consumer.epoch_row_count + chunk.rows@.len() <= usize::MAX
            },
            Event::Upstream(Some(Message::Chunk(chunk))) => state.awaits().upstream && (
            state is Forward ==> rows_fit(chunk.rows@, indices)),
            Event::Upstream(Some(Message::Barrier(barrier))) => state.awaits().upstream && (
            buffer_of(state) matches Some(buffer) ==> barrier.drops_subscriber(buffer.subscriber_id)
                ==> barrier.drops_subscription(buffer.subscriber_id, buffer.upstream_table_id)),
            Event::Upstream(_) => state.awaits().upstream,
            Event::Inject(None) => state.awaits().inject && !(state is SnapshotDone),
            Event::Inject(Some(barrier)) => state.awaits().inject && match state {
                RunState::Snapshot { consumer, .. } => barrier.epoch.prev
                    == consumer.barrier_epoch.curr,
                RunState::SnapshotDone { first_barrier, .. } => barrier.epoch
                    == first_barrier.epoch,
                RunState::LogInject { barrier_epoch, barrier: own, .. } => barrier.epoch
                    == own.epoch && own.epoch.prev == barrier_epoch.curr,
                RunState::Skip { first_barrier } => barrier.epoch == first_barrier.epoch,
                RunState::ForwardInject { barrier: own } => barrier.epoch == own.epoch,
                _ => false,
            },
        },
{
}

/// On what a backfill fails: the end of the injected barriers, the end of the upstream before it
/// forwards, and a barrier that reaches the epoch of the snapshot while the snapshot is read.
pub proof fn lemma_fails_on<D>(indices: Seq<usize>, state: RunState, event: Event<D>)
    requires
        state.accepts(indices, event),
    ensures
        state.failure(event) == match event {
            Event::Inject(None) => Some(BackfillError::EndOfBarrierReceiver),
            Event::Upstream(None) => if state is Forward {
                None
            } else {
                Some(BackfillError::EndOfUpstream)
            },
            Event::Inject(Some(barrier)) => match state {
                RunState::Snapshot { consumer, .. } => if consumer.phase == ConsumePhase::Reading
                    && barrier.epoch.curr >= consumer.snapshot_epoch {
                    Some(
                        BackfillError::BarrierPastSnapshot {
                            barrier_epoch: barrier.epoch,
                            snapshot_epoch: consumer.snapshot_epoch,
                        },
                    )
                } else {
                    None
                },
                _ => None,
            },
            _ => None,
        },
{
}

/// A step has at most two effects. A report comes before the barrier that it belongs to, and the
/// snapshot is read after the first barrier went downstream.
pub proof fn lemma_effect_order<D: Clone>(
    indices: Seq<usize>,
    state: RunState,
    event: Event<D>,
    effects: Seq<Effect<D>>,
)
    requires
        state.does(indices, event, effects),
    ensures
        effects.len() <= 2,
        effects.len() == 2 ==> {
            ||| effects[0] is Report && effects[1] is Yield
            ||| effects[0] is Yield && effects[1] is ReadSnapshot
        },
{
}

/// What each event makes a backfill do.
///
/// A chunk of the snapshot or of a change log goes downstream at once, as it is, and the end of the
/// snapshot brings nothing. With the end of a change log its barrier goes downstream, and not before:
/// what its injected twin brings is that the log of the epoch that it ends is read. The upstream
/// brings nothing while the backfill goes on.
pub proof fn lemma_effects_of_event<D: Clone>(
    indices: Seq<usize>,
    state: RunState,
    event: Event<D>,
    effects: Seq<Effect<D>>,
)
    requires
        state.accepts(indices, event),
        state.failure(event) is None,
        state.does(indices, event, effects),
    ensures
        match event {
            Event::Snapshot(Some(chunk)) => effects == seq![
                Effect::<D>::Yield(Message::Chunk(chunk)),
            ],
            Event::Snapshot(None) => effects.len() == 0,
            Event::Log(Some(chunk)) => effects == seq![Effect::<D>::Yield(Message::Chunk(chunk))],
            Event::Log(None) => effects == seq![
                Effect::<D>::Yield(Message::Barrier(state->LogRead_barrier)),
            ],
            Event::Quiet => {
                &&& state is Snapshot ==> effects.len() == 0
                &&& state is SnapshotStart ==> effects == seq![
                    Effect::<D>::Yield(Message::Barrier(state->SnapshotStart_injected)),
                    Effect::<D>::ReadSnapshot(state->SnapshotStart_consumer.snapshot_epoch),
                ]
            },
            Event::Inject(Some(barrier)) => match state {
                RunState::Snapshot { .. } => effects.len() > 0 && effects.last()
                    == Effect::<D>::Yield(Message::Barrier(barrier)),
                RunState::LogInject { .. } => effects == seq![
                    Effect::<D>::ReadLog(barrier.epoch.prev),
                ],
                _ => effects.len() == 1 && (effects[0] matches Effect::Yield(
                    Message::Barrier(own),
                ) && own.epoch == barrier.epoch),
            },
            Event::Upstream(Some(message)) => {
                &&& backfills(state) ==> effects.len() == 0
                &&& message is Barrier ==> effects.len() == 0
                &&& state is Forward && !(message is Barrier) ==> {
                    ||| effects.len() == 0 && maps_message(message, indices, None)
                    ||| effects.len() == 1 && (effects[0] matches Effect::Yield(mapped)
                        && maps_message(message, indices, Some(mapped)))
                }
            },
            _ => effects.len() == 0,
        },
{
}

/// Where a backfill ends: at the end of the upstream that it forwards, and nowhere else. Then nothing
/// more is taken.
pub proof fn lemma_end<D>(indices: Seq<usize>, state: RunState, event: Event<D>)
    requires
        state.accepts(indices, event),
        state.failure(event) is None,
    ensures
        state.next(event) is Done <==> state is Forward && (event matches Event::Upstream(None)),
        !(state is Done),
{
}

/// Where each event leads. A quiet moment, the injected twin of a barrier and the end of a change log
/// lead on; a chunk, a watermark and what arrives meanwhile do not.
pub proof fn lemma_leads_on<D>(indices: Seq<usize>, state: RunState, event: Event<D>)
    requires
        state.accepts(indices, event),
        state.failure(event) is None,
    ensures
        ({
            let next = state.next(event);
            match event {
                Event::Quiet => {
                    &&& state is SnapshotStart ==> next is Snapshot
                    &&& state is Snapshot ==> next is SnapshotDone
                },
                Event::Snapshot(_) => next is Snapshot,
                Event::Log(Some(_)) => next == state,
                Event::Log(None) => next is LogInject || next is LogNext || next is Forward,
                Event::Inject(_) => match state {
                    RunState::Snapshot { .. } => next is Snapshot,
                    RunState::SnapshotDone { .. } => next is LogInject || next is LogNext
                        || next is Forward,
                    RunState::LogInject { .. } => next is LogRead,
                    _ => next is Forward,
                },
                Event::Upstream(Some(message)) => match state {
                    RunState::SnapshotStart { .. } => next is SnapshotStart,
                    RunState::Snapshot { .. } => next is Snapshot,
                    RunState::LogRead { .. } => next is LogRead,
                    RunState::LogNext { .. } => if message is Barrier {
                        next is LogInject
                    } else {
                        next is LogNext
                    },
                    _ => if message is Barrier {
                        next == (RunState::ForwardInject { barrier: message->Barrier_0 })
                    } else {
                        next is Forward
                    },
                },
                Event::Upstream(None) => next is Done,
            }
        }),
{
}

/// What an execution is: each of its states as it is, with what its buffer holds.
pub proof fn lemma_execution_view(execution: Execution)
    ensures
        match execution {
            Execution::SnapshotStart { first_barrier, injected, consumer, buffer } => execution@
                == (RunState::SnapshotStart { first_barrier, injected, consumer, buffer: buffer@ }),
            Execution::Snapshot { first_barrier, consumer, buffer } => execution@ == (
            RunState::Snapshot { first_barrier, consumer, buffer: buffer@ }),
            Execution::SnapshotDone { first_barrier, buffer } => execution@ == (
            RunState::SnapshotDone { first_barrier, buffer: buffer@ }),
            Execution::LogNext { barrier_epoch, buffer } => execution@ == (RunState::LogNext {
                barrier_epoch,
                buffer: buffer@,
            }),
            Execution::LogInject { barrier_epoch, barrier, buffer } => execution@ == (
            RunState::LogInject { barrier_epoch, barrier, buffer: buffer@ }),
            Execution::LogRead { barrier, buffer } => execution@ == (RunState::LogRead {
                barrier,
                buffer: buffer@,
            }),
            Execution::Skip { first_barrier } => execution@ == (RunState::Skip { first_barrier }),
            Execution::Forward => execution@ is Forward,
            Execution::ForwardInject { barrier } => execution@ == (RunState::ForwardInject {
                barrier,
            }),
            Execution::Done => execution@ is Done,
        },
{
}

/// The traces of effects are what their names say: all effects of a kind, in their order, and nothing
/// else.
pub proof fn lemma_effect_traces<D>(effects: Seq<Effect<D>>)
    ensures
        yielded(effects) == effects.filter_map(
            |effect: Effect<D>|
                match effect {
                    Effect::Yield(message) => Some(message),
                    _ => None,
                },
        ),
        reported(effects) == effects.filter_map(
            |effect: Effect<D>|
                match effect {
                    Effect::Report(progress) => Some(progress),
                    _ => None,
                },
        ),
        logs_read(effects) == effects.filter_map(
            |effect: Effect<D>|
                match effect {
                    Effect::ReadLog(epoch) => Some(epoch),
                    _ => None,
                },
        ),
        snapshots_read(effects) == effects.filter_map(
            |effect: Effect<D>|
                match effect {
                    Effect::ReadSnapshot(epoch) => Some(epoch),
                    _ => None,
                },
        ),
    decreases effects.len(),
{
    if effects.len() > 0 {
        lemma_effect_traces(effects.drop_last());
    }
}

/// The chunks among messages are all of them, in their order, and nothing else.
pub proof fn lemma_chunks_of<D>(messages: Seq<Message<D>>)
    ensures
        chunks_of(messages) == messages.filter_map(
            |message: Message<D>|
                match message {
                    Message::Chunk(chunk) => Some(chunk),
                    _ => None,
                },
        ),
    decreases messages.len(),
{
    if messages.len() > 0 {
        lemma_chunks_of(messages.drop_last());
    }
}

/// The traces of a run are what their names say: the injected barriers, the messages of the upstream
/// and the chunks that were read, each in their order, and all effects of the steps one after the
/// other.
pub proof fn lemma_step_traces<D>(steps: Seq<Step<D>>)
    ensures
        injected(steps) == steps.filter_map(
            |step: Step<D>|
                match step.event {
                    Event::Inject(Some(barrier)) => Some(barrier),
                    _ => None,
                },
        ),
        upstream(steps) == steps.filter_map(
            |step: Step<D>|
                match step.event {
                    Event::Upstream(Some(message)) => Some(message),
                    _ => None,
                },
        ),
        chunks_read(steps) == steps.filter_map(
            |step: Step<D>|
                match step.event {
                    Event::Snapshot(Some(chunk)) => Some(chunk),
                    Event::Log(Some(chunk)) => Some(chunk),
                    _ => None,
                },
        ),
        effects_of(steps) == steps.map_values(|step: Step<D>| step.effects).flatten(),
        epochs(injected(steps)) == injected(steps).map_values(|barrier: Barrier| barrier.epoch),
        passed(steps) == barriers_of(yielded(effects_of(steps))),
    decreases steps.len(),
{
    let effects = steps.map_values(|step: Step<D>| step.effects);
    if steps.len() > 0 {
        let rest = steps.drop_last();
        lemma_step_traces(rest);
        let before = rest.map_values(|step: Step<D>| step.effects);
        assert(effects =~= before.push(steps.last().effects));
        before.lemma_flatten_push(steps.last().effects);
    } else {
        assert(effects_of(steps) =~= effects.flatten());
    }
    assert(epochs(injected(steps)) =~= injected(steps).map_values(
        |barrier: Barrier| barrier.epoch,
    ));
}

/// The snapshot has ended exactly if one of the steps brought its end.
pub proof fn lemma_snapshot_ended<D>(steps: Seq<Step<D>>)
    ensures
        snapshot_ended(steps) <==> exists|i: int|
            0 <= i < steps.len() && ((#[trigger] steps[i]).event matches Event::Snapshot(None)),
    decreases steps.len(),
{
    if steps.len() > 0 {
        let rest = steps.drop_last();
        lemma_snapshot_ended(rest);
        if snapshot_ended(rest) {
            let i = choose|i: int|
                0 <= i < rest.len() && ((#[trigger] rest[i]).event matches Event::Snapshot(None));
            assert(steps[i] == rest[i]);
        } else if steps.last().event matches Event::Snapshot(None) {
            assert(steps[steps.len() - 1].event matches Event::Snapshot(None));
        } else if exists|i: int|
            0 <= i < steps.len() && ((#[trigger] steps[i]).event matches Event::Snapshot(None)) {
            let i = choose|i: int|
                0 <= i < steps.len() && ((#[trigger] steps[i]).event matches Event::Snapshot(None));
            assert(rest[i] == steps[i]);
        }
    }
}

/// The rows of the snapshot are the sum over its chunks: those of two parts of a run together are what
/// the two have. The rows since a barrier are those of the part after it.
pub proof fn lemma_snapshot_rows<D>(a: Seq<Step<D>>, b: Seq<Step<D>>)
    ensures
        snapshot_rows(a + b) == snapshot_rows(a) + snapshot_rows(b),
        injected(b).len() == 0 && (forall|i: int|
            0 <= i < b.len() ==> !((#[trigger] b[i]).event matches Event::Inject(None)))
            ==> rows_since_barrier(a + b) == rows_since_barrier(a) + snapshot_rows(b),
        a.len() > 0 && a.last().event is Inject ==> rows_since_barrier(a) == 0,
        rows_since_barrier(a) <= snapshot_rows(a),
        rows_since_barrier(Seq::<Step<D>>::empty()) == 0,
        forall|step: Step<D>| snapshot_rows(#[trigger] seq![step]) == match step.event {
            Event::Snapshot(Some(chunk)) => chunk.rows@.len(),
            _ => 0,
        },
    decreases a.len() + b.len(),
{
    reveal_with_fuel(snapshot_rows, 2);
    assert forall|step: Step<D>| snapshot_rows(#[trigger] seq![step]) == match step.event {
        Event::Snapshot(Some(chunk)) => chunk.rows@.len(),
        _ => 0,
    } by {
        assert(seq![step].drop_last() =~= Seq::<Step<D>>::empty());
    }
    if b.len() > 0 {
        let rest = b.drop_last();
        lemma_snapshot_rows(a, rest);
        assert((a + b).drop_last() =~= a + rest);
        assert(b.last() == b[b.len() - 1]);
        if injected(b).len() == 0 && (forall|i: int|
            0 <= i < b.len() ==> !((#[trigger] b[i]).event matches Event::Inject(None))) {
            assert forall|i: int| 0 <= i < rest.len() implies !((
            #[trigger] rest[i]).event matches Event::Inject(None)) by {
                assert(rest[i] == b[i]);
            }
        }
    } else {
        assert(a + b =~= a);
        if a.len() > 0 {
            lemma_snapshot_rows(a.drop_last(), b);
        }
    }
}

/// Which reports are due: while the snapshot is read, one update for each injected barrier; once it
/// has ended, no more updates, and a finish with the first barrier that comes then.
pub proof fn lemma_reports_due<D>(steps: Seq<Step<D>>, step: Step<D>)
    ensures
        !snapshot_ended(steps) ==> {
            &&& updates_due(steps).len() == injected(steps).len()
            &&& first_after_end(steps) is None
        },
        updates_due(steps.push(step)) == match step.event {
            Event::Inject(Some(barrier)) => if snapshot_ended(steps) {
                updates_due(steps)
            } else {
                updates_due(steps).push(
                    Progress::Update {
                        epoch: barrier.epoch,
                        consumed_epoch: barrier.epoch.prev,
                        consumed_rows: snapshot_rows(steps) as u64,
                    },
                )
            },
            _ => updates_due(steps),
        },
        first_after_end(steps.push(step)) == match step.event {
            Event::Inject(Some(barrier)) => if snapshot_ended(steps) && first_after_end(
                steps,
            ) is None {
                Some(barrier.epoch)
            } else {
                first_after_end(steps)
            },
            _ => first_after_end(steps),
        },
        finish_due(steps) == match first_after_end(steps) {
            Some(epoch) => seq![
                Progress::Finish { epoch, consumed_rows: snapshot_rows(steps) as u64 },
            ],
            None => Seq::empty(),
        },
    decreases steps.len(),
{
    assert(steps.push(step).drop_last() =~= steps);
    if steps.len() > 0 {
        lemma_reports_due(steps.drop_last(), step);
        let rest = steps.drop_last();
        assert(rest.push(steps.last()) =~= steps);
    }
}

proof fn lemma_state_backfills<D: Clone>(
    executor: SnapshotBackfillExecutor,
    first_barrier: Barrier,
    first_injected: Barrier,
    steps: Seq<Step<D>>,
)
    requires
        first_barrier.epoch != first_injected.epoch,
        runs(executor.output_indices@, executor.start_state(first_barrier, first_injected), steps),
        backfills(state_after(executor.start_state(first_barrier, first_injected), steps)),
    ensures
        within_backfill(executor.start_state(first_barrier, first_injected), steps),
        epochs_fit(
            state_after(executor.start_state(first_barrier, first_injected), steps),
            first_injected,
            epochs(passed(steps)),
        ),
{
    let start = executor.start_state(first_barrier, first_injected);
    if steps.len() > 0 {
        lemma_within_backfill(executor.output_indices@, start, steps);
    }
    lemma_epochs_linked_and_fit(executor, first_barrier, first_injected, steps);
}

proof fn lemma_first_barrier_kept<D: Clone>(
    executor: SnapshotBackfillExecutor,
    first_barrier: Barrier,
    first_injected: Barrier,
    steps: Seq<Step<D>>,
)
    requires
        first_barrier.epoch != first_injected.epoch,
        runs(executor.output_indices@, executor.start_state(first_barrier, first_injected), steps),
    ensures
        match state_after(executor.start_state(first_barrier, first_injected), steps) {
            RunState::SnapshotStart { first_barrier: kept, consumer, .. } => kept == first_barrier
                && consumer.epoch_row_count == rows_since_barrier(steps) && consumer.rate_limit
                == executor.rate_limit && consumer.phase == ConsumePhase::Reading,
            RunState::Snapshot { first_barrier: kept, consumer, .. } => {
                &&& kept == first_barrier
                &&& consumer.rate_limit == executor.rate_limit
                &&& consumer.phase == ConsumePhase::Reading ==> consumer.epoch_row_count
                    == rows_since_barrier(steps)
            },
            RunState::SnapshotDone { first_barrier: kept, .. } => kept == first_barrier,
            _ => true,
        },
    decreases steps.len(),
{
    if steps.len() > 0 {
        lemma_first_barrier_kept(executor, first_barrier, first_injected, steps.drop_last());
    }
}

/// When the snapshot is awaited: once the first injected barrier went downstream and until the
/// snapshot has ended, always if there is no rate limit, and otherwise exactly as long as the rows
/// since the last injected barrier are no more than the limit. A chunk that is awaited is taken
/// unless all rows together would not be a `usize`.
pub proof fn lemma_snapshot_awaited<D: Clone>(
    executor: SnapshotBackfillExecutor,
    first_barrier: Barrier,
    first_injected: Barrier,
    steps: Seq<Step<D>>,
    chunk: StreamChunk<D>,
)
    requires
        first_barrier.epoch != first_injected.epoch,
        runs(executor.output_indices@, executor.start_state(first_barrier, first_injected), steps),
    ensures
        ({
            let state = state_after(executor.start_state(first_barrier, first_injected), steps);
            &&& state.awaits().snapshot <==> {
                &&& passed(steps).len() > 0
                &&& !snapshot_ended(steps)
                &&& executor.rate_limit matches Some(limit) ==> rows_since_barrier(steps) <= limit
            }
            &&& state.accepts(executor.output_indices@, Event::Snapshot(Some(chunk))) <==> {
                &&& state.awaits().snapshot
                &&& snapshot_rows(steps) + chunk.rows@.len() <= usize::MAX
            }
        }),
{
    let start = executor.start_state(first_barrier, first_injected);
    let state = state_after(start, steps);
    lemma_first_barrier_kept(executor, first_barrier, first_injected, steps);
    lemma_progress(executor, first_barrier, first_injected, steps);
    lemma_snapshot_read_once(executor, first_barrier, first_injected, steps);
    lemma_snapshot_rows(steps, Seq::empty());
    lemma_awaits(state);
    lemma_takes_exactly_what_it_awaits(
        executor.output_indices@,
        state,
        Event::Snapshot(Some(chunk)),
    );
}

/// When the upstream is awaited: while the snapshot or a change log is read, and where a barrier is
/// needed and none waits, as long as no barrier that drops the subscriber has arrived; not while the
/// injected twin of a barrier is awaited.
pub proof fn lemma_upstream_awaited<D: Clone>(
    executor: SnapshotBackfillExecutor,
    first_barrier: Barrier,
    first_injected: Barrier,
    steps: Seq<Step<D>>,
)
    requires
        first_barrier.epoch != first_injected.epoch,
        runs(executor.output_indices@, executor.start_state(first_barrier, first_injected), steps),
        backfills(state_after(executor.start_state(first_barrier, first_injected), steps)),
    ensures
        ({
            let start = executor.start_state(first_barrier, first_injected);
            let state = state_after(start, steps);
            let subscriber = start->SnapshotStart_buffer.subscriber_id;
            let arrived = barriers_of(upstream(steps));
            let dropped = exists|i: int|
                0 <= i < arrived.len() && (#[trigger] arrived[i]).drops_subscriber(subscriber);
            &&& state.awaits().upstream <==> !dropped && !(state is SnapshotDone)
                && !(state is LogInject)
            &&& state is LogNext ==> state.awaits().upstream
        }),
{
    let start = executor.start_state(first_barrier, first_injected);
    let state = state_after(start, steps);
    let table = start->SnapshotStart_buffer;
    let arrived = barriers_of(upstream(steps));
    lemma_arrivals_fit(executor, first_barrier, first_injected, steps);
    lemma_upstream_order(executor, first_barrier, first_injected, steps);
    lemma_awaits(state);
    let buffer = buffer_of(state)->0;
    if buffer.is_finished {
        assert(arrived[arrived.len() - 1].drops_subscriber(table.subscriber_id));
    }
    if exists|i: int|
        0 <= i < arrived.len() && (#[trigger] arrived[i]).drops_subscriber(table.subscriber_id) {
        let i = choose|i: int|
            0 <= i < arrived.len() && (#[trigger] arrived[i]).drops_subscriber(
                table.subscriber_id,
            );
        assert(table.finishes(arrived[i]));
    }
}

/// A backfill hands over as soon as the barrier that drops its subscriber has gone downstream: as
/// long as it backfills, none of the barriers that went after the snapshot drops the subscriber.
pub proof fn lemma_hands_over_at_once<D: Clone>(
    executor: SnapshotBackfillExecutor,
    first_barrier: Barrier,
    first_injected: Barrier,
    steps: Seq<Step<D>>,
    i: int,
)
    requires
        first_barrier.epoch != first_injected.epoch,
        runs(executor.output_indices@, executor.start_state(first_barrier, first_injected), steps),
        backfills(state_after(executor.start_state(first_barrier, first_injected), steps)),
        passed_by_snapshot(executor.start_state(first_barrier, first_injected), steps) <= i
            < passed(steps).len(),
    ensures
        !passed(steps)[i].drops_subscriber(
            executor.start_state(
                first_barrier,
                first_injected,
            )->SnapshotStart_buffer.subscriber_id,
        ),
{
    let start = executor.start_state(first_barrier, first_injected);
    let state = state_after(start, steps);
    let table = start->SnapshotStart_buffer;
    let arrived = barriers_of(upstream(steps));
    let n = passed_by_snapshot(start, steps) as int;
    lemma_arrivals_fit(executor, first_barrier, first_injected, steps);
    lemma_upstream_order(executor, first_barrier, first_injected, steps);
    let gone = passed(steps).skip(n);
    assert(arrived =~= gone + held(state));
    assert(gone[i - n] == passed(steps)[i]);
    assert(arrived[i - n] == passed(steps)[i]);
    if table.finishes(arrived[i - n]) {
        assert(held(state).len() == 0);
        assert(buffer_of(state)->0.is_finished);
    }
}

/// What goes downstream before the log store is turned to: the first injected barrier, then the other
/// injected ones as they come, then the first barrier of the upstream itself.
pub proof fn lemma_first_barrier_passes<D: Clone>(
    executor: SnapshotBackfillExecutor,
    first_barrier: Barrier,
    first_injected: Barrier,
    steps: Seq<Step<D>>,
)
    requires
        first_barrier.epoch != first_injected.epoch,
        runs(executor.output_indices@, executor.start_state(first_barrier, first_injected), steps),
        !before_log(state_after(executor.start_state(first_barrier, first_injected), steps)),
    ensures
        ({
            let n = passed_by_snapshot(
                executor.start_state(first_barrier, first_injected),
                steps,
            ) as int;
            &&& 2 <= n <= passed(steps).len()
            &&& n - 1 <= injected(steps).len()
            &&& passed(steps).take(n) == seq![first_injected] + injected(steps).take(n - 2) + seq![
                first_barrier,
            ]
        }),
    decreases steps.len(),
{
    let start = executor.start_state(first_barrier, first_injected);
    let n = passed_by_snapshot(start, steps) as int;
    let rest = steps.drop_last();
    let state = state_after(start, rest);
    assert(steps.len() > 0);
    lemma_step(executor.output_indices@, start, steps);
    if before_log(state) {
        lemma_injected_pass(executor, first_barrier, first_injected, rest);
        lemma_upstream_order(executor, first_barrier, first_injected, rest);
        lemma_first_barrier_kept(executor, first_barrier, first_injected, rest);
        assert(injected(steps).take(n - 2) =~= injected(rest));
        assert(passed(steps).take(n) =~= passed(steps));
    } else {
        lemma_first_barrier_passes(executor, first_barrier, first_injected, rest);
        assert(injected(steps).take(n - 2) =~= injected(rest).take(n - 2));
        assert(passed(steps).take(n) =~= passed(rest).take(n));
    }
}

/// When the drain ends: after the barrier that reports the finish, with the first barrier that reaches
/// exactly the epoch of the snapshot, and with no other. Until then barriers are awaited.
pub proof fn lemma_drain<D: Clone>(
    executor: SnapshotBackfillExecutor,
    first_barrier: Barrier,
    first_injected: Barrier,
    steps: Seq<Step<D>>,
)
    requires
        first_barrier.epoch != first_injected.epoch,
        runs(executor.output_indices@, executor.start_state(first_barrier, first_injected), steps),
        before_log(state_after(executor.start_state(first_barrier, first_injected), steps)),
    ensures
        ({
            let state = state_after(executor.start_state(first_barrier, first_injected), steps);
            let barriers = injected(steps);
            let k = updates_due(steps).len() + 1;
            let drained = {
                &&& barriers.len() > k
                &&& barriers.last().epoch.curr == first_barrier.epoch.prev
            };
            &&& barriers.len() >= updates_due(steps).len()
            &&& first_after_end(steps) is Some <==> barriers.len() >= k
            &&& state is SnapshotDone ==> drained
            &&& state is Snapshot ==> state.awaits().inject == !drained
            &&& state is Snapshot ==> state.awaits().quiet == drained
            &&& forall|i: int|
                k <= i < barriers.len() - 1 ==> (#[trigger] barriers[i]).epoch.curr
                    != first_barrier.epoch.prev
        }),
    decreases steps.len(),
{
    let start = executor.start_state(first_barrier, first_injected);
    let state = state_after(start, steps);
    lemma_progress(executor, first_barrier, first_injected, steps);
    lemma_awaits(state);
    if steps.len() > 0 {
        let rest = steps.drop_last();
        let before = state_after(start, rest);
        lemma_drain(executor, first_barrier, first_injected, rest);
        lemma_progress(executor, first_barrier, first_injected, rest);
        lemma_reports_due(rest, steps.last());
        lemma_awaits(before);
        lemma_state_backfills(executor, first_barrier, first_injected, rest);
        lemma_first_barrier_kept(executor, first_barrier, first_injected, rest);
        assert(rest.push(steps.last()) =~= steps);
        let k = updates_due(steps).len() + 1;
        assert forall|i: int| k <= i < injected(steps).len() - 1 implies (
        #[trigger] injected(steps)[i]).epoch.curr != first_barrier.epoch.prev by {
            assert(injected(steps)[i] == injected(rest)[i]);
        }
    }
}

/// On what a backfill fails, told from its history: on a barrier that reaches the epoch that the first
/// barrier of the upstream ends while the snapshot has not ended, on the end of the upstream before
/// the hand-over, and on the end of the injected barriers.
pub proof fn lemma_failures<D: Clone>(
    executor: SnapshotBackfillExecutor,
    first_barrier: Barrier,
    first_injected: Barrier,
    steps: Seq<Step<D>>,
    event: Event<D>,
)
    requires
        first_barrier.epoch != first_injected.epoch,
        runs(executor.output_indices@, executor.start_state(first_barrier, first_injected), steps),
        state_after(executor.start_state(first_barrier, first_injected), steps).accepts(
            executor.output_indices@,
            event,
        ),
    ensures
        ({
            let state = state_after(executor.start_state(first_barrier, first_injected), steps);
            state.failure(event) == match event {
                Event::Inject(None) => Some(BackfillError::EndOfBarrierReceiver),
                Event::Upstream(None) => if backfills(state) {
                    Some(BackfillError::EndOfUpstream)
                } else {
                    None
                },
                Event::Inject(Some(barrier)) => if !snapshot_ended(steps) && barrier.epoch.curr
                    >= first_barrier.epoch.prev {
                    Some(
                        BackfillError::BarrierPastSnapshot {
                            barrier_epoch: barrier.epoch,
                            snapshot_epoch: first_barrier.epoch.prev,
                        },
                    )
                } else {
                    None
                },
                _ => None,
            }
        }),
{
    let start = executor.start_state(first_barrier, first_injected);
    let state = state_after(start, steps);
    lemma_progress(executor, first_barrier, first_injected, steps);
    lemma_first_barrier_kept(executor, first_barrier, first_injected, steps);
    lemma_fails_on(executor.output_indices@, state, event);
    if backfills(state) {
        lemma_state_backfills(executor, first_barrier, first_injected, steps);
    }
}

/// Which barrier is taken where one is awaited: while the snapshot is consumed, one that begins where
/// the last one that went downstream ends; after it, one with the epoch of the first barrier of the
/// upstream; then, one with the epoch of the oldest barrier of the upstream that has not gone, if
/// that follows the last one that has.
pub proof fn lemma_right_barrier<D: Clone>(
    executor: SnapshotBackfillExecutor,
    first_barrier: Barrier,
    first_injected: Barrier,
    steps: Seq<Step<D>>,
    barrier: Barrier,
)
    requires
        first_barrier.epoch != first_injected.epoch,
        runs(executor.output_indices@, executor.start_state(first_barrier, first_injected), steps),
        backfills(state_after(executor.start_state(first_barrier, first_injected), steps)),
        state_after(executor.start_state(first_barrier, first_injected), steps).awaits().inject,
    ensures
        ({
            let start = executor.start_state(first_barrier, first_injected);
            let state = state_after(start, steps);
            let last = passed(steps).last().epoch;
            let gone = passed(steps).len() - passed_by_snapshot(start, steps);
            let arrived = barriers_of(upstream(steps));
            &&& passed(steps).len() > 0
            &&& state.accepts(
                executor.output_indices@,
                Event::<D>::Inject(Some(barrier)),
            ) <==> match state {
                RunState::Snapshot { .. } => barrier.epoch.prev == last.curr,
                RunState::SnapshotDone { .. } => barrier.epoch == first_barrier.epoch,
                _ => gone < arrived.len() && barrier.epoch == arrived[gone].epoch
                    && barrier.epoch.prev == last.curr,
            }
        }),
{
    let start = executor.start_state(first_barrier, first_injected);
    let state = state_after(start, steps);
    lemma_state_backfills(executor, first_barrier, first_injected, steps);
    lemma_first_barrier_kept(executor, first_barrier, first_injected, steps);
    lemma_upstream_order(executor, first_barrier, first_injected, steps);
    lemma_awaits(state);
    lemma_takes_exactly_what_it_awaits(
        executor.output_indices@,
        state,
        Event::<D>::Inject(Some(barrier)),
    );
    let n = passed_by_snapshot(start, steps) as int;
    assert(barriers_of(upstream(steps)) =~= passed(steps).skip(n) + held(state));
}

/// The sum of the rows of chunks.
pub open spec fn rows_of<D>(chunks: Seq<StreamChunk<D>>) -> nat {
    chunks.fold_left(0nat, |sum: nat, chunk: StreamChunk<D>| sum + chunk.rows@.len())
}

/// While a backfill goes on, the rows of all chunks that came from the upstream are counted, in a
/// count that wraps around.
pub proof fn lemma_upstream_rows_counted<D: Clone>(
    executor: SnapshotBackfillExecutor,
    first_barrier: Barrier,
    first_injected: Barrier,
    steps: Seq<Step<D>>,
)
    requires
        first_barrier.epoch != first_injected.epoch,
        runs(executor.output_indices@, executor.start_state(first_barrier, first_injected), steps),
    ensures
        buffer_of(
            state_after(executor.start_state(first_barrier, first_injected), steps),
        ) matches Some(buffer) ==> buffer.row_count as int == rows_of(
            chunks_of(upstream(steps)),
        ) as int % 0x1_0000_0000_0000_0000,
    decreases steps.len(),
{
    let start = executor.start_state(first_barrier, first_injected);
    if steps.len() > 0 {
        let rest = steps.drop_last();
        let state = state_after(start, rest);
        lemma_upstream_rows_counted(executor, first_barrier, first_injected, rest);
        lemma_upstream_order(executor, first_barrier, first_injected, rest);
        if buffer_of(state_after(start, steps)) is Some {
            let buffer = buffer_of(state)->0;
            if let Event::Upstream(Some(message)) = steps.last().event {
                lemma_consume_one(buffer, message);
                assert(upstream(steps).drop_last() =~= upstream(rest));
                if let Message::Chunk(chunk) = message {
                    assert(chunks_of(upstream(steps)).drop_last() =~= chunks_of(upstream(rest)));
                }
            }
        }
    }
}

/// A run in two parts is a run of the first part, and a run of the second from where that led.
pub proof fn lemma_runs_split<D: Clone>(
    indices: Seq<usize>,
    start: RunState,
    a: Seq<Step<D>>,
    b: Seq<Step<D>>,
)
    ensures
        runs(indices, start, a + b) <==> runs(indices, start, a) && runs(
            indices,
            state_after(start, a),
            b,
        ),
        state_after(start, a + b) == state_after(state_after(start, a), b),
    decreases b.len(),
{
    if b.len() == 0 {
        assert(a + b =~= a);
    } else {
        lemma_runs_split(indices, start, a, b.drop_last());
        assert((a + b).drop_last() =~= a + b.drop_last());
    }
}

/// After the hand-over the upstream is forwarded to the end: what goes downstream from then on is what
/// comes from the upstream from then on, with its output columns.
pub proof fn lemma_after_hand_over<D: Clone>(
    executor: SnapshotBackfillExecutor,
    start: RunState,
    a: Seq<Step<D>>,
    b: Seq<Step<D>>,
)
    requires
        runs(executor.output_indices@, start, a + b),
        state_after(start, a) is Forward,
    ensures
        maps_all(
            upstream(b),
            executor.output_indices@,
            yielded(effects_of(b)) + awaiting_twin(state_after(start, a + b)),
        ),
{
    lemma_runs_split(executor.output_indices@, start, a, b);
    lemma_forwarding(executor.output_indices@, b);
}

/// Where nothing is to be backfilled, a second barrier with the same epoch is taken first; the first
/// barrier of the upstream goes downstream with it, and from then on the upstream is forwarded.
pub proof fn lemma_skip<D: Clone>(
    indices: Seq<usize>,
    first_barrier: Barrier,
    steps: Seq<Step<D>>,
)
    requires
        runs(indices, RunState::Skip { first_barrier }, steps),
        steps.len() > 0,
    ensures
        steps[0].event matches Event::Inject(Some(twin)) && twin.epoch == first_barrier.epoch,
        steps[0].effects == seq![Effect::<D>::Yield(Message::Barrier(first_barrier))],
        state_after(RunState::Skip { first_barrier }, steps.take(1)) is Forward,
        runs(indices, RunState::Forward, steps.skip(1)),
{
    let start = RunState::Skip { first_barrier };
    let one = steps.take(1);
    assert(one + steps.skip(1) =~= steps);
    lemma_runs_split(indices, start, one, steps.skip(1));
    assert(one.drop_last() =~= Seq::<Step<D>>::empty());
    assert(one.last() == steps[0]);
    reveal_with_fuel(state_after, 2);
}

/// Forwarding maps message by message: where no watermark falls away, what goes downstream has as many
/// messages, each the mapped one at its place. Every barrier stays, in its order.
pub proof fn lemma_maps_all<D: Clone>(
    messages: Seq<Message<D>>,
    indices: Seq<usize>,
    out: Seq<Message<D>>,
)
    requires
        maps_all(messages, indices, out),
    ensures
        out.len() <= messages.len(),
        barriers_of(out) == barriers_of(messages),
        chunks_of(out).len() == chunks_of(messages).len(),
        (forall|i: int|
            0 <= i < messages.len() ==> ((#[trigger] messages[i]) matches Message::Watermark(
                watermark,
            ) ==> indices.contains(watermark.col_idx))) ==> {
            &&& out.len() == messages.len()
            &&& forall|i: int|
                0 <= i < out.len() ==> maps_message(
                    messages[i],
                    indices,
                    Some(#[trigger] out[i]),
                )
        },
    decreases messages.len(),
{
    if messages.len() > 0 {
        let rest = messages.drop_last();
        let last = messages.last();
        let all = forall|i: int|
            0 <= i < messages.len() ==> ((#[trigger] messages[i]) matches Message::Watermark(
                watermark,
            ) ==> indices.contains(watermark.col_idx));
        if all {
            assert forall|i: int| 0 <= i < rest.len() implies ((
            #[trigger] rest[i]) matches Message::Watermark(watermark) ==> indices.contains(
                watermark.col_idx,
            )) by {
                assert(rest[i] == messages[i]);
            }
            assert(messages[messages.len() - 1] == last);
        }
        if maps_message(last, indices, None) && maps_all(rest, indices, out) {
            lemma_maps_all(rest, indices, out);
        } else {
            lemma_maps_all(rest, indices, out.drop_last());
            if all {
                assert forall|i: int| 0 <= i < out.len() implies maps_message(
                    messages[i],
                    indices,
                    Some(#[trigger] out[i]),
                ) by {
                    if i < out.len() - 1 {
                        assert(out.drop_last()[i] == out[i]);
                        assert(rest[i] == messages[i]);
                    }
                }
            }
        }
    }
}

} // verus!
