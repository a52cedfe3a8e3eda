//! What holds of every run of a backfill.
//!
//! A run is a sequence of steps. Each is an event, which the backfill accepts where the steps before
//! led and does not fail on, with what the backfill does on it.

use crate::chunk::StreamChunk;
use crate::stream::barrier::{Barrier, EpochPair, Message};
use crate::stream::mapping::maps_message;
use crate::stream::snapshot_backfill::{Effect, Event, RunState, SnapshotBackfillExecutor};
use crate::stream::snapshot_consume::{ConsumePhase, Progress, SnapshotConsumer};
use crate::stream::upstream_buffer::{barriers_of, BufferState};
use vstd::prelude::*;

verus! {

/// An event and what the backfill did on it.
pub struct Step<D> {
    pub event: Event<D>,
    pub effects: Seq<Effect<D>>,
}

/// Where `steps` lead from `start`.
pub open spec fn state_after<D>(start: RunState, steps: Seq<Step<D>>) -> RunState
    decreases steps.len(),
{
    if steps.len() == 0 {
        start
    } else {
        state_after(start, steps.drop_last()).next(steps.last().event)
    }
}

/// `steps` make a run from `start`, where the columns that `indices` name go downstream.
pub open spec fn runs<D: Clone>(indices: Seq<usize>, start: RunState, steps: Seq<Step<D>>) -> bool
    decreases steps.len(),
{
    steps.len() == 0 || {
        let before = state_after(start, steps.drop_last());
        &&& runs(indices, start, steps.drop_last())
        &&& before.accepts(indices, steps.last().event)
        &&& before.failure(steps.last().event) is None
        &&& before.does(indices, steps.last().event, steps.last().effects)
    }
}

/// What the backfill did in `steps`.
pub open spec fn effects_of<D>(steps: Seq<Step<D>>) -> Seq<Effect<D>>
    decreases steps.len(),
{
    if steps.len() == 0 {
        Seq::empty()
    } else {
        effects_of(steps.drop_last()) + steps.last().effects
    }
}

/// The messages that `effects` hand downstream.
pub open spec fn yielded<D>(effects: Seq<Effect<D>>) -> Seq<Message<D>>
    decreases effects.len(),
{
    if effects.len() == 0 {
        Seq::empty()
    } else {
        match effects.last() {
            Effect::Yield(message) => yielded(effects.drop_last()).push(message),
            _ => yielded(effects.drop_last()),
        }
    }
}

/// What `effects` report.
pub open spec fn reported<D>(effects: Seq<Effect<D>>) -> Seq<Progress>
    decreases effects.len(),
{
    if effects.len() == 0 {
        Seq::empty()
    } else {
        match effects.last() {
            Effect::Report(progress) => reported(effects.drop_last()).push(progress),
            _ => reported(effects.drop_last()),
        }
    }
}

/// The epochs whose change logs `effects` begin to read.
pub open spec fn logs_read<D>(effects: Seq<Effect<D>>) -> Seq<u64>
    decreases effects.len(),
{
    if effects.len() == 0 {
        Seq::empty()
    } else {
        match effects.last() {
            Effect::ReadLog(epoch) => logs_read(effects.drop_last()).push(epoch),
            _ => logs_read(effects.drop_last()),
        }
    }
}

/// The epochs whose snapshots `effects` begin to read.
pub open spec fn snapshots_read<D>(effects: Seq<Effect<D>>) -> Seq<u64>
    decreases effects.len(),
{
    if effects.len() == 0 {
        Seq::empty()
    } else {
        match effects.last() {
            Effect::ReadSnapshot(epoch) => snapshots_read(effects.drop_last()).push(epoch),
            _ => snapshots_read(effects.drop_last()),
        }
    }
}

/// The barriers that were injected.
pub open spec fn injected<D>(steps: Seq<Step<D>>) -> Seq<Barrier>
    decreases steps.len(),
{
    if steps.len() == 0 {
        Seq::empty()
    } else {
        match steps.last().event {
            Event::Inject(Some(barrier)) => injected(steps.drop_last()).push(barrier),
            _ => injected(steps.drop_last()),
        }
    }
}

/// The messages that came from the upstream.
pub open spec fn upstream<D>(steps: Seq<Step<D>>) -> Seq<Message<D>>
    decreases steps.len(),
{
    if steps.len() == 0 {
        Seq::empty()
    } else {
        match steps.last().event {
            Event::Upstream(Some(message)) => upstream(steps.drop_last()).push(message),
            _ => upstream(steps.drop_last()),
        }
    }
}

/// The epochs of barriers.
pub open spec fn epochs(barriers: Seq<Barrier>) -> Seq<EpochPair> {
    Seq::new(barriers.len(), |i: int| barriers[i].epoch)
}

/// The barriers that went downstream in a run.
pub open spec fn passed<D>(steps: Seq<Step<D>>) -> Seq<Barrier> {
    barriers_of(yielded(effects_of(steps)))
}

/// The barrier that goes downstream on an event, if one does.
pub open spec fn passes<D>(state: RunState, event: Event<D>) -> Option<Barrier> {
    match (state, event) {
        (RunState::SnapshotStart { injected, .. }, Event::Quiet) => Some(injected),
        (RunState::Snapshot { .. }, Event::Inject(Some(barrier))) => Some(barrier),
        (RunState::SnapshotDone { first_barrier, .. }, Event::Inject(_)) => Some(first_barrier),
        (RunState::LogRead { barrier, .. }, Event::Log(None)) => Some(barrier),
        (RunState::Skip { first_barrier }, Event::Inject(_)) => Some(first_barrier),
        (RunState::ForwardInject { barrier }, Event::Inject(_)) => Some(barrier),
        _ => None,
    }
}

/// A backfill takes only what it awaits: nothing from the snapshot while the rate limit holds it
/// back, and nothing from the upstream once the buffer is finished, until it forwards.
pub proof fn lemma_takes_what_it_awaits<D>(
    indices: Seq<usize>,
    state: RunState,
    event: Event<D>,
)
    requires
        state.accepts(indices, event),
    ensures
        match event {
            Event::Inject(_) => state.awaits().inject,
            Event::Upstream(_) => state.awaits().upstream,
            Event::Snapshot(_) => state.awaits().snapshot,
            Event::Log(_) => state.awaits().log,
            Event::Quiet => state.awaits().quiet,
        },
{
}

proof fn lemma_barriers_of_push<D>(messages: Seq<Message<D>>, message: Message<D>)
    ensures
        barriers_of(messages.push(message)) == match message {
            Message::Barrier(barrier) => barriers_of(messages).push(barrier),
            _ => barriers_of(messages),
        },
{
    assert(messages.push(message).drop_last() =~= messages);
}

proof fn lemma_effects_concat<D>(a: Seq<Effect<D>>, b: Seq<Effect<D>>)
    ensures
        yielded(a + b) == yielded(a) + yielded(b),
        reported(a + b) == reported(a) + reported(b),
        logs_read(a + b) == logs_read(a) + logs_read(b),
        snapshots_read(a + b) == snapshots_read(a) + snapshots_read(b),
    decreases b.len(),
{
    if b.len() == 0 {
        assert(a + b =~= a);
        assert(yielded(a) + yielded(b) =~= yielded(a));
        assert(reported(a) + reported(b) =~= reported(a));
        assert(logs_read(a) + logs_read(b) =~= logs_read(a));
        assert(snapshots_read(a) + snapshots_read(b) =~= snapshots_read(a));
    } else {
        lemma_effects_concat(a, b.drop_last());
        assert((a + b).drop_last() =~= a + b.drop_last());
        assert(yielded(a + b) =~= yielded(a) + yielded(b));
        assert(reported(a + b) =~= reported(a) + reported(b));
        assert(logs_read(a + b) =~= logs_read(a) + logs_read(b));
        assert(snapshots_read(a + b) =~= snapshots_read(a) + snapshots_read(b));
    }
}

/// The message that an effect hands downstream, if it does that.
spec fn message_of<D>(effect: Effect<D>) -> Seq<Message<D>> {
    match effect {
        Effect::Yield(message) => seq![message],
        _ => Seq::empty(),
    }
}

/// What an effect reports, if it does that.
spec fn report_of<D>(effect: Effect<D>) -> Seq<Progress> {
    match effect {
        Effect::Report(progress) => seq![progress],
        _ => Seq::empty(),
    }
}

/// The epoch whose log an effect begins to read, if it does that.
spec fn log_of<D>(effect: Effect<D>) -> Seq<u64> {
    match effect {
        Effect::ReadLog(epoch) => seq![epoch],
        _ => Seq::empty(),
    }
}

/// The epoch whose snapshot an effect begins to read, if it does that.
spec fn snapshot_of<D>(effect: Effect<D>) -> Seq<u64> {
    match effect {
        Effect::ReadSnapshot(epoch) => seq![epoch],
        _ => Seq::empty(),
    }
}

/// One step has at most two effects.
proof fn lemma_few_effects<D>(done: Seq<Effect<D>>)
    requires
        done.len() <= 2,
    ensures
        done.len() == 0 ==> {
            &&& yielded(done) == Seq::<Message<D>>::empty()
            &&& reported(done) == Seq::<Progress>::empty()
            &&& logs_read(done) == Seq::<u64>::empty()
            &&& snapshots_read(done) == Seq::<u64>::empty()
        },
        done.len() == 1 ==> {
            &&& yielded(done) == message_of(done[0])
            &&& reported(done) == report_of(done[0])
            &&& logs_read(done) == log_of(done[0])
            &&& snapshots_read(done) == snapshot_of(done[0])
        },
        done.len() == 2 ==> {
            &&& yielded(done) == message_of(done[0]) + message_of(done[1])
            &&& reported(done) == report_of(done[0]) + report_of(done[1])
            &&& logs_read(done) == log_of(done[0]) + log_of(done[1])
            &&& snapshots_read(done) == snapshot_of(done[0]) + snapshot_of(done[1])
        },
{
    reveal_with_fuel(yielded, 3);
    reveal_with_fuel(reported, 3);
    reveal_with_fuel(logs_read, 3);
    reveal_with_fuel(snapshots_read, 3);
    if done.len() == 1 {
        assert(done.drop_last() =~= Seq::<Effect<D>>::empty());
        assert(yielded(done) =~= message_of(done[0]));
        assert(reported(done) =~= report_of(done[0]));
        assert(logs_read(done) =~= log_of(done[0]));
        assert(snapshots_read(done) =~= snapshot_of(done[0]));
    } else if done.len() == 2 {
        assert(done.drop_last().drop_last() =~= Seq::<Effect<D>>::empty());
        assert(yielded(done) =~= message_of(done[0]) + message_of(done[1]));
        assert(reported(done) =~= report_of(done[0]) + report_of(done[1]));
        assert(logs_read(done) =~= log_of(done[0]) + log_of(done[1]));
        assert(snapshots_read(done) =~= snapshot_of(done[0]) + snapshot_of(done[1]));
    }
}

/// What one step hands downstream, reports and begins to read.
proof fn lemma_step_effects<D: Clone>(
    indices: Seq<usize>,
    state: RunState,
    event: Event<D>,
    done: Seq<Effect<D>>,
)
    requires
        state.does(indices, event, done),
    ensures
        barriers_of(yielded(done)) == match passes(state, event) {
            Some(barrier) => seq![barrier],
            None => Seq::empty(),
        },
        yielded(done).len() <= 1,
        passes(state, event) matches Some(barrier) ==> yielded(done) == seq![
            Message::<D>::Barrier(barrier),
        ],
        reported(done) == match (state, event) {
            (RunState::Snapshot { consumer, .. }, Event::Inject(Some(barrier))) => {
                match consumer.report(barrier.epoch) {
                    Some(progress) => seq![progress],
                    None => Seq::empty(),
                }
            },
            _ => Seq::empty(),
        },
        logs_read(done) == match (state, event) {
            (RunState::LogInject { barrier, .. }, Event::Inject(_)) => seq![barrier.epoch.prev],
            _ => Seq::empty(),
        },
        snapshots_read(done) == match (state, event) {
            (RunState::SnapshotStart { consumer, .. }, Event::Quiet) => seq![
                consumer.snapshot_epoch,
            ],
            _ => Seq::empty(),
        },
{
    lemma_few_effects(done);
    reveal_with_fuel(barriers_of, 2);
    let y = yielded(done);
    if done.len() == 2 {
        assert(y =~= match done[0] {
            Effect::Yield(message) => seq![message],
            _ => message_of(done[1]),
        });
        assert(reported(done) =~= report_of(done[0]));
        assert(logs_read(done) =~= Seq::<u64>::empty());
        assert(snapshots_read(done) =~= snapshot_of(done[1]));
    }
    if y.len() == 1 {
        assert(y.drop_last() =~= Seq::<Message<D>>::empty());
        if let Message::Barrier(barrier) = y[0] {
            assert(barriers_of(y) =~= seq![barrier]);
        }
    }
}

/// What one step adds to a run.
pub proof fn lemma_step<D: Clone>(indices: Seq<usize>, start: RunState, steps: Seq<Step<D>>)
    requires
        runs(indices, start, steps),
        steps.len() > 0,
    ensures
        ({
            let rest = steps.drop_last();
            let done = steps.last().effects;
            &&& yielded(effects_of(steps)) == yielded(effects_of(rest)) + yielded(done)
            &&& reported(effects_of(steps)) == reported(effects_of(rest)) + reported(done)
            &&& logs_read(effects_of(steps)) == logs_read(effects_of(rest)) + logs_read(done)
            &&& snapshots_read(effects_of(steps)) == snapshots_read(effects_of(rest))
                + snapshots_read(done)
            &&& passed(steps) == match passes(state_after(start, rest), steps.last().event) {
                Some(barrier) => passed(rest).push(barrier),
                None => passed(rest),
            }
        }),
{
    let rest = steps.drop_last();
    let state = state_after(start, rest);
    let event = steps.last().event;
    let done = steps.last().effects;
    lemma_effects_concat(effects_of(rest), done);
    lemma_step_effects(indices, state, event, done);
    let y = yielded(effects_of(rest));
    let added = yielded(done);
    if added.len() == 0 {
        assert(y + added =~= y);
    } else {
        assert(y + added =~= y.push(added[0]));
        lemma_barriers_of_push(y, added[0]);
        reveal_with_fuel(barriers_of, 2);
        assert(added.drop_last() =~= Seq::<Message<D>>::empty());
        if added[0] is Barrier {
            assert(barriers_of(added) =~= seq![added[0]->Barrier_0]);
            if passes(state, event) is None {
                assert(barriers_of(added).len() == 0);
            }
        }
    }
}

/// The epoch of the barrier whose changes are being read.
pub open spec fn being_read(state: RunState) -> Seq<EpochPair> {
    match state {
        RunState::LogRead { barrier, .. } => seq![barrier.epoch],
        _ => Seq::empty(),
    }
}

/// The epoch of the injected barrier whose turn to go downstream has yet to come.
pub open spec fn outstanding(state: RunState) -> Seq<EpochPair> {
    match state {
        RunState::SnapshotStart { injected, .. } => seq![injected.epoch],
        _ => being_read(state),
    }
}

/// Barriers go downstream in step with the injected ones: for each barrier that is injected one with
/// the same epoch goes downstream, in the same order. The turn of the first one comes once the
/// upstream has nothing to offer, that of one whose changes are being read once they are read.
pub proof fn lemma_barriers_in_step<D: Clone>(
    indices: Seq<usize>,
    start: RunState,
    steps: Seq<Step<D>>,
)
    requires
        runs(indices, start, steps),
    ensures
        outstanding(start) + epochs(injected(steps)) == epochs(passed(steps)) + outstanding(
            state_after(start, steps),
        ),
    decreases steps.len(),
{
    if steps.len() == 0 {
        assert(outstanding(start) + epochs(injected(steps)) =~= epochs(passed(steps))
            + outstanding(start));
    } else {
        let rest = steps.drop_last();
        let state = state_after(start, rest);
        let event = steps.last().event;
        lemma_barriers_in_step(indices, start, rest);
        lemma_step(indices, start, steps);
        let before = outstanding(start) + epochs(injected(rest));
        let all = outstanding(start) + epochs(injected(steps));
        if let Event::Inject(Some(barrier)) = event {
            assert(epochs(injected(steps)) =~= epochs(injected(rest)).push(barrier.epoch));
            assert(all =~= before.push(barrier.epoch));
        }
        if let Some(barrier) = passes(state, event) {
            assert(epochs(passed(steps)) =~= epochs(passed(rest)).push(barrier.epoch));
        }
        assert(all =~= epochs(passed(steps)) + outstanding(state_after(start, steps)));
    }
}

/// The backfill has not handed over to forwarding.
pub open spec fn backfills(state: RunState) -> bool {
    match state {
        RunState::SnapshotStart { .. } => true,
        RunState::Snapshot { .. } => true,
        RunState::SnapshotDone { .. } => true,
        RunState::LogNext { .. } => true,
        RunState::LogInject { .. } => true,
        RunState::LogRead { .. } => true,
        _ => false,
    }
}

/// All but perhaps the last of `steps` were taken before the backfill handed over to forwarding.
pub open spec fn within_backfill<D>(start: RunState, steps: Seq<Step<D>>) -> bool {
    steps.len() > 0 ==> backfills(state_after(start, steps.drop_last()))
}

pub proof fn lemma_within_backfill<D: Clone>(
    indices: Seq<usize>,
    start: RunState,
    steps: Seq<Step<D>>,
)
    requires
        runs(indices, start, steps),
        steps.len() > 0,
        backfills(state_after(start, steps)),
    ensures
        backfills(state_after(start, steps.drop_last())),
{
}

/// The epoch at `i` begins where the one before it ends.
pub open spec fn linked_at(s: Seq<EpochPair>, i: int) -> bool {
    s[i].prev == s[i - 1].curr
}

/// Each epoch begins where the one before it ends.
pub open spec fn linked(s: Seq<EpochPair>) -> bool {
    forall|i: int| 0 < i < s.len() ==> #[trigger] linked_at(s, i)
}

proof fn lemma_linked_push(s: Seq<EpochPair>, epoch: EpochPair)
    requires
        linked(s),
        s.len() > 0,
        epoch.prev == s.last().curr,
    ensures
        linked(s.push(epoch)),
{
    let t = s.push(epoch);
    assert forall|i: int| 0 < i < t.len() implies #[trigger] linked_at(t, i) by {
        if i < s.len() {
            assert(linked_at(s, i));
        }
    }
}

/// How the epochs that went downstream stand to the state of a backfill.
pub open spec fn epochs_fit(state: RunState, first_injected: Barrier, all: Seq<EpochPair>) -> bool {
    if let RunState::SnapshotStart { first_barrier, injected, consumer, .. } = state {
        &&& all.len() == 0
        &&& injected == first_injected
        &&& consumer.barrier_epoch == injected.epoch
        &&& consumer.snapshot_epoch == first_barrier.epoch.prev
        &&& consumer.phase == ConsumePhase::Reading
    } else {
        let last = all.last();
        &&& all.len() > 0
        &&& match state {
            RunState::Snapshot { first_barrier, consumer, .. } => {
                &&& last == consumer.barrier_epoch
                &&& consumer.snapshot_epoch == first_barrier.epoch.prev
                &&& consumer.phase == ConsumePhase::Done ==> last.curr == consumer.snapshot_epoch
            },
            RunState::SnapshotDone { first_barrier, .. } => last.curr == first_barrier.epoch.prev,
            RunState::LogNext { barrier_epoch, .. } => last == barrier_epoch,
            RunState::LogInject { barrier_epoch, .. } => last == barrier_epoch,
            RunState::LogRead { barrier, .. } => last.curr == barrier.epoch.prev,
            _ => true,
        }
    }
}

pub proof fn lemma_epochs_linked_and_fit<D: Clone>(
    executor: SnapshotBackfillExecutor,
    first_barrier: Barrier,
    first_injected: Barrier,
    steps: Seq<Step<D>>,
)
    requires
        first_barrier.epoch != first_injected.epoch,
        runs(executor.output_indices@, executor.start_state(first_barrier, first_injected), steps),
        within_backfill(executor.start_state(first_barrier, first_injected), steps),
    ensures
        ({
            let start = executor.start_state(first_barrier, first_injected);
            &&& linked(epochs(passed(steps)))
            &&& passed(steps).len() > 0 ==> passed(steps)[0] == first_injected
            &&& epochs_fit(state_after(start, steps), first_injected, epochs(passed(steps)))
        }),
    decreases steps.len(),
{
    let start = executor.start_state(first_barrier, first_injected);
    let all = epochs(passed(steps));
    if steps.len() > 0 {
        let rest = steps.drop_last();
        let state = state_after(start, rest);
        let event = steps.last().event;
        if rest.len() > 0 {
            lemma_within_backfill(executor.output_indices@, start, rest);
        }
        lemma_epochs_linked_and_fit(executor, first_barrier, first_injected, rest);
        lemma_step(executor.output_indices@, start, steps);
        let before = epochs(passed(rest));
        match passes(state, event) {
            Some(barrier) => {
                assert(all =~= before.push(barrier.epoch));
                if before.len() > 0 {
                    lemma_linked_push(before, barrier.epoch);
                }
            },
            None => {
                assert(all =~= before);
            },
        }
    }
}

/// No epoch is skipped: the first injected barrier is the first that a backfill lets through, and
/// every later one begins where the one before it ends, across the snapshot and the log store.
pub proof fn lemma_epochs_linked<D: Clone>(
    executor: SnapshotBackfillExecutor,
    first_barrier: Barrier,
    first_injected: Barrier,
    steps: Seq<Step<D>>,
)
    requires
        first_barrier.epoch != first_injected.epoch,
        runs(executor.output_indices@, executor.start_state(first_barrier, first_injected), steps),
        within_backfill(executor.start_state(first_barrier, first_injected), steps),
    ensures
        passed(steps).len() > 0 ==> passed(steps)[0] == first_injected,
        linked(epochs(passed(steps))),
{
    lemma_epochs_linked_and_fit(executor, first_barrier, first_injected, steps);
}

/// The snapshot is read once, as of the epoch that the first barrier of the upstream ends, right
/// after the first injected barrier went downstream.
pub proof fn lemma_snapshot_read_once<D: Clone>(
    executor: SnapshotBackfillExecutor,
    first_barrier: Barrier,
    first_injected: Barrier,
    steps: Seq<Step<D>>,
)
    requires
        first_barrier.epoch != first_injected.epoch,
        runs(executor.output_indices@, executor.start_state(first_barrier, first_injected), steps),
    ensures
        ({
            let state = state_after(executor.start_state(first_barrier, first_injected), steps);
            &&& snapshots_read(effects_of(steps)) == if passed(steps).len() == 0 {
                Seq::empty()
            } else {
                seq![first_barrier.epoch.prev]
            }
            &&& passed(steps).len() == 0 <==> state is SnapshotStart
            &&& state matches RunState::SnapshotStart { consumer, .. } ==> consumer.snapshot_epoch
                == first_barrier.epoch.prev
        }),
    decreases steps.len(),
{
    let start = executor.start_state(first_barrier, first_injected);
    if steps.len() > 0 {
        let rest = steps.drop_last();
        let state = state_after(start, rest);
        let done = steps.last().effects;
        lemma_snapshot_read_once(executor, first_barrier, first_injected, rest);
        lemma_step(executor.output_indices@, start, steps);
        lemma_step_effects(executor.output_indices@, state, steps.last().event, done);
        let before = snapshots_read(effects_of(rest));
        if snapshots_read(done).len() == 0 {
            assert(before + snapshots_read(done) =~= before);
        } else {
            assert(before + snapshots_read(done) =~= seq![first_barrier.epoch.prev]);
        }
    }
}

/// Number of rows that came from the snapshot.
pub open spec fn snapshot_rows<D>(steps: Seq<Step<D>>) -> nat
    decreases steps.len(),
{
    if steps.len() == 0 {
        0
    } else {
        match steps.last().event {
            Event::Snapshot(Some(chunk)) => snapshot_rows(steps.drop_last()) + chunk.rows@.len(),
            _ => snapshot_rows(steps.drop_last()),
        }
    }
}

/// Number of rows that came from the snapshot since a barrier was injected last.
pub open spec fn rows_since_barrier<D>(steps: Seq<Step<D>>) -> nat
    decreases steps.len(),
{
    if steps.len() == 0 {
        0
    } else {
        match steps.last().event {
            Event::Inject(_) => 0,
            Event::Snapshot(Some(chunk)) => rows_since_barrier(steps.drop_last())
                + chunk.rows@.len(),
            _ => rows_since_barrier(steps.drop_last()),
        }
    }
}

/// The snapshot came to its end.
pub open spec fn snapshot_ended<D>(steps: Seq<Step<D>>) -> bool
    decreases steps.len(),
{
    steps.len() > 0 && {
        ||| steps.last().event matches Event::Snapshot(None)
        ||| snapshot_ended(steps.drop_last())
    }
}

/// An update for each barrier that was injected while the snapshot was read: with the epoch of the
/// barrier, the epoch that it ends, and the number of rows that came before it.
pub open spec fn updates_due<D>(steps: Seq<Step<D>>) -> Seq<Progress>
    decreases steps.len(),
{
    if steps.len() == 0 {
        Seq::empty()
    } else {
        let rest = steps.drop_last();
        match steps.last().event {
            Event::Inject(Some(barrier)) if !snapshot_ended(rest) => updates_due(rest).push(
                Progress::Update {
                    epoch: barrier.epoch,
                    consumed_epoch: barrier.epoch.prev,
                    consumed_rows: snapshot_rows(rest) as u64,
                },
            ),
            _ => updates_due(rest),
        }
    }
}

/// The epoch of the first barrier that was injected after the end of the snapshot.
pub open spec fn first_after_end<D>(steps: Seq<Step<D>>) -> Option<EpochPair>
    decreases steps.len(),
{
    if steps.len() == 0 {
        None
    } else {
        let rest = steps.drop_last();
        match (first_after_end(rest), steps.last().event) {
            (None, Event::Inject(Some(barrier))) if snapshot_ended(rest) => Some(barrier.epoch),
            (first, _) => first,
        }
    }
}

/// The report that the snapshot is read, with the first barrier after its end and the number of all
/// rows that came from it.
pub open spec fn finish_due<D>(steps: Seq<Step<D>>) -> Seq<Progress> {
    match first_after_end(steps) {
        Some(epoch) => seq![
            Progress::Finish { epoch, consumed_rows: snapshot_rows(steps) as u64 },
        ],
        None => Seq::empty(),
    }
}

/// What consumes the snapshot, as long as it is consumed.
pub open spec fn consumer_of(state: RunState) -> Option<SnapshotConsumer> {
    match state {
        RunState::SnapshotStart { consumer, .. } => Some(consumer),
        RunState::Snapshot { consumer, .. } => Some(consumer),
        _ => None,
    }
}

/// The phase of the consumer tells which reports are made.
pub open spec fn phase_fits<D>(phase: ConsumePhase, steps: Seq<Step<D>>) -> bool {
    match phase {
        ConsumePhase::Reading => !snapshot_ended(steps) && first_after_end(steps) is None,
        ConsumePhase::ReportFinish => snapshot_ended(steps) && first_after_end(steps) is None,
        _ => snapshot_ended(steps) && first_after_end(steps) is Some,
    }
}

/// What is reported is, in this order: an update for each barrier that is injected while the snapshot
/// is read, with the number of rows that came before it, then once, with the first barrier after its
/// end, that the snapshot is read, with the number of all its rows. Nothing else is reported.
pub proof fn lemma_progress<D: Clone>(
    executor: SnapshotBackfillExecutor,
    first_barrier: Barrier,
    first_injected: Barrier,
    steps: Seq<Step<D>>,
)
    requires
        first_barrier.epoch != first_injected.epoch,
        runs(executor.output_indices@, executor.start_state(first_barrier, first_injected), steps),
    ensures
        reported(effects_of(steps)) == updates_due(steps) + finish_due(steps),
        ({
            let state = state_after(executor.start_state(first_barrier, first_injected), steps);
            &&& !(state is Skip)
            &&& match consumer_of(state) {
                Some(consumer) => {
                    &&& consumer.count == snapshot_rows(steps)
                    &&& phase_fits(consumer.phase, steps)
                },
                None => snapshot_ended(steps) && first_after_end(steps) is Some,
            }
        }),
    decreases steps.len(),
{
    let start = executor.start_state(first_barrier, first_injected);
    let due = updates_due(steps) + finish_due(steps);
    if steps.len() == 0 {
        assert(reported(effects_of(steps)) =~= due);
    } else {
        let rest = steps.drop_last();
        let state = state_after(start, rest);
        let event = steps.last().event;
        lemma_progress(executor, first_barrier, first_injected, rest);
        lemma_step(executor.output_indices@, start, steps);
        let done = steps.last().effects;
        lemma_step_effects(executor.output_indices@, state, event, done);
        assert(reported(effects_of(steps)) =~= due);
    }
}

/// While the snapshot is consumed the injected barriers themselves go downstream, the first one
/// first; before that one has gone, no other is taken.
pub proof fn lemma_injected_pass<D: Clone>(
    executor: SnapshotBackfillExecutor,
    first_barrier: Barrier,
    first_injected: Barrier,
    steps: Seq<Step<D>>,
)
    requires
        first_barrier.epoch != first_injected.epoch,
        runs(executor.output_indices@, executor.start_state(first_barrier, first_injected), steps),
        before_log(state_after(executor.start_state(first_barrier, first_injected), steps)),
    ensures
        match state_after(executor.start_state(first_barrier, first_injected), steps) {
            RunState::SnapshotStart { injected: first, .. } => {
                &&& first == first_injected
                &&& passed(steps) == Seq::<Barrier>::empty()
                &&& injected(steps) == Seq::<Barrier>::empty()
            },
            _ => passed(steps) == seq![first_injected] + injected(steps),
        },
    decreases steps.len(),
{
    let start = executor.start_state(first_barrier, first_injected);
    if steps.len() == 0 {
        assert(passed(steps) =~= Seq::<Barrier>::empty());
    } else {
        let rest = steps.drop_last();
        lemma_injected_pass(executor, first_barrier, first_injected, rest);
        lemma_step(executor.output_indices@, start, steps);
        if !(state_after(start, steps) is SnapshotStart) {
            assert(passed(steps) =~= seq![first_injected] + injected(steps));
        }
    }
}

/// The rate limit is kept: if no chunk of the snapshot has more than `batch_size` rows, then between
/// two barriers at most a chunk more than the limit is let through.
pub proof fn lemma_rate_limit<D: Clone>(
    executor: SnapshotBackfillExecutor,
    first_barrier: Barrier,
    first_injected: Barrier,
    steps: Seq<Step<D>>,
    batch_size: nat,
)
    requires
        first_barrier.epoch != first_injected.epoch,
        runs(executor.output_indices@, executor.start_state(first_barrier, first_injected), steps),
        forall|i: int|
            0 <= i < steps.len() ==> ((#[trigger] steps[i]).event matches Event::Snapshot(
                Some(chunk),
            ) ==> chunk.rows@.len() <= batch_size),
    ensures
        ({
            let state = state_after(executor.start_state(first_barrier, first_injected), steps);
            consumer_of(state) matches Some(consumer) ==> {
                &&& consumer.rate_limit == executor.rate_limit
                &&& consumer.phase == ConsumePhase::Reading ==> consumer.epoch_row_count
                    == rows_since_barrier(steps)
                &&& executor.rate_limit matches Some(limit) ==> consumer.epoch_row_count <= limit
                    + batch_size
            }
        }),
    decreases steps.len(),
{
    if steps.len() > 0 {
        let rest = steps.drop_last();
        assert forall|i: int| 0 <= i < rest.len() implies ((#[trigger] rest[i]).event matches Event::Snapshot(
            Some(chunk),
        ) ==> chunk.rows@.len() <= batch_size) by {
            assert(rest[i] == steps[i]);
        }
        lemma_rate_limit(executor, first_barrier, first_injected, rest, batch_size);
        assert(steps.last() == steps[steps.len() - 1]);
    }
}

/// The barriers of the upstream that a backfill holds, in the order of their arrival.
pub open spec fn held(state: RunState) -> Seq<Barrier> {
    match state {
        RunState::SnapshotStart { buffer, .. } => buffer.waiting,
        RunState::Snapshot { buffer, .. } => buffer.waiting,
        RunState::SnapshotDone { buffer, .. } => buffer.waiting,
        RunState::LogNext { buffer, .. } => buffer.waiting,
        RunState::LogInject { barrier, buffer, .. } => seq![barrier] + buffer.waiting,
        RunState::LogRead { barrier, buffer } => seq![barrier] + buffer.waiting,
        RunState::ForwardInject { barrier } => seq![barrier],
        _ => Seq::empty(),
    }
}

/// The backfill has yet to turn to the log store.
pub open spec fn before_log(state: RunState) -> bool {
    match state {
        RunState::SnapshotStart { .. } => true,
        RunState::Snapshot { .. } => true,
        RunState::SnapshotDone { .. } => true,
        _ => false,
    }
}

/// Number of barriers that went downstream before the log store was turned to: the injected ones that
/// passed while the snapshot was consumed, and the first barrier.
pub open spec fn passed_by_snapshot<D>(start: RunState, steps: Seq<Step<D>>) -> nat
    decreases steps.len(),
{
    if steps.len() == 0 {
        0
    } else {
        let rest = steps.drop_last();
        let state = state_after(start, rest);
        if before_log(state) && passes(state, steps.last().event) is Some {
            passed_by_snapshot(start, rest) + 1
        } else {
            passed_by_snapshot(start, rest)
        }
    }
}

/// The buffer of the upstream, while there is one.
pub open spec fn buffer_of(state: RunState) -> Option<BufferState> {
    match state {
        RunState::SnapshotStart { buffer, .. } => Some(buffer),
        RunState::Snapshot { buffer, .. } => Some(buffer),
        RunState::SnapshotDone { buffer, .. } => Some(buffer),
        RunState::LogNext { buffer, .. } => Some(buffer),
        RunState::LogInject { buffer, .. } => Some(buffer),
        RunState::LogRead { buffer, .. } => Some(buffer),
        _ => None,
    }
}

/// The next barrier of the upstream is awaited only where none waits and the buffer is not finished.
pub open spec fn awaits_only_when_empty(state: RunState) -> bool {
    state matches RunState::LogNext { buffer, .. } ==> buffer.waiting.len() == 0
        && !buffer.is_finished
}

proof fn lemma_held_of_next<D>(indices: Seq<usize>, state: RunState, event: Event<D>)
    requires
        state.accepts(indices, event),
        state.failure(event) is None,
        !(state is Skip),
        awaits_only_when_empty(state),
    ensures
        awaits_only_when_empty(state.next(event)),
        ({
            let arrived = match event {
                Event::Upstream(Some(Message::Barrier(barrier))) => seq![barrier],
                _ => Seq::empty(),
            };
            let left = if before_log(state) {
                Seq::empty()
            } else {
                match passes(state, event) {
                    Some(barrier) => seq![barrier],
                    None => Seq::empty(),
                }
            };
            held(state) + arrived == left + held(state.next(event))
        }),
{
    let arrived = match event {
        Event::Upstream(Some(Message::Barrier(barrier))) => seq![barrier],
        _ => Seq::empty(),
    };
    let left = if before_log(state) {
        Seq::empty()
    } else {
        match passes(state, event) {
            Some(barrier) => seq![barrier],
            None => Seq::empty(),
        }
    };
    if let Some(buffer) = buffer_of(state) {
        if buffer.waiting.len() > 0 {
            assert(buffer.waiting =~= seq![buffer.waiting[0]] + buffer.waiting.drop_first());
        }
    }
    assert(held(state) + arrived =~= left + held(state.next(event)));
}

/// The barriers of the upstream go downstream in the order of their arrival, each once: those that
/// went after the snapshot was consumed, followed by those that are held, are all that arrived.
pub proof fn lemma_upstream_order<D: Clone>(
    executor: SnapshotBackfillExecutor,
    first_barrier: Barrier,
    first_injected: Barrier,
    steps: Seq<Step<D>>,
)
    requires
        first_barrier.epoch != first_injected.epoch,
        runs(executor.output_indices@, executor.start_state(first_barrier, first_injected), steps),
    ensures
        ({
            let start = executor.start_state(first_barrier, first_injected);
            let state = state_after(start, steps);
            let n = passed_by_snapshot(start, steps);
            &&& n <= passed(steps).len()
            &&& before_log(state) ==> n == passed(steps).len()
            &&& passed(steps).skip(n as int) + held(state) == barriers_of(upstream(steps))
            &&& !(state is Skip)
            &&& awaits_only_when_empty(state)
        }),
    decreases steps.len(),
{
    let start = executor.start_state(first_barrier, first_injected);
    if steps.len() == 0 {
        assert(passed(steps).skip(0) + held(start) =~= barriers_of(upstream(steps)));
    } else {
        let rest = steps.drop_last();
        let state = state_after(start, rest);
        let event = steps.last().event;
        lemma_upstream_order(executor, first_barrier, first_injected, rest);
        lemma_step(executor.output_indices@, start, steps);
        lemma_held_of_next(executor.output_indices@, state, event);
        let m = passed_by_snapshot(start, rest) as int;
        let n = passed_by_snapshot(start, steps) as int;
        let after = state_after(start, steps);
        let arrived = match event {
            Event::Upstream(Some(Message::Barrier(barrier))) => seq![barrier],
            _ => Seq::empty(),
        };
        match event {
            Event::Upstream(Some(message)) => {
                lemma_barriers_of_push(upstream(rest), message);
            },
            _ => {},
        }
        assert(barriers_of(upstream(steps)) =~= barriers_of(upstream(rest)) + arrived);
        let x = passed(rest).skip(m);
        let y = passed(steps).skip(n);
        match passes(state, event) {
            Some(barrier) => {
                if before_log(state) {
                    assert(x =~= Seq::<Barrier>::empty());
                    assert(y =~= Seq::<Barrier>::empty());
                    assert(y + held(after) =~= (x + held(state)) + arrived);
                } else {
                    assert(y =~= x + seq![barrier]);
                    assert((x + held(state)) + arrived =~= x + (held(state) + arrived));
                    assert(x + (seq![barrier] + held(after)) =~= y + held(after));
                }
            },
            None => {
                assert(y =~= x);
                assert((x + held(state)) + arrived =~= x + (held(state) + arrived));
                assert(Seq::<Barrier>::empty() + held(after) =~= held(after));
            },
        }
    }
}

/// What the buffer of a backfill tells of the barriers that arrived: each is sound, none but the last
/// drops the subscription, and the buffer is finished exactly if the last one does.
pub open spec fn arrivals_fit(state: RunState, table: BufferState, arrived: Seq<Barrier>) -> bool {
    buffer_of(state) matches Some(buffer) ==> {
        &&& buffer.subscriber_id == table.subscriber_id
        &&& buffer.upstream_table_id == table.upstream_table_id
        &&& forall|i: int| 0 <= i < arrived.len() ==> table.sound(#[trigger] arrived[i])
        &&& buffer.is_finished ==> arrived.len() > 0 && table.finishes(arrived.last())
        &&& forall|i: int|
            0 <= i < arrived.len() && table.finishes(#[trigger] arrived[i]) ==> buffer.is_finished
                && i == arrived.len() - 1
    }
}

pub proof fn lemma_arrivals_fit<D: Clone>(
    executor: SnapshotBackfillExecutor,
    first_barrier: Barrier,
    first_injected: Barrier,
    steps: Seq<Step<D>>,
)
    requires
        first_barrier.epoch != first_injected.epoch,
        runs(executor.output_indices@, executor.start_state(first_barrier, first_injected), steps),
    ensures
        ({
            let start = executor.start_state(first_barrier, first_injected);
            arrivals_fit(
                state_after(start, steps),
                start->SnapshotStart_buffer,
                barriers_of(upstream(steps)),
            )
        }),
    decreases steps.len(),
{
    let start = executor.start_state(first_barrier, first_injected);
    let table = start->SnapshotStart_buffer;
    if steps.len() > 0 {
        let rest = steps.drop_last();
        let state = state_after(start, rest);
        let event = steps.last().event;
        let after = state_after(start, steps);
        lemma_arrivals_fit(executor, first_barrier, first_injected, rest);
        lemma_upstream_order(executor, first_barrier, first_injected, rest);
        if buffer_of(after) is Some {
            assert(buffer_of(state) is Some);
            if let Event::Upstream(Some(message)) = event {
                lemma_barriers_of_push(upstream(rest), message);
            }
        }
    }
}

/// A backfill hands over to forwarding on the barrier that drops its subscription on the upstream
/// table, once that barrier has gone downstream; no barrier before it drops the subscription.
pub proof fn lemma_hand_over<D: Clone>(
    executor: SnapshotBackfillExecutor,
    first_barrier: Barrier,
    first_injected: Barrier,
    steps: Seq<Step<D>>,
)
    requires
        first_barrier.epoch != first_injected.epoch,
        steps.len() > 0,
        runs(executor.output_indices@, executor.start_state(first_barrier, first_injected), steps),
        backfills(
            state_after(executor.start_state(first_barrier, first_injected), steps.drop_last()),
        ),
        !backfills(state_after(executor.start_state(first_barrier, first_injected), steps)),
    ensures
        ({
            let start = executor.start_state(first_barrier, first_injected);
            let subscriber = first_barrier.added_subscribers(executor.upstream_table_id)[0];
            let last = passed(steps).last();
            &&& state_after(start, steps) is Forward
            &&& passed(steps).len() > 0
            &&& last.drops_subscription(subscriber, executor.upstream_table_id)
            &&& barriers_of(upstream(steps)).len() > 0
            &&& barriers_of(upstream(steps)).last() == last
            &&& forall|i: int|
                0 <= i < barriers_of(upstream(steps)).len() - 1
                    ==> !(#[trigger] barriers_of(upstream(steps))[i]).drops_subscriber(subscriber)
        }),
{
    let start = executor.start_state(first_barrier, first_injected);
    let rest = steps.drop_last();
    let state = state_after(start, rest);
    let table = start->SnapshotStart_buffer;
    lemma_arrivals_fit(executor, first_barrier, first_injected, rest);
    lemma_upstream_order(executor, first_barrier, first_injected, rest);
    lemma_upstream_order(executor, first_barrier, first_injected, steps);
    lemma_step(executor.output_indices@, start, steps);
    let arrived = barriers_of(upstream(rest));
    let m = passed_by_snapshot(start, rest) as int;
    if state is SnapshotDone {
        assert(passed(rest).skip(m) =~= Seq::<Barrier>::empty());
        assert(held(state) =~= arrived);
    }
    assert(state is LogRead);
    assert(barriers_of(upstream(steps)) == arrived);
    assert(held(state) =~= seq![held(state)[0]]);
    assert(arrived.last() == held(state)[0]);
    assert(table.sound(arrived.last()));
    let n = passed_by_snapshot(start, steps) as int;
    assert(passed(steps).skip(n) + held(state_after(start, steps)) =~= passed(steps,
    ).skip(n));
}

/// `out` is what becomes of `messages`, in their order, where the columns that `indices` name go
/// downstream: each message is mapped, and only a watermark on a column that does not go there falls
/// away.
pub open spec fn maps_all<D: Clone>(
    messages: Seq<Message<D>>,
    indices: Seq<usize>,
    out: Seq<Message<D>>,
) -> bool
    decreases messages.len(),
{
    if messages.len() == 0 {
        out.len() == 0
    } else {
        ||| {
            &&& maps_message(messages.last(), indices, None)
            &&& maps_all(messages.drop_last(), indices, out)
        }
        ||| {
            &&& out.len() > 0
            &&& maps_message(messages.last(), indices, Some(out.last()))
            &&& maps_all(messages.drop_last(), indices, out.drop_last())
        }
    }
}

/// The barrier that was taken from the upstream to be forwarded and awaits its injected twin.
pub open spec fn awaiting_twin<D>(state: RunState) -> Seq<Message<D>> {
    match state {
        RunState::ForwardInject { barrier } => seq![Message::Barrier(barrier)],
        _ => Seq::empty(),
    }
}

/// Once a backfill forwards, what goes downstream is the upstream with its output columns: the same
/// messages in the same order, a barrier as soon as its injected twin has come, without watermarks
/// on other columns.
pub proof fn lemma_forwarding<D: Clone>(indices: Seq<usize>, steps: Seq<Step<D>>)
    requires
        runs(indices, RunState::Forward, steps),
    ensures
        maps_all(
            upstream(steps),
            indices,
            yielded(effects_of(steps)) + awaiting_twin(state_after(RunState::Forward, steps)),
        ),
        ({
            let state = state_after(RunState::Forward, steps);
            state is Forward || state is ForwardInject || state is Done
        }),
    decreases steps.len(),
{
    let start = RunState::Forward;
    let out = yielded(effects_of(steps)) + awaiting_twin(state_after(start, steps));
    if steps.len() > 0 {
        let rest = steps.drop_last();
        let state = state_after(start, rest);
        let event = steps.last().event;
        let done = steps.last().effects;
        lemma_forwarding(indices, rest);
        lemma_step(indices, start, steps);
        lemma_step_effects(indices, state, event, done);
        lemma_few_effects(done);
        let before = yielded(effects_of(rest)) + awaiting_twin(state);
        if let Event::Upstream(Some(message)) = event {
            assert(upstream(steps).drop_last() =~= upstream(rest));
            if message is Barrier {
                assert(out =~= before.push(message));
                assert(out.drop_last() =~= before);
            } else if done.len() == 0 {
                assert(out =~= before);
            } else {
                assert(out =~= before.push(done[0]->Yield_0));
                assert(out.drop_last() =~= before);
            }
        } else {
            assert(out =~= before);
        }
    }
}

/// The epochs that `s` end.
pub open spec fn ended(s: Seq<EpochPair>) -> Seq<u64> {
    Seq::new(s.len(), |i: int| s[i].prev)
}

/// The change log is read once for every barrier of the upstream that a backfill lets through after
/// the snapshot: for the epoch that the barrier ends, before the barrier goes downstream.
///
/// As those barriers are linked, no epoch between the snapshot and the hand-over is left out.
pub proof fn lemma_logs_read<D: Clone>(
    executor: SnapshotBackfillExecutor,
    first_barrier: Barrier,
    first_injected: Barrier,
    steps: Seq<Step<D>>,
)
    requires
        first_barrier.epoch != first_injected.epoch,
        runs(executor.output_indices@, executor.start_state(first_barrier, first_injected), steps),
        within_backfill(executor.start_state(first_barrier, first_injected), steps),
    ensures
        ({
            let start = executor.start_state(first_barrier, first_injected);
            let n = passed_by_snapshot(start, steps) as int;
            let barriers = epochs(passed(steps).skip(n)) + being_read(
                state_after(start, steps),
            );
            logs_read(effects_of(steps)) == ended(barriers)
        }),
    decreases steps.len(),
{
    let start = executor.start_state(first_barrier, first_injected);
    let n = passed_by_snapshot(start, steps) as int;
    let barriers = epochs(passed(steps).skip(n)) + being_read(state_after(start, steps));
    if steps.len() == 0 {
        assert(logs_read(effects_of(steps)) =~= ended(barriers));
    } else {
        let rest = steps.drop_last();
        let state = state_after(start, rest);
        let event = steps.last().event;
        if rest.len() > 0 {
            lemma_within_backfill(executor.output_indices@, start, rest);
        }
        lemma_logs_read(executor, first_barrier, first_injected, rest);
        lemma_upstream_order(executor, first_barrier, first_injected, rest);
        lemma_upstream_order(executor, first_barrier, first_injected, steps);
        lemma_step(executor.output_indices@, start, steps);
        lemma_step_effects(executor.output_indices@, state, event, steps.last().effects);
        let m = passed_by_snapshot(start, rest) as int;
        let x = passed(rest).skip(m);
        let y = passed(steps).skip(n);
        match passes(state, event) {
            Some(barrier) => {
                if before_log(state) {
                    assert(x =~= y);
                } else {
                    assert(y =~= x.push(barrier));
                }
            },
            None => {
                assert(x =~= y);
            },
        }
        assert(logs_read(effects_of(steps)) =~= ended(barriers));
    }
}

/// The chunks among `messages`, in their order.
pub open spec fn chunks_of<D>(messages: Seq<Message<D>>) -> Seq<StreamChunk<D>>
    decreases messages.len(),
{
    if messages.len() == 0 {
        Seq::empty()
    } else {
        match messages.last() {
            Message::Chunk(chunk) => chunks_of(messages.drop_last()).push(chunk),
            _ => chunks_of(messages.drop_last()),
        }
    }
}

/// The chunks that came from the snapshot and from the change log, in the order in which they came.
pub open spec fn chunks_read<D>(steps: Seq<Step<D>>) -> Seq<StreamChunk<D>>
    decreases steps.len(),
{
    if steps.len() == 0 {
        Seq::empty()
    } else {
        match steps.last().event {
            Event::Snapshot(Some(chunk)) => chunks_read(steps.drop_last()).push(chunk),
            Event::Log(Some(chunk)) => chunks_read(steps.drop_last()).push(chunk),
            _ => chunks_read(steps.drop_last()),
        }
    }
}

/// What a backfill lets through are the chunks of the snapshot and of the change log, as the readers
/// give them and in the order in which they come; no chunk of the upstream goes downstream before the
/// hand-over.
pub proof fn lemma_chunks_pass<D: Clone>(
    executor: SnapshotBackfillExecutor,
    first_barrier: Barrier,
    first_injected: Barrier,
    steps: Seq<Step<D>>,
)
    requires
        first_barrier.epoch != first_injected.epoch,
        runs(executor.output_indices@, executor.start_state(first_barrier, first_injected), steps),
        within_backfill(executor.start_state(first_barrier, first_injected), steps),
    ensures
        chunks_of(yielded(effects_of(steps))) == chunks_read(steps),
    decreases steps.len(),
{
    let start = executor.start_state(first_barrier, first_injected);
    if steps.len() > 0 {
        let rest = steps.drop_last();
        let state = state_after(start, rest);
        let done = steps.last().effects;
        if rest.len() > 0 {
            lemma_within_backfill(executor.output_indices@, start, rest);
        }
        lemma_chunks_pass(executor, first_barrier, first_injected, rest);
        lemma_step(executor.output_indices@, start, steps);
        lemma_step_effects(executor.output_indices@, state, steps.last().event, done);
        lemma_few_effects(done);
        let y = yielded(effects_of(rest));
        let added = yielded(done);
        if added.len() == 0 {
            assert(y + added =~= y);
        } else {
            assert(y + added =~= y.push(added[0]));
            assert(y.push(added[0]).drop_last() =~= y);
        }
    }
}

/// The chunks that came from each change log, one group for each log that was begun.
pub open spec fn log_groups<D>(steps: Seq<Step<D>>) -> Seq<Seq<StreamChunk<D>>>
    decreases steps.len(),
{
    if steps.len() == 0 {
        Seq::empty()
    } else {
        let groups = log_groups(steps.drop_last());
        if logs_read(steps.last().effects).len() > 0 {
            groups.push(Seq::empty())
        } else {
            match steps.last().event {
                Event::Log(Some(chunk)) => groups.drop_last().push(groups.last().push(chunk)),
                _ => groups,
            }
        }
    }
}

/// Number of change logs that came to their end.
pub open spec fn logs_ended<D>(steps: Seq<Step<D>>) -> nat
    decreases steps.len(),
{
    if steps.len() == 0 {
        0
    } else {
        match steps.last().event {
            Event::Log(None) => logs_ended(steps.drop_last()) + 1,
            _ => logs_ended(steps.drop_last()),
        }
    }
}

/// Number of messages that went downstream before the log store was turned to: the barriers and
/// chunks of the snapshot, and the first barrier.
pub open spec fn yielded_by_snapshot<D>(start: RunState, steps: Seq<Step<D>>) -> nat
    decreases steps.len(),
{
    if steps.len() == 0 {
        0
    } else {
        let rest = steps.drop_last();
        if before_log(state_after(start, rest)) {
            yielded_by_snapshot(start, rest) + yielded(steps.last().effects).len()
        } else {
            yielded_by_snapshot(start, rest)
        }
    }
}

/// The chunks as messages.
pub open spec fn as_messages<D>(chunks: Seq<StreamChunk<D>>) -> Seq<Message<D>> {
    Seq::new(chunks.len(), |i: int| Message::Chunk(chunks[i]))
}

/// The groups one after the other, each of the first `closed` ones followed by its barrier.
pub open spec fn groups_then_barriers<D>(
    groups: Seq<Seq<StreamChunk<D>>>,
    barriers: Seq<Barrier>,
    closed: nat,
) -> Seq<Message<D>>
    decreases groups.len(),
{
    if groups.len() == 0 {
        Seq::empty()
    } else {
        let n = groups.len() - 1;
        groups_then_barriers(groups.drop_last(), barriers, closed) + as_messages(groups.last())
            + if n < closed {
            seq![Message::Barrier(barriers[n])]
        } else {
            Seq::empty()
        }
    }
}

/// The group at `k` is closed with the same barrier either way, or open either way.
spec fn same_close(a: Seq<Barrier>, i: nat, b: Seq<Barrier>, j: nat, k: int) -> bool {
    &&& k < i <==> k < j
    &&& k < i ==> a[k] == b[k]
}

/// Only whether each group is closed matters, and with which barrier.
proof fn lemma_groups_same<D>(
    groups: Seq<Seq<StreamChunk<D>>>,
    a: Seq<Barrier>,
    i: nat,
    b: Seq<Barrier>,
    j: nat,
)
    requires
        forall|k: int| 0 <= k < groups.len() ==> #[trigger] same_close(a, i, b, j, k),
    ensures
        groups_then_barriers(groups, a, i) == groups_then_barriers(groups, b, j),
    decreases groups.len(),
{
    if groups.len() > 0 {
        let n = groups.len() - 1;
        lemma_groups_same(groups.drop_last(), a, i, b, j);
        assert(same_close(a, i, b, j, n));
    }
}

/// The log store in order: after the first barrier, what goes downstream is for each barrier of the
/// upstream, in the order of arrival, the chunks that came between the begin and the end of its
/// change log, then the barrier itself. The log is that of the epoch that the barrier ends. Only the
/// last log can be still open; its barrier has yet to go.
pub proof fn lemma_log_order<D: Clone>(
    executor: SnapshotBackfillExecutor,
    first_barrier: Barrier,
    first_injected: Barrier,
    steps: Seq<Step<D>>,
)
    requires
        first_barrier.epoch != first_injected.epoch,
        runs(executor.output_indices@, executor.start_state(first_barrier, first_injected), steps),
        within_backfill(executor.start_state(first_barrier, first_injected), steps),
    ensures
        ({
            let start = executor.start_state(first_barrier, first_injected);
            let state = state_after(start, steps);
            let arrived = barriers_of(upstream(steps));
            let groups = log_groups(steps);
            let closed = logs_ended(steps);
            let out = yielded(effects_of(steps));
            let n = yielded_by_snapshot(start, steps);
            &&& n <= out.len()
            &&& before_log(state) ==> n == out.len() && groups.len() == 0
            &&& out.skip(n as int) == groups_then_barriers(groups, arrived, closed)
            &&& groups.len() == if state is LogRead {
                closed + 1
            } else {
                closed
            }
            &&& groups.len() <= arrived.len()
            &&& logs_read(effects_of(steps)) == ended(epochs(arrived.take(groups.len() as int)))
            &&& closed == passed(steps).len() - passed_by_snapshot(start, steps)
        }),
    decreases steps.len(),
{
    let start = executor.start_state(first_barrier, first_injected);
    let arrived = barriers_of(upstream(steps));
    let groups = log_groups(steps);
    let closed = logs_ended(steps);
    let out = yielded(effects_of(steps));
    let n = yielded_by_snapshot(start, steps) as int;
    lemma_upstream_order(executor, first_barrier, first_injected, steps);
    lemma_logs_read(executor, first_barrier, first_injected, steps);
    if steps.len() == 0 {
        assert(logs_read(effects_of(steps)) =~= ended(epochs(arrived.take(0))));
        assert(out.skip(n) =~= groups_then_barriers(groups, arrived, closed));
    } else {
        let rest = steps.drop_last();
        let state = state_after(start, rest);
        let event = steps.last().event;
        let done = steps.last().effects;
        if rest.len() > 0 {
            lemma_within_backfill(executor.output_indices@, start, rest);
        }
        lemma_log_order(executor, first_barrier, first_injected, rest);
        lemma_upstream_order(executor, first_barrier, first_injected, rest);
        lemma_step(executor.output_indices@, start, steps);
        lemma_step_effects(executor.output_indices@, state, event, done);
        lemma_few_effects(done);
        let before = yielded(effects_of(rest));
        let m = yielded_by_snapshot(start, rest) as int;
        let arrived_before = barriers_of(upstream(rest));
        let open = log_groups(rest);
        let e = logs_ended(rest);
        let x = passed(rest).skip(passed_by_snapshot(start, rest) as int);
        assert(arrived_before =~= x + held(state));
        if let Event::Upstream(Some(message)) = event {
            lemma_barriers_of_push(upstream(rest), message);
        }
        assert(forall|k: int| 0 <= k < arrived_before.len() ==> arrived[k] == arrived_before[k]);
        let y = passed(steps).skip(passed_by_snapshot(start, steps) as int);
        assert(arrived =~= y + held(state_after(start, steps)));
        assert(y.len() == closed);
        assert(epochs(arrived.take(groups.len() as int)) =~= epochs(y) + being_read(
            state_after(start, steps),
        ));
        if before_log(state) {
            assert(out.skip(n) =~= Seq::<Message<D>>::empty());
        } else {
            assert(out.skip(n) =~= before.skip(m) + yielded(done));
            if let RunState::LogRead { barrier, .. } = state {
                assert(arrived_before[e as int] == barrier);
                let last = open.last();
                match event {
                    Event::Log(Some(chunk)) => {
                        assert(groups.drop_last() =~= open.drop_last());
                        assert(as_messages(last.push(chunk)) =~= as_messages(last).push(
                            Message::Chunk(chunk),
                        ));
                        assert(out.skip(n) =~= groups_then_barriers(groups, arrived, closed));
                    },
                    Event::Log(None) => {
                        lemma_groups_same(open.drop_last(), arrived_before, e, arrived, closed);
                        assert(out.skip(n) =~= groups_then_barriers(groups, arrived, closed));
                    },
                    _ => {
                        lemma_groups_same(open, arrived_before, e, arrived, closed);
                        assert(out.skip(n) =~= before.skip(m));
                    },
                }
            } else {
                lemma_groups_same(open, arrived_before, e, arrived, closed);
                assert(out.skip(n) =~= before.skip(m));
                if logs_read(done).len() > 0 {
                    assert(groups.drop_last() =~= open);
                    assert(as_messages(Seq::<StreamChunk<D>>::empty()) =~= Seq::<
                        Message<D>,
                    >::empty());
                    assert(groups_then_barriers(groups, arrived, closed) =~= groups_then_barriers(
                        open,
                        arrived,
                        closed,
                    ));
                }
            }
        }
    }
}

/// The rows of `message`, if it is a chunk, have `width` columns each.
pub open spec fn has_width<D>(message: Message<D>, width: nat) -> bool {
    message matches Message::Chunk(chunk) ==> forall|i: int|
        0 <= i < chunk.rows@.len() ==> (#[trigger] chunk.rows@[i])@.len() == width
}

/// The chunk that an event brings from the snapshot or the change log has rows of `width` columns.
pub open spec fn read_width<D>(event: Event<D>, width: nat) -> bool {
    match event {
        Event::Snapshot(Some(chunk)) => has_width(Message::Chunk(chunk), width),
        Event::Log(Some(chunk)) => has_width(Message::Chunk(chunk), width),
        _ => true,
    }
}

/// Every row that goes downstream has the output columns and no others, from whatever it comes: as
/// the readers of the snapshot and of the change log keep only those, and forwarding does too.
pub proof fn lemma_output_columns<D: Clone>(
    indices: Seq<usize>,
    start: RunState,
    steps: Seq<Step<D>>,
)
    requires
        runs(indices, start, steps),
        forall|i: int|
            0 <= i < steps.len() ==> read_width((#[trigger] steps[i]).event, indices.len()),
    ensures
        forall|i: int|
            0 <= i < yielded(effects_of(steps)).len() ==> has_width(
                #[trigger] yielded(effects_of(steps))[i],
                indices.len(),
            ),
    decreases steps.len(),
{
    if steps.len() > 0 {
        let rest = steps.drop_last();
        let state = state_after(start, rest);
        let event = steps.last().event;
        let done = steps.last().effects;
        assert forall|i: int| 0 <= i < rest.len() implies read_width(
            (#[trigger] rest[i]).event,
            indices.len(),
        ) by {
            assert(rest[i] == steps[i]);
        }
        lemma_output_columns(indices, start, rest);
        lemma_step(indices, start, steps);
        lemma_step_effects(indices, state, event, done);
        lemma_few_effects(done);
        assert(read_width(steps[steps.len() - 1].event, indices.len()));
        let y = yielded(effects_of(rest));
        let added = yielded(done);
        if added.len() > 0 {
            assert(has_width(added[0], indices.len()));
        }
        assert forall|i: int| 0 <= i < (y + added).len() implies has_width(
            #[trigger] (y + added)[i],
            indices.len(),
        ) by {
            if i < y.len() {
                assert((y + added)[i] == y[i]);
            } else {
                assert((y + added)[i] == added[0]);
            }
        }
    }
}

} // verus!
