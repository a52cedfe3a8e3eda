//! The backfill of a table from a snapshot of its upstream.
//!
//! The backfill goes through three parts. First the snapshot is consumed, while the barriers that
//! are injected go downstream. Then the changes that the upstream made since are read from its log
//! store, epoch by epoch, until a barrier drops the subscription of the backfill. From there on the
//! upstream is forwarded. Whatever a row comes from, only its output columns go downstream.
//!
//! An [`Execution`] decides what each event leads to. Whoever runs it awaits the events and performs
//! the effects.

use crate::catalog::TableId;
use crate::chunk::StreamChunk;
use crate::stream::barrier::{
    backfill_subscriber, receive_next_barrier, Barrier, EpochPair, Message,
};
use crate::stream::error::BackfillError;
use crate::stream::mapping::{can_map, map_message, maps_message, message_fits};
use crate::stream::snapshot_consume::{ConsumePhase, Progress, SnapshotConsumer};
use crate::stream::upstream_buffer::{BufferState, Taken, UpstreamBuffer};
use vstd::prelude::*;

verus! {

/// How a table is backfilled.
#[derive(Debug)]
pub struct SnapshotBackfillExecutor {
    /// Upstream table.
    pub upstream_table_id: TableId,
    /// The columns that go downstream, from the upstream, its log and the table scan alike.
    pub output_indices: Vec<usize>,
    pub chunk_size: usize,
    pub rate_limit: Option<usize>,
}

/// What a running backfill awaits may bring.
#[derive(Debug)]
pub enum Event<D> {
    /// The next injected barrier, or none where the sender is gone.
    Inject(Option<Barrier>),
    /// The next message of the upstream, or its end.
    Upstream(Option<Message<D>>),
    /// The next chunk of the snapshot, with the output columns, or its end.
    Snapshot(Option<StreamChunk<D>>),
    /// The next chunk of the change log, with the output columns, or its end.
    Log(Option<StreamChunk<D>>),
    /// The upstream has nothing to offer at the moment, or is left alone.
    Quiet,
}

/// What a running backfill does.
#[derive(Debug)]
pub enum Effect<D> {
    /// Hands a message downstream.
    Yield(Message<D>),
    /// Reports progress.
    Report(Progress),
    /// Begins to read the snapshot as of this epoch.
    ReadSnapshot(u64),
    /// Begins to read the change log of this epoch.
    ReadLog(u64),
}

/// Where a running backfill is.
#[derive(Debug)]
pub enum Execution {
    /// The first injected barrier goes downstream as soon as the upstream has nothing to offer.
    SnapshotStart {
        first_barrier: Barrier,
        injected: Barrier,
        consumer: SnapshotConsumer,
        buffer: UpstreamBuffer,
    },
    /// The snapshot is being consumed.
    Snapshot { first_barrier: Barrier, consumer: SnapshotConsumer, buffer: UpstreamBuffer },
    /// The snapshot is consumed, and the injected twin of the first barrier is awaited.
    SnapshotDone { first_barrier: Barrier, buffer: UpstreamBuffer },
    /// The next barrier of the upstream is awaited.
    LogNext { barrier_epoch: EpochPair, buffer: UpstreamBuffer },
    /// The injected twin of a barrier of the upstream is awaited.
    LogInject { barrier_epoch: EpochPair, barrier: Barrier, buffer: UpstreamBuffer },
    /// The changes before a barrier of the upstream are being read.
    LogRead { barrier: Barrier, buffer: UpstreamBuffer },
    /// Nothing is to be backfilled, and the injected twin of the first barrier is awaited.
    Skip { first_barrier: Barrier },
    /// The upstream is forwarded.
    Forward,
    /// The injected twin of a forwarded barrier is awaited.
    ForwardInject { barrier: Barrier },
    /// The upstream has ended.
    Done,
}

/// What a running backfill awaits. Where it awaits the upstream and something else, the upstream comes
/// first if it has something to offer; among other things whichever comes first counts.
#[derive(Clone, Copy, Debug, PartialEq, Eq, Structural)]
pub struct Awaits {
    /// The next injected barrier.
    pub inject: bool,
    /// The next message of the upstream.
    pub upstream: bool,
    /// The next chunk of the snapshot.
    pub snapshot: bool,
    /// The next chunk of the change log.
    pub log: bool,
    /// Only that the upstream has nothing to offer.
    pub quiet: bool,
}

/// What an [`Execution`] is.
pub enum RunState {
    SnapshotStart {
        first_barrier: Barrier,
        injected: Barrier,
        consumer: SnapshotConsumer,
        buffer: BufferState,
    },
    Snapshot { first_barrier: Barrier, consumer: SnapshotConsumer, buffer: BufferState },
    SnapshotDone { first_barrier: Barrier, buffer: BufferState },
    LogNext { barrier_epoch: EpochPair, buffer: BufferState },
    LogInject { barrier_epoch: EpochPair, barrier: Barrier, buffer: BufferState },
    LogRead { barrier: Barrier, buffer: BufferState },
    Skip { first_barrier: Barrier },
    Forward,
    ForwardInject { barrier: Barrier },
    Done,
}

impl View for Execution {
    type V = RunState;

    open spec fn view(&self) -> RunState {
        match *self {
            Execution::SnapshotStart { first_barrier, injected, consumer, buffer } => {
                RunState::SnapshotStart { first_barrier, injected, consumer, buffer: buffer@ }
            },
            Execution::Snapshot { first_barrier, consumer, buffer } => RunState::Snapshot {
                first_barrier,
                consumer,
                buffer: buffer@,
            },
            Execution::SnapshotDone { first_barrier, buffer } => RunState::SnapshotDone {
                first_barrier,
                buffer: buffer@,
            },
            Execution::LogNext { barrier_epoch, buffer } => RunState::LogNext {
                barrier_epoch,
                buffer: buffer@,
            },
            Execution::LogInject { barrier_epoch, barrier, buffer } => RunState::LogInject {
                barrier_epoch,
                barrier,
                buffer: buffer@,
            },
            Execution::LogRead { barrier, buffer } => RunState::LogRead { barrier, buffer: buffer@ },
            Execution::Skip { first_barrier } => RunState::Skip { first_barrier },
            Execution::Forward => RunState::Forward,
            Execution::ForwardInject { barrier } => RunState::ForwardInject { barrier },
            Execution::Done => RunState::Done,
        }
    }
}

/// The backfill turns to the oldest barrier that waits; where none does, it awaits one, or forwards
/// the upstream if the buffer is finished.
pub open spec fn next_log_barrier(barrier_epoch: EpochPair, buffer: BufferState) -> RunState {
    if buffer.waiting.len() > 0 {
        RunState::LogInject {
            barrier_epoch,
            barrier: buffer.waiting[0],
            buffer: BufferState { waiting: buffer.waiting.drop_first(), ..buffer },
        }
    } else if buffer.is_finished {
        RunState::Forward
    } else {
        RunState::LogNext { barrier_epoch, buffer }
    }
}

impl RunState {
    /// The buffer of the upstream may consume `message` meanwhile.
    pub open spec fn may_keep<D>(self, message: Option<Message<D>>) -> bool {
        match self {
            RunState::SnapshotStart { buffer, .. } => buffer.may_consume(message),
            RunState::Snapshot { buffer, .. } => buffer.may_consume(message),
            RunState::LogRead { buffer, .. } => buffer.may_consume(message),
            _ => false,
        }
    }

    /// The backfill goes on by itself as soon as the upstream has nothing to offer: it has yet to hand
    /// the first injected barrier downstream, or is done with the snapshot.
    pub open spec fn continues(self) -> bool {
        match self {
            RunState::SnapshotStart { .. } => true,
            RunState::Snapshot { consumer, .. } => consumer.phase == ConsumePhase::Done,
            _ => false,
        }
    }

    /// What is awaited: the upstream is consumed besides the snapshot and the change log unless the
    /// buffer is finished, and the snapshot is polled unless the rate limit holds it back.
    pub open spec fn awaits(self) -> Awaits {
        Awaits {
            inject: match self {
                RunState::Snapshot { consumer, .. } => consumer.phase != ConsumePhase::Done,
                RunState::SnapshotDone { .. } => true,
                RunState::LogInject { .. } => true,
                RunState::Skip { .. } => true,
                RunState::ForwardInject { .. } => true,
                _ => false,
            },
            upstream: match self {
                RunState::SnapshotStart { buffer, .. } => !buffer.is_finished,
                RunState::Snapshot { buffer, .. } => !buffer.is_finished,
                RunState::LogNext { buffer, .. } => !buffer.is_finished,
                RunState::LogRead { buffer, .. } => !buffer.is_finished,
                RunState::Forward => true,
                _ => false,
            },
            snapshot: self matches RunState::Snapshot { consumer, .. } && consumer.reads(),
            log: self is LogRead,
            quiet: self.continues(),
        }
    }

    /// The event can come now, and the stream is in order: a barrier has the epoch of its twin and
    /// follows the one before, and a forwarded row has the columns that `indices` name.
    pub open spec fn accepts<D>(self, indices: Seq<usize>, event: Event<D>) -> bool {
        match (self, event) {
            (_, Event::Quiet) => self.continues(),
            (RunState::SnapshotStart { .. }, Event::Upstream(message)) => self.may_keep(message),
            (RunState::Snapshot { consumer, .. }, Event::Inject(received)) => {
                &&& consumer.phase != ConsumePhase::Done
                &&& received matches Some(barrier) ==> consumer.may_pass(barrier.epoch)
            },
            (RunState::Snapshot { consumer, .. }, Event::Snapshot(Some(chunk))) => {
                consumer.may_read(chunk.rows@.len() as int)
            },
            (RunState::Snapshot { consumer, .. }, Event::Snapshot(None)) => consumer.reads(),
            (RunState::Snapshot { .. }, Event::Upstream(message)) => self.may_keep(message),
            (RunState::SnapshotDone { first_barrier, .. }, Event::Inject(received)) => {
                received matches Some(barrier) && barrier.epoch == first_barrier.epoch
            },
            (RunState::LogNext { buffer, .. }, Event::Upstream(message)) => buffer.may_consume(
                message,
            ),
            (RunState::LogInject { barrier_epoch, barrier, .. }, Event::Inject(received)) => {
                received matches Some(twin) ==> {
                    &&& twin.epoch == barrier.epoch
                    &&& barrier_epoch.curr == barrier.epoch.prev
                }
            },
            (RunState::LogRead { .. }, Event::Upstream(message)) => self.may_keep(message),
            (RunState::LogRead { .. }, Event::Log(_)) => true,
            (RunState::Skip { first_barrier }, Event::Inject(received)) => {
                received matches Some(twin) ==> twin.epoch == first_barrier.epoch
            },
            (RunState::Forward, Event::Upstream(received)) => {
                received matches Some(message) ==> message_fits(message, indices)
            },
            (RunState::ForwardInject { barrier }, Event::Inject(received)) => {
                received matches Some(twin) ==> twin.epoch == barrier.epoch
            },
            _ => false,
        }
    }

    /// Why the backfill fails on an event that it accepts, if it does.
    pub open spec fn failure<D>(self, event: Event<D>) -> Option<BackfillError> {
        match (self, event) {
            (_, Event::Inject(None)) => Some(BackfillError::EndOfBarrierReceiver),
            (RunState::Snapshot { consumer, .. }, Event::Inject(Some(barrier))) => {
                if consumer.passes_snapshot(barrier.epoch) {
                    Some(
                        BackfillError::BarrierPastSnapshot {
                            barrier_epoch: barrier.epoch,
                            snapshot_epoch: consumer.snapshot_epoch,
                        },
                    )
                } else {
                    None
                }
            },
            (RunState::Forward, Event::Upstream(None)) => None,
            (_, Event::Upstream(None)) => Some(BackfillError::EndOfUpstream),
            _ => None,
        }
    }

    /// Where an event that is accepted and no failure leads.
    pub open spec fn next<D>(self, event: Event<D>) -> RunState {
        match (self, event) {
            (RunState::SnapshotStart { first_barrier, consumer, buffer, .. }, Event::Quiet) => {
                RunState::Snapshot { first_barrier, consumer, buffer }
            },
            (
                RunState::SnapshotStart { first_barrier, injected, consumer, buffer },
                Event::Upstream(Some(message)),
            ) => RunState::SnapshotStart {
                first_barrier,
                injected,
                consumer,
                buffer: buffer.keep(message),
            },
            (RunState::Snapshot { first_barrier, buffer, .. }, Event::Quiet) => {
                RunState::SnapshotDone { first_barrier, buffer }
            },
            (
                RunState::Snapshot { first_barrier, consumer, buffer },
                Event::Inject(Some(barrier)),
            ) => RunState::Snapshot {
                first_barrier,
                consumer: consumer.after_barrier(barrier.epoch),
                buffer,
            },
            (
                RunState::Snapshot { first_barrier, consumer, buffer },
                Event::Snapshot(Some(chunk)),
            ) => RunState::Snapshot {
                first_barrier,
                consumer: consumer.after_chunk(chunk.rows@.len() as int),
                buffer,
            },
            (RunState::Snapshot { first_barrier, consumer, buffer }, Event::Snapshot(None)) => {
                RunState::Snapshot { first_barrier, consumer: consumer.after_end(), buffer }
            },
            (
                RunState::Snapshot { first_barrier, consumer, buffer },
                Event::Upstream(Some(message)),
            ) => RunState::Snapshot { first_barrier, consumer, buffer: buffer.keep(message) },
            (RunState::SnapshotDone { first_barrier, buffer }, Event::Inject(_)) => {
                next_log_barrier(first_barrier.epoch, buffer)
            },
            (RunState::LogNext { barrier_epoch, buffer }, Event::Upstream(Some(message))) => {
                match message {
                    Message::Barrier(barrier) => RunState::LogInject {
                        barrier_epoch,
                        barrier,
                        buffer: buffer.consume(message),
                    },
                    _ => RunState::LogNext { barrier_epoch, buffer: buffer.consume(message) },
                }
            },
            (RunState::LogInject { barrier, buffer, .. }, Event::Inject(_)) => {
                RunState::LogRead { barrier, buffer }
            },
            (RunState::LogRead { barrier, buffer }, Event::Upstream(Some(message))) => {
                RunState::LogRead { barrier, buffer: buffer.keep(message) }
            },
            (RunState::LogRead { barrier, buffer }, Event::Log(None)) => {
                next_log_barrier(barrier.epoch, buffer)
            },
            (RunState::Skip { .. }, Event::Inject(_)) => RunState::Forward,
            (RunState::Forward, Event::Upstream(Some(Message::Barrier(barrier)))) => {
                RunState::ForwardInject { barrier }
            },
            (RunState::Forward, Event::Upstream(None)) => RunState::Done,
            (RunState::ForwardInject { .. }, Event::Inject(_)) => RunState::Forward,
            _ => self,
        }
    }

    /// What an event that is accepted and no failure makes the backfill do, where it forwards no chunk
    /// and no watermark.
    pub open spec fn effects<D>(self, event: Event<D>) -> Seq<Effect<D>> {
        match (self, event) {
            (RunState::SnapshotStart { injected, consumer, .. }, Event::Quiet) => seq![
                Effect::Yield(Message::Barrier(injected)),
                Effect::ReadSnapshot(consumer.snapshot_epoch),
            ],
            (RunState::Snapshot { consumer, .. }, Event::Inject(Some(barrier))) => {
                let passed = Effect::Yield(Message::Barrier(barrier));
                match consumer.report(barrier.epoch) {
                    Some(progress) => seq![Effect::Report(progress), passed],
                    None => seq![passed],
                }
            },
            (RunState::Snapshot { .. }, Event::Snapshot(Some(chunk))) => seq![
                Effect::Yield(Message::Chunk(chunk)),
            ],
            (RunState::SnapshotDone { first_barrier, .. }, Event::Inject(_)) => seq![
                Effect::Yield(Message::Barrier(first_barrier)),
            ],
            (RunState::LogInject { barrier, .. }, Event::Inject(_)) => seq![
                Effect::ReadLog(barrier.epoch.prev),
            ],
            (RunState::LogRead { .. }, Event::Log(Some(chunk))) => seq![
                Effect::Yield(Message::Chunk(chunk)),
            ],
            (RunState::LogRead { barrier, .. }, Event::Log(None)) => seq![
                Effect::Yield(Message::Barrier(barrier)),
            ],
            (RunState::Skip { first_barrier }, Event::Inject(_)) => seq![
                Effect::Yield(Message::Barrier(first_barrier)),
            ],
            (RunState::ForwardInject { barrier }, Event::Inject(_)) => seq![
                Effect::Yield(Message::Barrier(barrier)),
            ],
            _ => Seq::empty(),
        }
    }
    /// `effects` are what an event that is accepted and no failure makes the backfill do, where the
    /// columns that `indices` name go downstream.
    ///
    /// A forwarded chunk keeps those columns, and a forwarded watermark follows its column or falls
    /// away with it.
    pub open spec fn does<D: Clone>(
        self,
        indices: Seq<usize>,
        event: Event<D>,
        effects: Seq<Effect<D>>,
    ) -> bool {
        match (self, event) {
            (RunState::Forward, Event::Upstream(Some(message))) => {
                if message is Barrier {
                    effects == Seq::<Effect<D>>::empty()
                } else {
                    forwards(message, indices, effects)
                }
            },
            _ => effects == self.effects(event),
        }
    }
}

/// `effects` hand downstream what becomes of `message` where the columns that `indices` name go
/// there, and nothing else.
pub open spec fn forwards<D: Clone>(
    message: Message<D>,
    indices: Seq<usize>,
    effects: Seq<Effect<D>>,
) -> bool {
    if effects.len() == 0 {
        maps_message(message, indices, None)
    } else {
        &&& effects.len() == 1
        &&& effects[0] matches Effect::Yield(mapped)
        &&& maps_message(message, indices, Some(mapped))
    }
}

impl SnapshotBackfillExecutor {
    /// A backfill of the table with these parameters.
    pub fn new(
        upstream_table_id: TableId,
        output_indices: Vec<usize>,
        chunk_size: usize,
        rate_limit: Option<usize>,
    ) -> (r: Self)
        ensures
            r.upstream_table_id == upstream_table_id,
            r.output_indices == output_indices,
            r.chunk_size == chunk_size,
            r.rate_limit == rate_limit,
    {
        SnapshotBackfillExecutor { upstream_table_id, output_indices, chunk_size, rate_limit }
    }

    /// Where a backfill starts, given the first barrier of the upstream and the first injected one.
    pub open spec fn start_state(self, first_barrier: Barrier, first_injected: Barrier) -> RunState {
        if first_barrier.epoch != first_injected.epoch {
            RunState::SnapshotStart {
                first_barrier,
                injected: first_injected,
                consumer: SnapshotConsumer::fresh(
                    first_barrier.epoch.prev,
                    self.rate_limit,
                    first_injected.epoch,
                ),
                buffer: BufferState::fresh(
                    self.upstream_table_id,
                    first_barrier.added_subscribers(self.upstream_table_id)[0],
                ),
            }
        } else {
            RunState::Skip { first_barrier }
        }
    }

    /// Starts the backfill, given the first barrier of the upstream and the first injected one.
    ///
    /// Where the two have the same epoch nothing is to be backfilled.
    pub fn start(&self, first_barrier: Barrier, received: Option<Barrier>) -> (r: Result<
        Execution,
        BackfillError,
    >)
        ensures
            ({
                let added = first_barrier.added_subscribers(self.upstream_table_id);
                match received {
                    None => r matches Err(BackfillError::EndOfBarrierReceiver),
                    Some(injected) => match r {
                        Ok(execution) => {
                            &&& injected.epoch == first_barrier.epoch || added.len() == 1
                            &&& execution@ == self.start_state(first_barrier, injected)
                        },
                        Err(BackfillError::NoSubscriber) => {
                            &&& injected.epoch != first_barrier.epoch
                            &&& added.len() == 0
                        },
                        Err(
                            BackfillError::MultipleSubscribers { subscriber_ids, table_id },
                        ) => {
                            &&& injected.epoch != first_barrier.epoch
                            &&& added.len() > 1
                            &&& subscriber_ids@ == added
                            &&& table_id == self.upstream_table_id
                        },
                        Err(_) => false,
                    },
                }
            }),
    {
        let first_recv_barrier = match receive_next_barrier(received) {
            Ok(barrier) => barrier,
            Err(e) => {
                return Err(e);
            },
        };
        let should_backfill = first_barrier.epoch != first_recv_barrier.epoch;
        if should_backfill {
            let subscriber_id: u32 = match backfill_subscriber(
                &first_barrier,
                self.upstream_table_id,
            ) {
                Ok(id) => id,
                Err(e) => {
                    return Err(e);
                },
            };
            let buffer = UpstreamBuffer::new(self.upstream_table_id, subscriber_id);
            let consumer = SnapshotConsumer::new(
                first_barrier.epoch.prev,
                self.rate_limit,
                first_recv_barrier.epoch,
            );
            Ok(
                Execution::SnapshotStart {
                    first_barrier,
                    injected: first_recv_barrier,
                    consumer,
                    buffer,
                },
            )
        } else {
            Ok(Execution::Skip { first_barrier })
        }
    }
}

/// Turns to the next barrier of the upstream.
fn take_log_barrier(barrier_epoch: EpochPair, buffer: UpstreamBuffer) -> (r: Execution)
    ensures
        r@ == next_log_barrier(barrier_epoch, buffer@),
{
    let mut buffer = buffer;
    match buffer.take_buffered_barrier() {
        Taken::Barrier(barrier) => Execution::LogInject { barrier_epoch, barrier, buffer },
        Taken::Finished => Execution::Forward,
        Taken::Await => Execution::LogNext { barrier_epoch, buffer },
    }
}

impl Execution {
    /// Whether the backfill goes on by itself as soon as the upstream has nothing to offer.
    fn goes_on(&self) -> (r: bool)
        ensures
            r == self@.continues(),
    {
        match self {
            Execution::SnapshotStart { .. } => true,
            Execution::Snapshot { consumer, .. } => consumer.phase == ConsumePhase::Done,
            _ => false,
        }
    }

    /// What is to be awaited.
    pub fn awaits(&self) -> (r: Awaits)
        ensures
            r == self@.awaits(),
    {
        let mut r = Awaits {
            inject: false,
            upstream: false,
            snapshot: false,
            log: false,
            quiet: self.goes_on(),
        };
        match self {
            Execution::SnapshotStart { buffer, .. } => {
                r.upstream = !buffer.is_finished;
            },
            Execution::Snapshot { consumer, buffer, .. } => {
                r.inject = consumer.phase != ConsumePhase::Done;
                r.upstream = !buffer.is_finished;
                r.snapshot = consumer.wants_snapshot();
            },
            Execution::SnapshotDone { .. } => {
                r.inject = true;
            },
            Execution::LogNext { buffer, .. } => {
                r.upstream = !buffer.is_finished;
            },
            Execution::LogInject { .. } => {
                r.inject = true;
            },
            Execution::LogRead { buffer, .. } => {
                r.upstream = !buffer.is_finished;
                r.log = true;
            },
            Execution::Skip { .. } => {
                r.inject = true;
            },
            Execution::Forward => {
                r.upstream = true;
            },
            Execution::ForwardInject { .. } => {
                r.inject = true;
            },
            Execution::Done => {},
        }
        r
    }

    /// Whether the event can come now and the stream is in order.
    pub fn can_accept<D>(&self, executor: &SnapshotBackfillExecutor, event: &Event<D>) -> (r: bool)
        ensures
            r == self@.accepts(executor.output_indices@, *event),
    {
        match (self, event) {
            (_, Event::Quiet) => self.goes_on(),
            (Execution::SnapshotStart { buffer, .. }, Event::Upstream(message)) => {
                buffer.can_consume(message)
            },
            (Execution::Snapshot { consumer, .. }, Event::Inject(received)) => match received {
                Some(barrier) => consumer.can_pass(barrier.epoch),
                None => consumer.phase != ConsumePhase::Done,
            },
            (Execution::Snapshot { consumer, .. }, Event::Snapshot(chunk)) => match chunk {
                Some(chunk) => consumer.can_read(chunk.cardinality()),
                None => consumer.wants_snapshot(),
            },
            (Execution::Snapshot { buffer, .. }, Event::Upstream(message)) => buffer.can_consume(
                message,
            ),
            (Execution::SnapshotDone { first_barrier, .. }, Event::Inject(received)) => {
                match received {
                    Some(barrier) => barrier.epoch == first_barrier.epoch,
                    None => false,
                }
            },
            (Execution::LogNext { buffer, .. }, Event::Upstream(message)) => buffer.can_consume(
                message,
            ),
            (Execution::LogInject { barrier_epoch, barrier, .. }, Event::Inject(received)) => {
                match received {
                    Some(twin) => twin.epoch == barrier.epoch && barrier_epoch.curr
                        == barrier.epoch.prev,
                    None => true,
                }
            },
            (Execution::LogRead { buffer, .. }, Event::Upstream(message)) => buffer.can_consume(
                message,
            ),
            (Execution::LogRead { .. }, Event::Log(_)) => true,
            (Execution::Skip { first_barrier }, Event::Inject(received)) => match received {
                Some(twin) => twin.epoch == first_barrier.epoch,
                None => true,
            },
            (Execution::Forward, Event::Upstream(received)) => match received {
                Some(message) => can_map(message, executor.output_indices.as_slice()),
                None => true,
            },
            (Execution::ForwardInject { barrier }, Event::Inject(received)) => match received {
                Some(twin) => twin.epoch == barrier.epoch,
                None => true,
            },
            _ => false,
        }
    }

    /// Goes on with an event in the backfill of `executor`. Gives where that leads and what is to be
    /// done, or why the backfill fails.
    pub fn step<D: Clone>(self, executor: &SnapshotBackfillExecutor, event: Event<D>) -> (r: Result<
        (Execution, Vec<Effect<D>>),
        BackfillError,
    >)
        requires
            self@.accepts(executor.output_indices@, event),
        ensures
            match r {
                Ok((execution, effects)) => {
                    &&& self@.failure(event) is None
                    &&& execution@ == self@.next(event)
                    &&& self@.does(executor.output_indices@, event, effects@)
                },
                Err(e) => self@.failure(event) == Some(e),
            },
    {
        let ghost state = self@;
        let mut effects: Vec<Effect<D>> = Vec::new();
        let execution: Execution;
        match (self, event) {
            (
                Execution::SnapshotStart { first_barrier, injected, consumer, buffer },
                Event::Quiet,
            ) => {
                effects.push(Effect::Yield(Message::Barrier(injected)));
                effects.push(Effect::ReadSnapshot(consumer.snapshot_epoch));
                execution = Execution::Snapshot { first_barrier, consumer, buffer };
            },
            (
                Execution::SnapshotStart { first_barrier, injected, consumer, buffer },
                Event::Upstream(message),
            ) => {
                let mut buffer = buffer;
                match buffer.concurrently_consume_upstream(message) {
                    Ok(()) => {},
                    Err(e) => {
                        return Err(e);
                    },
                }
                execution = Execution::SnapshotStart { first_barrier, injected, consumer, buffer };
            },
            (Execution::Snapshot { first_barrier, buffer, .. }, Event::Quiet) => {
                execution = Execution::SnapshotDone { first_barrier, buffer };
            },
            (Execution::Snapshot { first_barrier, consumer, buffer }, Event::Inject(received)) => {
                let mut consumer = consumer;
                let barrier = match receive_next_barrier(received) {
                    Ok(barrier) => barrier,
                    Err(e) => {
                        return Err(e);
                    },
                };
                match consumer.on_barrier(barrier.epoch) {
                    Ok(Some(progress)) => {
                        effects.push(Effect::Report(progress));
                    },
                    Ok(None) => {},
                    Err(e) => {
                        return Err(e);
                    },
                }
                effects.push(Effect::Yield(Message::Barrier(barrier)));
                execution = Execution::Snapshot { first_barrier, consumer, buffer };
            },
            (Execution::Snapshot { first_barrier, consumer, buffer }, Event::Snapshot(chunk)) => {
                let mut consumer = consumer;
                match chunk {
                    Some(chunk) => {
                        consumer.on_chunk(chunk.cardinality());
                        effects.push(Effect::Yield(Message::Chunk(chunk)));
                    },
                    None => {
                        consumer.on_end();
                    },
                }
                execution = Execution::Snapshot { first_barrier, consumer, buffer };
            },
            (Execution::Snapshot { first_barrier, consumer, buffer }, Event::Upstream(message)) => {
                let mut buffer = buffer;
                match buffer.concurrently_consume_upstream(message) {
                    Ok(()) => {},
                    Err(e) => {
                        return Err(e);
                    },
                }
                execution = Execution::Snapshot { first_barrier, consumer, buffer };
            },
            (Execution::SnapshotDone { first_barrier, buffer }, Event::Inject(_)) => {
                let epoch = first_barrier.epoch;
                effects.push(Effect::Yield(Message::Barrier(first_barrier)));
                execution = take_log_barrier(epoch, buffer);
            },
            (Execution::LogNext { barrier_epoch, buffer }, Event::Upstream(message)) => {
                let mut buffer = buffer;
                match buffer.consume_until_next_barrier(message) {
                    Ok(Some(barrier)) => {
                        execution = Execution::LogInject { barrier_epoch, barrier, buffer };
                    },
                    Ok(None) => {
                        execution = Execution::LogNext { barrier_epoch, buffer };
                    },
                    Err(e) => {
                        return Err(e);
                    },
                }
            },
            (Execution::LogInject { barrier, buffer, .. }, Event::Inject(received)) => {
                if let Err(e) = receive_next_barrier(received) {
                    return Err(e);
                }
                effects.push(Effect::ReadLog(barrier.epoch.prev));
                execution = Execution::LogRead { barrier, buffer };
            },
            (Execution::LogRead { barrier, buffer }, Event::Upstream(message)) => {
                let mut buffer = buffer;
                match buffer.concurrently_consume_upstream(message) {
                    Ok(()) => {},
                    Err(e) => {
                        return Err(e);
                    },
                }
                execution = Execution::LogRead { barrier, buffer };
            },
            (Execution::LogRead { barrier, buffer }, Event::Log(chunk)) => {
                match chunk {
                    Some(chunk) => {
                        effects.push(Effect::Yield(Message::Chunk(chunk)));
                        execution = Execution::LogRead { barrier, buffer };
                    },
                    None => {
                        let epoch = barrier.epoch;
                        effects.push(Effect::Yield(Message::Barrier(barrier)));
                        execution = take_log_barrier(epoch, buffer);
                    },
                }
            },
            (Execution::Skip { first_barrier }, Event::Inject(received)) => {
                if let Err(e) = receive_next_barrier(received) {
                    return Err(e);
                }
                effects.push(Effect::Yield(Message::Barrier(first_barrier)));
                execution = Execution::Forward;
            },
            (Execution::Forward, Event::Upstream(message)) => {
                match message {
                    Some(Message::Barrier(barrier)) => {
                        execution = Execution::ForwardInject { barrier };
                    },
                    Some(message) => {
                        if let Some(mapped) = map_message(
                            message,
                            executor.output_indices.as_slice(),
                        ) {
                            effects.push(Effect::Yield(mapped));
                        }
                        execution = Execution::Forward;
                    },
                    None => {
                        execution = Execution::Done;
                    },
                }
            },
            (Execution::ForwardInject { barrier }, Event::Inject(received)) => {
                if let Err(e) = receive_next_barrier(received) {
                    return Err(e);
                }
                effects.push(Effect::Yield(Message::Barrier(barrier)));
                execution = Execution::Forward;
            },
            (other, _) => {
                execution = other;
            },
        }
        proof {
            if !(state is Forward) {
                assert(effects@ =~= state.effects(event));
            }
        }
        Ok((execution, effects))
    }
}

} // verus!
