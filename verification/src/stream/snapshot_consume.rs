//! Consuming a snapshot while barriers go on being received.

use crate::stream::barrier::EpochPair;
use crate::stream::error::BackfillError;
use vstd::prelude::*;

verus! {

/// How far the consumption of a snapshot is.
#[derive(Clone, Copy, Debug, PartialEq, Eq, Structural)]
pub enum ConsumePhase {
    /// The snapshot is being read.
    Reading,
    /// The snapshot is read, and the next barrier reports so.
    ReportFinish,
    /// That was reported, and the barriers up to the epoch of the snapshot are awaited.
    Draining,
    /// The barrier with the epoch of the snapshot was received.
    Done,
}

/// What is reported of the progress of a backfill.
#[derive(Clone, Copy, Debug, PartialEq, Eq, Structural)]
pub enum Progress {
    Update { epoch: EpochPair, consumed_epoch: u64, consumed_rows: u64 },
    Finish { epoch: EpochPair, consumed_rows: u64 },
}

/// Interleaves the chunks of a snapshot with the barriers that are received meanwhile.
///
/// Barriers must follow each other without a gap and stay below the epoch of the snapshot until the
/// whole of it is read. A rate limit holds the snapshot back once more rows than it allows were let
/// through since the last barrier.
#[derive(Clone, Copy, Debug)]
pub struct SnapshotConsumer {
    pub snapshot_epoch: u64,
    pub rate_limit: Option<usize>,
    /// The epoch of the last barrier.
    pub barrier_epoch: EpochPair,
    /// Number of rows read.
    pub count: usize,
    /// Number of rows read since the last barrier.
    pub epoch_row_count: usize,
    pub phase: ConsumePhase,
}

impl SnapshotConsumer {
    /// A consumer that has read nothing.
    pub open spec fn fresh(snapshot_epoch: u64, rate_limit: Option<usize>, epoch: EpochPair) -> Self {
        SnapshotConsumer {
            snapshot_epoch,
            rate_limit,
            barrier_epoch: epoch,
            count: 0,
            epoch_row_count: 0,
            phase: ConsumePhase::Reading,
        }
    }

    /// More rows were let through since the last barrier than the rate limit allows.
    pub open spec fn throttled(self) -> bool {
        self.rate_limit matches Some(limit) && self.epoch_row_count > limit
    }

    /// The snapshot is to be polled.
    pub open spec fn reads(self) -> bool {
        &&& self.phase == ConsumePhase::Reading
        &&& !self.throttled()
    }

    /// A barrier with this epoch follows the last one without a gap.
    pub open spec fn follows(self, epoch: EpochPair) -> bool {
        epoch.prev == self.barrier_epoch.curr
    }

    /// The consumer is not done, and the barrier follows.
    pub open spec fn may_pass(self, epoch: EpochPair) -> bool {
        &&& self.phase != ConsumePhase::Done
        &&& self.follows(epoch)
    }

    /// The snapshot is to be polled, and a chunk of `rows` rows can be counted.
    pub open spec fn may_read(self, rows: int) -> bool {
        &&& self.reads()
        &&& self.count + rows <= usize::MAX
        &&& self.epoch_row_count + rows <= usize::MAX
    }

    /// The barrier comes too early: the snapshot is not read, and the barrier reaches its epoch.
    pub open spec fn passes_snapshot(self, epoch: EpochPair) -> bool {
        &&& self.phase == ConsumePhase::Reading
        &&& epoch.curr >= self.snapshot_epoch
    }

    /// The consumer once it has let a barrier pass.
    pub open spec fn after_barrier(self, epoch: EpochPair) -> Self {
        SnapshotConsumer {
            barrier_epoch: epoch,
            epoch_row_count: if self.phase == ConsumePhase::Reading {
                0
            } else {
                self.epoch_row_count
            },
            phase: match self.phase {
                ConsumePhase::Reading => ConsumePhase::Reading,
                ConsumePhase::ReportFinish => ConsumePhase::Draining,
                _ => if epoch.curr == self.snapshot_epoch {
                    ConsumePhase::Done
                } else {
                    ConsumePhase::Draining
                },
            },
            ..self
        }
    }

    /// What is reported with a barrier.
    pub open spec fn report(self, epoch: EpochPair) -> Option<Progress> {
        match self.phase {
            ConsumePhase::Reading => Some(
                Progress::Update {
                    epoch,
                    consumed_epoch: epoch.prev,
                    consumed_rows: self.count as u64,
                },
            ),
            ConsumePhase::ReportFinish => Some(
                Progress::Finish { epoch, consumed_rows: self.count as u64 },
            ),
            _ => None,
        }
    }

    /// The consumer once it has let a chunk pass.
    pub open spec fn after_chunk(self, rows: int) -> Self {
        SnapshotConsumer {
            count: (self.count + rows) as usize,
            epoch_row_count: (self.epoch_row_count + rows) as usize,
            ..self
        }
    }

    /// The consumer once the snapshot has ended.
    pub open spec fn after_end(self) -> Self {
        SnapshotConsumer { phase: ConsumePhase::ReportFinish, ..self }
    }

    /// A consumer that has read nothing, after a barrier with this epoch.
    pub fn new(snapshot_epoch: u64, rate_limit: Option<usize>, barrier_epoch: EpochPair) -> (r: Self)
        ensures
            r == SnapshotConsumer::fresh(snapshot_epoch, rate_limit, barrier_epoch),
    {
        SnapshotConsumer {
            snapshot_epoch,
            rate_limit,
            barrier_epoch,
            count: 0,
            epoch_row_count: 0,
            phase: ConsumePhase::Reading,
        }
    }

    /// Whether the rate limit holds the snapshot back.
    pub fn throttle_snapshot_stream(&self) -> (r: bool)
        ensures
            r == self.throttled(),
    {
        match self.rate_limit {
            Some(limit) => self.epoch_row_count > limit,
            None => false,
        }
    }

    /// Whether the snapshot is to be polled.
    pub fn wants_snapshot(&self) -> (r: bool)
        ensures
            r == self.reads(),
    {
        self.phase == ConsumePhase::Reading && !self.throttle_snapshot_stream()
    }

    /// Whether a chunk of `rows` rows may pass.
    pub fn can_read(&self, rows: usize) -> (r: bool)
        ensures
            r == self.may_read(rows as int),
    {
        self.wants_snapshot() && rows <= usize::MAX - self.count && rows <= usize::MAX
            - self.epoch_row_count
    }

    /// Whether a barrier with this epoch may pass.
    pub fn can_pass(&self, epoch: EpochPair) -> (r: bool)
        ensures
            r == self.may_pass(epoch),
    {
        self.phase != ConsumePhase::Done && epoch.prev == self.barrier_epoch.curr
    }

    /// Lets a barrier pass, and says what to report before it.
    pub fn on_barrier(&mut self, epoch: EpochPair) -> (r: Result<Option<Progress>, BackfillError>)
        requires
            old(self).may_pass(epoch),
        ensures
            match r {
                Ok(report) => {
                    &&& !old(self).passes_snapshot(epoch)
                    &&& *final(self) == old(self).after_barrier(epoch)
                    &&& report == old(self).report(epoch)
                },
                Err(e) => {
                    &&& old(self).passes_snapshot(epoch)
                    &&& *final(self) == (SnapshotConsumer { barrier_epoch: epoch, ..*old(self) })
                    &&& e == (BackfillError::BarrierPastSnapshot {
                        barrier_epoch: epoch,
                        snapshot_epoch: old(self).snapshot_epoch,
                    })
                },
            },
    {
        self.barrier_epoch = epoch;
        match self.phase {
            ConsumePhase::Reading => {
                if epoch.curr >= self.snapshot_epoch {
                    return Err(
                        BackfillError::BarrierPastSnapshot {
                            barrier_epoch: epoch,
                            snapshot_epoch: self.snapshot_epoch,
                        },
                    );
                }
                self.epoch_row_count = 0;
                Ok(
                    Some(
                        Progress::Update {
                            epoch,
                            consumed_epoch: epoch.prev,
                            consumed_rows: self.count as u64,
                        },
                    ),
                )
            },
            ConsumePhase::ReportFinish => {
                self.phase = ConsumePhase::Draining;
                Ok(Some(Progress::Finish { epoch, consumed_rows: self.count as u64 }))
            },
            _ => {
                if epoch.curr == self.snapshot_epoch {
                    self.phase = ConsumePhase::Done;
                }
                Ok(None)
            },
        }
    }

    /// Lets a chunk of `rows` rows pass.
    pub fn on_chunk(&mut self, rows: usize)
        requires
            old(self).may_read(rows as int),
        ensures
            *final(self) == old(self).after_chunk(rows as int),
    {
        self.count = self.count + rows;
        self.epoch_row_count = self.epoch_row_count + rows;
    }

    /// Ends the snapshot.
    pub fn on_end(&mut self)
        requires
            old(self).reads(),
        ensures
            *final(self) == old(self).after_end(),
    {
        self.phase = ConsumePhase::ReportFinish;
    }
}

/// The snapshot is held back only under a rate limit, and only where more rows than that were let
/// through since the last barrier: without a limit it is polled as long as it is read.
pub proof fn lemma_held_back(consumer: SnapshotConsumer)
    ensures
        consumer.rate_limit is None ==> !consumer.throttled(),
        consumer.rate_limit matches Some(limit) ==> (consumer.throttled()
            <==> consumer.epoch_row_count > limit),
        consumer.rate_limit is None ==> (consumer.reads() <==> consumer.phase
            == ConsumePhase::Reading),
        consumer.rate_limit matches Some(limit) ==> (consumer.reads() <==> consumer.phase
            == ConsumePhase::Reading && consumer.epoch_row_count <= limit),
{
}

/// What a chunk, the end of the snapshot and a barrier change in a consumer, and what they leave.
///
/// Both counts grow by the rows of a chunk. A barrier while the snapshot is read begins a new count of
/// rows; the one after the end is followed by a drain, which the first later barrier that reaches
/// exactly the epoch of the snapshot ends.
pub proof fn lemma_consumer_changes(consumer: SnapshotConsumer, rows: int, epoch: EpochPair)
    requires
        0 <= rows,
        consumer.count + rows <= usize::MAX,
        consumer.epoch_row_count + rows <= usize::MAX,
    ensures
        ({
            let read = consumer.after_chunk(rows);
            &&& read.count == consumer.count + rows
            &&& read.epoch_row_count == consumer.epoch_row_count + rows
            &&& read.phase == consumer.phase
            &&& read.barrier_epoch == consumer.barrier_epoch
            &&& read.snapshot_epoch == consumer.snapshot_epoch
            &&& read.rate_limit == consumer.rate_limit
        }),
        ({
            let ended = consumer.after_end();
            &&& ended.count == consumer.count
            &&& ended.phase == ConsumePhase::ReportFinish
            &&& ended.barrier_epoch == consumer.barrier_epoch
            &&& ended.snapshot_epoch == consumer.snapshot_epoch
            &&& ended.rate_limit == consumer.rate_limit
        }),
        ({
            let passed = consumer.after_barrier(epoch);
            &&& passed.count == consumer.count
            &&& passed.barrier_epoch == epoch
            &&& passed.snapshot_epoch == consumer.snapshot_epoch
            &&& passed.rate_limit == consumer.rate_limit
            &&& consumer.phase == ConsumePhase::Reading ==> passed.epoch_row_count == 0
                && passed.phase == ConsumePhase::Reading
            &&& consumer.phase == ConsumePhase::ReportFinish ==> passed.phase
                == ConsumePhase::Draining
            &&& consumer.phase == ConsumePhase::Draining && epoch.curr == consumer.snapshot_epoch
                ==> passed.phase == ConsumePhase::Done
            &&& consumer.phase == ConsumePhase::Draining && epoch.curr != consumer.snapshot_epoch
                ==> passed.phase == ConsumePhase::Draining
        }),
{
}

/// Which barriers may pass and which come too early: one passes if it begins where the last one ends,
/// and while the snapshot is read it must stay below the epoch of the snapshot.
pub proof fn lemma_consumer_barriers(consumer: SnapshotConsumer, epoch: EpochPair)
    requires
        consumer.phase != ConsumePhase::Done,
    ensures
        consumer.may_pass(epoch) <==> epoch.prev == consumer.barrier_epoch.curr,
        consumer.passes_snapshot(epoch) <==> consumer.phase == ConsumePhase::Reading && epoch.curr
            >= consumer.snapshot_epoch,
        consumer.phase == ConsumePhase::Reading ==> consumer.report(epoch) == Some(
            Progress::Update {
                epoch,
                consumed_epoch: epoch.prev,
                consumed_rows: consumer.count as u64,
            },
        ),
        consumer.phase == ConsumePhase::ReportFinish ==> consumer.report(epoch) == Some(
            Progress::Finish { epoch, consumed_rows: consumer.count as u64 },
        ),
        consumer.phase == ConsumePhase::Draining ==> consumer.report(epoch) is None,
{
}

} // verus!
