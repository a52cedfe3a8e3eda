use risingwave_core::catalog::TableId;
use risingwave_core::chunk::{DataChunkBuilder, Op, StreamChunk};
use risingwave_core::stream::barrier::{
    backfill_subscriber, receive_next_barrier, Barrier, EpochPair, Message, Mutation, Watermark,
};
use risingwave_core::stream::change_log::{read_change_log, ChangeLogReader, ChangeLogRow};
use risingwave_core::stream::error::BackfillError;
use risingwave_core::stream::snapshot_backfill::{
    Awaits, Effect, Event, Execution, SnapshotBackfillExecutor,
};
use risingwave_core::stream::snapshot_consume::{ConsumePhase, Progress, SnapshotConsumer};
use risingwave_core::stream::mapping::{can_map, has_columns, map_message, mapping_chunk};
use risingwave_core::stream::snapshot_read::{make_snapshot_stream, SnapshotReader};
use risingwave_core::stream::upstream_buffer::{Taken, UpstreamBuffer};

type Chunk = StreamChunk<i64>;

const TABLE: TableId = TableId { table_id: 7 };
const SUBSCRIBER: u32 = 42;

fn epoch(prev: u64) -> EpochPair {
    EpochPair { curr: prev + 1, prev }
}

fn barrier(prev: u64) -> Barrier {
    Barrier { epoch: epoch(prev), mutation: None }
}

fn adding(prev: u64, subscriptions_to_add: Vec<(TableId, u32)>) -> Barrier {
    Barrier { epoch: epoch(prev), mutation: Some(Mutation::Add { subscriptions_to_add }) }
}

fn dropping(prev: u64, subscriptions_to_drop: Vec<(u32, TableId)>) -> Barrier {
    let mutation = Some(Mutation::DropSubscriptions { subscriptions_to_drop });
    Barrier { epoch: epoch(prev), mutation }
}

fn chunk(n: usize) -> Chunk {
    StreamChunk { ops: vec![Op::Insert; n], rows: vec![vec![1]; n] }
}

fn parts(chunks: Vec<Chunk>) -> Vec<(Vec<Op>, Vec<Vec<i64>>)> {
    chunks.into_iter().map(|c| (c.ops, c.rows)).collect()
}

// ---- change log

fn ins(v: i64) -> ChangeLogRow<i64> {
    ChangeLogRow::Insert(vec![v])
}

fn del(v: i64) -> ChangeLogRow<i64> {
    ChangeLogRow::Delete(vec![v])
}

fn upd(a: i64, b: i64) -> ChangeLogRow<i64> {
    ChangeLogRow::Update { old_value: vec![a], new_value: vec![b] }
}

#[test]
fn change_log_chunks() {
    let rows = vec![ins(1), del(2), upd(3, 4), ins(5)];
    let r = parts(read_change_log(rows, DataChunkBuilder::new(3), vec![0]));
    assert_eq!(
        r,
        vec![
            (vec![Op::Insert, Op::Delete], vec![vec![1], vec![2]]),
            (
                vec![Op::UpdateDelete, Op::UpdateInsert, Op::Insert],
                vec![vec![3], vec![4], vec![5]]
            ),
        ]
    );
}

#[test]
fn change_log_update_fills_a_batch() {
    // the second update pushes out the first row and then fills a batch of its own
    let rows = vec![ins(1), upd(2, 3), upd(4, 5)];
    let r = parts(read_change_log(rows, DataChunkBuilder::new(2), vec![0]));
    assert_eq!(
        r,
        vec![
            (vec![Op::Insert], vec![vec![1]]),
            (vec![Op::UpdateDelete, Op::UpdateInsert], vec![vec![2], vec![3]]),
            (vec![Op::UpdateDelete, Op::UpdateInsert], vec![vec![4], vec![5]]),
        ]
    );
}

#[test]
fn change_log_edge_cases() {
    assert!(read_change_log(Vec::<ChangeLogRow<i64>>::new(), DataChunkBuilder::new(4), vec![0]).is_empty());
    let r = parts(read_change_log(vec![ins(1), del(2)], DataChunkBuilder::new(1), vec![0]));
    assert_eq!(r, vec![(vec![Op::Insert], vec![vec![1]]), (vec![Op::Delete], vec![vec![2]])]);

    let mut reader = ChangeLogReader::new(DataChunkBuilder::new(2), vec![0]);
    assert!(reader.read(ins(1)).is_empty());
    let both = reader.read(upd(2, 3));
    assert_eq!(both.len(), 2);
    assert!(reader.finish().is_none());
}

#[test]
fn change_log_loses_nothing() {
    let mut rows = vec![];
    let mut expected = vec![];
    for i in 0..100 {
        match i % 3 {
            0 => {
                rows.push(ins(i));
                expected.push((Op::Insert, vec![i]));
            }
            1 => {
                rows.push(upd(i, -i));
                expected.push((Op::UpdateDelete, vec![i]));
                expected.push((Op::UpdateInsert, vec![-i]));
            }
            _ => {
                rows.push(del(i));
                expected.push((Op::Delete, vec![i]));
            }
        }
    }
    let mut found = vec![];
    for c in read_change_log(rows, DataChunkBuilder::new(5), vec![0]) {
        assert!(!c.ops.is_empty() && c.ops.len() <= 5 && c.ops.len() == c.rows.len());
        assert_eq!(c.cardinality(), c.rows.len());
        assert_ne!(c.ops[0], Op::UpdateInsert);
        assert_ne!(c.ops[c.ops.len() - 1], Op::UpdateDelete);
        found.extend(c.ops.into_iter().zip(c.rows));
    }
    assert_eq!(found, expected);
}

// ---- snapshot

#[test]
fn snapshot_chunks() {
    let rows: Vec<Vec<i64>> = (0..5).map(|i| vec![i, 10 * i, 100 * i]).collect();
    let r = make_snapshot_stream(rows, DataChunkBuilder::new(2), vec![2, 0, 2]);
    assert_eq!(
        parts(r),
        vec![
            (vec![Op::Insert; 2], vec![vec![0, 0, 0], vec![100, 1, 100]]),
            (vec![Op::Insert; 2], vec![vec![200, 2, 200], vec![300, 3, 300]]),
            (vec![Op::Insert], vec![vec![400, 4, 400]]),
        ]
    );
    let none = make_snapshot_stream(Vec::<Vec<i64>>::new(), DataChunkBuilder::new(2), vec![0]);
    assert!(none.is_empty());
    let full = make_snapshot_stream(vec![vec![1i64], vec![2]], DataChunkBuilder::new(2), vec![0]);
    assert_eq!(full.len(), 1);
}

#[test]
fn snapshot_reader_and_mapping() {
    let mut reader = SnapshotReader::new(DataChunkBuilder::new(2), vec![1]);
    assert!(reader.read(vec!["a".to_string(), "b".to_string()]).is_none());
    let c = reader.read(vec!["c".to_string(), "d".to_string()]).unwrap();
    assert_eq!(c.rows, vec![vec!["b".to_string()], vec!["d".to_string()]]);
    assert!(reader.finish().is_none());

    let c = StreamChunk { ops: vec![Op::Delete], rows: vec![vec![4, 5]] };
    let c = mapping_chunk(c, &[1, 1, 0]);
    assert_eq!((c.ops, c.rows), (vec![Op::Delete], vec![vec![5, 5, 4]]));
}

#[test]
fn builder() {
    let mut b: DataChunkBuilder<i64> = DataChunkBuilder::new(3);
    assert_eq!(b.batch_size(), 3);
    assert!(b.consume_all().is_none());
    assert!(b.append_one_row(vec![1]).is_none());
    assert!(b.can_append(2));
    assert!(b.append_one_row(vec![2]).is_none());
    assert!(!b.can_append(2));
    assert!(b.can_append(1));
    assert_eq!(b.append_one_row(vec![3]).unwrap().capacity(), 3);
    assert!(b.append_one_row(vec![4]).is_none());
    assert_eq!(b.consume_all().unwrap().rows, vec![vec![4]]);
    assert!(b.consume_all().is_none());
}

// ---- barriers and errors

#[test]
fn subscribers() {
    let other = TableId { table_id: 8 };
    let b = adding(1, vec![(other, 1), (TABLE, 2), (other, 3), (TABLE, 4)]);
    assert_eq!(b.added_subscriber_on_mv_table(TABLE), vec![2, 4]);
    assert!(barrier(1).added_subscriber_on_mv_table(TABLE).is_empty());
    assert!(dropping(1, vec![(2, TABLE)]).added_subscriber_on_mv_table(TABLE).is_empty());

    assert_eq!(backfill_subscriber(&adding(1, vec![(other, 1), (TABLE, 2)]), TABLE).unwrap(), 2);
    let none = backfill_subscriber(&adding(1, vec![(other, 1)]), TABLE).unwrap_err();
    assert_eq!(none.message(), "first recv barrier on backfill should add subscriber on upstream");
    let many = backfill_subscriber(&b, TABLE).unwrap_err();
    assert_eq!(
        many.message(),
        "first recv barrier on backfill have multiple subscribers [2, 4] on upstream table 7"
    );
}

#[test]
fn error_texts() {
    assert_eq!(BackfillError::EndOfUpstream.message(), "end of upstream");
    let e = receive_next_barrier(None).unwrap_err();
    assert_eq!(e.message(), "end of barrier receiver");
    assert_eq!(receive_next_barrier(Some(barrier(3))).unwrap().epoch, epoch(3));
    let barrier_epoch = EpochPair { curr: 120, prev: 7 };
    let e = BackfillError::BarrierPastSnapshot { barrier_epoch, snapshot_epoch: 100 };
    assert_eq!(
        e.message(),
        format!(
            "should not receive barrier with epoch {:?} later than snapshot epoch {}",
            barrier_epoch, 100
        )
    );
}

// ---- upstream buffer

#[test]
fn buffer_is_first_in_first_out() {
    let mut buffer = UpstreamBuffer::new(TABLE, SUBSCRIBER);
    assert!(matches!(buffer.take_buffered_barrier(), Taken::Await));
    for prev in [10, 11] {
        buffer.concurrently_consume_upstream(Some(Message::Chunk(chunk(3)))).unwrap();
        buffer.concurrently_consume_upstream::<i64>(Some(Message::Barrier(barrier(prev)))).unwrap();
    }
    let watermark = Watermark { col_idx: 0, val: 5i64 };
    buffer.concurrently_consume_upstream(Some(Message::Watermark(watermark))).unwrap();
    assert_eq!(buffer.consume_upstream_row_count, 6);
    let last = dropping(12, vec![(1, TABLE), (SUBSCRIBER, TABLE)]);
    let message: Option<Message<i64>> = Some(Message::Barrier(last));
    assert!(buffer.can_consume(&message));
    buffer.concurrently_consume_upstream(message).unwrap();
    assert!(buffer.is_finished);
    assert!(!buffer.can_consume::<i64>(&None));
    for prev in [10, 11, 12] {
        match buffer.take_buffered_barrier() {
            Taken::Barrier(b) => assert_eq!(b.epoch, epoch(prev)),
            _ => panic!("a barrier waits"),
        }
    }
    assert!(matches!(buffer.take_buffered_barrier(), Taken::Finished));
}

#[test]
fn buffer_until_next_barrier() {
    let mut buffer = UpstreamBuffer::new(TABLE, SUBSCRIBER);
    assert!(buffer.consume_until_next_barrier(Some(Message::Chunk(chunk(2)))).unwrap().is_none());
    let b = buffer.consume_until_next_barrier::<i64>(Some(Message::Barrier(barrier(4)))).unwrap();
    assert_eq!(b.unwrap().epoch, epoch(4));
    assert!(matches!(buffer.take_buffered_barrier(), Taken::Await));
    let e = buffer.consume_until_next_barrier::<i64>(None).unwrap_err();
    assert!(matches!(e, BackfillError::EndOfUpstream));
    assert!(buffer.concurrently_consume_upstream::<i64>(None).is_err());
}

#[test]
fn finish_barriers() {
    let buffer = UpstreamBuffer::new(TABLE, SUBSCRIBER);
    let other = TableId { table_id: 8 };
    assert!(!buffer.is_finish_barrier(&barrier(1)));
    assert!(!buffer.is_finish_barrier(&adding(1, vec![(TABLE, SUBSCRIBER)])));
    assert!(!buffer.is_finish_barrier(&dropping(1, vec![(1, TABLE)])));
    assert!(buffer.is_finish_barrier(&dropping(1, vec![(SUBSCRIBER, other), (SUBSCRIBER, TABLE)])));
    // drops the subscriber, but not on the upstream table
    let odd = dropping(1, vec![(SUBSCRIBER, other), (1, TABLE)]);
    assert!(!buffer.is_sound(&odd));
    assert!(!buffer.can_consume::<i64>(&Some(Message::Barrier(odd))));
}

// ---- snapshot consumer

#[test]
fn consumer_reads_reports_and_drains() {
    let mut c = SnapshotConsumer::new(100, None, epoch(90));
    assert!(c.wants_snapshot());
    c.on_chunk(3);
    c.on_chunk(4);
    assert!(!c.can_pass(epoch(90)));
    assert!(c.can_pass(epoch(91)));
    let report = c.on_barrier(epoch(91)).unwrap();
    assert_eq!(
        report,
        Some(Progress::Update { epoch: epoch(91), consumed_epoch: 91, consumed_rows: 7 })
    );
    assert_eq!(c.epoch_row_count, 0);
    c.on_chunk(1);
    c.on_end();
    assert!(!c.wants_snapshot());
    let report = c.on_barrier(epoch(92)).unwrap();
    assert_eq!(report, Some(Progress::Finish { epoch: epoch(92), consumed_rows: 8 }));
    let far = EpochPair { curr: 99, prev: 93 };
    assert_eq!(c.on_barrier(far).unwrap(), None);
    assert_eq!(c.phase, ConsumePhase::Draining);
    assert_eq!(c.on_barrier(epoch(99)).unwrap(), None);
    assert_eq!(c.phase, ConsumePhase::Done);
    assert!(!c.can_pass(epoch(100)));
}

#[test]
fn consumer_rejects_late_barriers() {
    let mut c = SnapshotConsumer::new(100, None, epoch(98));
    let e = c.on_barrier(epoch(99)).unwrap_err();
    assert!(matches!(e, BackfillError::BarrierPastSnapshot { snapshot_epoch: 100, .. }));
}

#[test]
fn consumer_throttles() {
    let mut c = SnapshotConsumer::new(100, Some(5), epoch(90));
    c.on_chunk(5);
    assert!(!c.throttle_snapshot_stream());
    assert!(c.can_read(3));
    c.on_chunk(3);
    assert!(c.throttle_snapshot_stream());
    assert!(!c.wants_snapshot());
    assert!(!c.can_read(0));
    c.on_barrier(epoch(91)).unwrap();
    assert!(c.wants_snapshot());
    c.on_chunk(1);
    assert!(!c.can_read(usize::MAX));
}

// ---- the whole backfill

fn awaits(inject: bool, upstream: bool, snapshot: bool, log: bool, quiet: bool) -> Awaits {
    Awaits { inject, upstream, snapshot, log, quiet }
}

fn describe(effects: Vec<Effect<i64>>) -> Vec<String> {
    effects
        .into_iter()
        .map(|e| match e {
            Effect::Yield(Message::Barrier(b)) => format!("barrier {}", b.epoch.prev),
            Effect::Yield(Message::Chunk(c)) => format!("chunk {}", c.cardinality()),
            Effect::Yield(Message::Watermark(w)) => format!("watermark {}", w.val),
            Effect::Report(Progress::Update { consumed_rows, .. }) => format!("rows {}", consumed_rows),
            Effect::Report(Progress::Finish { consumed_rows, .. }) => format!("all {}", consumed_rows),
            Effect::ReadLog(e) => format!("log {}", e),
            Effect::ReadSnapshot(e) => format!("snapshot {}", e),
        })
        .collect()
}

fn step(execution: Execution, event: Event<i64>, expected: &[&str]) -> Execution {
    assert!(execution.can_accept(&executor(), &event));
    let (next, effects) = execution.step(&executor(), event).unwrap();
    assert_eq!(describe(effects), expected);
    next
}

fn executor() -> SnapshotBackfillExecutor {
    SnapshotBackfillExecutor::new(TABLE, vec![0], 16, Some(4))
}

fn begin() -> Execution {
    let first = adding(100, vec![(TABLE, SUBSCRIBER)]);
    executor().start(first, Some(barrier(97))).unwrap()
}

fn start() -> Execution {
    step(begin(), Event::Quiet, &["barrier 97", "snapshot 100"])
}

fn inject(prev: u64) -> Event<i64> {
    Event::Inject(Some(barrier(prev)))
}

fn upstream_barrier(prev: u64) -> Event<i64> {
    Event::Upstream(Some(Message::Barrier(barrier(prev))))
}

#[test]
fn backfill_from_snapshot_to_forwarding() {
    let mut x = start();
    assert_eq!(x.awaits(), awaits(true, true, true, false, false));
    x = step(x, Event::Snapshot(Some(chunk(5))), &["chunk 5"]);
    assert!(!x.awaits().snapshot);
    assert!(!x.can_accept(&executor(), &Event::Snapshot(Some(chunk(1)))));
    x = step(x, Event::Upstream(Some(Message::Chunk(chunk(9)))), &[]);
    x = step(x, upstream_barrier(101), &[]);
    x = step(x, inject(98), &["rows 5", "barrier 98"]);
    x = step(x, Event::Snapshot(Some(chunk(2))), &["chunk 2"]);
    x = step(x, Event::Snapshot(None), &[]);
    // the epochs below the snapshot follow each other
    assert!(!x.can_accept(&executor(), &inject(98)));
    x = step(x, Event::Inject(Some(Barrier { epoch: EpochPair { curr: 99, prev: 99 }, mutation: None })), &["all 7", "barrier 99"]);
    assert!(!x.can_accept::<i64>(&executor(), &Event::Quiet));
    x = step(x, inject(99), &["barrier 99"]);
    // the upstream is looked at once more before the first barrier
    assert_eq!(x.awaits(), awaits(false, true, false, false, true));
    assert!(!x.can_accept(&executor(), &inject(100)));
    x = step(x, Event::Quiet, &[]);
    assert!(matches!(x, Execution::SnapshotDone { .. }));
    assert!(!x.can_accept::<i64>(&executor(), &Event::Inject(None)));
    assert!(!x.can_accept(&executor(), &inject(99)));
    x = step(x, inject(100), &["barrier 100"]);

    // the barrier that waited
    assert!(!x.can_accept(&executor(), &inject(102)));
    x = step(x, inject(101), &["log 101"]);
    assert_eq!(x.awaits(), awaits(false, true, false, true, false));
    x = step(x, Event::Log(Some(chunk(9))), &["chunk 9"]);
    x = step(x, Event::Log(None), &["barrier 101"]);
    assert!(matches!(x, Execution::LogNext { .. }));
    x = step(x, Event::Upstream(Some(Message::Chunk(chunk(1)))), &[]);
    x = step(x, upstream_barrier(102), &[]);
    x = step(x, inject(102), &["log 102"]);
    let last = dropping(103, vec![(SUBSCRIBER, TABLE)]);
    x = step(x, Event::Upstream(Some(Message::Barrier(last))), &[]);
    assert!(!x.awaits().upstream);
    x = step(x, Event::Log(None), &["barrier 102"]);
    x = step(x, inject(103), &["log 103"]);
    x = step(x, Event::Log(None), &["barrier 103"]);
    assert!(matches!(x, Execution::Forward));

    x = step(x, Event::Upstream(Some(Message::Chunk(chunk(4)))), &["chunk 4"]);
    let watermark = Watermark { col_idx: 0, val: 6 };
    x = step(x, Event::Upstream(Some(Message::Watermark(watermark))), &["watermark 6"]);
    x = step(x, upstream_barrier(104), &[]);
    assert!(!x.can_accept(&executor(), &inject(105)));
    x = step(x, inject(104), &["barrier 104"]);
    x = step(x, Event::Upstream(None), &[]);
    assert!(matches!(x, Execution::Done));
    assert_eq!(x.awaits(), awaits(false, false, false, false, false));
}

#[test]
fn nothing_to_backfill() {
    let x = executor().start(barrier(100), Some(barrier(100))).unwrap();
    assert!(!x.can_accept(&executor(), &inject(101)));
    let x = step(x, inject(100), &["barrier 100"]);
    assert!(matches!(x, Execution::Forward));
}

#[test]
fn failures() {
    let e = executor().start(barrier(100), None).unwrap_err();
    assert!(matches!(e, BackfillError::EndOfBarrierReceiver));
    let e = executor().start(barrier(100), Some(barrier(97))).unwrap_err();
    assert!(matches!(e, BackfillError::NoSubscriber));
    let two = adding(100, vec![(TABLE, 1), (TABLE, 2)]);
    let e = executor().start(two, Some(barrier(97))).unwrap_err();
    assert!(matches!(e, BackfillError::MultipleSubscribers { .. }));

    // an upstream that has ended counts before the first injected barrier goes downstream
    assert_eq!(begin().awaits(), awaits(false, true, false, false, true));
    let e = begin().step::<i64>(&executor(), Event::Upstream(None)).unwrap_err();
    assert!(matches!(e, BackfillError::EndOfUpstream));
    let mut x = step(start(), Event::Snapshot(None), &[]);
    x = step(x, inject(98), &["all 0", "barrier 98"]);
    x = step(x, inject(99), &["barrier 99"]);
    let e = x.step::<i64>(&executor(), Event::Upstream(None)).unwrap_err();
    assert!(matches!(e, BackfillError::EndOfUpstream));

    let e = start().step::<i64>(&executor(), Event::Inject(None)).unwrap_err();
    assert!(matches!(e, BackfillError::EndOfBarrierReceiver));
    let e = start().step::<i64>(&executor(), Event::Upstream(None)).unwrap_err();
    assert!(matches!(e, BackfillError::EndOfUpstream));
    let x = step(start(), inject(98), &["rows 0", "barrier 98"]);
    let e = x.step(&executor(), inject(99)).unwrap_err();
    match e {
        BackfillError::BarrierPastSnapshot { barrier_epoch, snapshot_epoch } => {
            assert_eq!(barrier_epoch, epoch(99));
            assert_eq!(snapshot_epoch, 100);
        }
        _ => panic!("the snapshot is not read"),
    }
}

#[test]
fn upstream_before_the_first_barrier() {
    let mut x = begin();
    assert!(!x.can_accept(&executor(), &inject(98)));
    x = step(x, Event::Upstream(Some(Message::Chunk(chunk(2)))), &[]);
    x = step(x, upstream_barrier(101), &[]);
    x = step(x, Event::Quiet, &["barrier 97", "snapshot 100"]);
    assert!(!x.can_accept::<i64>(&executor(), &Event::Quiet));
    match x {
        Execution::Snapshot { buffer, .. } => {
            assert_eq!(buffer.consume_upstream_row_count, 2);
            assert_eq!(buffer.barrier.len(), 1);
        }
        _ => panic!("the snapshot is being consumed"),
    }
}

// ---- output columns

#[test]
fn change_log_keeps_the_output_columns() {
    let rows = vec![
        ChangeLogRow::Insert(vec![10, 20]),
        ChangeLogRow::Update { old_value: vec![11, 21], new_value: vec![12, 22] },
        ChangeLogRow::Delete(vec![13, 23]),
    ];
    let r = parts(read_change_log(rows, DataChunkBuilder::new(3), vec![1]));
    assert_eq!(
        r,
        vec![
            (
                vec![Op::Insert, Op::UpdateDelete, Op::UpdateInsert],
                vec![vec![20], vec![21], vec![22]]
            ),
            (vec![Op::Delete], vec![vec![23]]),
        ]
    );
}

#[test]
fn forwarding_keeps_the_output_columns() {
    let executor = SnapshotBackfillExecutor::new(TABLE, vec![1], 16, None);
    let two = || StreamChunk { ops: vec![Op::Insert], rows: vec![vec![10i64, 20]] };
    let event = Event::Upstream(Some(Message::Chunk(two())));
    assert!(Execution::Forward.can_accept(&executor, &event));
    let (x, mut effects) = Execution::Forward.step(&executor, event).unwrap();
    assert!(matches!(x, Execution::Forward));
    assert_eq!(effects.len(), 1);
    match effects.pop() {
        Some(Effect::Yield(Message::Chunk(c))) => {
            assert_eq!((c.ops, c.rows), (vec![Op::Insert], vec![vec![20]]));
        }
        _ => panic!("the chunk goes downstream"),
    }
    let narrow = SnapshotBackfillExecutor::new(TABLE, vec![2], 16, None);
    let event = Event::Upstream(Some(Message::Chunk(two())));
    assert!(!Execution::Forward.can_accept(&narrow, &event));
}

#[test]
fn mapped_messages() {
    let watermark = |col_idx: usize| Message::Watermark(Watermark { col_idx, val: 5i64 });
    // on a column that does not go downstream
    assert!(map_message(watermark(0), &[3, 1, 3]).is_none());
    for (from, to) in [(3usize, 0usize), (1, 1)] {
        match map_message(watermark(from), &[3, 1, 3]) {
            Some(Message::Watermark(w)) => assert_eq!((w.col_idx, w.val), (to, 5)),
            _ => panic!("the column goes downstream"),
        }
    }
    match map_message::<i64>(Message::Barrier(barrier(4)), &[9]) {
        Some(Message::Barrier(b)) => assert_eq!(b.epoch, epoch(4)),
        _ => panic!("a barrier stays"),
    }
    assert!(has_columns(&vec![1, 2], &[1, 0]));
    assert!(!has_columns(&vec![1, 2], &[1, 2]));
    assert!(can_map(&watermark(7), &[9]));
    assert!(can_map(&Message::Chunk(chunk(2)), &[0]));
    assert!(!can_map(&Message::Chunk(chunk(2)), &[0, 1]));
}
