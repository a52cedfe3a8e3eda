use risingwave_core::catalog::{DataTypeKind, TableId};
use risingwave_core::chunk::DataChunk;
use risingwave_core::insert::run::{InsertAction, InsertEvent, InsertState};
use risingwave_core::insert::{
    ExecutorResult, InsertBody, InsertError, InsertExecutor, Insertion, PlanNode, PlanNodeType,
    TableKind,
};

fn batch(result: ExecutorResult) -> Vec<Vec<Option<i32>>> {
    match result {
        ExecutorResult::Batch(chunk) => chunk.rows,
        ExecutorResult::Done => panic!("a batch was expected"),
    }
}

/// Inserts the batches of `child` into `table`. Gives the result and how often the child was polled.
fn drive(
    executor: &mut InsertExecutor,
    child: Vec<Vec<Vec<i64>>>,
    table: &mut Vec<Vec<i64>>,
) -> (ExecutorResult, usize) {
    let mut child = child.into_iter();
    let mut polls = 0;
    let (mut state, mut action) = executor.start::<i64, String>();
    loop {
        let event = match action {
            InsertAction::LookUp(table_id) => {
                assert_eq!(table_id, executor.table_id);
                InsertEvent::Table(TableKind::Columnar)
            }
            InsertAction::Poll => {
                polls += 1;
                InsertEvent::Child(child.next().map(|rows| DataChunk { rows }))
            }
            InsertAction::Append(chunk) => {
                let rows = chunk.rows.len();
                table.extend(chunk.rows);
                InsertEvent::Appended(rows)
            }
            InsertAction::Give(result) => return (result, polls),
            InsertAction::Refuse(_) | InsertAction::Fail(_) => panic!("nothing fails"),
        };
        assert!(state.can_accept(&event));
        (state, action) = executor.step(state, event);
    }
}

#[test]
fn test_insert_executor() {
    let table_id = TableId { table_id: 0 };
    let mut insert_executor = InsertExecutor::new(table_id);
    let fields = &insert_executor.schema().fields;
    assert_eq!(fields[0].data_type.kind, DataTypeKind::Int32);

    // the child gives one batch with the columns 1, 3, 5, 7, 9 and 2, 4, 6, 8, 10
    let child = vec![vec![vec![1, 2], vec![3, 4], vec![5, 6], vec![7, 8], vec![9, 10]]];
    let mut table: Vec<Vec<i64>> = vec![];
    let (result, polls) = drive(&mut insert_executor, child, &mut table);
    assert_eq!(polls, 2);
    assert_eq!(batch(result), vec![vec![Some(5)]]);
    let column = |i: usize| table.iter().map(|row| row[i]).collect::<Vec<_>>();
    assert_eq!(column(0), vec![1, 3, 5, 7, 9]);
    assert_eq!(column(1), vec![2, 4, 6, 8, 10]);
}

#[test]
fn executed_once() {
    let mut executor = InsertExecutor::new(TableId { table_id: 3 });
    assert_eq!(executor.target(), Some(TableId { table_id: 3 }));
    let first = executor.execute(TableKind::Columnar, &[2, 0, 5]).unwrap();
    assert_eq!(batch(first), vec![vec![Some(7)]]);
    assert!(executor.executed);
    assert_eq!(executor.target(), None);
    let second = executor.execute(TableKind::Columnar, &[2]).unwrap();
    assert!(matches!(second, ExecutorResult::Done));
}

#[test]
fn counts_keep_their_low_bits() {
    let mut executor = InsertExecutor::new(TableId { table_id: 3 });
    let r = executor.execute(TableKind::Columnar, &[(1 << 32) + 1, 1 << 31]).unwrap();
    assert_eq!(batch(r), vec![vec![Some(i32::MIN + 1)]]);
    let mut executor = InsertExecutor::new(TableId { table_id: 3 });
    let r = executor.execute(TableKind::Columnar, &[]).unwrap();
    assert_eq!(batch(r), vec![vec![Some(0)]]);
}

#[test]
fn only_columnar_tables() {
    let mut executor = InsertExecutor::new(TableId { table_id: 3 });
    let e = executor.execute(TableKind::Row, &[1]).unwrap_err();
    assert!(matches!(e, InsertError::NotColumnar));
    assert_eq!(e.message(), "Only columnar table support insert");
    assert!(!executor.executed);
    assert!(Insertion::begin(TableKind::Row).is_err());
}

fn node(node_type: PlanNodeType, body: InsertBody, children: usize) -> PlanNode {
    PlanNode { node_type, body, children }
}

#[test]
fn plan_nodes() {
    let table_id = TableId { table_id: 9 };
    let good = node(PlanNodeType::Insert, InsertBody::Target { table_id }, 1);
    let executor = InsertExecutor::new_boxed_executor(&good).unwrap();
    assert_eq!(executor.table_id, table_id);
    assert!(!executor.executed);
    assert!(!executor.schema().fields[0].data_type.nullable);

    let bad = |reason: &str| InsertBody::BadTableRef { reason: reason.to_string() };
    let malformed = |reason: &str| InsertBody::Malformed { reason: reason.to_string() };
    let fail = |n: PlanNode| InsertExecutor::new_boxed_executor(&n).unwrap_err();

    let e = fail(node(PlanNodeType::Other, malformed("x"), 0));
    assert!(matches!(e, InsertError::NotInsert));
    let e = fail(node(PlanNodeType::Insert, malformed("short"), 0));
    assert!(matches!(e, InsertError::Protobuf { .. }));
    assert_eq!(e.message(), "short");
    let e = fail(node(PlanNodeType::Insert, bad("Missing"), 0));
    assert_eq!(e.message(), "Failed to parse table id: Missing");
    let e = fail(node(PlanNodeType::Insert, InsertBody::Target { table_id }, 0));
    assert_eq!(e.message(), "Child interpreting error");
}

#[test]
fn batches_are_appended_in_order() {
    let mut executor = InsertExecutor::new(TableId { table_id: 3 });
    let mut table = vec![];
    let child = vec![vec![vec![1], vec![2]], vec![], vec![vec![3]]];
    let (result, polls) = drive(&mut executor, child, &mut table);
    assert_eq!(table, vec![vec![1], vec![2], vec![3]]);
    assert_eq!(polls, 4);
    assert_eq!(batch(result), vec![vec![Some(3)]]);
    let (again, polls) = drive(&mut executor, vec![vec![vec![9]]], &mut table);
    assert!(matches!(again, ExecutorResult::Done));
    assert_eq!(polls, 0);
    assert_eq!(table.len(), 3);

    let mut executor = InsertExecutor::new(TableId { table_id: 3 });
    let (result, polls) = drive(&mut executor, vec![], &mut table);
    assert_eq!(polls, 1);
    assert_eq!(batch(result), vec![vec![Some(0)]]);
}

#[test]
fn failed_insertions() {
    type Event = InsertEvent<i64, &'static str>;
    let mut executor = InsertExecutor::new(TableId { table_id: 3 });
    let insertion = Insertion { rows_inserted: usize::MAX };
    for state in [
        InsertState::LookingUp,
        InsertState::Polling(insertion),
        InsertState::Appending(insertion),
    ] {
        let event: Event = InsertEvent::Failed("gone");
        assert!(state.can_accept(&event));
        let (next, action) = executor.step(state, event);
        assert!(matches!(next, InsertState::Ended));
        assert!(matches!(action, InsertAction::Fail("gone")));
        assert!(!executor.executed);
    }
    let event: Event = InsertEvent::Table(TableKind::Row);
    let (next, action) = executor.step(InsertState::LookingUp, event);
    assert!(matches!(next, InsertState::Ended));
    assert!(matches!(action, InsertAction::Refuse(InsertError::NotColumnar)));
    assert!(!executor.executed);

    let late: Event = InsertEvent::Failed("late");
    assert!(!InsertState::Ended.can_accept(&late));
    let early: Event = InsertEvent::Appended(0);
    assert!(!InsertState::LookingUp.can_accept(&early));
    let too_many: Event = InsertEvent::Appended(1);
    assert!(!InsertState::Appending(insertion).can_accept(&too_many));
}
