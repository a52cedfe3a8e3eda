//! Inserting the batches of a child executor into a table.

pub mod run;

use crate::catalog::{DataType, DataTypeKind, Field, Schema, TableId};
use crate::chunk::DataChunk;
use vstd::prelude::*;
use vstd::string::*;

verus! {

/// What a node of a plan does.
#[derive(Clone, Copy, Debug, PartialEq, Eq, Structural)]
pub enum PlanNodeType {
    Insert,
    Other,
}

/// What the body of an insert node was decoded to.
#[derive(Debug)]
pub enum InsertBody {
    /// The bytes are no insert node: why not.
    Malformed { reason: String },
    /// The table reference names no table: why not.
    BadTableRef { reason: String },
    /// The table to insert into.
    Target { table_id: TableId },
}

/// A node of a plan.
#[derive(Debug)]
pub struct PlanNode {
    pub node_type: PlanNodeType,
    pub body: InsertBody,
    /// Number of child nodes.
    pub children: usize,
}

/// The kinds of tables.
#[derive(Clone, Copy, Debug, PartialEq, Eq, Structural)]
pub enum TableKind {
    Columnar,
    Row,
}

/// Why an insertion fails.
#[derive(Debug)]
pub enum InsertError {
    /// The node is no insert node.
    NotInsert,
    /// The body of the node cannot be decoded.
    Protobuf { reason: String },
    /// The table reference of the node cannot be decoded.
    TableId { reason: String },
    /// The node has no child.
    NoChild,
    /// The table is not columnar.
    NotColumnar,
}

impl InsertError {
    /// The text of the error.
    pub open spec fn text(self) -> Seq<char> {
        match self {
            InsertError::NotInsert => "not an insert node"@,
            InsertError::Protobuf { reason } => reason@,
            InsertError::TableId { reason } => "Failed to parse table id: "@ + reason@,
            InsertError::NoChild => "Child interpreting error"@,
            InsertError::NotColumnar => "Only columnar table support insert"@,
        }
    }

    /// Renders the error.
    pub fn message(&self) -> (r: String)
        ensures
            r@ == self.text(),
    {
        let mut out: String = String::new();
        match self {
            InsertError::NotInsert => {
                out.append("not an insert node");
            },
            InsertError::Protobuf { reason } => {
                out.append(reason.as_str());
            },
            InsertError::TableId { reason } => {
                out.append("Failed to parse table id: ");
                out.append(reason.as_str());
            },
            InsertError::NoChild => {
                out.append("Child interpreting error");
            },
            InsertError::NotColumnar => {
                out.append("Only columnar table support insert");
            },
        }
        assert(out@ =~= self.text());
        out
    }
}

/// What an executor gives when it is executed.
#[derive(Debug)]
pub enum ExecutorResult {
    /// A batch of rows.
    Batch(DataChunk<Option<i32>>),
    /// Nothing more.
    Done,
}

/// The sum of `counts`.
pub open spec fn total(counts: Seq<usize>) -> nat
    decreases counts.len(),
{
    if counts.len() == 0 {
        0
    } else {
        total(counts.drop_last()) + counts.last() as nat
    }
}

/// A batch of one row with one column, which holds `n`.
pub open spec fn holds_only(chunk: DataChunk<Option<i32>>, n: i32) -> bool {
    &&& chunk.rows@.len() == 1
    &&& chunk.rows@[0]@ == seq![Some(n)]
}

/// Inserts the batches of its child into a table, and gives the number of rows as a batch, once.
#[derive(Debug)]
pub struct InsertExecutor {
    /// Target table id.
    pub table_id: TableId,
    pub executed: bool,
    pub schema: Schema,
}

/// An insertion under way.
#[derive(Clone, Copy, Debug)]
pub struct Insertion {
    pub rows_inserted: usize,
}

impl Insertion {
    /// Begins to insert into a table of this kind, which must be columnar.
    pub fn begin(kind: TableKind) -> (r: Result<Insertion, InsertError>)
        ensures
            match r {
                Ok(insertion) => kind == TableKind::Columnar && insertion.rows_inserted == 0,
                Err(e) => kind != TableKind::Columnar && e == InsertError::NotColumnar,
            },
    {
        if kind == TableKind::Columnar {
            Ok(Insertion { rows_inserted: 0 })
        } else {
            Err(InsertError::NotColumnar)
        }
    }

    /// Counts the rows of a batch that was appended to the table.
    pub fn appended(&mut self, rows: usize)
        requires
            old(self).rows_inserted + rows <= usize::MAX,
        ensures
            final(self).rows_inserted == old(self).rows_inserted + rows,
    {
        self.rows_inserted = self.rows_inserted + rows;
    }
}

impl InsertExecutor {
    /// The executor gives one column of 32-bit integers that are never null.
    pub open spec fn gives_row_count(self) -> bool {
        self.schema.fields@ == seq![
            Field { data_type: DataType { kind: DataTypeKind::Int32, nullable: false } },
        ]
    }

    /// An executor that inserts into the table.
    pub fn new(table_id: TableId) -> (r: Self)
        ensures
            r.table_id == table_id,
            !r.executed,
            r.gives_row_count(),
    {
        let mut fields: Vec<Field> = Vec::new();
        fields.push(Field { data_type: DataType { kind: DataTypeKind::Int32, nullable: false } });
        let r = InsertExecutor { table_id, executed: false, schema: Schema { fields } };
        assert(r.gives_row_count());
        r
    }

    /// The executor of an insert node.
    pub fn new_boxed_executor(node: &PlanNode) -> (r: Result<Self, InsertError>)
        ensures
            match r {
                Ok(executor) => {
                    &&& node.node_type == PlanNodeType::Insert
                    &&& node.body == (InsertBody::Target { table_id: executor.table_id })
                    &&& node.children > 0
                    &&& !executor.executed
                    &&& executor.gives_row_count()
                },
                Err(InsertError::NotInsert) => node.node_type != PlanNodeType::Insert,
                Err(InsertError::Protobuf { reason }) => {
                    &&& node.node_type == PlanNodeType::Insert
                    &&& node.body == (InsertBody::Malformed { reason })
                },
                Err(InsertError::TableId { reason }) => {
                    &&& node.node_type == PlanNodeType::Insert
                    &&& node.body == (InsertBody::BadTableRef { reason })
                },
                Err(InsertError::NoChild) => {
                    &&& node.node_type == PlanNodeType::Insert
                    &&& node.body is Target
                    &&& node.children == 0
                },
                Err(InsertError::NotColumnar) => false,
            },
    {
        if node.node_type != PlanNodeType::Insert {
            return Err(InsertError::NotInsert);
        }
        match &node.body {
            InsertBody::Malformed { reason } => Err(
                InsertError::Protobuf { reason: reason.clone() },
            ),
            InsertBody::BadTableRef { reason } => Err(
                InsertError::TableId { reason: reason.clone() },
            ),
            InsertBody::Target { table_id } => {
                if node.children == 0 {
                    Err(InsertError::NoChild)
                } else {
                    Ok(InsertExecutor::new(*table_id))
                }
            },
        }
    }

    /// The table whose kind must be looked up before anything is inserted; none where the insertion
    /// was executed already.
    pub fn target(&self) -> (r: Option<TableId>)
        ensures
            r == if self.executed {
                None
            } else {
                Some(self.table_id)
            },
    {
        if self.executed {
            None
        } else {
            Some(self.table_id)
        }
    }

    /// Ends an insertion once the child has no more batches. Gives the number of rows, as a 32-bit
    /// integer that keeps the low bits.
    pub fn finish(&mut self, insertion: Insertion) -> (r: ExecutorResult)
        ensures
            final(self).executed,
            final(self).table_id == old(self).table_id,
            final(self).schema == old(self).schema,
            r matches ExecutorResult::Batch(chunk) && holds_only(
                chunk,
                insertion.rows_inserted as i32,
            ),
    {
        let count: i32 = #[verifier::truncate] (insertion.rows_inserted as i32);
        let mut row: Vec<Option<i32>> = Vec::new();
        row.push(Some(count));
        assert(row@ =~= seq![Some(count)]);
        let mut rows: Vec<Vec<Option<i32>>> = Vec::new();
        rows.push(row);
        self.executed = true;
        ExecutorResult::Batch(DataChunk { rows })
    }

    /// Executes the insertion into a table of this kind, where `appended` are the numbers of rows of
    /// the batches that the child gave.
    pub fn execute(&mut self, kind: TableKind, appended: &[usize]) -> (r: Result<
        ExecutorResult,
        InsertError,
    >)
        requires
            total(appended@) <= usize::MAX,
        ensures
            final(self).table_id == old(self).table_id,
            final(self).schema == old(self).schema,
            match r {
                Ok(ExecutorResult::Done) => old(self).executed && final(self).executed,
                Ok(ExecutorResult::Batch(chunk)) => {
                    &&& !old(self).executed
                    &&& kind == TableKind::Columnar
                    &&& final(self).executed
                    &&& holds_only(chunk, total(appended@) as i32)
                },
                Err(e) => {
                    &&& !old(self).executed
                    &&& kind != TableKind::Columnar
                    &&& !final(self).executed
                    &&& e == InsertError::NotColumnar
                },
            },
    {
        if self.target().is_none() {
            return Ok(ExecutorResult::Done);
        }
        let mut insertion = match Insertion::begin(kind) {
            Ok(insertion) => insertion,
            Err(e) => {
                return Err(e);
            },
        };
        let mut i: usize = 0;
        while i < appended.len()
            invariant
                i <= appended@.len(),
                insertion.rows_inserted == total(appended@.take(i as int)),
                total(appended@) <= usize::MAX,
            decreases appended@.len() - i,
        {
            proof {
                assert(appended@.take(i + 1).drop_last() =~= appended@.take(i as int));
                lemma_total_prefix(appended@, i + 1);
            }
            insertion.appended(appended[i]);
            i = i + 1;
        }
        assert(appended@.take(i as int) =~= appended@);
        Ok(self.finish(insertion))
    }

    /// The columns that the executor gives.
    pub fn schema(&self) -> (r: &Schema)
        ensures
            *r == self.schema,
    {
        &self.schema
    }
}

proof fn lemma_total_prefix(counts: Seq<usize>, n: int)
    requires
        0 <= n <= counts.len(),
    ensures
        total(counts.take(n)) <= total(counts),
    decreases counts.len() - n,
{
    if n < counts.len() {
        assert(counts.take(n + 1).drop_last() =~= counts.take(n));
        lemma_total_prefix(counts, n + 1);
    } else {
        assert(counts.take(n) =~= counts);
    }
}

/// The total of counts is their sum: that of two lists together is what the two have, and that of a
/// single count is the count.
pub proof fn lemma_total_is_sum(a: Seq<usize>, b: Seq<usize>)
    ensures
        total(Seq::<usize>::empty()) == 0,
        forall|n: usize| total(#[trigger] seq![n]) == n,
        total(a + b) == total(a) + total(b),
        total(a) == a.fold_left(0nat, |sum: nat, n: usize| sum + n as nat),
    decreases a.len() + b.len(),
{
    reveal_with_fuel(total, 2);
    assert forall|n: usize| total(#[trigger] seq![n]) == n by {
        assert(seq![n].drop_last() =~= Seq::<usize>::empty());
    }
    if b.len() > 0 {
        lemma_total_is_sum(a, b.drop_last());
        assert((a + b).drop_last() =~= a + b.drop_last());
    } else {
        assert(a + b =~= a);
        if a.len() > 0 {
            lemma_total_is_sum(a.drop_last(), b);
        }
    }
}

/// The batch that holds only a number has one row with one column, which is that number and not null.
pub proof fn lemma_holds_only(chunk: DataChunk<Option<i32>>, n: i32)
    ensures
        holds_only(chunk, n) <==> {
            &&& chunk.rows@.len() == 1
            &&& chunk.rows@[0]@.len() == 1
            &&& chunk.rows@[0]@[0] == Some(n)
        },
{
    if chunk.rows@[0]@.len() == 1 {
        assert(chunk.rows@[0]@ =~= seq![chunk.rows@[0]@[0]]);
    }
}

/// An executor that gives a row count has a single column, of 32-bit integers that are never null.
pub proof fn lemma_row_count_schema(executor: InsertExecutor)
    ensures
        executor.gives_row_count() <==> {
            &&& executor.schema.fields@.len() == 1
            &&& executor.schema.fields@[0].data_type.kind == DataTypeKind::Int32
            &&& !executor.schema.fields@[0].data_type.nullable
        },
{
    let fields = executor.schema.fields@;
    if fields.len() == 1 {
        assert(fields =~= seq![fields[0]]);
    }
}

/// The texts of the errors, over whatever reason the decoder gave.
pub proof fn lemma_insert_error_texts(reason: String)
    ensures
        (InsertError::Protobuf { reason }).text() == reason@,
        (InsertError::TableId { reason }).text() == "Failed to parse table id: "@ + reason@,
        InsertError::NoChild.text() == "Child interpreting error"@,
        InsertError::NotColumnar.text() == "Only columnar table support insert"@,
{
}

} // verus!
