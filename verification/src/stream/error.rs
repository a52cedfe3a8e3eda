//! What can go wrong in a backfill.

use crate::catalog::TableId;
use crate::decimal::{decimal, list_text, push_decimal, push_list};
use crate::stream::barrier::EpochPair;
use vstd::prelude::*;
use vstd::string::*;

verus! {

/// Why a backfill cannot go on.
#[derive(Debug)]
pub enum BackfillError {
    /// The first barrier adds no subscriber on the upstream table.
    NoSubscriber,
    /// The first barrier adds more than one subscriber on the upstream table.
    MultipleSubscribers { subscriber_ids: Vec<u32>, table_id: TableId },
    /// The upstream ended before the backfill did.
    EndOfUpstream,
    /// No more barriers will be received.
    EndOfBarrierReceiver,
    /// A barrier reached the epoch of the snapshot while the snapshot was still being read.
    BarrierPastSnapshot { barrier_epoch: EpochPair, snapshot_epoch: u64 },
}

/// The text of an epoch pair.
pub open spec fn epoch_text(epoch: EpochPair) -> Seq<char> {
    "EpochPair { curr: "@ + decimal(epoch.curr as nat) + ", prev: "@ + decimal(epoch.prev as nat)
        + " }"@
}

impl BackfillError {
    /// The text of the error.
    pub open spec fn text(self) -> Seq<char> {
        match self {
            BackfillError::NoSubscriber =>
                "first recv barrier on backfill should add subscriber on upstream"@,
            BackfillError::MultipleSubscribers { subscriber_ids, table_id } =>
                "first recv barrier on backfill have multiple subscribers "@ + list_text(
                Seq::new(subscriber_ids@.len(), |i: int| subscriber_ids@[i] as u64),
            ) + " on upstream table "@ + decimal(table_id.table_id as nat),
            BackfillError::EndOfUpstream => "end of upstream"@,
            BackfillError::EndOfBarrierReceiver => "end of barrier receiver"@,
            BackfillError::BarrierPastSnapshot { barrier_epoch, snapshot_epoch } =>
                "should not receive barrier with epoch "@ + epoch_text(barrier_epoch)
                + " later than snapshot epoch "@ + decimal(snapshot_epoch as nat),
        }
    }

    /// Renders the error.
    pub fn message(&self) -> (r: String)
        ensures
            r@ == self.text(),
    {
        let mut out: String = String::new();
        match self {
            BackfillError::NoSubscriber => {
                out.append("first recv barrier on backfill should add subscriber on upstream");
            },
            BackfillError::MultipleSubscribers { subscriber_ids, table_id } => {
                out.append("first recv barrier on backfill have multiple subscribers ");
                let mut numbers: Vec<u64> = Vec::new();
                let mut i: usize = 0;
                while i < subscriber_ids.len()
                    invariant
                        i <= subscriber_ids@.len(),
                        numbers@.len() == i,
                        forall|k: int| 0 <= k < i ==> numbers@[k] == subscriber_ids@[k],
                    decreases subscriber_ids@.len() - i,
                {
                    numbers.push(subscriber_ids[i] as u64);
                    i = i + 1;
                }
                assert(numbers@ =~= Seq::new(
                    subscriber_ids@.len(),
                    |i: int| subscriber_ids@[i] as u64,
                ));
                push_list(&mut out, numbers.as_slice());
                out.append(" on upstream table ");
                push_decimal(&mut out, table_id.table_id as u64);
            },
            BackfillError::EndOfUpstream => {
                out.append("end of upstream");
            },
            BackfillError::EndOfBarrierReceiver => {
                out.append("end of barrier receiver");
            },
            BackfillError::BarrierPastSnapshot { barrier_epoch, snapshot_epoch } => {
                out.append("should not receive barrier with epoch ");
                out.append("EpochPair { curr: ");
                push_decimal(&mut out, barrier_epoch.curr);
                out.append(", prev: ");
                push_decimal(&mut out, barrier_epoch.prev);
                out.append(" }");
                out.append(" later than snapshot epoch ");
                push_decimal(&mut out, *snapshot_epoch);
            },
        }
        assert(out@ =~= self.text());
        out
    }
}

/// The texts of the errors, over all that they tell of.
pub proof fn lemma_backfill_error_texts(
    subscriber_ids: Vec<u32>,
    table_id: TableId,
    barrier_epoch: EpochPair,
    snapshot_epoch: u64,
)
    ensures
        BackfillError::NoSubscriber.text()
            == "first recv barrier on backfill should add subscriber on upstream"@,
        BackfillError::EndOfUpstream.text() == "end of upstream"@,
        BackfillError::EndOfBarrierReceiver.text() == "end of barrier receiver"@,
        (BackfillError::MultipleSubscribers { subscriber_ids, table_id }).text()
            == "first recv barrier on backfill have multiple subscribers "@ + list_text(
            subscriber_ids@.map_values(|id: u32| id as u64),
        ) + " on upstream table "@ + decimal(table_id.table_id as nat),
        (BackfillError::BarrierPastSnapshot { barrier_epoch, snapshot_epoch }).text()
            == "should not receive barrier with epoch EpochPair { curr: "@ + decimal(
            barrier_epoch.curr as nat,
        ) + ", prev: "@ + decimal(barrier_epoch.prev as nat) + " } later than snapshot epoch "@
            + decimal(snapshot_epoch as nat),
{
    assert(Seq::new(subscriber_ids@.len(), |i: int| subscriber_ids@[i] as u64)
        =~= subscriber_ids@.map_values(|id: u32| id as u64));
    reveal_strlit("should not receive barrier with epoch EpochPair { curr: ");
    reveal_strlit("should not receive barrier with epoch ");
    reveal_strlit("EpochPair { curr: ");
    reveal_strlit(" }");
    reveal_strlit(" later than snapshot epoch ");
    reveal_strlit(" } later than snapshot epoch ");
    assert("should not receive barrier with epoch "@ + "EpochPair { curr: "@
        =~= "should not receive barrier with epoch EpochPair { curr: "@);
    assert(" }"@ + " later than snapshot epoch "@ =~= " } later than snapshot epoch "@);
    let e = BackfillError::BarrierPastSnapshot { barrier_epoch, snapshot_epoch };
    assert(e.text() =~= ("should not receive barrier with epoch "@ + "EpochPair { curr: "@)
        + decimal(barrier_epoch.curr as nat) + ", prev: "@ + decimal(barrier_epoch.prev as nat) + (
    " }"@ + " later than snapshot epoch "@) + decimal(snapshot_epoch as nat));
}

} // verus!
