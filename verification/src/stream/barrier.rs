//! Barriers, and the messages that they travel among.

use crate::catalog::TableId;
use crate::chunk::StreamChunk;
use crate::stream::error::BackfillError;
use vstd::prelude::*;

verus! {

/// The epoch that a barrier starts, and the one that it ends.
#[derive(Clone, Copy, Debug, PartialEq, Eq, Structural)]
pub struct EpochPair {
    pub curr: u64,
    pub prev: u64,
}

/// A change of the stream graph that travels with a barrier.
#[derive(Debug)]
pub enum Mutation {
    /// Subscribers begin to follow tables: the table, then the subscriber.
    Add { subscriptions_to_add: Vec<(TableId, u32)> },
    /// Subscribers stop following tables: the subscriber, then the table.
    DropSubscriptions { subscriptions_to_drop: Vec<(u32, TableId)> },
    /// Any other change, in its encoded form.
    Other { encoded: Vec<u8> },
}

/// Marks the end of an epoch in a stream.
#[derive(Debug)]
pub struct Barrier {
    pub epoch: EpochPair,
    pub mutation: Option<Mutation>,
}

/// Says that no later row has a smaller value in a column.
#[derive(Debug)]
pub struct Watermark<D> {
    pub col_idx: usize,
    pub val: D,
}

/// What a stream carries.
#[derive(Debug)]
pub enum Message<D> {
    Chunk(StreamChunk<D>),
    Barrier(Barrier),
    Watermark(Watermark<D>),
}

/// The subscribers that `pairs` put on the table, in their order.
pub open spec fn subscribers_on(pairs: Seq<(TableId, u32)>, table_id: TableId) -> Seq<u32>
    decreases pairs.len(),
{
    if pairs.len() == 0 {
        Seq::empty()
    } else {
        let rest = subscribers_on(pairs.drop_last(), table_id);
        if pairs.last().0 == table_id {
            rest.push(pairs.last().1)
        } else {
            rest
        }
    }
}

impl Barrier {
    /// The subscribers that the barrier adds on the table.
    pub open spec fn added_subscribers(self, table_id: TableId) -> Seq<u32> {
        match self.mutation {
            Some(Mutation::Add { subscriptions_to_add }) => subscribers_on(
                subscriptions_to_add@,
                table_id,
            ),
            _ => Seq::empty(),
        }
    }

    /// The subscriptions that the barrier drops.
    pub open spec fn dropped(self) -> Seq<(u32, TableId)> {
        match self.mutation {
            Some(Mutation::DropSubscriptions { subscriptions_to_drop }) => subscriptions_to_drop@,
            _ => Seq::empty(),
        }
    }

    /// The barrier drops a subscription of this subscriber.
    pub open spec fn drops_subscriber(self, subscriber_id: u32) -> bool {
        exists|i: int| 0 <= i < self.dropped().len() && (#[trigger] self.dropped()[i]).0 == subscriber_id
    }

    /// The barrier drops the subscription of this subscriber on this table.
    pub open spec fn drops_subscription(self, subscriber_id: u32, table_id: TableId) -> bool {
        exists|i: int|
            0 <= i < self.dropped().len() && #[trigger] self.dropped()[i] == (
                subscriber_id,
                table_id,
            )
    }

    /// Lists the subscribers that the barrier adds on the table.
    pub fn added_subscriber_on_mv_table(&self, table_id: TableId) -> (r: Vec<u32>)
        ensures
            r@ == self.added_subscribers(table_id),
    {
        let mut out: Vec<u32> = Vec::new();
        if let Some(Mutation::Add { subscriptions_to_add }) = &self.mutation {
            let mut i: usize = 0;
            while i < subscriptions_to_add.len()
                invariant
                    i <= subscriptions_to_add@.len(),
                    out@ == subscribers_on(subscriptions_to_add@.take(i as int), table_id),
                decreases subscriptions_to_add@.len() - i,
            {
                let pair: (TableId, u32) = subscriptions_to_add[i];
                assert(subscriptions_to_add@.take(i + 1).drop_last() =~= subscriptions_to_add@.take(
                    i as int,
                ));
                if pair.0 == table_id {
                    out.push(pair.1);
                }
                i = i + 1;
            }
            assert(subscriptions_to_add@.take(i as int) =~= subscriptions_to_add@);
        }
        out
    }
}

/// Takes the next barrier that was received, or fails where the sender is gone.
pub fn receive_next_barrier(received: Option<Barrier>) -> (r: Result<Barrier, BackfillError>)
    ensures
        match received {
            Some(barrier) => r == Ok::<Barrier, BackfillError>(barrier),
            None => r == Err::<Barrier, BackfillError>(BackfillError::EndOfBarrierReceiver),
        },
{
    match received {
        Some(barrier) => Ok(barrier),
        None => Err(BackfillError::EndOfBarrierReceiver),
    }
}

/// The one subscriber that the first barrier of a backfill adds on the upstream table.
pub fn backfill_subscriber(first_barrier: &Barrier, table_id: TableId) -> (r: Result<
    u32,
    BackfillError,
>)
    ensures
        ({
            let added = first_barrier.added_subscribers(table_id);
            match r {
                Ok(subscriber_id) => added == seq![subscriber_id],
                Err(BackfillError::NoSubscriber) => added.len() == 0,
                Err(BackfillError::MultipleSubscribers { subscriber_ids, table_id: on }) => {
                    &&& added.len() > 1
                    &&& subscriber_ids@ == added
                    &&& on == table_id
                },
                Err(_) => false,
            }
        }),
{
    let subscriber_ids: Vec<u32> = first_barrier.added_subscriber_on_mv_table(table_id);
    if subscriber_ids.len() == 0 {
        Err(BackfillError::NoSubscriber)
    } else if subscriber_ids.len() == 1 {
        assert(subscriber_ids@ =~= seq![subscriber_ids@[0]]);
        Ok(subscriber_ids[0])
    } else {
        Err(BackfillError::MultipleSubscribers { subscriber_ids, table_id })
    }
}

/// The subscribers on a table are those of its own pairs, each and no other: one for every pair whose
/// table it is, in the order of the pairs.
pub proof fn lemma_subscribers_on(pairs: Seq<(TableId, u32)>, table_id: TableId)
    ensures
        subscribers_on(pairs, table_id) == pairs.filter(
            |pair: (TableId, u32)| pair.0 == table_id,
        ).map_values(|pair: (TableId, u32)| pair.1),
        forall|subscriber: u32|
            subscribers_on(pairs, table_id).contains(subscriber) <==> #[trigger] pairs.contains(
                (table_id, subscriber),
            ),
        subscribers_on(pairs, table_id).len() == pairs.filter(
            |pair: (TableId, u32)| pair.0 == table_id,
        ).len(),
    decreases pairs.len(),
{
    reveal(Seq::filter);
    let own = |pair: (TableId, u32)| pair.0 == table_id;
    let second = |pair: (TableId, u32)| pair.1;
    let all = subscribers_on(pairs, table_id);
    if pairs.len() > 0 {
        let rest = pairs.drop_last();
        let before = subscribers_on(rest, table_id);
        lemma_subscribers_on(rest, table_id);
        assert(pairs =~= rest.push(pairs.last()));
        assert(all =~= pairs.filter(own).map_values(second));
        assert forall|subscriber: u32|
            all.contains(subscriber) <==> #[trigger] pairs.contains((table_id, subscriber)) by {
            let pair = (table_id, subscriber);
            assert(before.contains(subscriber) <==> rest.contains(pair));
            if rest.contains(pair) {
                let i = choose|i: int| 0 <= i < rest.len() && rest[i] == pair;
                assert(pairs[i] == pair);
                let j = choose|j: int| 0 <= j < before.len() && before[j] == subscriber;
                assert(all[j] == subscriber);
            } else if pairs.last() == pair {
                assert(pairs[pairs.len() - 1] == pair);
                assert(all[all.len() - 1] == subscriber);
            } else {
                if pairs.contains(pair) {
                    let i = choose|i: int| 0 <= i < pairs.len() && pairs[i] == pair;
                    assert(i < rest.len() && rest[i] == pair);
                }
                if all.contains(subscriber) {
                    let j = choose|j: int| 0 <= j < all.len() && all[j] == subscriber;
                    assert(j < before.len() && before[j] == subscriber);
                }
            }
        }
    } else {
        assert(all =~= pairs.filter(own).map_values(second));
    }
}

/// Only a barrier that adds subscriptions adds subscribers: on each table those of its list, and there
/// is a single one exactly if one place of the list names the table.
pub proof fn lemma_added_subscribers(barrier: Barrier, table_id: TableId, subscriber: u32)
    ensures
        barrier.added_subscribers(table_id).contains(subscriber) <==> {
            &&& barrier.mutation matches Some(Mutation::Add { subscriptions_to_add })
            &&& subscriptions_to_add@.contains((table_id, subscriber))
        },
        barrier.mutation matches Some(Mutation::Add { subscriptions_to_add })
            ==> barrier.added_subscribers(table_id) == subscriptions_to_add@.filter(
            |pair: (TableId, u32)| pair.0 == table_id,
        ).map_values(|pair: (TableId, u32)| pair.1),
{
    if let Some(Mutation::Add { subscriptions_to_add }) = barrier.mutation {
        lemma_subscribers_on(subscriptions_to_add@, table_id);
        assert(barrier.added_subscribers(table_id).contains(subscriber)
            <==> subscriptions_to_add@.contains((table_id, subscriber)));
    }
}

/// A barrier drops what its list of subscriptions to drop names, at whatever place, and only such a
/// barrier drops anything.
pub proof fn lemma_drops(barrier: Barrier, subscriber_id: u32, table_id: TableId)
    ensures
        barrier.drops_subscription(subscriber_id, table_id) <==> {
            &&& barrier.mutation matches Some(Mutation::DropSubscriptions { subscriptions_to_drop })
            &&& subscriptions_to_drop@.contains((subscriber_id, table_id))
        },
        barrier.drops_subscriber(subscriber_id) <==> exists|table: TableId|
            #[trigger] barrier.drops_subscription(subscriber_id, table),
        barrier.drops_subscription(subscriber_id, table_id) ==> barrier.drops_subscriber(
            subscriber_id,
        ),
{
    let list = barrier.dropped();
    let pair = (subscriber_id, table_id);
    if list.contains(pair) {
        let i = choose|i: int| 0 <= i < list.len() && list[i] == pair;
        assert(list[i] == pair);
        assert(barrier.drops_subscription(subscriber_id, table_id));
    }
    if barrier.drops_subscription(subscriber_id, table_id) {
        let i = choose|i: int| 0 <= i < list.len() && #[trigger] list[i] == pair;
        assert(list[i].0 == subscriber_id);
        assert(list.contains(pair));
    }
    if barrier.drops_subscriber(subscriber_id) {
        let i = choose|i: int| 0 <= i < list.len() && (#[trigger] list[i]).0 == subscriber_id;
        assert(list[i] == (subscriber_id, list[i].1));
        assert(barrier.drops_subscription(subscriber_id, list[i].1));
    }
    if exists|table: TableId| #[trigger] barrier.drops_subscription(subscriber_id, table) {
        let table = choose|table: TableId|
            #[trigger] barrier.drops_subscription(subscriber_id, table);
        let i = choose|i: int|
            0 <= i < list.len() && #[trigger] list[i] == (subscriber_id, table);
        assert(list[i].0 == subscriber_id);
    }
}

} // verus!
