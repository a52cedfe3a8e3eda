//! The barriers of the upstream that arrive while a backfill is busy elsewhere.

use crate::catalog::TableId;
use crate::stream::barrier::{lemma_drops, Barrier, Message, Mutation};
use crate::stream::error::BackfillError;
use std::collections::VecDeque;
use vstd::prelude::*;

verus! {

/// Consumes the upstream, so that it is never held up, and keeps its barriers.
///
/// The rows of the upstream are only counted: they are read from the log store later. The buffer is
/// finished once a barrier drops the subscription of the backfill; from then on the upstream is left
/// alone.
#[derive(Debug)]
pub struct UpstreamBuffer {
    /// The barriers not taken yet, the newest at the front.
    pub barrier: VecDeque<Barrier>,
    pub consume_upstream_row_count: u64,
    pub is_finished: bool,
    pub upstream_table_id: TableId,
    pub current_subscriber_id: u32,
}

/// What an [`UpstreamBuffer`] holds.
pub struct BufferState {
    /// The barriers not taken yet, in the order in which they arrived.
    pub waiting: Seq<Barrier>,
    pub row_count: u64,
    pub is_finished: bool,
    pub upstream_table_id: TableId,
    pub subscriber_id: u32,
}

/// What a buffer has to offer.
#[derive(Debug)]
pub enum Taken {
    /// The oldest barrier.
    Barrier(Barrier),
    /// Nothing is left and nothing will come.
    Finished,
    /// Nothing is left, and the upstream must be consumed until its next barrier.
    Await,
}

impl BufferState {
    /// A buffer that has consumed nothing.
    pub open spec fn fresh(upstream_table_id: TableId, subscriber_id: u32) -> Self {
        BufferState {
            waiting: Seq::empty(),
            row_count: 0,
            is_finished: false,
            upstream_table_id,
            subscriber_id,
        }
    }

    /// The barrier drops the subscription of the backfill.
    pub open spec fn finishes(self, barrier: Barrier) -> bool {
        barrier.drops_subscriber(self.subscriber_id)
    }

    /// If the barrier drops a subscription of the backfill, then also the one on the upstream table.
    pub open spec fn sound(self, barrier: Barrier) -> bool {
        barrier.drops_subscriber(self.subscriber_id) ==> barrier.drops_subscription(
            self.subscriber_id,
            self.upstream_table_id,
        )
    }

    /// The buffer may consume `message`: it is not finished, and a barrier is sound.
    pub open spec fn may_consume<D>(self, message: Option<Message<D>>) -> bool {
        &&& !self.is_finished
        &&& message matches Some(Message::Barrier(barrier)) ==> self.sound(barrier)
    }

    /// The buffer once it has consumed `message`, which is not put among the waiting barriers.
    pub open spec fn consume<D>(self, message: Message<D>) -> Self {
        match message {
            Message::Chunk(chunk) => BufferState {
                row_count: self.row_count.wrapping_add(chunk.rows@.len() as u64),
                ..self
            },
            Message::Barrier(barrier) => BufferState {
                is_finished: self.finishes(barrier),
                ..self
            },
            Message::Watermark(_) => self,
        }
    }

    /// The buffer once it has consumed `message` and keeps it if it is a barrier.
    pub open spec fn keep<D>(self, message: Message<D>) -> Self {
        let consumed = self.consume(message);
        match message {
            Message::Barrier(barrier) => BufferState {
                waiting: self.waiting.push(barrier),
                ..consumed
            },
            _ => consumed,
        }
    }
}

/// The barrier that `message` is, if it is one.
pub open spec fn as_barrier<D>(message: Message<D>) -> Option<Barrier> {
    match message {
        Message::Barrier(barrier) => Some(barrier),
        _ => None,
    }
}

impl View for UpstreamBuffer {
    type V = BufferState;

    open spec fn view(&self) -> BufferState {
        BufferState {
            waiting: self.barrier@.reverse(),
            row_count: self.consume_upstream_row_count,
            is_finished: self.is_finished,
            upstream_table_id: self.upstream_table_id,
            subscriber_id: self.current_subscriber_id,
        }
    }
}

impl UpstreamBuffer {
    /// A buffer that has consumed nothing.
    pub fn new(upstream_table_id: TableId, current_subscriber_id: u32) -> (r: Self)
        ensures
            r@ == BufferState::fresh(upstream_table_id, current_subscriber_id),
    {
        let r = UpstreamBuffer {
            barrier: VecDeque::new(),
            consume_upstream_row_count: 0,
            is_finished: false,
            upstream_table_id,
            current_subscriber_id,
        };
        assert(r@.waiting =~= Seq::<Barrier>::empty());
        r
    }

    /// Whether the barrier drops a subscription of the backfill.
    fn drops_subscriber(&self, barrier: &Barrier) -> (r: bool)
        ensures
            r == barrier.drops_subscriber(self.current_subscriber_id),
    {
        if let Some(Mutation::DropSubscriptions { subscriptions_to_drop }) = &barrier.mutation {
            let mut i: usize = 0;
            while i < subscriptions_to_drop.len()
                invariant
                    i <= subscriptions_to_drop@.len(),
                    barrier.dropped() == subscriptions_to_drop@,
                    forall|k: int|
                        0 <= k < i ==> (#[trigger] subscriptions_to_drop@[k]).0
                            != self.current_subscriber_id,
                decreases subscriptions_to_drop@.len() - i,
            {
                let pair: (u32, TableId) = subscriptions_to_drop[i];
                if pair.0 == self.current_subscriber_id {
                    assert(barrier.dropped()[i as int].0 == self.current_subscriber_id);
                    return true;
                }
                i = i + 1;
            }
        }
        false
    }

    /// Whether the barrier drops the subscription of the backfill on the upstream table.
    fn drops_subscription(&self, barrier: &Barrier) -> (r: bool)
        ensures
            r == barrier.drops_subscription(self.current_subscriber_id, self.upstream_table_id),
    {
        if let Some(Mutation::DropSubscriptions { subscriptions_to_drop }) = &barrier.mutation {
            let ghost wanted = (self.current_subscriber_id, self.upstream_table_id);
            let mut i: usize = 0;
            while i < subscriptions_to_drop.len()
                invariant
                    i <= subscriptions_to_drop@.len(),
                    barrier.dropped() == subscriptions_to_drop@,
                    wanted == (self.current_subscriber_id, self.upstream_table_id),
                    forall|k: int| 0 <= k < i ==> #[trigger] subscriptions_to_drop@[k] != wanted,
                decreases subscriptions_to_drop@.len() - i,
            {
                let pair: (u32, TableId) = subscriptions_to_drop[i];
                if pair.0 == self.current_subscriber_id && pair.1 == self.upstream_table_id {
                    assert(barrier.dropped()[i as int] == wanted);
                    return true;
                }
                i = i + 1;
            }
        }
        false
    }

    /// Whether the barrier is sound: if it drops a subscription of the backfill, then also the one
    /// on the upstream table.
    pub fn is_sound(&self, barrier: &Barrier) -> (r: bool)
        ensures
            r == self@.sound(*barrier),
    {
        !self.drops_subscriber(barrier) || self.drops_subscription(barrier)
    }

    /// Whether the barrier ends the backfill.
    pub fn is_finish_barrier(&self, barrier: &Barrier) -> (r: bool)
        requires
            self@.sound(*barrier),
        ensures
            r == self@.finishes(*barrier),
    {
        let is_finished = self.drops_subscriber(barrier);
        if is_finished {
            let on_upstream_table = self.drops_subscription(barrier);
            assert(on_upstream_table);
        }
        is_finished
    }

    /// Whether the buffer may consume `message`.
    pub fn can_consume<D>(&self, message: &Option<Message<D>>) -> (r: bool)
        ensures
            r == self@.may_consume(*message),
    {
        if self.is_finished {
            return false;
        }
        match message {
            Some(Message::Barrier(barrier)) => self.is_sound(barrier),
            _ => true,
        }
    }

    /// Consumes the next message of the upstream on the way to its next barrier, and gives it if it
    /// is that barrier.
    pub fn consume_until_next_barrier<D>(&mut self, message: Option<Message<D>>) -> (r: Result<
        Option<Barrier>,
        BackfillError,
    >)
        requires
            old(self)@.may_consume(message),
        ensures
            final(self).barrier == old(self).barrier,
            match message {
                Some(message) => {
                    &&& final(self)@ == old(self)@.consume(message)
                    &&& r == Ok::<Option<Barrier>, BackfillError>(as_barrier(message))
                },
                None => {
                    &&& final(self)@ == old(self)@
                    &&& r == Err::<Option<Barrier>, BackfillError>(BackfillError::EndOfUpstream)
                },
            },
    {
        match message {
            Some(Message::Chunk(chunk)) => {
                let rows: u64 = chunk.cardinality() as u64;
                self.consume_upstream_row_count = self.consume_upstream_row_count.wrapping_add(rows);
                Ok(None)
            },
            Some(Message::Barrier(barrier)) => {
                self.is_finished = self.is_finish_barrier(&barrier);
                Ok(Some(barrier))
            },
            Some(Message::Watermark(_)) => Ok(None),
            None => Err(BackfillError::EndOfUpstream),
        }
    }

    /// Consumes the next message of the upstream while the backfill is busy elsewhere, and keeps it
    /// if it is a barrier.
    pub fn concurrently_consume_upstream<D>(&mut self, message: Option<Message<D>>) -> (r: Result<
        (),
        BackfillError,
    >)
        requires
            old(self)@.may_consume(message),
        ensures
            match message {
                Some(message) => {
                    &&& final(self)@ == old(self)@.keep(message)
                    &&& message matches Message::Barrier(barrier) ==> final(self).barrier@ == seq![
                        barrier,
                    ] + old(self).barrier@
                    &&& r == Ok::<(), BackfillError>(())
                },
                None => {
                    &&& final(self)@ == old(self)@
                    &&& r == Err::<(), BackfillError>(BackfillError::EndOfUpstream)
                },
            },
    {
        match self.consume_until_next_barrier(message) {
            Ok(Some(barrier)) => {
                let ghost before = self.barrier@;
                self.barrier.push_front(barrier);
                assert(self.barrier@.reverse() =~= before.reverse().push(barrier));
                assert(self.barrier@ =~= seq![barrier] + before);
                Ok(())
            },
            Ok(None) => Ok(()),
            Err(e) => Err(e),
        }
    }

    /// Takes the oldest barrier, if one is waiting.
    pub fn take_buffered_barrier(&mut self) -> (r: Taken)
        ensures
            match r {
                Taken::Barrier(barrier) => {
                    &&& old(self)@.waiting.len() > 0
                    &&& barrier == old(self)@.waiting[0]
                    &&& barrier == old(self).barrier@.last()
                    &&& final(self).barrier@ == old(self).barrier@.drop_last()
                    &&& final(self)@ == (BufferState {
                        waiting: old(self)@.waiting.drop_first(),
                        ..old(self)@
                    })
                },
                Taken::Finished => {
                    &&& old(self)@.waiting.len() == 0
                    &&& old(self)@.is_finished
                    &&& final(self)@ == old(self)@
                },
                Taken::Await => {
                    &&& old(self)@.waiting.len() == 0
                    &&& !old(self)@.is_finished
                    &&& final(self)@ == old(self)@
                },
            },
    {
        match self.barrier.pop_back() {
            Some(barrier) => {
                assert(self.barrier@.reverse() =~= old(self).barrier@.reverse().drop_first());
                assert(self.barrier@ =~= old(self).barrier@.drop_last());
                Taken::Barrier(barrier)
            },
            None => {
                if self.is_finished {
                    Taken::Finished
                } else {
                    Taken::Await
                }
            },
        }
    }
}

/// The barriers among `messages`, in their order.
pub open spec fn barriers_of<D>(messages: Seq<Message<D>>) -> Seq<Barrier>
    decreases messages.len(),
{
    if messages.len() == 0 {
        Seq::empty()
    } else {
        match messages.last() {
            Message::Barrier(barrier) => barriers_of(messages.drop_last()).push(barrier),
            _ => barriers_of(messages.drop_last()),
        }
    }
}

impl BufferState {
    /// The buffer once it has consumed `messages` one after the other and kept the barriers.
    pub open spec fn keep_all<D>(self, messages: Seq<Message<D>>) -> Self
        decreases messages.len(),
    {
        if messages.len() == 0 {
            self
        } else {
            self.keep_all(messages.drop_last()).keep(messages.last())
        }
    }

    /// The buffer may consume `messages` one after the other.
    pub open spec fn may_keep_all<D>(self, messages: Seq<Message<D>>) -> bool
        decreases messages.len(),
    {
        messages.len() == 0 || {
            &&& self.may_keep_all(messages.drop_last())
            &&& self.keep_all(messages.drop_last()).may_consume(Some(messages.last()))
        }
    }
}

/// A buffer hands out every barrier that it consumed, once, in the order of arrival; and it consumes
/// nothing after the barrier that finishes it.
pub proof fn lemma_buffer_keeps_order<D>(buffer: BufferState, messages: Seq<Message<D>>)
    requires
        buffer.may_keep_all(messages),
    ensures
        buffer.keep_all(messages).waiting == buffer.waiting + barriers_of(messages),
        buffer.keep_all(messages).subscriber_id == buffer.subscriber_id,
        forall|i: int|
            0 <= i < messages.len() - 1 && (#[trigger] messages[i]) is Barrier
                ==> !buffer.finishes(messages[i]->Barrier_0),
        messages.len() > 0 && messages.last() is Barrier ==> buffer.keep_all(messages).is_finished
            == buffer.finishes(messages.last()->Barrier_0),
    decreases messages.len(),
{
    if messages.len() == 0 {
        assert(buffer.waiting + barriers_of(messages) =~= buffer.waiting);
    } else {
        let rest = messages.drop_last();
        lemma_buffer_keeps_order(buffer, rest);
        assert(buffer.keep_all(messages).waiting =~= buffer.waiting + barriers_of(messages));
        assert forall|i: int|
            0 <= i < messages.len() - 1 && (#[trigger] messages[i]) is Barrier implies !buffer.finishes(
            messages[i]->Barrier_0,
        ) by {
            assert(messages[i] == rest[i]);
            if i == rest.len() - 1 {
                assert(rest.last() == messages[i]);
            }
        }
    }
}

/// What consuming one message changes. A chunk adds its rows to the count, which wraps around; a
/// watermark changes nothing; a barrier leaves the count, and finishes the buffer exactly if its list
/// of subscriptions to drop names the subscriber, at whatever place and among whatever others. Nothing
/// is taken from what waits, and only a barrier that is kept is added, at the end.
pub proof fn lemma_consume_one<D>(buffer: BufferState, message: Message<D>)
    ensures
        buffer.consume(message).waiting == buffer.waiting,
        buffer.keep(message).waiting == match message {
            Message::Barrier(barrier) => buffer.waiting.push(barrier),
            _ => buffer.waiting,
        },
        buffer.keep(message).row_count == buffer.consume(message).row_count,
        buffer.keep(message).is_finished == buffer.consume(message).is_finished,
        buffer.keep(message).subscriber_id == buffer.subscriber_id,
        buffer.keep(message).upstream_table_id == buffer.upstream_table_id,
        buffer.consume(message).subscriber_id == buffer.subscriber_id,
        buffer.consume(message).upstream_table_id == buffer.upstream_table_id,
        message matches Message::Chunk(chunk) ==> buffer.consume(message).row_count as int == (
        buffer.row_count + chunk.rows@.len()) % 0x1_0000_0000_0000_0000,
        !(message is Chunk) ==> buffer.consume(message).row_count == buffer.row_count,
        !(message is Barrier) ==> buffer.consume(message).is_finished == buffer.is_finished,
        message matches Message::Barrier(barrier) ==> (buffer.consume(message).is_finished <==> {
            &&& barrier.mutation matches Some(Mutation::DropSubscriptions { subscriptions_to_drop })
            &&& exists|table: TableId|
                #[trigger] subscriptions_to_drop@.contains((buffer.subscriber_id, table))
        }),
{
    if let Message::Chunk(chunk) = message {
        assert(chunk.rows@.len() == chunk.rows.len());
    }
    if let Message::Barrier(barrier) = message {
        let s = buffer.subscriber_id;
        lemma_drops(barrier, s, buffer.upstream_table_id);
        if let Some(Mutation::DropSubscriptions { subscriptions_to_drop }) = barrier.mutation {
            assert forall|table: TableId|
                #[trigger] barrier.drops_subscription(s, table)
                    <==> subscriptions_to_drop@.contains((s, table)) by {
                lemma_drops(barrier, s, table);
            }
            if buffer.consume(message).is_finished {
                let table = choose|table: TableId| #[trigger] barrier.drops_subscription(s, table);
                assert(subscriptions_to_drop@.contains((s, table)));
            }
            if exists|table: TableId| #[trigger] subscriptions_to_drop@.contains((s, table)) {
                let table = choose|table: TableId|
                    #[trigger] subscriptions_to_drop@.contains((s, table));
                assert(barrier.drops_subscription(s, table));
            }
        }
    }
}

/// If the list of a barrier names the subscription of the backfill on the upstream table, at whatever
/// place, the barrier is sound and finishes the buffer.
pub proof fn lemma_own_subscription_finishes<D>(buffer: BufferState, barrier: Barrier)
    requires
        barrier.mutation matches Some(Mutation::DropSubscriptions { subscriptions_to_drop })
            && subscriptions_to_drop@.contains((buffer.subscriber_id, buffer.upstream_table_id)),
    ensures
        buffer.sound(barrier),
        buffer.finishes(barrier),
        buffer.consume(Message::<D>::Barrier(barrier)).is_finished,
{
    lemma_drops(barrier, buffer.subscriber_id, buffer.upstream_table_id);
}

/// A buffer that is not finished takes every chunk, every watermark, the end of the upstream and every
/// barrier but one that drops the subscriber on other tables only. A finished one takes nothing.
pub proof fn lemma_may_consume<D>(buffer: BufferState, message: Option<Message<D>>)
    ensures
        buffer.may_consume(message) <==> {
            &&& !buffer.is_finished
            &&& match message {
                Some(Message::Barrier(barrier)) => !barrier.drops_subscriber(buffer.subscriber_id)
                    || barrier.drops_subscription(buffer.subscriber_id, buffer.upstream_table_id),
                _ => true,
            }
        },
{
}

/// What a buffer is: its barriers from the oldest, which is at the back, to the newest, and its other
/// parts as they are. Only a barrier is one.
pub proof fn lemma_buffer_view<D>(buffer: UpstreamBuffer, message: Message<D>, i: int)
    requires
        0 <= i < buffer.barrier@.len(),
    ensures
        buffer@.waiting.len() == buffer.barrier@.len(),
        buffer@.waiting[i] == buffer.barrier@[buffer.barrier@.len() - 1 - i],
        buffer@.row_count == buffer.consume_upstream_row_count,
        buffer@.is_finished == buffer.is_finished,
        buffer@.upstream_table_id == buffer.upstream_table_id,
        buffer@.subscriber_id == buffer.current_subscriber_id,
        message matches Message::Barrier(barrier) ==> as_barrier(message) == Some(barrier),
        !(message is Barrier) ==> as_barrier(message) is None,
{
}

/// The barriers among messages are all of them, in their order, and nothing else.
pub proof fn lemma_barriers_of<D>(messages: Seq<Message<D>>)
    ensures
        barriers_of(messages) == messages.filter_map(
            |message: Message<D>|
                match message {
                    Message::Barrier(barrier) => Some(barrier),
                    _ => None,
                },
        ),
    decreases messages.len(),
{
    if messages.len() > 0 {
        lemma_barriers_of(messages.drop_last());
    }
}

} // verus!
