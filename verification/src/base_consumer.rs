//! A low-level consumer that is polled by hand.

use crate::broker::{FetchOptions, Request};
use crate::config::{AutoOffsetResetStrategy, ConsumerConfig};
use crate::context::{ConsumerContext, DefaultConsumerContext};
use crate::error::{KafkaError, KafkaResult, SeekRefusal};
use crate::message::{head_has_successor, OwnedMessage};
use crate::model::{
    fresh, lemma_fresh_has_key, refused, refused_from, reset_all, sought, ConsumerView,
};
use crate::positions::{invalid_positions, lemma_invalid_positions_push, Positions};
use crate::topic_partition_list::{
    elems, find_last, has_key, last_index, lemma_last_index, lemma_push_has_key, retain_without,
    Elem, ElemView, Offset, TopicPartitionList,
};
use std::collections::VecDeque;
use vstd::prelude::*;

verus! {

/// What a consumer remembers.
#[derive(Debug)]
pub struct ConsumerState {
    /// The assigned partitions, each with the offset to fetch from next.
    pub tpl: TopicPartitionList,
    /// The positions that are known.
    pub positions: Positions,
    /// The messages that were fetched and not consumed yet.
    pub msgs: VecDeque<OwnedMessage>,
}

impl View for ConsumerState {
    type V = ConsumerView;

    open spec fn view(&self) -> ConsumerView {
        ConsumerView { tpl: self.tpl@, positions: self.positions@, buffer: self.msgs@ }
    }
}

/// How far a poll got.
#[derive(Debug)]
pub enum PollStep<T> {
    /// The poll is over.
    Ready(T),
    /// The poll goes on when the broker's reply to the request is there.
    Fetch(Request),
}

/// What a broker sends in reply to a fetch: messages, and the partitions that were asked for with
/// the offsets to ask for next.
pub type Fetched = KafkaResult<(Vec<OwnedMessage>, TopicPartitionList)>;

/// Whether the position behind the first message of a reply exists.
pub open spec fn reply_has_successor(reply: Fetched) -> bool {
    match reply {
        Ok((msgs, _)) => head_has_successor(msgs@),
        Err(_) => true,
    }
}

/// Whether a request is for the messages that come next in the partitions of `tpl`, within the
/// limits of the settings.
pub open spec fn is_fetch(request: Request, tpl: Seq<ElemView>, config: ConsumerConfig) -> bool {
    &&& request is Fetch
    &&& request->Fetch_tpl@ == tpl
    &&& request->opts.fetch_max_bytes == config.fetch_max_bytes
    &&& request->opts.max_partition_fetch_bytes == config.max_partition_fetch_bytes
}

/// The messages of a reply as a queue.
fn into_queue(msgs: Vec<OwnedMessage>) -> (queue: VecDeque<OwnedMessage>)
    ensures
        queue@ == msgs@,
{
    let ghost all = msgs@;
    let mut msgs: Vec<OwnedMessage> = msgs;
    let mut queue: VecDeque<OwnedMessage> = VecDeque::with_capacity(msgs.len());
    while msgs.len() > 0
        invariant
            msgs@ + queue@ == all,
        decreases msgs@.len(),
    {
        let ghost before = msgs@;
        let ghost queued = queue@;
        if let Some(msg) = msgs.pop() {
            queue.push_front(msg);
            assert(msgs@ + queue@ =~= before + queued);
        }
    }
    assert(queue@ =~= all);
    queue
}

/// A result that may be missing as a possible result.
fn transpose<T>(result: KafkaResult<Option<T>>) -> (r: Option<KafkaResult<T>>)
    ensures
        r == transposed(result),
{
    match result {
        Ok(Some(value)) => Some(Ok(value)),
        Ok(None) => None,
        Err(error) => Some(Err(error)),
    }
}

/// A result that may be missing as a possible result.
pub open spec fn transposed<T>(result: KafkaResult<Option<T>>) -> Option<KafkaResult<T>> {
    match result {
        Ok(Some(value)) => Some(Ok(value)),
        Ok(None) => None,
        Err(error) => Some(Err(error)),
    }
}

/// A low-level consumer that requires manual polling.
///
/// This consumer must be periodically polled to make progress and to receive messages.
pub struct BaseConsumer<C = DefaultConsumerContext> where C: ConsumerContext {
    _context: C,
    config: ConsumerConfig,
    state: ConsumerState,
}

impl<C: ConsumerContext> View for BaseConsumer<C> {
    type V = ConsumerView;

    closed spec fn view(&self) -> ConsumerView {
        self.state@
    }
}

proof fn lemma_sought_push(tpl: Seq<ElemView>, requested: Seq<ElemView>, e: ElemView)
    requires
        has_key(tpl, e.key()),
    ensures
        0 <= last_index(tpl, e.key()) < tpl.len(),
        sought(tpl, requested.push(e)) == sought(tpl, requested).update(
            last_index(tpl, e.key()),
            sought(tpl, requested)[last_index(tpl, e.key())].at(e.offset),
        ),
{
    let more = requested.push(e);
    let at = last_index(tpl, e.key());
    lemma_last_index(tpl, e.key());
    let next = sought(tpl, requested).update(at, sought(tpl, requested)[at].at(e.offset));
    assert(more.drop_last() =~= requested);
    assert forall|i: int| 0 <= i < tpl.len() implies sought(tpl, more)[i] == next[i] by {
        let key = tpl[i].key();
        lemma_push_has_key(requested, e, key);
        lemma_last_index(tpl, key);
        lemma_last_index(requested, key);
    }
    assert(sought(tpl, more) =~= next);
}

impl BaseConsumer<DefaultConsumerContext> {
    /// A consumer with the given settings and no context, to which nothing is assigned.
    pub fn from_config(config: ConsumerConfig) -> (consumer: Self)
        ensures
            consumer@ == ConsumerView::init(),
            consumer.config() == config,
            consumer.context() == DefaultConsumerContext,
    {
        BaseConsumer::from_config_and_context(config, DefaultConsumerContext)
    }
}

impl<C: ConsumerContext> BaseConsumer<C> {
    /// The settings of the consumer.
    pub closed spec fn config(&self) -> ConsumerConfig {
        self.config
    }

    /// The context of the consumer.
    pub closed spec fn context(&self) -> C {
        self._context
    }

    /// A consumer with the given settings and context, to which nothing is assigned.
    pub fn from_config_and_context(config: ConsumerConfig, context: C) -> (consumer: Self)
        ensures
            consumer@ == ConsumerView::init(),
            consumer.config() == config,
            consumer.context() == context,
    {
        BaseConsumer {
            _context: context,
            config,
            state: ConsumerState {
                tpl: TopicPartitionList::new(),
                positions: Positions::new(),
                msgs: VecDeque::new(),
            },
        }
    }

    /// What the consumer remembers.
    pub fn state(&self) -> (state: &ConsumerState)
        ensures
            state@ == self@,
    {
        &self.state
    }

    fn reset_offset(&self, e: &mut Elem)
        ensures
            final(e)@ == old(e)@.at(self.config().auto_offset_reset.reset(old(e).offset)),
    {
        if e.offset == Offset::Invalid {
            match self.config.auto_offset_reset {
                AutoOffsetResetStrategy::Latest => e.offset = Offset::End,
                AutoOffsetResetStrategy::Earliest => e.offset = Offset::Beginning,
                AutoOffsetResetStrategy::Error => {},
            }
        }
    }

    fn reset_list(&self, assignment: &TopicPartitionList) -> (tpl: TopicPartitionList)
        ensures
            tpl@ == reset_all(self.config().auto_offset_reset, assignment@),
    {
        let ghost strategy = self.config().auto_offset_reset;
        let mut tpl: TopicPartitionList = assignment.clone();
        let ghost given = tpl@;
        let mut i: usize = 0;
        while i < tpl.list.len()
            invariant
                i <= tpl.list@.len(),
                tpl@.len() == given.len(),
                strategy == self.config().auto_offset_reset,
                forall|j: int|
                    0 <= j < i ==> #[trigger] tpl@[j] == reset_all(strategy, given)[j],
                forall|j: int| i <= j < given.len() ==> #[trigger] tpl@[j] == given[j],
            decreases tpl.list@.len() - i,
        {
            let ghost before = tpl@;
            assert(before[i as int] == tpl.list@[i as int]@);
            self.reset_offset(&mut tpl.list[i]);
            assert(forall|j: int| 0 <= j < given.len() && j != i ==> #[trigger] tpl@[j] == before[j]);
            i = i + 1;
        }
        assert(tpl@ =~= reset_all(strategy, given));
        tpl
    }

    /// Replaces the assignment.
    ///
    /// Partitions without an offset are taken up where the settings say. Nothing of what was
    /// buffered is kept.
    pub fn assign(&mut self, assignment: &TopicPartitionList) -> (r: KafkaResult<()>)
        ensures
            r is Ok,
            final(self).config() == old(self).config(),
            final(self).context() == old(self).context(),
            final(self)@ == old(self)@.assign(
                old(self).config().auto_offset_reset,
                assignment@,
            ),
    {
        let tpl: TopicPartitionList = self.reset_list(assignment);
        let positions: Positions = Positions::invalid_for(&assignment.list);
        self.state = ConsumerState { tpl, positions, msgs: VecDeque::new() };
        Ok(())
    }

    /// Incrementally adds partitions to the current assignment.
    ///
    /// Existing partitions are left untouched, including their offsets.
    /// Buffered messages from existing partitions are preserved.
    /// To adjust offsets for partitions that are already assigned, call
    /// [`BaseConsumer::seek_partitions`] instead.
    pub fn incremental_assign(&mut self, assignment: &TopicPartitionList) -> (r: KafkaResult<()>)
        ensures
            r is Ok,
            final(self).config() == old(self).config(),
            final(self).context() == old(self).context(),
            final(self)@ == old(self)@.incremental_assign(
                old(self).config().auto_offset_reset,
                assignment@,
            ),
    {
        let new_tpl: TopicPartitionList = self.reset_list(assignment);
        let ghost tpl = self.state.tpl@;
        let ghost positions = self.state.positions@;
        let ghost new = new_tpl@;
        let mut i: usize = 0;
        assert(tpl + fresh(tpl, new.take(0)) =~= tpl);
        assert(positions.union_prefer_right(invalid_positions(fresh(tpl, new.take(0))))
            =~= positions);
        while i < new_tpl.list.len()
            invariant
                i <= new.len(),
                new == new_tpl@,
                self.state.tpl@ == tpl + fresh(tpl, new.take(i as int)),
                self.state.positions@ == positions.union_prefer_right(
                    invalid_positions(fresh(tpl, new.take(i as int))),
                ),
                self.state.msgs@ == old(self).state.msgs@,
                self.config == old(self).config,
                self._context == old(self)._context,
            decreases new.len() - i,
        {
            let e: &Elem = &new_tpl.list[i];
            let ghost front = new.take(i as int);
            let ghost found = fresh(tpl, front);
            let ghost tpl_before = self.state.tpl@;
            proof {
                assert(new[i as int] == e@);
                assert(new.take(i + 1).drop_last() =~= front);
                lemma_fresh_has_key(tpl, front, e@.key());
                lemma_last_index(self.state.tpl@, e@.key());
            }
            if find_last(&self.state.tpl.list, &e.topic, e.partition).is_none() {
                proof {
                    lemma_invalid_positions_push(found, e@);
                }
                self.state.positions.insert(e.topic.clone(), e.partition, Offset::Invalid);
                assert(self.state.positions@ =~= positions.union_prefer_right(
                    invalid_positions(found.push(e@)),
                ));
                self.state.tpl.list.push(e.clone());
                assert(self.state.tpl@ =~= tpl_before.push(e@));
                assert(self.state.tpl@ =~= tpl + found.push(e@));
            }
            i = i + 1;
        }
        assert(new.take(i as int) =~= new);
        Ok(())
    }

    /// Incrementally removes partitions from the current assignment.
    ///
    /// Partitions not present in the current assignment are ignored.
    /// Note: Buffered messages are not cleared. Any messages already
    /// fetched from removed partitions may still be returned by subsequent
    /// poll operations until the buffer is exhausted.
    pub fn incremental_unassign(&mut self, unassignment: &TopicPartitionList) -> (r: KafkaResult<
        (),
    >)
        ensures
            r is Ok,
            final(self).config() == old(self).config(),
            final(self).context() == old(self).context(),
            final(self)@ == old(self)@.incremental_unassign(unassignment@),
    {
        if self.state.tpl.list.len() == 0 {
            return Ok(());
        }
        self.state.tpl.list = retain_without(&self.state.tpl.list, &unassignment.list);
        self.state.positions.remove_all(&unassignment.list);
        Ok(())
    }

    /// Retrieve current positions (offsets) for topics and partitions.
    ///
    /// Each partition's offset is the last consumed message offset + 1, or [`Offset::Invalid`]
    /// if no message has been consumed since assignment or seek.
    pub fn position(&self) -> (r: KafkaResult<TopicPartitionList>)
        ensures
            r is Ok,
            r->Ok_0@ == self@.position(),
    {
        let mut tpl: TopicPartitionList = TopicPartitionList::with_capacity(self.state.tpl.count());
        let mut i: usize = 0;
        while i < self.state.tpl.list.len()
            invariant
                i <= self.state.tpl.list@.len(),
                tpl@ =~= self@.position().take(i as int),
            decreases self.state.tpl.list@.len() - i,
        {
            let elem: &Elem = &self.state.tpl.list[i];
            assert(self@.tpl[i as int] == elem@);
            let offset: Offset = match self.state.positions.get(&elem.topic, elem.partition) {
                Some(offset) => offset,
                None => Offset::Invalid,
            };
            match tpl.add_partition_offset(elem.topic.as_str(), elem.partition, offset) {
                Ok(()) => {},
                Err(error) => return Err(error),
            }
            i = i + 1;
        }
        Ok(tpl)
    }

    /// Adjusts offsets for the partitions that are currently assigned.
    ///
    /// This clears the buffered messages and writes the offsets provided in
    /// `topic_partition_list` back to the assignment. Only partitions that are already assigned
    /// may be updated, and `Offset::Stored` and `Offset::OffsetTail` are refused.
    ///
    /// Returns the provided list so the caller can keep using it. A refusal leaves the consumer
    /// as it was.
    pub fn seek_partitions(&mut self, topic_partition_list: TopicPartitionList) -> (r: KafkaResult<
        TopicPartitionList,
    >)
        ensures
            final(self).config() == old(self).config(),
            final(self).context() == old(self).context(),
            match refused(old(self)@.tpl, topic_partition_list@) {
                None => r == Ok::<TopicPartitionList, KafkaError>(topic_partition_list)
                    && final(self)@ == old(self)@.seek(topic_partition_list@),
                Some(text) => r is Err && r->Err_0 is Seek && r->Err_0->Seek_0@ == text
                    && final(self)@ == old(self)@,
            },
    {
        let ghost tpl = self.state.tpl@;
        let ghost requested = topic_partition_list@;
        let count: usize = topic_partition_list.list.len();
        let mut target_indices: Vec<usize> = Vec::with_capacity(count);
        let mut i: usize = 0;
        while i < count
            invariant
                i <= count,
                count == requested.len(),
                requested == topic_partition_list@,
                tpl == self.state.tpl@,
                tpl == old(self)@.tpl,
                *self == *old(self),
                target_indices@.len() == i,
                forall|j: int| 0 <= j < i ==> has_key(tpl, #[trigger] requested[j].key()),
                forall|j: int|
                    0 <= j < i ==> #[trigger] target_indices@[j] == last_index(
                        tpl,
                        requested[j].key(),
                    ),
                refused(tpl, requested) == refused_from(tpl, requested, i as int),
            decreases count - i,
        {
            let e: &Elem = &topic_partition_list.list[i];
            assert(requested[i as int] == e@);
            let unsupported: Option<SeekRefusal> = match e.offset {
                Offset::Invalid => Some(SeekRefusal::InvalidOffset),
                Offset::Stored => Some(SeekRefusal::StoredOffset),
                Offset::OffsetTail(_) => Some(SeekRefusal::OffsetTail),
                _ => None,
            };
            if let Some(why) = unsupported {
                return Err(KafkaError::Seek(why.text(e.topic.as_str(), e.partition)));
            }
            match find_last(&self.state.tpl.list, &e.topic, e.partition) {
                Some(at) => {
                    proof {
                        lemma_last_index(tpl, e@.key());
                    }
                    assert(has_key(tpl, requested[i as int].key()));
                    assert(at == last_index(tpl, requested[i as int].key()));
                    target_indices.push(at);
                },
                None => {
                    return Err(
                        KafkaError::Seek(
                            SeekRefusal::NotAssigned.text(e.topic.as_str(), e.partition),
                        ),
                    );
                },
            }
            i = i + 1;
        }
        let ghost positions = self.state.positions@;
        self.state.msgs.clear();
        let mut k: usize = 0;
        assert(sought(tpl, requested.take(0)) =~= tpl);
        assert(positions.union_prefer_right(invalid_positions(requested.take(0))) =~= positions);
        while k < count
            invariant
                k <= count,
                count == requested.len(),
                requested == topic_partition_list@,
                target_indices@.len() == count,
                forall|j: int| 0 <= j < count ==> has_key(tpl, #[trigger] requested[j].key()),
                forall|j: int|
                    0 <= j < count ==> #[trigger] target_indices@[j] == last_index(
                        tpl,
                        requested[j].key(),
                    ),
                self.state.tpl@ == sought(tpl, requested.take(k as int)),
                self.state.positions@ == positions.union_prefer_right(
                    invalid_positions(requested.take(k as int)),
                ),
                self.state.msgs@ == Seq::<OwnedMessage>::empty(),
                self.config == old(self).config,
                self._context == old(self)._context,
            decreases count - k,
        {
            let e: &Elem = &topic_partition_list.list[k];
            let at: usize = target_indices[k];
            let ghost before = requested.take(k as int);
            let ghost tpl_before = self.state.tpl@;
            proof {
                assert(requested[k as int] == e@);
                lemma_sought_push(tpl, before, e@);
                lemma_invalid_positions_push(before, e@);
                assert(requested.take(k + 1) =~= before.push(e@));
                assert(target_indices@[k as int] == last_index(tpl, e@.key()));
                assert(tpl_before.len() == tpl.len());
                assert(self.state.tpl.list@.len() == tpl_before.len());
            }
            self.state.tpl.list[at].offset = e.offset;
            assert(self.state.tpl@ =~= tpl_before.update(
                at as int,
                tpl_before[at as int].at(e.offset),
            ));
            self.state.positions.insert(e.topic.clone(), e.partition, Offset::Invalid);
            assert(self.state.positions@ =~= positions.union_prefer_right(
                invalid_positions(before.push(e@)),
            ));
            k = k + 1;
        }
        assert(requested.take(k as int) =~= requested);
        Ok(topic_partition_list)
    }

    /// The request for the low and high watermarks for a specific topic and partition.
    pub fn fetch_watermarks(&self, topic: &str, partition: i32) -> (request: Request)
        ensures
            request is FetchWatermarks,
            request->FetchWatermarks_topic@ == topic@,
            request->FetchWatermarks_partition == partition,
    {
        Request::FetchWatermarks { topic: topic.to_owned(), partition }
    }

    /// The request for the offsets at the times that stand in the place of offsets.
    pub fn offsets_for_times(&self, timestamps: TopicPartitionList) -> (request: Request)
        ensures
            request == (Request::OffsetsForTimes { tpl: timestamps }),
    {
        Request::OffsetsForTimes { tpl: timestamps }
    }

    /// The request for what the broker knows of a topic, or of all.
    pub fn fetch_metadata(&self, topic: Option<&str>) -> (request: Request)
        ensures
            request is FetchMetadata,
            match topic {
                Some(name) => request->FetchMetadata_topic is Some
                    && request->FetchMetadata_topic->0@ == name@,
                None => request->FetchMetadata_topic is None,
            },
    {
        Request::FetchMetadata {
            topic: match topic {
                Some(name) => Some(name.to_owned()),
                None => None,
            },
        }
    }

    fn pop_buffered(&mut self) -> (msg: Option<OwnedMessage>)
        requires
            head_has_successor(old(self)@.buffer),
        ensures
            final(self).config() == old(self).config(),
            final(self).context() == old(self).context(),
            final(self)@ == old(self)@.consume(),
            msg == old(self)@.head(),
    {
        let msg: Option<OwnedMessage> = self.state.msgs.pop_front();
        if let Some(msg) = &msg {
            self.state.positions.insert(
                msg.topic.clone(),
                msg.partition,
                Offset::Offset(msg.offset + 1),
            );
        }
        assert(self@.buffer =~= old(self)@.consume().buffer);
        msg
    }

    /// Takes up a poll: hands out the next buffered message, or says what to fetch.
    ///
    /// Where nothing is buffered and nothing is assigned there is no message to wait for.
    pub fn poll_internal(&mut self) -> (step: PollStep<Option<OwnedMessage>>)
        requires
            head_has_successor(old(self)@.buffer),
        ensures
            final(self).config() == old(self).config(),
            final(self).context() == old(self).context(),
            final(self)@ == old(self)@.consume(),
            if old(self)@.buffer.len() == 0 && old(self)@.tpl.len() > 0 {
                step is Fetch && is_fetch(step->Fetch_0, old(self)@.tpl, old(self).config())
            } else {
                step == PollStep::<Option<OwnedMessage>>::Ready(old(self)@.head())
            },
    {
        if self.state.msgs.len() == 0 {
            let tpl: TopicPartitionList = self.state.tpl.clone();
            if tpl.count() == 0 {
                return PollStep::Ready(None);
            }
            let opts: FetchOptions = FetchOptions {
                fetch_max_bytes: self.config.fetch_max_bytes,
                max_partition_fetch_bytes: self.config.max_partition_fetch_bytes,
            };
            return PollStep::Fetch(Request::Fetch { tpl, opts });
        }
        PollStep::Ready(self.pop_buffered())
    }

    /// Goes on with a poll when the broker's reply is there: buffers what came and hands out the
    /// first message of it. An error leaves the consumer as it was.
    pub fn poll_internal_reply(&mut self, reply: Fetched) -> (r: KafkaResult<Option<OwnedMessage>>)
        requires
            reply_has_successor(reply),
        ensures
            final(self).config() == old(self).config(),
            final(self).context() == old(self).context(),
            match reply {
                Ok((msgs, tpl)) => {
                    &&& final(self)@ == old(self)@.receive(msgs@, tpl@).consume()
                    &&& r == Ok::<Option<OwnedMessage>, KafkaError>(
                        old(self)@.receive(msgs@, tpl@).head(),
                    )
                },
                Err(error) => {
                    &&& final(self)@ == old(self)@
                    &&& r == Err::<Option<OwnedMessage>, KafkaError>(error)
                },
            },
    {
        match reply {
            Ok((msgs, tpl)) => {
                self.state.msgs = into_queue(msgs);
                self.state.tpl = tpl;
                Ok(self.pop_buffered())
            },
            Err(error) => Err(error),
        }
    }

    /// Polls the consumer for new messages.
    pub fn poll(&mut self) -> (step: PollStep<Option<KafkaResult<OwnedMessage>>>)
        requires
            head_has_successor(old(self)@.buffer),
        ensures
            final(self).config() == old(self).config(),
            final(self).context() == old(self).context(),
            final(self)@ == old(self)@.consume(),
            if old(self)@.buffer.len() == 0 && old(self)@.tpl.len() > 0 {
                step is Fetch && is_fetch(step->Fetch_0, old(self)@.tpl, old(self).config())
            } else {
                step == PollStep::<Option<KafkaResult<OwnedMessage>>>::Ready(
                    transposed(Ok(old(self)@.head())),
                )
            },
    {
        match self.poll_internal() {
            PollStep::Ready(msg) => PollStep::Ready(transpose(Ok(msg))),
            PollStep::Fetch(request) => PollStep::Fetch(request),
        }
    }

    /// Goes on with a poll when the broker's reply is there.
    pub fn poll_reply(&mut self, reply: Fetched) -> (r: Option<KafkaResult<OwnedMessage>>)
        requires
            reply_has_successor(reply),
        ensures
            final(self).config() == old(self).config(),
            final(self).context() == old(self).context(),
            match reply {
                Ok((msgs, tpl)) => {
                    &&& final(self)@ == old(self)@.receive(msgs@, tpl@).consume()
                    &&& r == transposed(Ok(old(self)@.receive(msgs@, tpl@).head()))
                },
                Err(error) => {
                    &&& final(self)@ == old(self)@
                    &&& r == Some(Err::<OwnedMessage, KafkaError>(error))
                },
            },
    {
        transpose(self.poll_internal_reply(reply))
    }
}

} // verus!
