//! A high-level consumer whose messages come as a stream.

use crate::base_consumer::{
    is_fetch, reply_has_successor, BaseConsumer, ConsumerState, Fetched, PollStep,
};
use crate::broker::Request;
use crate::config::ConsumerConfig;
use crate::context::{ConsumerContext, DefaultConsumerContext};
use crate::error::{KafkaError, KafkaResult};
use crate::message::{head_has_successor, OwnedMessage};
use crate::model::{refused, ConsumerView};
use crate::topic_partition_list::{Offset, TopicPartitionList};
use vstd::prelude::*;

verus! {

/// How long a stream waits, in seconds, before it looks for messages again.
pub const RETRY_SECS: u64 = 1;

/// What a stream is told while it looks for a message.
#[derive(Debug)]
pub enum StreamEvent {
    /// The search begins, or its sleep is over.
    Wake,
    /// The broker's reply is there.
    Reply(Fetched),
}

/// What a stream does next while it looks for a message.
#[derive(Debug)]
pub enum StreamAction {
    /// The search is over with a message or an error.
    Yield(KafkaResult<OwnedMessage>),
    /// Send the request and come back with the reply.
    Fetch(Request),
    /// Sleep for so many seconds and come back.
    Sleep(u64),
}

/// A high-level consumer with a stream interface.
#[must_use]
pub struct StreamConsumer<C = DefaultConsumerContext> where C: ConsumerContext {
    base: BaseConsumer<C>,
}

impl<C: ConsumerContext> View for StreamConsumer<C> {
    type V = ConsumerView;

    closed spec fn view(&self) -> ConsumerView {
        self.base@
    }
}

impl StreamConsumer<DefaultConsumerContext> {
    /// A consumer with the given settings and no context, to which nothing is assigned.
    pub fn from_config(config: ConsumerConfig) -> (consumer: Self)
        ensures
            consumer@ == ConsumerView::init(),
            consumer.config() == config,
            consumer.context() == DefaultConsumerContext,
    {
        StreamConsumer::from_config_and_context(config, DefaultConsumerContext)
    }
}

impl<C: ConsumerContext> StreamConsumer<C> {
    /// The settings of the consumer.
    pub closed spec fn config(&self) -> ConsumerConfig {
        self.base.config()
    }

    /// The context of the consumer.
    pub closed spec fn context(&self) -> C {
        self.base.context()
    }

    /// A consumer with the given settings and context, to which nothing is assigned.
    pub fn from_config_and_context(config: ConsumerConfig, context: C) -> (consumer: Self)
        ensures
            consumer@ == ConsumerView::init(),
            consumer.config() == config,
            consumer.context() == context,
    {
        StreamConsumer { base: BaseConsumer::from_config_and_context(config, context) }
    }

    /// What the consumer remembers.
    pub fn state(&self) -> (state: &ConsumerState)
        ensures
            state@ == self@,
    {
        self.base.state()
    }

    /// Replaces the assignment.
    ///
    /// Delegates to [`BaseConsumer::assign`].
    pub fn assign(&mut self, assignment: &TopicPartitionList) -> (r: KafkaResult<()>)
        ensures
            r is Ok,
            final(self).config() == old(self).config(),
            final(self).context() == old(self).context(),
            final(self)@ == old(self)@.assign(
                old(self).config().auto_offset_reset,
                assignment@,
            ),
    {
        self.base.assign(assignment)
    }

    /// Incrementally adds partitions to the current assignment.
    ///
    /// Delegates to [`BaseConsumer::incremental_assign`].
    pub fn incremental_assign(&mut self, assignment: &TopicPartitionList) -> (r: KafkaResult<()>)
        ensures
            r is Ok,
            final(self).config() == old(self).config(),
            final(self).context() == old(self).context(),
            final(self)@ == old(self)@.incremental_assign(
                old(self).config().auto_offset_reset,
                assignment@,
            ),
    {
        self.base.incremental_assign(assignment)
    }

    /// Incrementally removes partitions from the current assignment.
    ///
    /// Delegates to [`BaseConsumer::incremental_unassign`].
    pub fn incremental_unassign(&mut self, assignment: &TopicPartitionList) -> (r: KafkaResult<()>)
        ensures
            r is Ok,
            final(self).config() == old(self).config(),
            final(self).context() == old(self).context(),
            final(self)@ == old(self)@.incremental_unassign(assignment@),
    {
        self.base.incremental_unassign(assignment)
    }

    /// Batch seek that mirrors [`BaseConsumer::seek_partitions`].
    pub fn seek_partitions(&mut self, topic_partition_list: TopicPartitionList) -> (r: KafkaResult<
        TopicPartitionList,
    >)
        ensures
            final(self).config() == old(self).config(),
            final(self).context() == old(self).context(),
            match refused(old(self)@.tpl, topic_partition_list@) {
                None => r == Ok::<TopicPartitionList, KafkaError>(topic_partition_list)
                    && final(self)@ == old(self)@.seek(topic_partition_list@),
                Some(text) => r is Err && r->Err_0 is Seek && r->Err_0->Seek_0@ == text
                    && final(self)@ == old(self)@,
            },
    {
        self.base.seek_partitions(topic_partition_list)
    }

    /// The request for the low and high watermarks for a specific topic and partition.
    pub fn fetch_watermarks(&self, topic: &str, partition: i32) -> (request: Request)
        ensures
            request is FetchWatermarks,
            request->FetchWatermarks_topic@ == topic@,
            request->FetchWatermarks_partition == partition,
    {
        self.base.fetch_watermarks(topic, partition)
    }

    /// The request for the offsets at the times that stand in the place of offsets.
    pub fn offsets_for_times(&self, timestamps: TopicPartitionList) -> (request: Request)
        ensures
            request == (Request::OffsetsForTimes { tpl: timestamps }),
    {
        self.base.offsets_for_times(timestamps)
    }

    /// The request for what the broker knows of a topic, or of all.
    pub fn fetch_metadata(&self, topic: Option<&str>) -> (request: Request)
        ensures
            request is FetchMetadata,
            match topic {
                Some(name) => request->FetchMetadata_topic is Some
                    && request->FetchMetadata_topic->0@ == name@,
                None => request->FetchMetadata_topic is None,
            },
    {
        self.base.fetch_metadata(topic)
    }

    /// Retrieve current positions (offsets) for topics and partitions.
    pub fn position(&self) -> (r: KafkaResult<TopicPartitionList>)
        ensures
            r is Ok,
            r->Ok_0@ == self@.position(),
    {
        self.base.position()
    }

    /// Constructs a stream that yields messages from this consumer.
    ///
    /// `F` is the search for the next message, as whoever drives the stream represents it.
    pub fn stream<F>(&self) -> (stream: MessageStream<F>)
        ensures
            stream.in_flight is None,
    {
        MessageStream { in_flight: None }
    }

    /// One step of the search for the next message of a stream.
    ///
    /// The search polls until there is a message or an error. Where a poll comes back with
    /// nothing it sleeps before the next.
    pub fn search(&mut self, event: StreamEvent) -> (action: StreamAction)
        requires
            match event {
                StreamEvent::Wake => head_has_successor(old(self)@.buffer),
                StreamEvent::Reply(reply) => reply_has_successor(reply),
            },
        ensures
            final(self).config() == old(self).config(),
            final(self).context() == old(self).context(),
            match event {
                StreamEvent::Wake => {
                    &&& final(self)@ == old(self)@.consume()
                    &&& if old(self)@.buffer.len() > 0 {
                        action == StreamAction::Yield(Ok(old(self)@.buffer[0]))
                    } else if old(self)@.tpl.len() > 0 {
                        action is Fetch && is_fetch(
                            action->Fetch_0,
                            old(self)@.tpl,
                            old(self).config(),
                        )
                    } else {
                        action == StreamAction::Sleep(RETRY_SECS)
                    }
                },
                StreamEvent::Reply(Ok((msgs, tpl))) => {
                    &&& final(self)@ == old(self)@.receive(msgs@, tpl@).consume()
                    &&& action == if msgs@.len() > 0 {
                        StreamAction::Yield(Ok(msgs@[0]))
                    } else {
                        StreamAction::Sleep(RETRY_SECS)
                    }
                },
                StreamEvent::Reply(Err(error)) => {
                    &&& final(self)@ == old(self)@
                    &&& action == StreamAction::Yield(Err(error))
                },
            },
            // Positions advance with the messages that are yielded, and not otherwise.
            match action {
                StreamAction::Yield(Ok(msg)) => final(self)@.position_of(msg.source())
                    == Offset::Offset((msg.offset + 1) as i64),
                _ => final(self)@.positions == old(self)@.positions,
            },
    {
        let found: KafkaResult<Option<OwnedMessage>> = match event {
            StreamEvent::Wake => match self.base.poll_internal() {
                PollStep::Ready(msg) => Ok(msg),
                PollStep::Fetch(request) => return StreamAction::Fetch(request),
            },
            StreamEvent::Reply(reply) => self.base.poll_internal_reply(reply),
        };
        match found {
            Ok(Some(msg)) => StreamAction::Yield(Ok(msg)),
            Ok(None) => StreamAction::Sleep(RETRY_SECS),
            Err(error) => StreamAction::Yield(Err(error)),
        }
    }
}

/// How a step of something that takes time came out.
#[derive(Debug, PartialEq, Eq)]
pub enum Polled<T> {
    /// It is over.
    Ready(T),
    /// It goes on.
    Pending,
}

/// A stream of the messages of a consumer: at most one search for the next message is under way.
pub struct MessageStream<F> {
    /// The search that is under way.
    pub in_flight: Option<F>,
}

impl<F> MessageStream<F> {
    /// Whether a search has to be started before the stream can be polled.
    pub fn is_idle(&self) -> (idle: bool)
        ensures
            idle == (self.in_flight is None),
    {
        self.in_flight.is_none()
    }

    /// Starts a search.
    pub fn start(&mut self, search: F)
        requires
            old(self).in_flight is None,
        ensures
            final(self).in_flight == Some(search),
    {
        self.in_flight = Some(search);
    }

    /// What the stream yields, given how the search that is under way came out of being polled.
    ///
    /// A search that is over makes room for the next. The stream itself never ends.
    pub fn poll_next(&mut self, polled: Polled<KafkaResult<Option<OwnedMessage>>>) -> (r: Polled<
        Option<KafkaResult<OwnedMessage>>,
    >)
        requires
            old(self).in_flight is Some,
        ensures
            final(self).in_flight == if polled is Pending {
                old(self).in_flight
            } else {
                None
            },
            r == match polled {
                Polled::Ready(Ok(Some(msg))) => Polled::Ready(
                    Some(Ok::<OwnedMessage, KafkaError>(msg)),
                ),
                Polled::Ready(Err(error)) => Polled::Ready(
                    Some(Err::<OwnedMessage, KafkaError>(error)),
                ),
                Polled::Ready(Ok(None)) => Polled::Pending,
                Polled::Pending => Polled::Pending,
            },
            r != Polled::Ready(None::<KafkaResult<OwnedMessage>>),
    {
        match polled {
            Polled::Ready(Ok(Some(msg))) => {
                self.in_flight = None;
                Polled::Ready(Some(Ok(msg)))
            },
            Polled::Ready(Ok(None)) => {
                self.in_flight = None;
                Polled::Pending
            },
            Polled::Ready(Err(error)) => {
                self.in_flight = None;
                Polled::Ready(Some(Err(error)))
            },
            Polled::Pending => Polled::Pending,
        }
    }
}

} // verus!
