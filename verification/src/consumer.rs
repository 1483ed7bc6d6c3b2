//! What all consumers have in common.

use crate::base_consumer::BaseConsumer;
use crate::context::{ConsumerContext, DefaultConsumerContext};
use crate::error::KafkaResult;
use crate::stream_consumer::StreamConsumer;
use crate::topic_partition_list::{ElemView, TopicPartitionList};
use vstd::prelude::*;

verus! {

/// Common trait for all consumers.
pub trait Consumer<C = DefaultConsumerContext> where C: ConsumerContext {
    /// The assigned partitions with the position of each.
    spec fn positions(&self) -> Seq<ElemView>;

    /// Retrieve current positions (offsets) for topics and partitions.
    fn position(&self) -> (r: KafkaResult<TopicPartitionList>)
        ensures
            r is Ok ==> r->Ok_0@ == self.positions(),
    ;
}

impl<C> Consumer<C> for BaseConsumer<C> where C: ConsumerContext {
    open spec fn positions(&self) -> Seq<ElemView> {
        self@.position()
    }

    fn position(&self) -> (r: KafkaResult<TopicPartitionList>)
        ensures
            r is Ok,
            r->Ok_0@ == self@.position(),
    {
        BaseConsumer::position(self)
    }
}

impl<C> Consumer<C> for StreamConsumer<C> where C: ConsumerContext {
    open spec fn positions(&self) -> Seq<ElemView> {
        self@.position()
    }

    fn position(&self) -> (r: KafkaResult<TopicPartitionList>)
        ensures
            r is Ok,
            r->Ok_0@ == self@.position(),
    {
        StreamConsumer::position(self)
    }
}

} // verus!
