//! What a client asks of a broker.

use crate::topic_partition_list::TopicPartitionList;
use vstd::prelude::*;

verus! {

/// How much a fetch may return.
#[derive(Clone, Copy, Debug, PartialEq, Eq, Structural)]
pub struct FetchOptions {
    /// The most bytes in all.
    pub fetch_max_bytes: u32,
    /// The most bytes per partition.
    pub max_partition_fetch_bytes: u32,
}

/// A request to a broker.
#[derive(Debug, PartialEq, Eq)]
#[allow(inconsistent_fields)]
pub enum Request {
    /// Messages of the listed partitions, from the listed offsets on.
    Fetch { tpl: TopicPartitionList, opts: FetchOptions },
    /// The low and high watermarks of a partition.
    FetchWatermarks { topic: String, partition: i32 },
    /// The offsets of the listed partitions at the listed times.
    OffsetsForTimes { tpl: TopicPartitionList },
    /// What the broker knows of a topic, or of all.
    FetchMetadata { topic: Option<String> },
}

} // verus!
