//! Settings of a consumer.

use crate::topic_partition_list::Offset;
use vstd::prelude::*;

verus! {

/// What to do when there is no initial offset, or the current offset does not exist any more on
/// the server (e.g. because that data has been deleted).
#[derive(Clone, Copy, Debug, PartialEq, Eq, Structural)]
pub enum AutoOffsetResetStrategy {
    /// Go on at the end of the partition.
    Latest,
    /// Go on at the start of the partition.
    Earliest,
    /// Leave the offset as it is: the setting named `error`.
    Error,
}

impl Default for AutoOffsetResetStrategy {
    fn default() -> (strategy: Self)
        ensures
            strategy == AutoOffsetResetStrategy::Latest,
    {
        AutoOffsetResetStrategy::Latest
    }
}

impl AutoOffsetResetStrategy {
    /// The offset at which a partition is taken up for which `offset` was asked.
    pub open spec fn reset(self, offset: Offset) -> Offset {
        if offset == Offset::Invalid {
            match self {
                AutoOffsetResetStrategy::Latest => Offset::End,
                AutoOffsetResetStrategy::Earliest => Offset::Beginning,
                AutoOffsetResetStrategy::Error => Offset::Invalid,
            }
        } else {
            offset
        }
    }
}

/// Consumer settings.
///
/// <https://kafka.apache.org/documentation/#consumerconfigs>
#[derive(Debug)]
pub struct ConsumerConfig {
    /// Where the brokers are: `bootstrap.servers`.
    pub bootstrap_servers: String,
    /// The group that the consumer belongs to: `group.id`.
    pub group_id: Option<String>,
    /// If true the consumer's offset will be periodically committed in the background:
    /// `enable.auto.commit`.
    pub enable_auto_commit: bool,
    /// The maximum amount of data the server should return for a fetch request:
    /// `fetch.max.bytes`.
    pub fetch_max_bytes: u32,
    /// The maximum amount of data per partition the server will return:
    /// `max.partition.fetch.bytes`.
    pub max_partition_fetch_bytes: u32,
    /// What to do where no offset is given: `auto.offset.reset`.
    pub auto_offset_reset: AutoOffsetResetStrategy,
    /// Whether reaching the end of a partition is an event: `enable.partition.eof`.
    pub enable_partition_eof: bool,
}

/// Whether offsets are committed in the background where nothing is said of it.
pub fn default_enable_auto_commit() -> (value: bool)
    ensures
        value,
{
    true
}

/// The most bytes that a fetch returns where nothing is said of it.
pub fn default_fetch_max_bytes() -> (value: u32)
    ensures
        value == 52428800,
{
    52428800
}

/// The most bytes that a fetch returns per partition where nothing is said of it.
pub fn default_max_partition_fetch_bytes() -> (value: u32)
    ensures
        value == 1048576,
{
    1048576
}

/// Where partitions without an offset are taken up where nothing is said of it.
pub fn default_auto_offset_reset() -> (value: AutoOffsetResetStrategy)
    ensures
        value == AutoOffsetResetStrategy::Latest,
{
    AutoOffsetResetStrategy::Latest
}

/// Whether the end of a partition is an event where nothing is said of it.
pub fn default_enable_partition_eof() -> (value: bool)
    ensures
        !value,
{
    false
}

} // verus!
