//! Messages as they come out of a partition.

use crate::topic_partition_list::PartitionKey;
use vstd::prelude::*;

verus! {

/// When a message was written, in milliseconds, and who says so.
#[derive(Clone, Copy, Debug, PartialEq, Eq, Structural)]
pub enum Timestamp {
    /// Nobody says.
    NotAvailable,
    /// The producer says.
    CreateTime(i64),
    /// The broker says.
    LogAppendTime(i64),
}

/// A message with everything it holds.
#[derive(Debug, PartialEq, Eq)]
pub struct OwnedMessage {
    pub payload: Option<Vec<u8>>,
    pub key: Option<Vec<u8>>,
    pub topic: String,
    pub timestamp: Timestamp,
    pub partition: i32,
    pub offset: i64,
}

impl OwnedMessage {
    /// The partition that the message came out of.
    pub open spec fn source(self) -> PartitionKey {
        (self.topic@, self.partition)
    }
}

/// The first message, if there is one, is not at the very last offset: another offset follows.
pub open spec fn head_has_successor(messages: Seq<OwnedMessage>) -> bool {
    messages.len() > 0 ==> messages[0].offset < i64::MAX
}

} // verus!
