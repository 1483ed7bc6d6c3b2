//! Errors of the client and the texts that they carry.

use crate::decimal::append_decimal;
use vstd::prelude::*;
use vstd::string::StringExecFns;

verus! {

/// An error of the client.
#[derive(Debug, PartialEq, Eq)]
pub enum KafkaError {
    /// The client could not be created.
    ClientCreation(String),
    /// The broker could not be reached, or the connection to it broke.
    Transport(String),
    /// The broker refused the request.
    Broker(String),
    /// A seek was refused.
    Seek(String),
}

/// A result of the client.
pub type KafkaResult<T> = Result<T, KafkaError>;

/// Why a seek to an offset of a partition is refused.
#[derive(Clone, Copy, Debug, PartialEq, Eq, Structural)]
pub enum SeekRefusal {
    /// No offset was given.
    InvalidOffset,
    /// The offset is to be taken from the offset store.
    StoredOffset,
    /// The offset counts from the end.
    OffsetTail,
    /// The partition is not assigned.
    NotAssigned,
}

impl SeekRefusal {
    /// What is said of a refusal for the given partition.
    pub open spec fn spec_text(self, topic: Seq<char>, partition: i32) -> Seq<char> {
        let place = topic + ":"@ + crate::decimal::decimal(partition as int);
        match self {
            SeekRefusal::InvalidOffset => "invalid offset for "@ + place,
            SeekRefusal::StoredOffset => "stored offset is not supported for "@ + place,
            SeekRefusal::OffsetTail => "offset tail is not supported for "@ + place,
            SeekRefusal::NotAssigned => "partition "@ + place + " is not currently assigned"@,
        }
    }

    /// Says why the seek is refused for the given partition.
    pub fn text(self, topic: &str, partition: i32) -> (text: String)
        ensures
            text@ == self.spec_text(topic@, partition),
    {
        let mut text: String = String::new();
        text.append(
            match self {
                SeekRefusal::InvalidOffset => "invalid offset for ",
                SeekRefusal::StoredOffset => "stored offset is not supported for ",
                SeekRefusal::OffsetTail => "offset tail is not supported for ",
                SeekRefusal::NotAssigned => "partition ",
            },
        );
        text.append(topic);
        text.append(":");
        append_decimal(&mut text, partition);
        if let SeekRefusal::NotAssigned = self {
            text.append(" is not currently assigned");
        }
        assert(text@ =~= self.spec_text(topic@, partition));
        text
    }
}

/// What the broker answered, where `reply` is either what it sent or why nothing came.
///
/// A connection that failed is an error of the client like any that the broker sends.
pub fn received<T>(reply: Result<KafkaResult<T>, String>) -> (r: KafkaResult<T>)
    ensures
        match reply {
            Ok(answer) => r == answer,
            Err(text) => r == Err::<T, KafkaError>(KafkaError::Transport(text)),
        },
{
    match reply {
        Ok(answer) => answer,
        Err(text) => Err(KafkaError::Transport(text)),
    }
}

} // verus!
