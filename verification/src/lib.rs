//! The consumer side of a simulated Kafka client, written as a state machine that performs no
//! input or output of its own.
//!
//! A consumer is told what happened (a poll, a reply of the broker, a sleep that is over) and
//! answers with what to do next. Sending requests, waiting and sharing a consumer between tasks
//! is left to whoever drives it.

pub mod base_consumer;
pub mod broker;
pub mod config;
pub mod consumer;
pub mod context;
pub mod creation;
pub mod decimal;
pub mod effects;
pub mod error;
pub mod laws;
pub mod message;
pub mod model;
pub mod positions;
pub mod stream_consumer;
pub mod topic_partition_list;
