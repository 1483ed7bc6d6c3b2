//! The steps in which a client is made out of its settings, one for each thing that can go wrong.

use crate::config::ConsumerConfig;
use crate::error::{KafkaError, KafkaResult};
use std::collections::HashMap;
use vstd::prelude::*;

verus! {

/// An error of `serde_json`.
#[verifier::external_type_specification]
#[verifier::external_body]
pub struct ExJsonError(serde_json::Error);

/// The JSON text of an object with the given names and values, in the given order, as
/// `serde_json` writes it.
pub uninterp spec fn json_object_text(entries: Seq<(Seq<char>, Seq<char>)>) -> Seq<char>;

/// The entries of a map, each once, in some order.
pub open spec fn lists_entries(
    entries: Seq<(Seq<char>, Seq<char>)>,
    map: Map<String, String>,
) -> bool {
    &&& forall|i: int, j: int|
        0 <= i < j < entries.len() ==> #[trigger] entries[i].0 != #[trigger] entries[j].0
    &&& forall|i: int|
        0 <= i < entries.len() ==> exists|name: String| #[trigger]
            map.contains_key(name) && #[trigger] entries[i] == (name@, map[name]@)
    &&& forall|name: String| #[trigger]
        map.contains_key(name) ==> entries.contains((name@, map[name]@))
}

/// Calls `serde_json::to_string` on a map of strings.
///
/// Believed of it: it does not fail, because the names are strings and the text is written to
/// memory; and the text is that of an object with the entries of the map, in the order in which
/// the map happens to be walked.
#[verifier::external_body]
fn json_of(map: &HashMap<String, String>) -> (r: Result<String, serde_json::Error>)
    ensures
        match r {
            Ok(text) => exists|entries: Seq<(Seq<char>, Seq<char>)>|
                lists_entries(entries, map@) && text@ == #[trigger] json_object_text(entries),
            Err(_) => false,
        },
{
    serde_json::to_string(map)
}

/// The settings of a client as the text of a JSON object.
pub fn settings_json(conf_map: &HashMap<String, String>) -> (r: KafkaResult<String>)
    ensures
        match r {
            Ok(text) => exists|entries: Seq<(Seq<char>, Seq<char>)>|
                lists_entries(entries, conf_map@) && text@ == #[trigger] json_object_text(entries),
            Err(_) => false,
        },
{
    match json_of(conf_map) {
        Ok(text) => Ok(text),
        Err(error) => Err(KafkaError::ClientCreation(error.to_string())),
    }
}

/// What a step in the creation of a client gave, where `result` is what came out of it or what
/// is said of its failure.
pub fn created<T>(result: Result<T, String>) -> (r: KafkaResult<T>)
    ensures
        match result {
            Ok(value) => r == Ok::<T, KafkaError>(value),
            Err(text) => r == Err::<T, KafkaError>(KafkaError::ClientCreation(text)),
        },
{
    match result {
        Ok(value) => Ok(value),
        Err(text) => Err(KafkaError::ClientCreation(text)),
    }
}

/// The address of the broker: the first of those that a lookup of its name found.
pub fn broker_address<A>(lookup: Result<Vec<A>, String>) -> (r: KafkaResult<A>)
    ensures
        match lookup {
            Ok(found) => if found@.len() > 0 {
                r == Ok::<A, KafkaError>(found@[0])
            } else {
                r is Err && r->Err_0 is ClientCreation && r->Err_0->ClientCreation_0@
                    == "invalid host or ip"@
            },
            Err(text) => r == Err::<A, KafkaError>(KafkaError::ClientCreation(text)),
        },
{
    let mut found: Vec<A> = match created(lookup) {
        Ok(found) => found,
        Err(error) => return Err(error),
    };
    if found.len() == 0 {
        return Err(KafkaError::ClientCreation("invalid host or ip".to_owned()));
    }
    Ok(found.swap_remove(0))
}

/// A setting that has no effect.
#[derive(Clone, Copy, Debug, PartialEq, Eq, Structural)]
pub enum Unsupported {
    /// Offsets are to be committed in the background.
    AutoCommit,
    /// The end of a partition is to be an event.
    PartitionEof,
    /// A group is given.
    GroupId,
}

impl Unsupported {
    /// What is said of the setting.
    pub fn text(self) -> (text: &'static str)
        ensures
            text@ == match self {
                Unsupported::AutoCommit =>
                    "auto commit is not supported yet. consider set 'enable.auto.commit' = false"@,
                Unsupported::PartitionEof => "partition eof is not supported yet"@,
                Unsupported::GroupId => "group id is ignored"@,
            },
    {
        match self {
            Unsupported::AutoCommit =>
                "auto commit is not supported yet. consider set 'enable.auto.commit' = false",
            Unsupported::PartitionEof => "partition eof is not supported yet",
            Unsupported::GroupId => "group id is ignored",
        }
    }
}

/// The setting alone if it is on, and otherwise nothing.
pub open spec fn if_on(on: bool, setting: Unsupported) -> Seq<Unsupported> {
    if on {
        seq![setting]
    } else {
        seq![]
    }
}

/// The settings that have no effect, in the order in which they are complained of.
pub fn unsupported(config: &ConsumerConfig) -> (found: Vec<Unsupported>)
    ensures
        found@ == if_on(config.enable_auto_commit, Unsupported::AutoCommit) + if_on(
            config.enable_partition_eof,
            Unsupported::PartitionEof,
        ) + if_on(config.group_id is Some, Unsupported::GroupId),
{
    let mut found: Vec<Unsupported> = Vec::new();
    if config.enable_auto_commit {
        found.push(Unsupported::AutoCommit);
    }
    if config.enable_partition_eof {
        found.push(Unsupported::PartitionEof);
    }
    if config.group_id.is_some() {
        found.push(Unsupported::GroupId);
    }
    found
}

} // verus!
