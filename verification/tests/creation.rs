use rdkafka_sim::config::{
    default_auto_offset_reset, default_enable_auto_commit, default_enable_partition_eof,
    default_fetch_max_bytes, default_max_partition_fetch_bytes, AutoOffsetResetStrategy,
    ConsumerConfig,
};
use rdkafka_sim::context::DefaultConsumerContext;
use rdkafka_sim::creation::{broker_address, created, settings_json, unsupported, Unsupported};
use rdkafka_sim::error::{received, KafkaError};
use std::collections::HashMap;

fn config() -> ConsumerConfig {
    ConsumerConfig {
        bootstrap_servers: "broker:50051".to_string(),
        group_id: None,
        enable_auto_commit: false,
        fetch_max_bytes: default_fetch_max_bytes(),
        max_partition_fetch_bytes: default_max_partition_fetch_bytes(),
        auto_offset_reset: default_auto_offset_reset(),
        enable_partition_eof: false,
    }
}

#[test]
fn defaults_of_settings() {
    assert!(default_enable_auto_commit());
    assert_eq!(default_fetch_max_bytes(), 52428800);
    assert_eq!(default_max_partition_fetch_bytes(), 1048576);
    assert_eq!(default_auto_offset_reset(), AutoOffsetResetStrategy::Latest);
    assert_eq!(AutoOffsetResetStrategy::default(), AutoOffsetResetStrategy::Latest);
    assert!(!default_enable_partition_eof());
    let _: DefaultConsumerContext = DefaultConsumerContext::default();
}

#[test]
fn settings_become_a_json_object() {
    let mut conf_map = HashMap::new();
    assert_eq!(settings_json(&conf_map), Ok("{}".to_string()));
    conf_map.insert("bootstrap.servers".to_string(), "a \"quoted\"\n\\host".to_string());
    assert_eq!(
        settings_json(&conf_map),
        Ok("{\"bootstrap.servers\":\"a \\\"quoted\\\"\\n\\\\host\"}".to_string())
    );
}

#[test]
fn settings_come_back_from_their_json() {
    let mut conf_map = HashMap::new();
    conf_map.insert("bootstrap.servers".to_string(), "broker:50051".to_string());
    conf_map.insert("enable.auto.commit".to_string(), "false".to_string());
    conf_map.insert("auto.offset.reset".to_string(), "earliest".to_string());
    let text = settings_json(&conf_map).unwrap();
    let back: HashMap<String, String> = serde_json::from_str(&text).unwrap();
    assert_eq!(back, conf_map);
}

#[test]
fn failed_steps_are_creation_errors() {
    assert_eq!(created::<u8>(Ok(7)), Ok(7));
    assert_eq!(
        created::<u8>(Err("missing field".to_string())),
        Err(KafkaError::ClientCreation("missing field".to_string()))
    );
}

#[test]
fn the_first_address_is_taken() {
    assert_eq!(broker_address(Ok(vec![3, 2, 1])), Ok(3));
    assert_eq!(
        broker_address::<u8>(Ok(vec![])),
        Err(KafkaError::ClientCreation("invalid host or ip".to_string()))
    );
    assert_eq!(
        broker_address::<u8>(Err("no such host".to_string())),
        Err(KafkaError::ClientCreation("no such host".to_string()))
    );
}

#[test]
fn unsupported_settings_are_found_in_order() {
    assert_eq!(unsupported(&config()), vec![]);
    let mut all = config();
    all.enable_auto_commit = true;
    all.enable_partition_eof = true;
    all.group_id = Some("group".to_string());
    assert_eq!(
        unsupported(&all),
        vec![Unsupported::AutoCommit, Unsupported::PartitionEof, Unsupported::GroupId]
    );
    all.enable_partition_eof = false;
    assert_eq!(unsupported(&all), vec![Unsupported::AutoCommit, Unsupported::GroupId]);
    assert_eq!(
        Unsupported::AutoCommit.text(),
        "auto commit is not supported yet. consider set 'enable.auto.commit' = false"
    );
    assert_eq!(Unsupported::PartitionEof.text(), "partition eof is not supported yet");
    assert_eq!(Unsupported::GroupId.text(), "group id is ignored");
}

#[test]
fn broken_connections_are_transport_errors() {
    assert_eq!(received(Ok(Ok(5))), Ok(5));
    assert_eq!(
        received::<u8>(Ok(Err(KafkaError::Broker("unknown topic".to_string())))),
        Err(KafkaError::Broker("unknown topic".to_string()))
    );
    assert_eq!(
        received::<u8>(Err("connection refused".to_string())),
        Err(KafkaError::Transport("connection refused".to_string()))
    );
}
