use rdkafka_sim::base_consumer::{BaseConsumer, Fetched, PollStep};
use rdkafka_sim::broker::Request;
use rdkafka_sim::config::{
    default_fetch_max_bytes, default_max_partition_fetch_bytes, AutoOffsetResetStrategy,
    ConsumerConfig,
};
use rdkafka_sim::consumer::Consumer;
use rdkafka_sim::error::{KafkaError, KafkaResult};
use rdkafka_sim::message::{OwnedMessage, Timestamp};
use rdkafka_sim::stream_consumer::{
    MessageStream, Polled, StreamAction, StreamConsumer, StreamEvent,
};
use rdkafka_sim::topic_partition_list::{Elem, Offset, TopicPartitionList};

/// A broker with one topic, kept in memory.
struct TestBroker {
    topic: String,
    partitions: Vec<Vec<u8>>,
}

fn setup_cluster(topic: &str, partitions: usize) -> TestBroker {
    TestBroker { topic: topic.to_string(), partitions: vec![vec![]; partitions] }
}

fn message(topic: &str, partition: i32, offset: i64, payload: u8) -> OwnedMessage {
    OwnedMessage {
        payload: Some(vec![payload]),
        key: None,
        topic: topic.to_string(),
        timestamp: Timestamp::NotAvailable,
        partition,
        offset,
    }
}

impl TestBroker {
    fn produce(&mut self, values: &[u8]) {
        for v in values {
            self.partitions[0].push(*v);
        }
    }

    fn serve(&self, request: Request) -> Fetched {
        let mut tpl = match request {
            Request::Fetch { tpl, .. } => tpl,
            _ => return Err(KafkaError::Broker("not a fetch".to_string())),
        };
        let mut msgs = vec![];
        for e in tpl.list.iter_mut() {
            if e.topic != self.topic {
                return Err(KafkaError::Broker("unknown topic".to_string()));
            }
            let log = &self.partitions[e.partition as usize];
            let from = match e.offset {
                Offset::Beginning => 0,
                Offset::End => log.len(),
                Offset::Offset(offset) => offset as usize,
                _ => return Err(KafkaError::Broker("no offset".to_string())),
            };
            for (i, v) in log.iter().enumerate().skip(from) {
                msgs.push(message(&e.topic, e.partition, i as i64, *v));
            }
            e.offset = Offset::Offset(log.len() as i64);
        }
        Ok((msgs, tpl))
    }
}

fn config_with_offset_reset(auto_offset_reset: AutoOffsetResetStrategy) -> ConsumerConfig {
    ConsumerConfig {
        bootstrap_servers: "broker:50051".to_string(),
        group_id: None,
        enable_auto_commit: false,
        fetch_max_bytes: default_fetch_max_bytes(),
        max_partition_fetch_bytes: default_max_partition_fetch_bytes(),
        auto_offset_reset,
        enable_partition_eof: false,
    }
}

fn make_consumer_with_offset_reset(offset_reset: AutoOffsetResetStrategy) -> BaseConsumer {
    BaseConsumer::from_config(config_with_offset_reset(offset_reset))
}

fn make_consumer() -> BaseConsumer {
    make_consumer_with_offset_reset(AutoOffsetResetStrategy::Earliest)
}

fn make_stream_consumer() -> StreamConsumer {
    StreamConsumer::from_config(config_with_offset_reset(AutoOffsetResetStrategy::Earliest))
}

fn poll(consumer: &mut BaseConsumer, broker: &TestBroker) -> Option<KafkaResult<OwnedMessage>> {
    match consumer.poll() {
        PollStep::Ready(found) => found,
        PollStep::Fetch(request) => consumer.poll_reply(broker.serve(request)),
    }
}

fn poll_payload(consumer: &mut BaseConsumer, broker: &TestBroker) -> u8 {
    for _ in 0..100 {
        if let Some(res) = poll(consumer, broker) {
            let msg = res.expect("message error");
            if let Some(payload) = msg.payload {
                return payload[0];
            }
        }
    }
    panic!("no message")
}

fn stream_next(
    consumer: &mut StreamConsumer,
    stream: &mut MessageStream<u8>,
    broker: &TestBroker,
) -> Option<KafkaResult<OwnedMessage>> {
    if stream.is_idle() {
        stream.start(0);
    }
    let mut event = StreamEvent::Wake;
    for _ in 0..100 {
        match consumer.search(event) {
            StreamAction::Yield(found) => {
                return match stream.poll_next(Polled::Ready(found.map(Some))) {
                    Polled::Ready(item) => item,
                    Polled::Pending => panic!("nothing yielded"),
                };
            }
            StreamAction::Fetch(request) => event = StreamEvent::Reply(broker.serve(request)),
            StreamAction::Sleep(_) => {
                assert_eq!(
                    stream.poll_next(Polled::Pending),
                    Polled::Pending
                );
                event = StreamEvent::Wake;
            }
        }
    }
    panic!("no message")
}

fn offset_of(tpl: &TopicPartitionList, topic: &str, partition: i32) -> Offset {
    tpl.list.iter().find(|elem| elem.topic == topic && elem.partition == partition).unwrap().offset
}

fn elem(topic: &str, partition: i32, offset: Offset) -> Elem {
    Elem { topic: topic.to_string(), partition, offset }
}

fn list(elems: Vec<Elem>) -> TopicPartitionList {
    TopicPartitionList { list: elems }
}

fn one(partition: i32) -> TopicPartitionList {
    let mut tpl = TopicPartitionList::new();
    tpl.add_partition("topic", partition);
    tpl
}

#[test]
fn seek_partitions_basic() {
    let mut broker = setup_cluster("topic", 1);
    broker.produce(&[1, 2, 3]);
    let mut consumer = make_consumer();
    let mut assignment = TopicPartitionList::new();
    assignment.add_partition("topic", 0);
    consumer.assign(&assignment).unwrap();

    assert_eq!(poll_payload(&mut consumer, &broker), 1);
    assert!(!consumer.state().msgs.is_empty());

    let mut tpl = TopicPartitionList::new();
    tpl.add_partition_offset("topic", 0, Offset::Offset(2)).unwrap();
    consumer.seek_partitions(tpl).unwrap();

    assert!(consumer.state().msgs.is_empty());
    assert_eq!(poll_payload(&mut consumer, &broker), 3);
}

#[test]
fn seek_partitions_rejects_invalid_offset() {
    let mut consumer = make_consumer();
    consumer.assign(&one(0)).unwrap();

    let mut tpl = TopicPartitionList::new();
    tpl.add_partition_offset("topic", 0, Offset::Invalid).unwrap();
    let err = consumer.seek_partitions(tpl).unwrap_err();
    assert!(matches!(err, KafkaError::Seek(_)));
    assert_eq!(err, KafkaError::Seek("invalid offset for topic:0".to_string()));
}

#[test]
fn seek_partitions_rejects_stored_offset() {
    let mut consumer = make_consumer();
    consumer.assign(&one(0)).unwrap();

    let mut tpl = TopicPartitionList::new();
    tpl.add_partition_offset("topic", 0, Offset::Stored).unwrap();
    let err = consumer.seek_partitions(tpl).unwrap_err();
    assert!(matches!(err, KafkaError::Seek(_)));
    assert_eq!(err, KafkaError::Seek("stored offset is not supported for topic:0".to_string()));
}

#[test]
fn seek_partitions_rejects_unassigned_partition() {
    let mut consumer = make_consumer();
    consumer.assign(&one(0)).unwrap();

    let mut tpl = TopicPartitionList::new();
    tpl.add_partition_offset("topic", 1, Offset::Offset(0)).unwrap();
    let err = consumer.seek_partitions(tpl).unwrap_err();
    assert!(matches!(err, KafkaError::Seek(_)));
    assert_eq!(err, KafkaError::Seek("partition topic:1 is not currently assigned".to_string()));
}

#[test]
fn seek_partitions_rejects_offset_tail() {
    let mut consumer = make_consumer();
    consumer.assign(&one(0)).unwrap();
    let err = consumer
        .seek_partitions(list(vec![elem("other", i32::MIN, Offset::OffsetTail(1))]))
        .unwrap_err();
    assert_eq!(
        err,
        KafkaError::Seek("offset tail is not supported for other:-2147483648".to_string())
    );
    let err = consumer
        .seek_partitions(list(vec![elem("other", i32::MAX, Offset::End)]))
        .unwrap_err();
    assert_eq!(
        err,
        KafkaError::Seek("partition other:2147483647 is not currently assigned".to_string())
    );
}

#[test]
fn seek_partitions_reports_the_first_refusal() {
    let mut consumer = make_consumer();
    consumer.assign(&one(0)).unwrap();
    let err = consumer
        .seek_partitions(list(vec![
            elem("topic", 0, Offset::End),
            elem("topic", 10, Offset::Offset(0)),
            elem("topic", 0, Offset::Invalid),
        ]))
        .unwrap_err();
    assert_eq!(err, KafkaError::Seek("partition topic:10 is not currently assigned".to_string()));
    assert_eq!(offset_of(&consumer.state().tpl, "topic", 0), Offset::Beginning);
}

#[test]
fn seek_partitions_error_preserves_buffer() {
    let mut broker = setup_cluster("topic", 1);
    broker.produce(&[1, 2]);
    let mut consumer = make_consumer();
    consumer.assign(&one(0)).unwrap();

    assert_eq!(poll_payload(&mut consumer, &broker), 1);
    assert!(!consumer.state().msgs.is_empty());
    let before_offset = offset_of(&consumer.state().tpl, "topic", 0);

    let mut tpl = TopicPartitionList::new();
    tpl.add_partition_offset("topic", 0, Offset::Invalid).unwrap();
    let err = consumer.seek_partitions(tpl).unwrap_err();
    assert!(matches!(err, KafkaError::Seek(_)));
    assert!(!consumer.state().msgs.is_empty());

    let after_offset = offset_of(&consumer.state().tpl, "topic", 0);
    assert_eq!(before_offset, after_offset);
    assert_eq!(poll_payload(&mut consumer, &broker), 2);
}

#[test]
fn seek_partitions_multiple_partitions() {
    let mut broker = setup_cluster("topic", 2);
    broker.produce(&[1, 2, 3, 4]);
    let mut consumer = make_consumer();
    let mut assignment = TopicPartitionList::new();
    assignment.add_partition("topic", 0);
    assignment.add_partition("topic", 1);
    consumer.assign(&assignment).unwrap();

    let mut tpl = TopicPartitionList::new();
    tpl.add_partition_offset("topic", 0, Offset::Beginning).unwrap();
    tpl.add_partition_offset("topic", 1, Offset::Offset(0)).unwrap();
    let given = tpl.clone();
    let returned = consumer.seek_partitions(tpl).unwrap();
    assert_eq!(returned, given);
    assert_eq!(consumer.state().tpl, given);
}

#[test]
fn seek_partitions_partial_failure_keeps_state() {
    let mut broker = setup_cluster("topic", 2);
    broker.produce(&[1, 2, 3]);
    let mut consumer = make_consumer();
    consumer.assign(&one(0)).unwrap();

    assert_eq!(poll_payload(&mut consumer, &broker), 1);
    assert!(!consumer.state().msgs.is_empty());
    let before_offset = offset_of(&consumer.state().tpl, "topic", 0);

    let mut tpl = TopicPartitionList::new();
    tpl.add_partition_offset("topic", 0, Offset::Offset(0)).unwrap();
    tpl.add_partition_offset("topic", 1, Offset::Offset(0)).unwrap();
    let err = consumer.seek_partitions(tpl).unwrap_err();
    assert!(matches!(err, KafkaError::Seek(_)));
    assert!(!consumer.state().msgs.is_empty());

    let after_offset = offset_of(&consumer.state().tpl, "topic", 0);
    assert_eq!(before_offset, after_offset);
}

#[test]
fn seek_partitions_moves_the_last_of_equal_partitions() {
    let mut consumer = make_consumer();
    consumer
        .assign(&list(vec![
            elem("topic", 0, Offset::Offset(1)),
            elem("topic", 1, Offset::Offset(2)),
            elem("topic", 0, Offset::Offset(3)),
        ]))
        .unwrap();
    consumer
        .seek_partitions(list(vec![
            elem("topic", 0, Offset::Offset(7)),
            elem("topic", 0, Offset::Offset(8)),
        ]))
        .unwrap();
    assert_eq!(
        consumer.state().tpl,
        list(vec![
            elem("topic", 0, Offset::Offset(1)),
            elem("topic", 1, Offset::Offset(2)),
            elem("topic", 0, Offset::Offset(8)),
        ])
    );
}

#[test]
fn position_tracks_consumed_messages_instead_of_prefetched_messages() {
    let mut broker = setup_cluster("topic", 1);
    broker.produce(&[1, 2, 3]);
    let mut consumer = make_consumer();
    consumer.assign(&one(0)).unwrap();

    let initial = consumer.position().unwrap();
    assert_eq!(offset_of(&initial, "topic", 0), Offset::Invalid);

    assert_eq!(poll_payload(&mut consumer, &broker), 1);
    assert!(!consumer.state().msgs.is_empty());

    let after_first = consumer.position().unwrap();
    assert_eq!(offset_of(&after_first, "topic", 0), Offset::Offset(1));

    assert_eq!(poll_payload(&mut consumer, &broker), 2);
    let after_second = consumer.position().unwrap();
    assert_eq!(offset_of(&after_second, "topic", 0), Offset::Offset(2));
}

#[test]
fn position_is_reset_by_seek_until_next_message_is_consumed() {
    let mut broker = setup_cluster("topic", 1);
    broker.produce(&[1, 2, 3]);
    let mut consumer = make_consumer();
    consumer.assign(&one(0)).unwrap();

    assert_eq!(poll_payload(&mut consumer, &broker), 1);
    let before_seek = consumer.position().unwrap();
    assert_eq!(offset_of(&before_seek, "topic", 0), Offset::Offset(1));

    let mut tpl = TopicPartitionList::new();
    tpl.add_partition_offset("topic", 0, Offset::Offset(2)).unwrap();
    consumer.seek_partitions(tpl).unwrap();

    let after_seek = consumer.position().unwrap();
    assert_eq!(offset_of(&after_seek, "topic", 0), Offset::Invalid);

    assert_eq!(poll_payload(&mut consumer, &broker), 3);
    let after_poll = consumer.position().unwrap();
    assert_eq!(offset_of(&after_poll, "topic", 0), Offset::Offset(3));
}

#[test]
fn latest_assignment_skips_existing_messages_until_new_data_arrives() {
    let mut broker = setup_cluster("topic", 1);
    broker.produce(&[1, 2]);
    let mut consumer = make_consumer_with_offset_reset(AutoOffsetResetStrategy::Latest);
    consumer.assign(&one(0)).unwrap();

    assert!(poll(&mut consumer, &broker).is_none());
    let initial_position = consumer.position().unwrap();
    assert_eq!(offset_of(&initial_position, "topic", 0), Offset::Invalid);

    broker.produce(&[3]);

    assert_eq!(poll_payload(&mut consumer, &broker), 3);
    let after_poll = consumer.position().unwrap();
    assert_eq!(offset_of(&after_poll, "topic", 0), Offset::Offset(3));
}

#[test]
fn stream_position_only_advances_after_stream_yields() {
    let mut broker = setup_cluster("topic", 1);
    broker.produce(&[1, 2]);
    let mut consumer = make_stream_consumer();
    consumer.assign(&one(0)).unwrap();

    let initial = consumer.position().unwrap();
    assert_eq!(offset_of(&initial, "topic", 0), Offset::Invalid);

    let before_next = consumer.position().unwrap();
    assert_eq!(offset_of(&before_next, "topic", 0), Offset::Invalid);

    let mut stream = consumer.stream();
    let message = stream_next(&mut consumer, &mut stream, &broker)
        .expect("stream ended")
        .expect("message error");
    assert_eq!(message.payload.as_deref(), Some(&[1][..]));

    let after_next = consumer.position().unwrap();
    assert_eq!(offset_of(&after_next, "topic", 0), Offset::Offset(1));
}

#[test]
fn incremental_assign_adds_unique_partitions() {
    let mut consumer = make_consumer();

    let mut initial = TopicPartitionList::new();
    initial.add_partition("topic", 0);
    consumer.assign(&initial).unwrap();
    assert_eq!(consumer.state().tpl.count(), 1);

    let mut to_add = TopicPartitionList::new();
    to_add.add_partition("topic", 1);
    consumer.incremental_assign(&to_add).unwrap();

    {
        let state = consumer.state();
        assert_eq!(state.tpl.count(), 2);
        let added = state
            .tpl
            .list
            .iter()
            .find(|elem| elem.topic == "topic" && elem.partition == 1)
            .expect("partition 1 missing");
        assert_eq!(added.offset, Offset::Beginning);
    }

    consumer.incremental_assign(&to_add).unwrap();
    assert_eq!(consumer.state().tpl.count(), 2);
}

#[test]
fn incremental_unassign_removes_partitions() {
    let mut consumer = make_consumer();

    let mut initial = TopicPartitionList::new();
    initial.add_partition("topic", 0);
    initial.add_partition("topic", 1);
    consumer.assign(&initial).unwrap();
    assert_eq!(consumer.state().tpl.count(), 2);

    let mut to_remove = TopicPartitionList::new();
    to_remove.add_partition("topic", 1);
    consumer.incremental_unassign(&to_remove).unwrap();

    {
        let state = consumer.state();
        assert_eq!(state.tpl.count(), 1);
        assert!(state
            .tpl
            .list
            .iter()
            .all(|elem| !(elem.topic == "topic" && elem.partition == 1)));
    }

    // Removing a non-existent partition should be a no-op.
    consumer.incremental_unassign(&to_remove).unwrap();
    assert_eq!(consumer.state().tpl.count(), 1);
}

#[test]
fn assign_resets_only_missing_offsets() {
    let asked = list(vec![elem("topic", 0, Offset::Invalid), elem("topic", 1, Offset::Offset(4))]);
    let cases = [
        (AutoOffsetResetStrategy::Latest, Offset::End),
        (AutoOffsetResetStrategy::Earliest, Offset::Beginning),
        (AutoOffsetResetStrategy::Error, Offset::Invalid),
    ];
    for (strategy, offset) in cases {
        let mut consumer = make_consumer_with_offset_reset(strategy);
        consumer.assign(&asked).unwrap();
        assert_eq!(
            consumer.state().tpl,
            list(vec![elem("topic", 0, offset), elem("topic", 1, Offset::Offset(4))])
        );
        let invalid =
            list(vec![elem("topic", 0, Offset::Invalid), elem("topic", 1, Offset::Invalid)]);
        assert_eq!(consumer.position().unwrap(), invalid);
    }
}

#[test]
fn assign_drops_the_buffer() {
    let mut broker = setup_cluster("topic", 1);
    broker.produce(&[1, 2, 3]);
    let mut consumer = make_consumer();
    consumer.assign(&one(0)).unwrap();
    assert_eq!(poll_payload(&mut consumer, &broker), 1);
    consumer.assign(&one(0)).unwrap();
    assert!(consumer.state().msgs.is_empty());
    assert_eq!(poll_payload(&mut consumer, &broker), 1);
}

#[test]
fn incremental_assign_leaves_the_assigned_alone() {
    let mut broker = setup_cluster("topic", 2);
    broker.produce(&[1, 2]);
    let mut consumer = make_consumer();
    consumer.assign(&one(0)).unwrap();
    assert_eq!(poll_payload(&mut consumer, &broker), 1);
    consumer
        .incremental_assign(&list(vec![
            elem("topic", 0, Offset::Offset(9)),
            elem("topic", 1, Offset::Offset(5)),
            elem("topic", 1, Offset::Offset(6)),
        ]))
        .unwrap();
    assert_eq!(
        consumer.state().tpl,
        list(vec![elem("topic", 0, Offset::Offset(2)), elem("topic", 1, Offset::Offset(5))])
    );
    assert_eq!(
        consumer.position().unwrap(),
        list(vec![elem("topic", 0, Offset::Offset(1)), elem("topic", 1, Offset::Invalid)])
    );
    assert_eq!(consumer.state().msgs.len(), 1);
    assert_eq!(poll_payload(&mut consumer, &broker), 2);
}

#[test]
fn incremental_unassign_undoes_incremental_assign() {
    let mut consumer = make_consumer();
    consumer.assign(&one(0)).unwrap();
    consumer.incremental_assign(&list(vec![
        elem("topic", 2, Offset::End),
        elem("other", 0, Offset::Invalid),
    ])).unwrap();
    assert_eq!(consumer.state().tpl.count(), 3);
    consumer.incremental_unassign(&list(vec![
        elem("topic", 2, Offset::Invalid),
        elem("other", 0, Offset::Invalid),
    ])).unwrap();
    assert_eq!(consumer.state().tpl, list(vec![elem("topic", 0, Offset::Beginning)]));
}

#[test]
fn buffered_messages_outlive_their_assignment() {
    let mut broker = setup_cluster("topic", 1);
    broker.produce(&[1, 2]);
    let mut consumer = make_consumer();
    consumer.assign(&one(0)).unwrap();
    assert_eq!(poll_payload(&mut consumer, &broker), 1);
    consumer.incremental_unassign(&one(0)).unwrap();
    assert_eq!(consumer.state().tpl.count(), 0);
    assert_eq!(poll_payload(&mut consumer, &broker), 2);
    assert!(poll(&mut consumer, &broker).is_none());
    // The position of the message is known, and stays so while nothing is assigned.
    consumer.incremental_unassign(&one(0)).unwrap();
    assert_eq!(
        consumer.state().positions.get(&"topic".to_string(), 0),
        Some(Offset::Offset(2))
    );
    // Assigned again, the partition starts without a position.
    consumer.incremental_assign(&one(0)).unwrap();
    assert_eq!(offset_of(&consumer.position().unwrap(), "topic", 0), Offset::Invalid);
}

#[test]
fn polling_without_an_assignment_asks_for_nothing() {
    let mut consumer = make_consumer();
    assert!(matches!(consumer.poll(), PollStep::Ready(None)));
    assert!(matches!(consumer.poll_internal(), PollStep::Ready(None)));
    let mut streaming = make_stream_consumer();
    assert!(matches!(streaming.search(StreamEvent::Wake), StreamAction::Sleep(1)));
}

#[test]
fn a_fetch_asks_for_the_assigned_partitions() {
    let mut config = config_with_offset_reset(AutoOffsetResetStrategy::Latest);
    config.fetch_max_bytes = 10;
    config.max_partition_fetch_bytes = 20;
    let mut consumer = BaseConsumer::from_config(config);
    consumer.assign(&one(3)).unwrap();
    match consumer.poll() {
        PollStep::Fetch(Request::Fetch { tpl, opts }) => {
            assert_eq!(tpl, list(vec![elem("topic", 3, Offset::End)]));
            assert_eq!(opts.fetch_max_bytes, 10);
            assert_eq!(opts.max_partition_fetch_bytes, 20);
        }
        _ => panic!("no fetch"),
    }
}

#[test]
fn messages_come_in_order() {
    let mut broker = setup_cluster("topic", 1);
    broker.produce(&[5, 6, 7, 8]);
    let mut consumer = make_consumer();
    consumer.assign(&one(0)).unwrap();
    for v in [5, 6, 7, 8] {
        assert_eq!(poll_payload(&mut consumer, &broker), v);
    }
    assert!(poll(&mut consumer, &broker).is_none());
}

#[test]
fn errors_of_the_broker_leave_the_consumer_as_it_was() {
    let broker = setup_cluster("topic", 1);
    let mut consumer = make_consumer();
    consumer.assign(&list(vec![elem("other", 0, Offset::Invalid)])).unwrap();
    assert_eq!(
        poll(&mut consumer, &broker),
        Some(Err(KafkaError::Broker("unknown topic".to_string())))
    );
    assert_eq!(consumer.state().tpl, list(vec![elem("other", 0, Offset::Beginning)]));

    let mut streaming = make_stream_consumer();
    streaming.assign(&list(vec![elem("other", 0, Offset::Invalid)])).unwrap();
    let mut stream = streaming.stream();
    assert_eq!(
        stream_next(&mut streaming, &mut stream, &broker),
        Some(Err(KafkaError::Broker("unknown topic".to_string())))
    );
    assert!(stream.is_idle());
}

#[test]
fn requests_say_what_was_asked() {
    let consumer = make_consumer();
    let streaming = make_stream_consumer();
    let watermarks = Request::FetchWatermarks { topic: "topic".to_string(), partition: 4 };
    assert_eq!(consumer.fetch_watermarks("topic", 4), watermarks);
    assert_eq!(streaming.fetch_watermarks("topic", 4), watermarks);
    let times = Request::OffsetsForTimes { tpl: one(1) };
    assert_eq!(consumer.offsets_for_times(one(1)), times);
    assert_eq!(streaming.offsets_for_times(one(1)), times);
    let named = Request::FetchMetadata { topic: Some("topic".to_string()) };
    assert_eq!(consumer.fetch_metadata(Some("topic")), named);
    assert_eq!(streaming.fetch_metadata(None), Request::FetchMetadata { topic: None });
}

#[test]
fn a_stream_searches_once_at_a_time() {
    let consumer = make_stream_consumer();
    let mut stream: MessageStream<u8> = consumer.stream();
    assert!(stream.is_idle());
    stream.start(7);
    assert!(!stream.is_idle());
    assert_eq!(stream.poll_next(Polled::Pending), Polled::Pending);
    assert_eq!(stream.in_flight, Some(7));
    assert_eq!(stream.poll_next(Polled::Ready(Ok(None))), Polled::Pending);
    assert!(stream.is_idle());
}

#[test]
fn consumers_share_a_trait() {
    fn count<T: Consumer>(consumer: &T) -> usize {
        consumer.position().unwrap().count()
    }
    let mut base = make_consumer();
    base.assign(&one(0)).unwrap();
    assert_eq!(count(&base), 1);
    let mut streaming = make_stream_consumer();
    streaming.assign(&one(0)).unwrap();
    streaming.incremental_assign(&one(1)).unwrap();
    assert_eq!(count(&streaming), 2);
    streaming.incremental_unassign(&one(0)).unwrap();
    assert_eq!(count(&streaming), 1);
    let err = streaming.seek_partitions(one(1)).unwrap_err();
    assert_eq!(err, KafkaError::Seek("invalid offset for topic:1".to_string()));
}
