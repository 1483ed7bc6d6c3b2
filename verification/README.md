# rdkafka_sim

The consumer side of a simulated Kafka client, verified with Verus.

The library under `src/` does no input or output. A consumer is a state machine: operations on
the assignment change its state, a poll either hands out a buffered message or says what to fetch,
and the broker's reply is handed back to it.

- `topic_partition_list`, `message`, `broker`, `error`, `config`, `context`: the data.
- `positions`: the position of each partition.
- `model`: what each operation does, as a function on the mathematical value of the state.
- `base_consumer`, `stream_consumer`, `consumer`: the consumers, with contracts over `model`.
- `creation`: the steps in which a client is made out of its settings.
- `laws`: what holds of the operations taken together.

`app/` puts each machine behind a lock and connects it to a network, which whoever embeds the
client supplies as an implementation of two traits. `tests/` runs the library against a broker in
memory.
