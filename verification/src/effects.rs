//! What each operation of a consumer does to every partition, position and message, said of the
//! elements themselves: their topics, partition numbers and offsets.

use crate::base_consumer::{is_fetch, reply_has_successor, transposed, ConsumerState, Fetched};
use crate::broker::Request;
use crate::config::{AutoOffsetResetStrategy, ConsumerConfig};
use crate::creation::{if_on, Unsupported};
use crate::decimal::{decimal, digits};
use crate::error::{KafkaError, KafkaResult};
use crate::laws::{
    consume_many, last_consumed, law_messages_come_in_order,
    law_position_is_behind_the_last_consumed, law_seek_accepts_all_or_nothing,
    law_seek_reports_the_first_refusal, run, Step,
};
use crate::message::{head_has_successor, OwnedMessage};
use crate::model::{fresh, lemma_fresh_has_key, refusal, refused, reset_all, ConsumerView};
use crate::positions::{distinct, invalid_positions, keys};
use crate::topic_partition_list::{
    has_key, last_index, lemma_last_index, lemma_last_index_is, lemma_without_push, without, Elem,
    ElemView, Offset, PartitionKey, TopicPartitionList,
};
use vstd::prelude::*;

verus! {

/// Whether an element with this topic and this partition number stands in the list.
pub open spec fn lists(list: Seq<ElemView>, topic: Seq<char>, partition: i32) -> bool {
    exists|i: int|
        #![trigger list[i]]
        0 <= i < list.len() && list[i].topic == topic && list[i].partition == partition
}

/// Whether the element at the index is the last of its partition in the list.
pub open spec fn is_last(list: Seq<ElemView>, at: int) -> bool {
    forall|i: int|
        #![trigger list[i]]
        at < i < list.len() ==> !(list[i].topic == list[at].topic && list[i].partition
            == list[at].partition)
}

/// Whether the element at the index is the first of its partition in the list.
pub open spec fn is_first(list: Seq<ElemView>, at: int) -> bool {
    forall|i: int|
        #![trigger list[i]]
        0 <= i < at ==> !(list[i].topic == list[at].topic && list[i].partition
            == list[at].partition)
}

/// Whether the indices go up.
pub open spec fn increasing(indices: Seq<int>) -> bool {
    forall|i: int, j: int| 0 <= i < j < indices.len() ==> indices[i] < indices[j]
}

/// A partition is its topic and its number, and is in a list if an element has both.
pub proof fn law_partitions_are_told_apart(list: Seq<ElemView>, topic: Seq<char>, partition: i32)
    ensures
        has_key(list, (topic, partition)) <==> lists(list, topic, partition),
        keys(list).contains((topic, partition)) <==> lists(list, topic, partition),
        invalid_positions(list).contains_key((topic, partition)) <==> lists(list, topic, partition),
        lists(list, topic, partition) ==> invalid_positions(list)[(topic, partition)]
            == Offset::Invalid,
        distinct(list) <==> forall|i: int| 0 <= i < list.len() ==> #[trigger] is_last(list, i),
{
    let key = (topic, partition);
    if has_key(list, key) {
        let i = choose|i: int| 0 <= i < list.len() && #[trigger] list[i].key() == key;
        assert(list[i].topic == topic && list[i].partition == partition);
    }
    if lists(list, topic, partition) {
        let i = choose|i: int|
            #![trigger list[i]]
            0 <= i < list.len() && list[i].topic == topic && list[i].partition == partition;
        assert(list[i].key() == key);
    }
    if distinct(list) {
        assert forall|i: int| 0 <= i < list.len() implies #[trigger] is_last(list, i) by {
            assert forall|j: int| #![trigger list[j]] i < j < list.len() implies !(list[j].topic
                == list[i].topic && list[j].partition == list[i].partition) by {
                assert(list[i].key() != list[j].key());
            }
        }
    }
    if forall|i: int| 0 <= i < list.len() ==> #[trigger] is_last(list, i) {
        assert forall|i: int, j: int| 0 <= i < j < list.len() implies #[trigger] list[i].key()
            != #[trigger] list[j].key() by {
            assert(is_last(list, i));
            assert(list[j] == list[j]);
        }
    }
}

/// The last element of a partition is found, and none is found of a partition that is not there.
pub proof fn law_the_last_element_is_found(
    list: Seq<ElemView>,
    at: int,
    topic: Seq<char>,
    partition: i32,
)
    ensures
        0 <= at < list.len() && is_last(list, at) ==> last_index(list, list[at].key()) == at,
        !lists(list, topic, partition) ==> last_index(list, (topic, partition)) == -1,
{
    if 0 <= at < list.len() && is_last(list, at) {
        assert forall|i: int| at < i < list.len() implies #[trigger] list[i].key()
            != list[at].key() by {
            assert(list[i] == list[i]);
        }
        lemma_last_index_is(list, list[at].key(), at);
    }
    law_partitions_are_told_apart(list, topic, partition);
    lemma_last_index(list, (topic, partition));
}

/// The value of an element is what its fields hold.
pub proof fn law_value_of_an_element(e: Elem)
    ensures
        e@.topic == e.topic@,
        e@.partition == e.partition,
        e@.offset == e.offset,
        e@.key() == (e.topic@, e.partition),
{
}

/// An element speaks of its topic and its number, and moved to another offset it is otherwise
/// the same.
pub proof fn law_value_of_a_place(e: ElemView, offset: Offset)
    ensures
        e.key().0 == e.topic,
        e.key().1 == e.partition,
        e.at(offset).topic == e.topic,
        e.at(offset).partition == e.partition,
        e.at(offset).offset == offset,
{
}

/// The value of a list is its elements, all of them, in their order.
pub proof fn law_value_of_a_list(tpl: TopicPartitionList)
    ensures
        tpl@.len() == tpl.list@.len(),
        forall|i: int|
            #![trigger tpl@[i]]
            #![trigger tpl.list@[i]]
            0 <= i < tpl.list@.len() ==> tpl@[i].topic == tpl.list@[i].topic@ && tpl@[i].partition
                == tpl.list@[i].partition && tpl@[i].offset == tpl.list@[i].offset,
{
}

/// The value of a state is its assignment, its positions and its queue.
pub proof fn law_value_of_a_state(state: ConsumerState)
    ensures
        state@.tpl == state.tpl@,
        state@.positions == state.positions@,
        state@.buffer == state.msgs@,
{
}

/// A message comes out of the partition that its topic and number say.
pub proof fn law_source_of_a_message(msg: OwnedMessage)
    ensures
        msg.source().0 == msg.topic@,
        msg.source().1 == msg.partition,
{
}

/// Only the first of the messages that are to be consumed has to leave an offset behind it.
pub proof fn law_successor_of_the_head(msgs: Seq<OwnedMessage>, reply: Fetched)
    ensures
        head_has_successor(msgs) <==> msgs.len() == 0 || msgs[0].offset < i64::MAX,
        reply_has_successor(reply) <==> (reply is Err || reply->Ok_0.0@.len() == 0
            || reply->Ok_0.0@[0].offset < i64::MAX),
{
}

/// A fetch asks for all assigned partitions, in their order, within the limits of the settings.
pub proof fn law_a_fetch_asks_for_the_assignment(
    request: Request,
    tpl: Seq<ElemView>,
    config: ConsumerConfig,
)
    requires
        is_fetch(request, tpl, config),
    ensures
        request is Fetch,
        request->Fetch_tpl@ == tpl,
        request->opts.fetch_max_bytes == config.fetch_max_bytes,
        request->opts.max_partition_fetch_bytes == config.max_partition_fetch_bytes,
{
}

/// A poll that found a message gives it, one that failed gives the error, and one that found
/// nothing gives nothing.
pub proof fn law_outcome_of_a_poll<T>(result: KafkaResult<Option<T>>)
    ensures
        transposed(result) is None <==> result is Ok && result->Ok_0 is None,
        result is Ok && result->Ok_0 is Some ==> transposed(result) == Some(
            Ok::<T, KafkaError>(result->Ok_0->0),
        ),
        result is Err ==> transposed(result) == Some(
            Err::<T, KafkaError>(result->Err_0),
        ),
{
}

/// A new consumer has nothing assigned, no positions and nothing buffered.
pub proof fn law_a_new_consumer_is_empty()
    ensures
        ConsumerView::init().tpl.len() == 0,
        ConsumerView::init().buffer.len() == 0,
        forall|key: PartitionKey| !#[trigger] ConsumerView::init().positions.contains_key(key),
{
}

/// A partition without an offset is taken up at the end under `Latest`, at the beginning under
/// `Earliest`, and stays without one under `Error`. A given offset is kept, whatever it is.
pub proof fn law_missing_offsets_follow_the_setting(
    strategy: AutoOffsetResetStrategy,
    offset: Offset,
)
    ensures
        offset != Offset::Invalid ==> strategy.reset(offset) == offset,
        strategy == AutoOffsetResetStrategy::Latest ==> strategy.reset(Offset::Invalid)
            == Offset::End,
        strategy == AutoOffsetResetStrategy::Earliest ==> strategy.reset(Offset::Invalid)
            == Offset::Beginning,
        strategy == AutoOffsetResetStrategy::Error ==> strategy.reset(Offset::Invalid)
            == Offset::Invalid,
{
}

/// An assignment takes up every listed partition, in the order of the list: at the offset that
/// was given for it, or else at the end under `Latest`, at the beginning under `Earliest`, and
/// without an offset under `Error`. Nothing stays buffered.
pub proof fn law_assign_takes_up_every_partition(
    s: ConsumerView,
    strategy: AutoOffsetResetStrategy,
    list: Seq<ElemView>,
)
    ensures
        s.assign(strategy, list).buffer.len() == 0,
        s.assign(strategy, list).tpl.len() == list.len(),
        forall|i: int|
            0 <= i < list.len() ==> {
                let e = #[trigger] s.assign(strategy, list).tpl[i];
                &&& e.topic == list[i].topic
                &&& e.partition == list[i].partition
                &&& e.offset == if list[i].offset != Offset::Invalid {
                    list[i].offset
                } else {
                    match strategy {
                        AutoOffsetResetStrategy::Latest => Offset::End,
                        AutoOffsetResetStrategy::Earliest => Offset::Beginning,
                        AutoOffsetResetStrategy::Error => Offset::Invalid,
                    }
                }
            },
{
}

/// An assignment knows the listed partitions and no other, each at the invalid position.
pub proof fn law_assign_knows_the_listed_partitions(
    s: ConsumerView,
    strategy: AutoOffsetResetStrategy,
    list: Seq<ElemView>,
    topic: Seq<char>,
    partition: i32,
)
    ensures
        s.assign(strategy, list).positions.contains_key((topic, partition)) <==> lists(
            list,
            topic,
            partition,
        ),
        lists(list, topic, partition) ==> s.assign(strategy, list).positions[(topic, partition)]
            == Offset::Invalid,
{
    law_partitions_are_told_apart(list, topic, partition);
}

/// To assign nothing incrementally changes nothing.
pub proof fn law_incremental_assign_of_nothing(s: ConsumerView, strategy: AutoOffsetResetStrategy)
    ensures
        s.incremental_assign(strategy, Seq::empty()) == s,
{
    let t = s.incremental_assign(strategy, Seq::empty());
    assert(reset_all(strategy, Seq::empty()) =~= Seq::<ElemView>::empty());
    assert(t.tpl =~= s.tpl);
    assert(t.positions =~= s.positions);
}

/// One partition that is assigned incrementally is appended where it is not assigned yet: at the
/// offset that was given for it, or else at the end under `Latest`, at the beginning under
/// `Earliest`, and without an offset under `Error`. It has the invalid position. One that is
/// assigned already changes nothing.
pub proof fn law_incremental_assign_of_one(
    s: ConsumerView,
    strategy: AutoOffsetResetStrategy,
    e: ElemView,
)
    ensures
        lists(s.tpl, e.topic, e.partition) ==> s.incremental_assign(strategy, seq![e]) == s,
        !lists(s.tpl, e.topic, e.partition) ==> {
            let t = s.incremental_assign(strategy, seq![e]);
            let offset = if e.offset != Offset::Invalid {
                e.offset
            } else {
                match strategy {
                    AutoOffsetResetStrategy::Latest => Offset::End,
                    AutoOffsetResetStrategy::Earliest => Offset::Beginning,
                    AutoOffsetResetStrategy::Error => Offset::Invalid,
                }
            };
            &&& t.tpl == s.tpl.push(
                ElemView { topic: e.topic, partition: e.partition, offset },
            )
            &&& t.positions == s.positions.insert((e.topic, e.partition), Offset::Invalid)
            &&& t.buffer == s.buffer
        },
{
    let t = s.incremental_assign(strategy, seq![e]);
    let reset = reset_all(strategy, seq![e]);
    let r = e.at(strategy.reset(e.offset));
    assert(reset =~= seq![r]);
    assert(reset.drop_last() =~= Seq::<ElemView>::empty());
    assert(fresh(s.tpl, reset.drop_last()) =~= Seq::<ElemView>::empty());
    law_partitions_are_told_apart(s.tpl, e.topic, e.partition);
    if lists(s.tpl, e.topic, e.partition) {
        assert(fresh(s.tpl, reset) =~= Seq::<ElemView>::empty());
        assert(t.tpl =~= s.tpl);
        assert(t.positions =~= s.positions);
    } else {
        assert(!has_key(reset.drop_last(), r.key()));
        assert(fresh(s.tpl, reset) =~= seq![r]);
        assert(t.tpl =~= s.tpl.push(r));
        assert forall|key: PartitionKey| has_key(seq![r], key) <==> key == r.key() by {
            assert(seq![r][0].key() == r.key());
        }
        assert(t.positions =~= s.positions.insert((e.topic, e.partition), Offset::Invalid));
    }
}

proof fn lemma_concat_has_key(a: Seq<ElemView>, b: Seq<ElemView>, key: PartitionKey)
    ensures
        has_key(a + b, key) <==> has_key(a, key) || has_key(b, key),
{
    let all = a + b;
    if has_key(all, key) {
        let i = choose|i: int| 0 <= i < all.len() && #[trigger] all[i].key() == key;
        if i < a.len() {
            assert(a[i].key() == key);
        } else {
            assert(b[i - a.len()].key() == key);
        }
    }
    if has_key(a, key) {
        let i = choose|i: int| 0 <= i < a.len() && #[trigger] a[i].key() == key;
        assert(all[i].key() == key);
    }
    if has_key(b, key) {
        let i = choose|i: int| 0 <= i < b.len() && #[trigger] b[i].key() == key;
        assert(all[a.len() + i].key() == key);
    }
}

proof fn lemma_fresh_concat(tpl: Seq<ElemView>, a: Seq<ElemView>, b: Seq<ElemView>)
    ensures
        fresh(tpl, a + b) == fresh(tpl, a) + fresh(tpl + fresh(tpl, a), b),
    decreases b.len(),
{
    let more = tpl + fresh(tpl, a);
    if b.len() == 0 {
        assert(a + b =~= a);
        assert(fresh(tpl, a) + fresh(more, b) =~= fresh(tpl, a));
    } else {
        let front = b.drop_last();
        let e = b.last();
        lemma_fresh_concat(tpl, a, front);
        assert((a + b).drop_last() =~= a + front);
        assert((a + b).last() == e);
        lemma_concat_has_key(a, front, e.key());
        lemma_fresh_has_key(tpl, a, e.key());
        assert(fresh(tpl, a) + fresh(more, front).push(e) =~= (fresh(tpl, a) + fresh(
            more,
            front,
        )).push(e));
    }
}

/// To assign a list incrementally is to assign its parts one after the other.
pub proof fn law_incremental_assign_goes_part_by_part(
    s: ConsumerView,
    strategy: AutoOffsetResetStrategy,
    first: Seq<ElemView>,
    second: Seq<ElemView>,
)
    ensures
        s.incremental_assign(strategy, first + second) == s.incremental_assign(
            strategy,
            first,
        ).incremental_assign(strategy, second),
{
    let t = s.incremental_assign(strategy, first);
    let u = t.incremental_assign(strategy, second);
    let w = s.incremental_assign(strategy, first + second);
    let a = reset_all(strategy, first);
    let b = reset_all(strategy, second);
    assert(reset_all(strategy, first + second) =~= a + b);
    lemma_fresh_concat(s.tpl, a, b);
    let x = fresh(s.tpl, a);
    let y = fresh(t.tpl, b);
    assert(w.tpl =~= u.tpl);
    assert forall|key: PartitionKey| #[trigger]
        has_key(x + y, key) <==> has_key(x, key) || has_key(y, key) by {
        lemma_concat_has_key(x, y, key);
    }
    assert(w.positions =~= u.positions) by {
        assert forall|key: PartitionKey| #[trigger]
            w.positions.contains_key(key) <==> u.positions.contains_key(key) by {
            lemma_concat_has_key(x, y, key);
        }
        assert forall|key: PartitionKey| #[trigger]
            w.positions.contains_key(key) implies w.positions[key] == u.positions[key] by {
            lemma_concat_has_key(x, y, key);
        }
    }
}

/// What an incremental assignment adds behind the assigned partitions: those of the list, in its
/// order, that are neither assigned nor listed before. Each is added at the offset that was given
/// in that listing, or else at the end under `Latest`, at the beginning under `Earliest`, and
/// without an offset under `Error`.
pub proof fn law_incremental_assign_adds_at_the_right_offsets(
    s: ConsumerView,
    strategy: AutoOffsetResetStrategy,
    list: Seq<ElemView>,
)
    ensures
        exists|picked: Seq<int>| #[trigger]
            increasing(picked) && s.incremental_assign(strategy, list).tpl.len() == s.tpl.len()
                + picked.len() && (forall|i: int|
                0 <= i < s.tpl.len() ==> #[trigger] s.incremental_assign(strategy, list).tpl[i]
                    == s.tpl[i]) && (forall|i: int|
                #![trigger list[i]]
                picked.contains(i) <==> 0 <= i < list.len() && is_first(list, i) && !lists(
                    s.tpl,
                    list[i].topic,
                    list[i].partition,
                )) && (forall|k: int|
                0 <= k < picked.len() ==> {
                    let from = list[#[trigger] picked[k]];
                    let e = s.incremental_assign(strategy, list).tpl[s.tpl.len() + k];
                    &&& e.topic == from.topic
                    &&& e.partition == from.partition
                    &&& e.offset == if from.offset != Offset::Invalid {
                        from.offset
                    } else {
                        match strategy {
                            AutoOffsetResetStrategy::Latest => Offset::End,
                            AutoOffsetResetStrategy::Earliest => Offset::Beginning,
                            AutoOffsetResetStrategy::Error => Offset::Invalid,
                        }
                    }
                }),
{
    let reset = reset_all(strategy, list);
    let picked = lemma_fresh_picks(s.tpl, reset);
    let t = s.incremental_assign(strategy, list);
    assert forall|i: int|
        #![trigger list[i]]
        picked.contains(i) <==> 0 <= i < list.len() && is_first(list, i) && !lists(
            s.tpl,
            list[i].topic,
            list[i].partition,
        ) by {
        assert(picked.contains(i) <==> 0 <= i < reset.len() && is_first(reset, i) && !lists(
            s.tpl,
            reset[i].topic,
            reset[i].partition,
        ));
        if 0 <= i < list.len() {
            assert(forall|j: int|
                #![trigger reset[j]]
                #![trigger list[j]]
                0 <= j < list.len() ==> reset[j].topic == list[j].topic && reset[j].partition
                    == list[j].partition);
            assert(is_first(reset, i) <==> is_first(list, i)) by {
                if is_first(reset, i) {
                    assert forall|j: int| #![trigger list[j]] 0 <= j < i implies !(list[j].topic
                        == list[i].topic && list[j].partition == list[i].partition) by {
                        assert(reset[j] == reset[j]);
                    }
                }
                if is_first(list, i) {
                    assert forall|j: int| #![trigger reset[j]] 0 <= j < i implies !(reset[j].topic
                        == reset[i].topic && reset[j].partition == reset[i].partition) by {
                        assert(list[j] == list[j]);
                    }
                }
            }
        }
    }
    assert forall|k: int| 0 <= k < picked.len() implies {
        let from = list[#[trigger] picked[k]];
        let e = t.tpl[s.tpl.len() + k];
        &&& e.topic == from.topic
        &&& e.partition == from.partition
        &&& e.offset == if from.offset != Offset::Invalid {
            from.offset
        } else {
            match strategy {
                AutoOffsetResetStrategy::Latest => Offset::End,
                AutoOffsetResetStrategy::Earliest => Offset::Beginning,
                AutoOffsetResetStrategy::Error => Offset::Invalid,
            }
        }
    } by {
        assert(picked.contains(picked[k]));
        assert(list[picked[k]] == list[picked[k]]);
        assert(t.tpl[s.tpl.len() + k] == fresh(s.tpl, reset)[k]);
        assert(fresh(s.tpl, reset)[k] == reset[picked[k]]);
    }
    assert(increasing(picked));
}

proof fn lemma_fresh_picks(tpl: Seq<ElemView>, list: Seq<ElemView>) -> (picked: Seq<int>)
    ensures
        increasing(picked),
        picked.len() == fresh(tpl, list).len(),
        forall|k: int|
            0 <= k < picked.len() ==> 0 <= #[trigger] picked[k] < list.len() && fresh(tpl, list)[k]
                == list[picked[k]],
        forall|i: int|
            #![trigger list[i]]
            picked.contains(i) <==> 0 <= i < list.len() && is_first(list, i) && !lists(
                tpl,
                list[i].topic,
                list[i].partition,
            ),
    decreases list.len(),
{
    if list.len() == 0 {
        Seq::empty()
    } else {
        let front = list.drop_last();
        let e = list.last();
        let n = list.len() - 1;
        let before = lemma_fresh_picks(tpl, front);
        law_partitions_are_told_apart(tpl, e.topic, e.partition);
        law_partitions_are_told_apart(front, e.topic, e.partition);
        assert(forall|j: int| #![trigger list[j]] 0 <= j < n ==> front[j] == list[j]);
        assert(is_first(list, n) <==> !lists(front, e.topic, e.partition)) by {
            if is_first(list, n) && lists(front, e.topic, e.partition) {
                let j = choose|j: int|
                    #![trigger front[j]]
                    0 <= j < front.len() && front[j].topic == e.topic && front[j].partition
                        == e.partition;
                assert(list[j] == front[j]);
            }
            if !lists(front, e.topic, e.partition) {
                assert forall|j: int| #![trigger list[j]] 0 <= j < n implies !(list[j].topic
                    == list[n].topic && list[j].partition == list[n].partition) by {
                    assert(front[j] == list[j]);
                }
            }
        }
        let added = is_first(list, n) && !lists(tpl, e.topic, e.partition);
        let picked = if added {
            before.push(n)
        } else {
            before
        };
        assert forall|k: int| 0 <= k < before.len() implies 0 <= #[trigger] before[k] < n by {}
        assert forall|i: int|
            #![trigger list[i]]
            picked.contains(i) <==> 0 <= i < list.len() && is_first(list, i) && !lists(
                tpl,
                list[i].topic,
                list[i].partition,
            ) by {
            assert(picked.contains(i) <==> before.contains(i) || (added && i == n)) by {
                if before.contains(i) {
                    let k = choose|k: int| 0 <= k < before.len() && before[k] == i;
                    assert(picked[k] == i);
                }
                if added && i == n {
                    assert(picked[before.len() as int] == n);
                }
            }
            assert(before.contains(i) <==> 0 <= i < front.len() && is_first(front, i) && !lists(
                tpl,
                front[i].topic,
                front[i].partition,
            )) by {
                let f = front[i];
            }
            if 0 <= i < n {
                assert(front[i] == list[i]);
                assert(is_first(front, i) <==> is_first(list, i)) by {
                    if is_first(front, i) {
                        assert forall|j: int| #![trigger list[j]] 0 <= j < i implies !(list[j].topic
                            == list[i].topic && list[j].partition == list[i].partition) by {
                            assert(front[j] == list[j]);
                        }
                    }
                    if is_first(list, i) {
                        assert forall|j: int| #![trigger front[j]] 0 <= j < i implies !(
                        front[j].topic == front[i].topic && front[j].partition
                            == front[i].partition) by {
                            assert(front[j] == list[j]);
                        }
                    }
                }
            } else if before.contains(i) {
                let k = choose|k: int| 0 <= k < before.len() && before[k] == i;
                assert(0 <= before[k] < n);
            }
        }
        picked
    }
}

proof fn lemma_without_picks(list: Seq<ElemView>, removed: Seq<ElemView>) -> (picked: Seq<int>)
    ensures
        increasing(picked),
        picked.len() == without(list, removed).len(),
        forall|k: int|
            0 <= k < picked.len() ==> 0 <= #[trigger] picked[k] < list.len() && without(
                list,
                removed,
            )[k] == list[picked[k]],
        forall|i: int|
            #![trigger list[i]]
            picked.contains(i) <==> 0 <= i < list.len() && !lists(
                removed,
                list[i].topic,
                list[i].partition,
            ),
    decreases list.len(),
{
    reveal(Seq::filter);
    if list.len() == 0 {
        Seq::empty()
    } else {
        let front = list.drop_last();
        let e = list.last();
        let n = list.len() - 1;
        let before = lemma_without_picks(front, removed);
        assert(front.push(e) =~= list);
        lemma_without_push(front, e, removed);
        law_partitions_are_told_apart(removed, e.topic, e.partition);
        let added = !lists(removed, e.topic, e.partition);
        let picked = if added {
            before.push(n)
        } else {
            before
        };
        assert forall|i: int|
            #![trigger list[i]]
            picked.contains(i) <==> 0 <= i < list.len() && !lists(
                removed,
                list[i].topic,
                list[i].partition,
            ) by {
            assert(picked.contains(i) <==> before.contains(i) || (added && i == n)) by {
                if before.contains(i) {
                    let k = choose|k: int| 0 <= k < before.len() && before[k] == i;
                    assert(picked[k] == i);
                }
                if added && i == n {
                    assert(picked[before.len() as int] == n);
                }
            }
            assert(before.contains(i) <==> 0 <= i < front.len() && !lists(
                removed,
                front[i].topic,
                front[i].partition,
            )) by {
                let f = front[i];
            }
            if 0 <= i < n {
                assert(front[i] == list[i]);
            }
        }
        picked
    }
}

/// An incremental unassignment keeps exactly the elements whose partition is not listed, each
/// with the offset it had, in the order they had. What is buffered stays buffered.
pub proof fn law_incremental_unassign_keeps_the_rest(s: ConsumerView, list: Seq<ElemView>)
    ensures
        s.incremental_unassign(list).buffer == s.buffer,
        exists|picked: Seq<int>| #[trigger]
            increasing(picked) && s.incremental_unassign(list).tpl.len() == picked.len() && (forall|
                i: int,
            |
                #![trigger s.tpl[i]]
                picked.contains(i) <==> 0 <= i < s.tpl.len() && !lists(
                    list,
                    s.tpl[i].topic,
                    s.tpl[i].partition,
                )) && (forall|k: int|
                0 <= k < picked.len() ==> s.incremental_unassign(list).tpl[k]
                    == s.tpl[#[trigger] picked[k]]),
{
    let picked = lemma_without_picks(s.tpl, list);
    if s.tpl.len() == 0 {
        if picked.len() > 0 {
            assert(0 <= picked[0] < s.tpl.len());
        }
    }
    assert(increasing(picked));
}

/// Every element whose partition is not listed is still there after an incremental unassignment,
/// with its offset; and every element that is there was there before and is not listed.
pub proof fn law_incremental_unassign_moves_no_offset(s: ConsumerView, list: Seq<ElemView>)
    ensures
        forall|i: int|
            #![trigger s.tpl[i]]
            0 <= i < s.tpl.len() && !lists(list, s.tpl[i].topic, s.tpl[i].partition)
                ==> s.incremental_unassign(list).tpl.contains(s.tpl[i]),
        forall|k: int|
            0 <= k < s.incremental_unassign(list).tpl.len() ==> {
                let e = #[trigger] s.incremental_unassign(list).tpl[k];
                s.tpl.contains(e) && !lists(list, e.topic, e.partition)
            },
{
    let t = s.incremental_unassign(list);
    law_incremental_unassign_keeps_the_rest(s, list);
    let picked = choose|picked: Seq<int>| #[trigger]
        increasing(picked) && t.tpl.len() == picked.len() && (forall|i: int|
            #![trigger s.tpl[i]]
            picked.contains(i) <==> 0 <= i < s.tpl.len() && !lists(
                list,
                s.tpl[i].topic,
                s.tpl[i].partition,
            )) && (forall|k: int|
            0 <= k < picked.len() ==> t.tpl[k] == s.tpl[#[trigger] picked[k]]);
    assert forall|i: int|
        #![trigger s.tpl[i]]
        0 <= i < s.tpl.len() && !lists(
            list,
            s.tpl[i].topic,
            s.tpl[i].partition,
        ) implies t.tpl.contains(s.tpl[i]) by {
        assert(picked.contains(i));
        let k = choose|k: int| 0 <= k < picked.len() && picked[k] == i;
        assert(t.tpl[k] == s.tpl[picked[k]]);
    }
    assert forall|k: int| 0 <= k < t.tpl.len() implies {
        let e = #[trigger] t.tpl[k];
        s.tpl.contains(e) && !lists(list, e.topic, e.partition)
    } by {
        assert(picked.contains(picked[k]));
        assert(t.tpl[k] == s.tpl[picked[k]]);
    }
}

/// Where something is assigned, an incremental unassignment forgets the positions of the listed
/// partitions and of no others. Where nothing is assigned it changes nothing.
pub proof fn law_incremental_unassign_forgets_the_listed(
    s: ConsumerView,
    list: Seq<ElemView>,
    topic: Seq<char>,
    partition: i32,
)
    ensures
        s.tpl.len() == 0 ==> s.incremental_unassign(list) == s,
        s.tpl.len() > 0 ==> {
            let before = s.positions;
            let after = s.incremental_unassign(list).positions;
            &&& after.contains_key((topic, partition)) <==> before.contains_key((topic, partition))
                && !lists(list, topic, partition)
            &&& after.contains_key((topic, partition)) ==> after[(topic, partition)] == before[(
                topic,
                partition,
            )]
        },
{
    law_partitions_are_told_apart(list, topic, partition);
}

/// A seek is accepted if and only if every requested place has an offset that is neither missing,
/// stored nor counted from the end, and a partition that is assigned.
pub proof fn law_seek_is_accepted_exactly(tpl: Seq<ElemView>, requested: Seq<ElemView>)
    ensures
        refused(tpl, requested) is None <==> forall|i: int|
            #![trigger requested[i]]
            0 <= i < requested.len() ==> requested[i].offset != Offset::Invalid
                && requested[i].offset != Offset::Stored && !(requested[i].offset is OffsetTail)
                && lists(tpl, requested[i].topic, requested[i].partition),
{
    law_seek_accepts_all_or_nothing(tpl, requested);
    assert forall|i: int|
        #![trigger requested[i]]
        0 <= i < requested.len() implies (has_key(tpl, requested[i].key()) <==> lists(
        tpl,
        requested[i].topic,
        requested[i].partition,
    )) by {
        law_partitions_are_told_apart(tpl, requested[i].topic, requested[i].partition);
    }
}

/// What is said of a refused seek: it names the partition of the first place that is refused and
/// why. A missing, stored or tail offset is complained of before a partition that is not assigned.
pub proof fn law_seek_says_why_it_is_refused(
    tpl: Seq<ElemView>,
    requested: Seq<ElemView>,
    first: int,
)
    requires
        0 <= first < requested.len(),
        forall|i: int|
            #![trigger requested[i]]
            0 <= i < first ==> requested[i].offset != Offset::Invalid && requested[i].offset
                != Offset::Stored && !(requested[i].offset is OffsetTail) && lists(
                tpl,
                requested[i].topic,
                requested[i].partition,
            ),
    ensures
        ({
            let e = requested[first];
            let place = e.topic + ":"@ + decimal(e.partition as int);
            &&& e.offset == Offset::Invalid ==> refused(tpl, requested) == Some(
                "invalid offset for "@ + place,
            )
            &&& e.offset == Offset::Stored ==> refused(tpl, requested) == Some(
                "stored offset is not supported for "@ + place,
            )
            &&& e.offset is OffsetTail ==> refused(tpl, requested) == Some(
                "offset tail is not supported for "@ + place,
            )
            &&& (e.offset is Beginning || e.offset is End || e.offset is Offset) && !lists(
                tpl,
                e.topic,
                e.partition,
            ) ==> refused(tpl, requested) == Some(
                "partition "@ + place + " is not currently assigned"@,
            )
        }),
{
    let e = requested[first];
    law_partitions_are_told_apart(tpl, e.topic, e.partition);
    assert forall|i: int| 0 <= i < first implies refusal(tpl, #[trigger] requested[i]) is None by {
        law_partitions_are_told_apart(tpl, requested[i].topic, requested[i].partition);
    }
    if refusal(tpl, e) is Some {
        law_seek_reports_the_first_refusal(tpl, requested, first);
    }
}

/// The decimal notation of an integer is its digits, the highest first, after a minus sign where
/// it is negative.
pub proof fn law_decimal_notation(n: int)
    ensures
        n < 0 ==> decimal(n) == "-"@ + decimal(-n),
        n >= 10 ==> decimal(n) == decimal(n / 10) + decimal(n % 10),
        n == 0 ==> decimal(n) == "0"@,
        n == 1 ==> decimal(n) == "1"@,
        n == 2 ==> decimal(n) == "2"@,
        n == 3 ==> decimal(n) == "3"@,
        n == 4 ==> decimal(n) == "4"@,
        n == 5 ==> decimal(n) == "5"@,
        n == 6 ==> decimal(n) == "6"@,
        n == 7 ==> decimal(n) == "7"@,
        n == 8 ==> decimal(n) == "8"@,
        n == 9 ==> decimal(n) == "9"@,
{
    reveal_strlit("-");
    reveal_strlit("0");
    reveal_strlit("1");
    reveal_strlit("2");
    reveal_strlit("3");
    reveal_strlit("4");
    reveal_strlit("5");
    reveal_strlit("6");
    reveal_strlit("7");
    reveal_strlit("8");
    reveal_strlit("9");
    if n < 0 {
        assert("-"@ =~= seq!['-']);
    } else if n >= 10 {
        assert(digits(n as nat) =~= digits((n / 10) as nat) + digits((n % 10) as nat));
    }
}

/// A seek leaves every assigned partition in its place. The last element of a requested partition
/// is at the offset that was last requested for it, and every other element at the offset it had.
/// Nothing stays buffered.
pub proof fn law_seek_moves_what_was_requested(s: ConsumerView, requested: Seq<ElemView>)
    ensures
        s.seek(requested).buffer.len() == 0,
        s.seek(requested).tpl.len() == s.tpl.len(),
        forall|i: int|
            0 <= i < s.tpl.len() ==> {
                let e = #[trigger] s.seek(requested).tpl[i];
                &&& e.topic == s.tpl[i].topic
                &&& e.partition == s.tpl[i].partition
                &&& !is_last(s.tpl, i) || !lists(requested, e.topic, e.partition) ==> e.offset
                    == s.tpl[i].offset
            },
        forall|i: int, j: int|
            #![trigger s.seek(requested).tpl[i], requested[j]]
            0 <= i < s.tpl.len() && 0 <= j < requested.len() && is_last(s.tpl, i) && is_last(
                requested,
                j,
            ) && s.tpl[i].topic == requested[j].topic && s.tpl[i].partition
                == requested[j].partition ==> s.seek(requested).tpl[i].offset
                == requested[j].offset,
{
    assert forall|i: int| 0 <= i < s.tpl.len() implies {
        let e = #[trigger] s.seek(requested).tpl[i];
        &&& e.topic == s.tpl[i].topic
        &&& e.partition == s.tpl[i].partition
        &&& !is_last(s.tpl, i) || !lists(requested, e.topic, e.partition) ==> e.offset
            == s.tpl[i].offset
    } by {
        let key = s.tpl[i].key();
        law_partitions_are_told_apart(requested, key.0, key.1);
        lemma_last_index(s.tpl, key);
        if last_index(s.tpl, key) == i {
            assert forall|k: int| #![trigger s.tpl[k]] i < k < s.tpl.len() implies !(s.tpl[k].topic
                == s.tpl[i].topic && s.tpl[k].partition == s.tpl[i].partition) by {
                assert(s.tpl[k].key() != key);
            }
            assert(is_last(s.tpl, i));
        }
    }
    assert forall|i: int, j: int|
        #![trigger s.seek(requested).tpl[i], requested[j]]
        0 <= i < s.tpl.len() && 0 <= j < requested.len() && is_last(s.tpl, i) && is_last(
            requested,
            j,
        ) && s.tpl[i].topic == requested[j].topic && s.tpl[i].partition
            == requested[j].partition implies s.seek(requested).tpl[i].offset
        == requested[j].offset by {
        let key = s.tpl[i].key();
        assert(requested[j].key() == key);
        assert(has_key(requested, key));
        law_the_last_element_is_found(s.tpl, i, key.0, key.1);
        law_the_last_element_is_found(requested, j, key.0, key.1);
    }
}

/// A seek makes the position of every requested partition invalid and leaves all others.
pub proof fn law_seek_forgets_the_requested(
    s: ConsumerView,
    requested: Seq<ElemView>,
    topic: Seq<char>,
    partition: i32,
)
    ensures
        ({
            let before = s.positions;
            let after = s.seek(requested).positions;
            &&& after.contains_key((topic, partition)) <==> before.contains_key((topic, partition))
                || lists(requested, topic, partition)
            &&& lists(requested, topic, partition) ==> after[(topic, partition)] == Offset::Invalid
            &&& !lists(requested, topic, partition) && before.contains_key((topic, partition))
                ==> after[(topic, partition)] == before[(topic, partition)]
        }),
{
    law_partitions_are_told_apart(requested, topic, partition);
}

/// The position of a partition is the one that is known for it, or else the invalid one.
pub proof fn law_position_of_a_partition(s: ConsumerView, topic: Seq<char>, partition: i32)
    ensures
        s.positions.contains_key((topic, partition)) ==> s.position_of((topic, partition))
            == s.positions[(topic, partition)],
        !s.positions.contains_key((topic, partition)) ==> s.position_of((topic, partition))
            == Offset::Invalid,
{
}

/// The report of positions has every assigned partition, in the order of the assignment, each at
/// the position that is known for it, or at the invalid one.
pub proof fn law_position_reports_every_partition(s: ConsumerView)
    ensures
        s.position().len() == s.tpl.len(),
        forall|i: int|
            0 <= i < s.tpl.len() ==> {
                let e = #[trigger] s.position()[i];
                let key = (s.tpl[i].topic, s.tpl[i].partition);
                &&& e.topic == s.tpl[i].topic
                &&& e.partition == s.tpl[i].partition
                &&& e.offset == s.position_of(key)
                &&& s.positions.contains_key(key) ==> e.offset == s.positions[key]
                &&& !s.positions.contains_key(key) ==> e.offset == Offset::Invalid
            },
{
}

/// Whatever happened to a consumer, every assigned partition is reported at the offset behind the
/// last message of it that was consumed, or at the invalid one if none was consumed since it was
/// assigned or sought in.
pub proof fn law_reported_positions_are_behind_the_last_consumed(
    strategy: AutoOffsetResetStrategy,
    steps: Seq<Step>,
    i: int,
)
    requires
        0 <= i < run(strategy, steps).tpl.len(),
    ensures
        run(strategy, steps).position().len() == run(strategy, steps).tpl.len(),
        ({
            let assigned = run(strategy, steps).tpl[i];
            let reported = run(strategy, steps).position()[i];
            &&& reported.topic == assigned.topic
            &&& reported.partition == assigned.partition
            &&& reported.offset == match last_consumed(
                strategy,
                steps,
                (assigned.topic, assigned.partition),
            ) {
                Some(offset) => Offset::Offset((offset + 1) as i64),
                None => Offset::Invalid,
            }
        }),
{
    let s = run(strategy, steps);
    law_position_reports_every_partition(s);
    assert(s.position()[i] == s.position()[i]);
    law_position_is_behind_the_last_consumed(
        strategy,
        steps,
        (s.tpl[i].topic, s.tpl[i].partition),
    );
}

/// A reply of the broker is taken over whole: all of its messages are buffered, in their order,
/// and its offsets are those to fetch from next. Positions stay as they are.
pub proof fn law_receive_takes_over_the_reply(
    s: ConsumerView,
    msgs: Seq<OwnedMessage>,
    tpl: Seq<ElemView>,
)
    ensures
        s.receive(msgs, tpl).buffer == msgs,
        s.receive(msgs, tpl).tpl == tpl,
        s.receive(msgs, tpl).positions == s.positions,
{
}

/// To consume is to take the first buffered message and move the position of its partition behind
/// it. The other messages stay, in their order. Where nothing is buffered nothing changes.
pub proof fn law_consume_takes_the_first(s: ConsumerView)
    ensures
        s.buffer.len() == 0 ==> s.head() is None && s.consume() == s,
        s.buffer.len() > 0 ==> {
            let msg = s.buffer[0];
            let t = s.consume();
            &&& s.head() == Some(msg)
            &&& t.tpl == s.tpl
            &&& t.buffer.len() == s.buffer.len() - 1
            &&& forall|i: int| 0 <= i < t.buffer.len() ==> #[trigger] t.buffer[i] == s.buffer[i + 1]
            &&& t.positions == s.positions.insert(
                (msg.topic@, msg.partition),
                Offset::Offset((msg.offset + 1) as i64),
            )
        },
{
}

/// Every message of a reply is handed out once, in the order of the reply, before anything is
/// fetched again; and the next fetch is at the offsets of the reply.
pub proof fn law_every_fetched_message_is_handed_out(
    s: ConsumerView,
    msgs: Seq<OwnedMessage>,
    tpl: Seq<ElemView>,
    n: nat,
)
    requires
        n <= msgs.len(),
    ensures
        consume_many(s.receive(msgs, tpl), n).tpl == tpl,
        consume_many(s.receive(msgs, tpl), n).buffer.len() == msgs.len() - n,
        consume_many(s.receive(msgs, tpl), n).head() == if n < msgs.len() {
            Some(msgs[n as int])
        } else {
            None
        },
    decreases n,
{
    let r = s.receive(msgs, tpl);
    law_receive_takes_over_the_reply(s, msgs, tpl);
    law_messages_come_in_order(r, n);
    if n > 0 {
        law_every_fetched_message_is_handed_out(s, msgs, tpl, (n - 1) as nat);
        law_consume_takes_the_first(consume_many(r, (n - 1) as nat));
    }
}

/// While messages are handed out, the position of each partition is behind the last one of it
/// that was, and stays as it was where none was.
pub proof fn law_positions_follow_the_messages(
    s: ConsumerView,
    n: nat,
    topic: Seq<char>,
    partition: i32,
)
    requires
        n <= s.buffer.len(),
    ensures
        forall|last: int|
            #![trigger s.buffer[last]]
            0 <= last < n && s.buffer[last].topic@ == topic && s.buffer[last].partition == partition
                && (forall|i: int|
                #![trigger s.buffer[i]]
                last < i < n ==> !(s.buffer[i].topic@ == topic && s.buffer[i].partition
                    == partition)) ==> consume_many(s, n).position_of((topic, partition))
                == Offset::Offset((s.buffer[last].offset + 1) as i64),
        (forall|i: int|
            #![trigger s.buffer[i]]
            0 <= i < n ==> !(s.buffer[i].topic@ == topic && s.buffer[i].partition == partition))
            ==> consume_many(s, n).position_of((topic, partition)) == s.position_of(
            (topic, partition),
        ),
    decreases n,
{
    if n > 0 {
        let m = (n - 1) as nat;
        law_positions_follow_the_messages(s, m, topic, partition);
        law_messages_come_in_order(s, m);
        let t = consume_many(s, m);
        law_consume_takes_the_first(t);
        let msg = s.buffer[m as int];
        assert(t.buffer[0] == msg);
    }
}

/// A setting that is on is complained of, and one that is off is not.
pub proof fn law_settings_that_are_on(setting: Unsupported)
    ensures
        if_on(true, setting) == seq![setting],
        if_on(false, setting).len() == 0,
{
}

} // verus!
