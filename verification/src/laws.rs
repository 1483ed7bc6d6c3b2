//! What holds of the operations of a consumer taken together.

use crate::config::AutoOffsetResetStrategy;
use crate::message::OwnedMessage;
use crate::model::{
    fresh, lemma_fresh_has_key, refusal, refused, refused_from, reset_all, ConsumerView,
};
use crate::positions::{distinct, keys};
use crate::topic_partition_list::{
    has_key, last_index, lemma_last_index, lemma_without_has_key, lemma_without_push, without,
    ElemView, Offset, PartitionKey,
};
use vstd::prelude::*;

verus! {

proof fn lemma_reset_has_key(
    strategy: AutoOffsetResetStrategy,
    list: Seq<ElemView>,
    key: PartitionKey,
)
    ensures
        has_key(reset_all(strategy, list), key) <==> has_key(list, key),
{
    let reset = reset_all(strategy, list);
    assert(forall|i: int|
        0 <= i < list.len() ==> #[trigger] reset[i].key() == list[i].key());
    if has_key(list, key) {
        let i = choose|i: int| 0 <= i < list.len() && #[trigger] list[i].key() == key;
        assert(reset[i].key() == key);
    }
    if has_key(reset, key) {
        let i = choose|i: int| 0 <= i < reset.len() && #[trigger] reset[i].key() == key;
        assert(list[i].key() == key);
    }
}

/// After an assignment every assigned partition has the invalid position: what was consumed
/// before it counts no more.
pub proof fn law_assign_forgets_positions(
    s: ConsumerView,
    strategy: AutoOffsetResetStrategy,
    list: Seq<ElemView>,
)
    ensures
        s.assign(strategy, list).buffer.len() == 0,
        s.assign(strategy, list).position() == Seq::new(
            list.len(),
            |i: int| list[i].at(Offset::Invalid),
        ),
{
    assert(s.assign(strategy, list).position() =~= Seq::new(
        list.len(),
        |i: int| list[i].at(Offset::Invalid),
    ));
}

/// Where the settings say how to reset offsets, no partition is assigned without an offset, and
/// offsets that were given stay as they are.
pub proof fn law_assign_resets_offsets(
    s: ConsumerView,
    strategy: AutoOffsetResetStrategy,
    list: Seq<ElemView>,
)
    ensures
        s.assign(strategy, list).tpl.len() == list.len(),
        forall|i: int|
            0 <= i < list.len() ==> {
                let e = #[trigger] s.assign(strategy, list).tpl[i];
                &&& e.key() == list[i].key()
                &&& list[i].offset != Offset::Invalid ==> e.offset == list[i].offset
                &&& strategy != AutoOffsetResetStrategy::Error ==> e.offset != Offset::Invalid
            },
{
}

/// An incremental assignment leaves the partitions that were assigned untouched, with their
/// offsets and positions, and keeps what is buffered.
pub proof fn law_incremental_assign_keeps(
    s: ConsumerView,
    strategy: AutoOffsetResetStrategy,
    list: Seq<ElemView>,
)
    ensures
        s.incremental_assign(strategy, list).tpl.take(s.tpl.len() as int) == s.tpl,
        s.incremental_assign(strategy, list).buffer == s.buffer,
        forall|key: PartitionKey|
            has_key(s.tpl, key) ==> #[trigger] s.incremental_assign(strategy, list).position_of(key)
                == s.position_of(key),
{
    let t = s.incremental_assign(strategy, list);
    assert(t.tpl.take(s.tpl.len() as int) =~= s.tpl);
    assert forall|key: PartitionKey| has_key(s.tpl, key) implies #[trigger] t.position_of(key)
        == s.position_of(key) by {
        lemma_fresh_has_key(s.tpl, reset_all(strategy, list), key);
    }
}

/// An incremental assignment assigns what was assigned and what is listed, and a partition that
/// it adds has no position.
pub proof fn law_incremental_assign_adds(
    s: ConsumerView,
    strategy: AutoOffsetResetStrategy,
    list: Seq<ElemView>,
    key: PartitionKey,
)
    ensures
        has_key(s.incremental_assign(strategy, list).tpl, key) <==> has_key(s.tpl, key) || has_key(
            list,
            key,
        ),
        has_key(list, key) && !has_key(s.tpl, key) ==> s.incremental_assign(
            strategy,
            list,
        ).position_of(key) == Offset::Invalid,
{
    lemma_fresh_has_key(s.tpl, reset_all(strategy, list), key);
    lemma_reset_has_key(strategy, list, key);
}

proof fn lemma_fresh_contains_first(tpl: Seq<ElemView>, list: Seq<ElemView>, i: int)
    requires
        0 <= i < list.len(),
        !has_key(tpl, list[i].key()),
        forall|j: int| 0 <= j < i ==> #[trigger] list[j].key() != list[i].key(),
    ensures
        fresh(tpl, list).contains(list[i]),
    decreases list.len(),
{
    let front = list.drop_last();
    let e = list.last();
    if i == list.len() - 1 {
        if has_key(front, e.key()) {
            let j = choose|j: int| 0 <= j < front.len() && #[trigger] front[j].key() == e.key();
            assert(list[j].key() != list[i].key());
        }
        let found = fresh(tpl, front).push(e);
        assert(found[found.len() - 1] == e);
    } else {
        assert forall|j: int| 0 <= j < i implies #[trigger] front[j].key() != front[i].key() by {
            assert(list[j].key() != list[i].key());
        }
        lemma_fresh_contains_first(tpl, front, i);
        let at = choose|at: int|
            0 <= at < fresh(tpl, front).len() && fresh(tpl, front)[at] == list[i];
        assert(fresh(tpl, list)[at] == list[i]);
    }
}

proof fn lemma_push_distinct(list: Seq<ElemView>, e: ElemView)
    requires
        distinct(list),
        !has_key(list, e.key()),
    ensures
        distinct(list.push(e)),
{
    let all = list.push(e);
    assert forall|i: int, j: int| 0 <= i < j < all.len() implies #[trigger] all[i].key()
        != #[trigger] all[j].key() by {
        assert(list[i].key() == all[i].key());
        if j < list.len() {
            assert(list[j].key() == all[j].key());
        }
    }
}

proof fn lemma_fresh_distinct(tpl: Seq<ElemView>, list: Seq<ElemView>)
    requires
        distinct(tpl),
    ensures
        distinct(tpl + fresh(tpl, list)),
    decreases list.len(),
{
    if list.len() == 0 {
        assert(tpl + fresh(tpl, list) =~= tpl);
    } else {
        let front = list.drop_last();
        let e = list.last();
        lemma_fresh_distinct(tpl, front);
        lemma_fresh_has_key(tpl, front, e.key());
        assert(tpl + fresh(tpl, front).push(e) =~= (tpl + fresh(tpl, front)).push(e));
        if !has_key(tpl + fresh(tpl, front), e.key()) {
            lemma_push_distinct(tpl + fresh(tpl, front), e);
        }
    }
}

/// A partition that an incremental assignment adds is taken up at the offset of its first
/// listing, reset as the settings say.
pub proof fn law_incremental_assign_takes_first_listing(
    s: ConsumerView,
    strategy: AutoOffsetResetStrategy,
    list: Seq<ElemView>,
    i: int,
)
    requires
        0 <= i < list.len(),
        !has_key(s.tpl, list[i].key()),
        forall|j: int| 0 <= j < i ==> #[trigger] list[j].key() != list[i].key(),
    ensures
        s.incremental_assign(strategy, list).tpl.skip(s.tpl.len() as int).contains(
            list[i].at(strategy.reset(list[i].offset)),
        ),
{
    let reset = reset_all(strategy, list);
    assert forall|j: int| 0 <= j < i implies #[trigger] reset[j].key() != reset[i].key() by {
        assert(list[j].key() != list[i].key());
    }
    lemma_fresh_contains_first(s.tpl, reset, i);
    assert(s.incremental_assign(strategy, list).tpl.skip(s.tpl.len() as int) =~= fresh(
        s.tpl,
        reset,
    ));
}

proof fn lemma_fresh_of_assigned(tpl: Seq<ElemView>, list: Seq<ElemView>)
    requires
        forall|i: int| 0 <= i < list.len() ==> has_key(tpl, #[trigger] list[i].key()),
    ensures
        fresh(tpl, list).len() == 0,
    decreases list.len(),
{
    if list.len() > 0 {
        let front = list.drop_last();
        assert(has_key(tpl, list[list.len() - 1].key()));
        assert forall|i: int| 0 <= i < front.len() implies has_key(
            tpl,
            #[trigger] front[i].key(),
        ) by {
            assert(has_key(tpl, list[i].key()));
        }
        lemma_fresh_of_assigned(tpl, front);
    }
}

/// To assign partitions incrementally that are assigned changes nothing at all.
pub proof fn law_incremental_assign_of_assigned(
    s: ConsumerView,
    strategy: AutoOffsetResetStrategy,
    list: Seq<ElemView>,
)
    requires
        forall|i: int| 0 <= i < list.len() ==> has_key(s.tpl, #[trigger] list[i].key()),
    ensures
        s.incremental_assign(strategy, list) == s,
{
    let reset = reset_all(strategy, list);
    assert forall|i: int| 0 <= i < reset.len() implies has_key(
        s.tpl,
        #[trigger] reset[i].key(),
    ) by {
        assert(has_key(s.tpl, list[i].key()));
    }
    lemma_fresh_of_assigned(s.tpl, reset);
    let t = s.incremental_assign(strategy, list);
    assert(t.tpl =~= s.tpl);
    assert(t.positions =~= s.positions);
}

/// The same incremental assignment a second time changes nothing.
pub proof fn law_incremental_assign_twice(
    s: ConsumerView,
    strategy: AutoOffsetResetStrategy,
    list: Seq<ElemView>,
)
    ensures
        s.incremental_assign(strategy, list).incremental_assign(strategy, list)
            == s.incremental_assign(strategy, list),
{
    let t = s.incremental_assign(strategy, list);
    assert forall|i: int| 0 <= i < list.len() implies has_key(t.tpl, #[trigger] list[i].key()) by {
        assert(has_key(list, list[i].key()));
        law_incremental_assign_adds(s, strategy, list, list[i].key());
    }
    law_incremental_assign_of_assigned(t, strategy, list);
}

/// An incremental unassignment takes out what is listed and leaves what is not, and keeps what is
/// buffered.
pub proof fn law_incremental_unassign_removes(
    s: ConsumerView,
    list: Seq<ElemView>,
    key: PartitionKey,
)
    ensures
        has_key(s.incremental_unassign(list).tpl, key) <==> has_key(s.tpl, key) && !has_key(
            list,
            key,
        ),
        !has_key(list, key) ==> s.incremental_unassign(list).position_of(key) == s.position_of(key),
        s.incremental_unassign(list).buffer == s.buffer,
{
    lemma_without_has_key(s.tpl, list, key);
}

proof fn lemma_without_absent(list: Seq<ElemView>, removed: Seq<ElemView>)
    requires
        forall|i: int| 0 <= i < list.len() ==> !has_key(removed, #[trigger] list[i].key()),
    ensures
        without(list, removed) == list,
    decreases list.len(),
{
    reveal(Seq::filter);
    if list.len() > 0 {
        let front = list.drop_last();
        let e = list.last();
        assert(!has_key(removed, list[list.len() - 1].key()));
        assert forall|i: int| 0 <= i < front.len() implies !has_key(
            removed,
            #[trigger] front[i].key(),
        ) by {
            assert(!has_key(removed, list[i].key()));
        }
        lemma_without_absent(front, removed);
        lemma_without_push(front, e, removed);
        assert(front.push(e) =~= list);
    } else {
        assert(without(list, removed) =~= list);
    }
}

/// Partitions that are not assigned are ignored by an incremental unassignment: the assignment,
/// the positions that are reported and the buffer stay as they are. Where nothing is known of
/// those partitions either, nothing changes at all.
pub proof fn law_incremental_unassign_ignores_unassigned(s: ConsumerView, list: Seq<ElemView>)
    requires
        forall|i: int| 0 <= i < s.tpl.len() ==> !has_key(list, #[trigger] s.tpl[i].key()),
    ensures
        s.incremental_unassign(list).tpl == s.tpl,
        s.incremental_unassign(list).position() == s.position(),
        s.incremental_unassign(list).buffer == s.buffer,
        (forall|key: PartitionKey| has_key(list, key) ==> !s.positions.contains_key(key))
            ==> s.incremental_unassign(list) == s,
{
    lemma_without_absent(s.tpl, list);
    let t = s.incremental_unassign(list);
    assert forall|i: int| 0 <= i < s.tpl.len() implies t.position_of(#[trigger] s.tpl[i].key())
        == s.position_of(s.tpl[i].key()) by {
        assert(!has_key(list, s.tpl[i].key()));
    }
    assert(t.position() =~= s.position());
    if forall|key: PartitionKey| has_key(list, key) ==> !s.positions.contains_key(key) {
        assert(t.positions =~= s.positions);
    }
}

/// The same incremental unassignment a second time changes nothing.
pub proof fn law_incremental_unassign_twice(s: ConsumerView, list: Seq<ElemView>)
    ensures
        s.incremental_unassign(list).incremental_unassign(list) == s.incremental_unassign(list),
{
    let t = s.incremental_unassign(list);
    if s.tpl.len() > 0 {
        assert forall|i: int| 0 <= i < t.tpl.len() implies !has_key(
            list,
            #[trigger] t.tpl[i].key(),
        ) by {
            assert(has_key(t.tpl, t.tpl[i].key()));
            lemma_without_has_key(s.tpl, list, t.tpl[i].key());
        }
        lemma_without_absent(t.tpl, list);
        assert(t.positions.remove_keys(keys(list)) =~= t.positions);
    }
}

proof fn lemma_without_concat_removed(
    list: Seq<ElemView>,
    more: Seq<ElemView>,
    removed: Seq<ElemView>,
)
    requires
        forall|i: int| 0 <= i < more.len() ==> has_key(removed, #[trigger] more[i].key()),
    ensures
        without(list + more, removed) == without(list, removed),
    decreases more.len(),
{
    if more.len() == 0 {
        assert(list + more =~= list);
    } else {
        let front = more.drop_last();
        let e = more.last();
        assert(has_key(removed, more[more.len() - 1].key()));
        assert forall|i: int| 0 <= i < front.len() implies has_key(
            removed,
            #[trigger] front[i].key(),
        ) by {
            assert(has_key(removed, more[i].key()));
        }
        lemma_without_concat_removed(list, front, removed);
        lemma_without_push(list + front, e, removed);
        assert((list + front).push(e) =~= list + more);
    }
}

/// An incremental unassignment undoes an incremental assignment of partitions that were neither
/// assigned nor known.
pub proof fn law_incremental_unassign_undoes_assign(
    s: ConsumerView,
    strategy: AutoOffsetResetStrategy,
    list: Seq<ElemView>,
)
    requires
        forall|i: int|
            0 <= i < list.len() ==> !has_key(s.tpl, #[trigger] list[i].key())
                && !s.positions.contains_key(list[i].key()),
    ensures
        s.incremental_assign(strategy, list).incremental_unassign(list) == s,
{
    let reset = reset_all(strategy, list);
    let new = fresh(s.tpl, reset);
    let t = s.incremental_assign(strategy, list);
    let u = t.incremental_unassign(list);
    assert forall|key: PartitionKey| has_key(list, key) implies !has_key(s.tpl, key)
        && !s.positions.contains_key(key) by {
        let i = choose|i: int| 0 <= i < list.len() && #[trigger] list[i].key() == key;
        assert(!has_key(s.tpl, list[i].key()));
    }
    assert forall|i: int| 0 <= i < new.len() implies has_key(list, #[trigger] new[i].key()) by {
        assert(has_key(new, new[i].key()));
        lemma_fresh_has_key(s.tpl, reset, new[i].key());
        lemma_reset_has_key(strategy, list, new[i].key());
    }
    assert forall|i: int| 0 <= i < s.tpl.len() implies !has_key(
        list,
        #[trigger] s.tpl[i].key(),
    ) by {
        assert(has_key(s.tpl, s.tpl[i].key()));
    }
    lemma_without_concat_removed(s.tpl, new, list);
    lemma_without_absent(s.tpl, list);
    if t.tpl.len() > 0 {
        assert forall|key: PartitionKey| has_key(new, key) implies has_key(list, key) by {
            lemma_fresh_has_key(s.tpl, reset, key);
            lemma_reset_has_key(strategy, list, key);
        }
        assert(u.positions =~= s.positions);
    } else {
        assert(s.tpl =~= t.tpl);
        assert(new.len() == 0);
        assert(u.positions =~= s.positions);
    }
}

proof fn lemma_refused_from(tpl: Seq<ElemView>, requested: Seq<ElemView>, from: int)
    requires
        0 <= from <= requested.len(),
    ensures
        refused_from(tpl, requested, from) is None <==> forall|i: int|
            from <= i < requested.len() ==> refusal(tpl, #[trigger] requested[i]) is None,
    decreases requested.len() - from,
{
    if from < requested.len() {
        lemma_refused_from(tpl, requested, from + 1);
        if refusal(tpl, requested[from]) is None && refused_from(tpl, requested, from + 1) is None {
            assert forall|i: int| from <= i < requested.len() implies refusal(
                tpl,
                #[trigger] requested[i],
            ) is None by {
                if i > from {
                    assert(refusal(tpl, requested[i]) is None);
                }
            }
        }
    }
}

/// A seek is accepted if and only if every place in the list is: each has an offset that is
/// neither missing, stored nor counted from the end, and a partition that is assigned.
pub proof fn law_seek_accepts_all_or_nothing(tpl: Seq<ElemView>, requested: Seq<ElemView>)
    ensures
        refused(tpl, requested) is None <==> forall|i: int|
            0 <= i < requested.len() ==> {
                let e = #[trigger] requested[i];
                &&& e.offset is Beginning || e.offset is End || e.offset is Offset
                &&& has_key(tpl, e.key())
            },
{
    lemma_refused_from(tpl, requested, 0);
    if refused(tpl, requested) is None {
        assert forall|i: int| 0 <= i < requested.len() implies {
            let e = #[trigger] requested[i];
            &&& e.offset is Beginning || e.offset is End || e.offset is Offset
            &&& has_key(tpl, e.key())
        } by {
            assert(refusal(tpl, requested[i]) is None);
        }
    }
    if forall|i: int|
        0 <= i < requested.len() ==> {
            let e = #[trigger] requested[i];
            &&& e.offset is Beginning || e.offset is End || e.offset is Offset
            &&& has_key(tpl, e.key())
        } {
        assert forall|i: int| 0 <= i < requested.len() implies refusal(
            tpl,
            #[trigger] requested[i],
        ) is None by {}
    }
}

/// A refused seek says what is wrong with the first place that is refused.
pub proof fn law_seek_reports_the_first_refusal(
    tpl: Seq<ElemView>,
    requested: Seq<ElemView>,
    first: int,
)
    requires
        0 <= first < requested.len(),
        refusal(tpl, requested[first]) is Some,
        forall|i: int| 0 <= i < first ==> refusal(tpl, #[trigger] requested[i]) is None,
    ensures
        refused(tpl, requested) == Some(
            refusal(tpl, requested[first])->0.spec_text(
                requested[first].topic,
                requested[first].partition,
            ),
        ),
{
    lemma_refused_first(tpl, requested, 0, first);
}

proof fn lemma_refused_first(
    tpl: Seq<ElemView>,
    requested: Seq<ElemView>,
    from: int,
    first: int,
)
    requires
        0 <= from <= first < requested.len(),
        refusal(tpl, requested[first]) is Some,
        forall|i: int| from <= i < first ==> refusal(tpl, #[trigger] requested[i]) is None,
    ensures
        refused_from(tpl, requested, from) == Some(
            refusal(tpl, requested[first])->0.spec_text(
                requested[first].topic,
                requested[first].partition,
            ),
        ),
    decreases first - from,
{
    if from < first {
        assert(refusal(tpl, requested[from]) is None);
        lemma_refused_first(tpl, requested, from + 1, first);
    }
}

/// A seek changes neither which partitions are assigned nor their order, and only the offsets of
/// requested partitions.
pub proof fn law_seek_keeps_the_assignment(s: ConsumerView, requested: Seq<ElemView>)
    ensures
        s.seek(requested).tpl.len() == s.tpl.len(),
        forall|i: int|
            0 <= i < s.tpl.len() ==> {
                let e = #[trigger] s.seek(requested).tpl[i];
                &&& e.key() == s.tpl[i].key()
                &&& !has_key(requested, e.key()) ==> e == s.tpl[i]
            },
{
}

/// After a seek the next fetch is at the requested offsets: nothing is buffered, and a requested
/// partition is at the offset that was last requested for it.
pub proof fn law_seek_moves_the_next_fetch(
    s: ConsumerView,
    requested: Seq<ElemView>,
    key: PartitionKey,
)
    requires
        refused(s.tpl, requested) is None,
        has_key(requested, key),
    ensures
        s.seek(requested).buffer.len() == 0,
        0 <= last_index(s.tpl, key) < s.tpl.len(),
        0 <= last_index(requested, key) < requested.len(),
        s.seek(requested).tpl[last_index(s.tpl, key)] == requested[last_index(requested, key)],
{
    let i = choose|i: int| 0 <= i < requested.len() && #[trigger] requested[i].key() == key;
    law_seek_accepts_all_or_nothing(s.tpl, requested);
    assert(has_key(s.tpl, requested[i].key()));
    lemma_last_index(s.tpl, key);
    lemma_last_index(requested, key);
}

/// A seek resets the position of every requested partition until a message of it is consumed,
/// and leaves all other positions.
pub proof fn law_seek_resets_positions(
    s: ConsumerView,
    requested: Seq<ElemView>,
    key: PartitionKey,
)
    ensures
        s.seek(requested).position_of(key) == if has_key(requested, key) {
            Offset::Invalid
        } else {
            s.position_of(key)
        },
{
}

/// A message that is consumed moves the position of its partition behind it. No other position
/// moves, nor does the assignment.
pub proof fn law_consume_moves_one_position(s: ConsumerView, key: PartitionKey)
    requires
        s.buffer.len() > 0,
    ensures
        s.consume().tpl == s.tpl,
        s.consume().position_of(key) == if key == s.buffer[0].source() {
            Offset::Offset((s.buffer[0].offset + 1) as i64)
        } else {
            s.position_of(key)
        },
{
}

/// Messages that are fetched move no position: only those that are consumed do.
pub proof fn law_receive_moves_no_position(
    s: ConsumerView,
    msgs: Seq<OwnedMessage>,
    tpl: Seq<ElemView>,
    key: PartitionKey,
)
    ensures
        s.receive(msgs, tpl).position_of(key) == s.position_of(key),
{
}

/// The state after so many messages were consumed.
pub open spec fn consume_many(s: ConsumerView, count: nat) -> ConsumerView
    decreases count,
{
    if count == 0 {
        s
    } else {
        consume_many(s, (count - 1) as nat).consume()
    }
}

/// Buffered messages are handed out one by one, in their order, each once.
pub proof fn law_messages_come_in_order(s: ConsumerView, count: nat)
    requires
        count <= s.buffer.len(),
    ensures
        consume_many(s, count).buffer == s.buffer.skip(count as int),
        consume_many(s, count).head() == if count < s.buffer.len() {
            Some(s.buffer[count as int])
        } else {
            None
        },
    decreases count,
{
    if count > 0 {
        law_messages_come_in_order(s, (count - 1) as nat);
        assert(s.buffer.skip(count - 1).drop_first() =~= s.buffer.skip(count as int));
    } else {
        assert(s.buffer.skip(0) =~= s.buffer);
    }
}

proof fn lemma_without_distinct(list: Seq<ElemView>, removed: Seq<ElemView>)
    requires
        distinct(list),
    ensures
        distinct(without(list, removed)),
    decreases list.len(),
{
    reveal(Seq::filter);
    if list.len() > 0 {
        let front = list.drop_last();
        let e = list.last();
        assert(front.push(e) =~= list);
        assert forall|i: int, j: int| 0 <= i < j < front.len() implies #[trigger] front[i].key()
            != #[trigger] front[j].key() by {
            assert(list[i].key() != list[j].key());
        }
        if has_key(front, e.key()) {
            let i = choose|i: int| 0 <= i < front.len() && #[trigger] front[i].key() == e.key();
            assert(list[i].key() != list[list.len() - 1].key());
        }
        lemma_without_distinct(front, removed);
        lemma_without_push(front, e, removed);
        lemma_without_has_key(front, removed, e.key());
        if !has_key(removed, e.key()) {
            lemma_push_distinct(without(front, removed), e);
        }
    }
}

/// Where no partition is assigned twice, no operation on the assignment makes it so: neither an
/// incremental assignment, nor an incremental unassignment, nor a seek, nor consuming a message;
/// nor does an assignment of a list without repetition.
pub proof fn law_no_partition_is_assigned_twice(
    s: ConsumerView,
    strategy: AutoOffsetResetStrategy,
    list: Seq<ElemView>,
)
    requires
        distinct(s.tpl),
    ensures
        distinct(list) ==> distinct(s.assign(strategy, list).tpl),
        distinct(s.incremental_assign(strategy, list).tpl),
        distinct(s.incremental_unassign(list).tpl),
        distinct(s.seek(list).tpl),
        distinct(s.consume().tpl),
{
    let reset = reset_all(strategy, list);
    assert forall|i: int, j: int|
        distinct(list) && 0 <= i < j < reset.len() implies #[trigger] reset[i].key()
        != #[trigger] reset[j].key() by {
        assert(list[i].key() != list[j].key());
    }
    lemma_fresh_distinct(s.tpl, reset);
    lemma_without_distinct(s.tpl, list);
    let moved = s.seek(list).tpl;
    assert forall|i: int, j: int| 0 <= i < j < moved.len() implies #[trigger] moved[i].key()
        != #[trigger] moved[j].key() by {
        assert(s.tpl[i].key() != s.tpl[j].key());
    }
}

/// Something that happens to a consumer.
pub enum Step {
    Assign(Seq<ElemView>),
    IncrementalAssign(Seq<ElemView>),
    IncrementalUnassign(Seq<ElemView>),
    Seek(Seq<ElemView>),
    Receive(Seq<OwnedMessage>, Seq<ElemView>),
    Consume,
}

/// The state after a step. A refused seek changes nothing.
pub open spec fn after(
    s: ConsumerView,
    strategy: AutoOffsetResetStrategy,
    step: Step,
) -> ConsumerView {
    match step {
        Step::Assign(list) => s.assign(strategy, list),
        Step::IncrementalAssign(list) => s.incremental_assign(strategy, list),
        Step::IncrementalUnassign(list) => s.incremental_unassign(list),
        Step::Seek(list) => if refused(s.tpl, list) is None {
            s.seek(list)
        } else {
            s
        },
        Step::Receive(msgs, tpl) => s.receive(msgs, tpl),
        Step::Consume => s.consume(),
    }
}

/// The state of a new consumer after all that happened to it.
pub open spec fn run(strategy: AutoOffsetResetStrategy, steps: Seq<Step>) -> ConsumerView
    decreases steps.len(),
{
    if steps.len() == 0 {
        ConsumerView::init()
    } else {
        after(run(strategy, steps.drop_last()), strategy, steps.last())
    }
}

/// Whether a step starts a partition anew: it replaces the assignment, adds the partition to it,
/// takes it out, or seeks in it.
pub open spec fn starts_anew(s: ConsumerView, step: Step, key: PartitionKey) -> bool {
    match step {
        Step::Assign(_) => true,
        Step::IncrementalAssign(list) => has_key(list, key) && !has_key(s.tpl, key),
        Step::IncrementalUnassign(list) => has_key(list, key) && s.tpl.len() > 0,
        Step::Seek(list) => has_key(list, key) && refused(s.tpl, list) is None,
        Step::Receive(_, _) => false,
        Step::Consume => false,
    }
}

/// The offset of the last message of a partition that was consumed since it was started anew.
pub open spec fn last_consumed(
    strategy: AutoOffsetResetStrategy,
    steps: Seq<Step>,
    key: PartitionKey,
) -> Option<i64>
    decreases steps.len(),
{
    if steps.len() == 0 {
        None
    } else {
        let s = run(strategy, steps.drop_last());
        if starts_anew(s, steps.last(), key) {
            None
        } else if steps.last() is Consume && s.buffer.len() > 0 && s.buffer[0].source() == key {
            Some(s.buffer[0].offset)
        } else {
            last_consumed(strategy, steps.drop_last(), key)
        }
    }
}

/// Whatever happened to a consumer, the position of a partition is the offset behind the last
/// message of it that was consumed, or invalid if none was consumed since it was assigned or
/// sought in.
pub proof fn law_position_is_behind_the_last_consumed(
    strategy: AutoOffsetResetStrategy,
    steps: Seq<Step>,
    key: PartitionKey,
)
    ensures
        run(strategy, steps).position_of(key) == match last_consumed(strategy, steps, key) {
            Some(offset) => Offset::Offset((offset + 1) as i64),
            None => Offset::Invalid,
        },
    decreases steps.len(),
{
    if steps.len() > 0 {
        let front = steps.drop_last();
        let s = run(strategy, front);
        law_position_is_behind_the_last_consumed(strategy, front, key);
        match steps.last() {
            Step::IncrementalAssign(list) => {
                lemma_fresh_has_key(s.tpl, reset_all(strategy, list), key);
                lemma_reset_has_key(strategy, list, key);
            },
            _ => {},
        }
    }
}

} // verus!
