//! The position of each partition that a consumer has touched.

use crate::topic_partition_list::{
    elems, find_last, has_key, last_index, lemma_last_index, lemma_last_index_is,
    lemma_push_has_key, lemma_without_has_key, lemma_without_push, retain_without, without, Elem,
    ElemView, Offset, PartitionKey,
};
use vstd::prelude::*;

verus! {

/// The partitions that a list speaks of.
pub open spec fn keys(list: Seq<ElemView>) -> Set<PartitionKey> {
    Set::new(|key: PartitionKey| has_key(list, key))
}

/// No position for any partition of a list: each is known, and invalid.
pub open spec fn invalid_positions(list: Seq<ElemView>) -> Map<PartitionKey, Offset> {
    Map::new(|key: PartitionKey| has_key(list, key), |key: PartitionKey| Offset::Invalid)
}

/// No partition occurs twice.
pub open spec fn distinct(list: Seq<ElemView>) -> bool {
    forall|i: int, j: int|
        0 <= i < j < list.len() ==> #[trigger] list[i].key() != #[trigger] list[j].key()
}

/// The offset that a list gives for each of its partitions.
pub open spec fn as_map(list: Seq<ElemView>) -> Map<PartitionKey, Offset> {
    Map::new(
        |key: PartitionKey| has_key(list, key),
        |key: PartitionKey| list[last_index(list, key)].offset,
    )
}

/// A map from partitions to offsets.
#[derive(Debug)]
pub struct Positions {
    entries: Vec<Elem>,
}

impl View for Positions {
    type V = Map<PartitionKey, Offset>;

    closed spec fn view(&self) -> Map<PartitionKey, Offset> {
        as_map(elems(self.entries@))
    }
}

proof fn lemma_push(list: Seq<ElemView>, e: ElemView)
    requires
        !has_key(list, e.key()),
    ensures
        as_map(list.push(e)) == as_map(list).insert(e.key(), e.offset),
        distinct(list) ==> distinct(list.push(e)),
{
    let all = list.push(e);
    assert(all.drop_last() =~= list);
    assert forall|key: PartitionKey| has_key(all, key) <==> has_key(list, key) || key == e.key() by {
        lemma_last_index(all, key);
        lemma_last_index(list, key);
    }
    assert forall|key: PartitionKey| has_key(all, key) implies as_map(all)[key] == as_map(
        list,
    ).insert(e.key(), e.offset)[key] by {
        lemma_last_index(list, key);
    }
    assert(as_map(all) =~= as_map(list).insert(e.key(), e.offset));
    assert forall|i: int, j: int|
        distinct(list) && 0 <= i < j < all.len() implies #[trigger] all[i].key()
        != #[trigger] all[j].key() by {
        assert(list[i].key() == all[i].key());
        if j < list.len() {
            assert(list[j].key() == all[j].key());
        }
    }
}

proof fn lemma_update(list: Seq<ElemView>, at: int, offset: Offset)
    requires
        0 <= at < list.len(),
        distinct(list),
    ensures
        as_map(list.update(at, list[at].at(offset))) == as_map(list).insert(list[at].key(), offset),
        distinct(list.update(at, list[at].at(offset))),
{
    let all = list.update(at, list[at].at(offset));
    assert(forall|i: int| 0 <= i < all.len() ==> all[i].key() == #[trigger] list[i].key());
    assert(forall|i: int| 0 <= i < all.len() ==> #[trigger] all[i].key() == list[i].key());
    assert(distinct(all));
    assert forall|key: PartitionKey| has_key(all, key) <==> has_key(list, key) by {
        if has_key(all, key) {
            let i = choose|i: int| 0 <= i < all.len() && #[trigger] all[i].key() == key;
            assert(list[i].key() == key);
        }
        if has_key(list, key) {
            let i = choose|i: int| 0 <= i < list.len() && #[trigger] list[i].key() == key;
            assert(all[i].key() == key);
        }
    }
    assert(list[at].key() == all[at].key());
    assert(has_key(list, list[at].key()));
    assert forall|key: PartitionKey| has_key(all, key) implies as_map(all)[key] == as_map(
        list,
    ).insert(list[at].key(), offset)[key] by {
        lemma_last_index(list, key);
        lemma_last_index_is(all, key, last_index(list, key));
    }
    assert(as_map(all) =~= as_map(list).insert(list[at].key(), offset));
}

proof fn lemma_without(list: Seq<ElemView>, removed: Seq<ElemView>)
    requires
        distinct(list),
    ensures
        as_map(without(list, removed)) == as_map(list).remove_keys(keys(removed)),
        distinct(without(list, removed)),
    decreases list.len(),
{
    reveal(Seq::filter);
    if list.len() == 0 {
        assert(as_map(without(list, removed)) =~= as_map(list).remove_keys(keys(removed)));
    } else {
        let front = list.drop_last();
        let e = list.last();
        assert(front.push(e) =~= list);
        assert forall|i: int, j: int| 0 <= i < j < front.len() implies #[trigger] front[i].key()
            != #[trigger] front[j].key() by {
            assert(list[i].key() != list[j].key());
        }
        if has_key(front, e.key()) {
            let i = choose|i: int| 0 <= i < front.len() && #[trigger] front[i].key() == e.key();
            assert(list[i].key() != list[list.len() - 1].key());
        }
        lemma_without(front, removed);
        lemma_without_push(front, e, removed);
        lemma_without_has_key(front, removed, e.key());
        lemma_push(front, e);
        if !has_key(removed, e.key()) {
            lemma_push(without(front, removed), e);
        }
        assert(as_map(without(list, removed)) =~= as_map(list).remove_keys(keys(removed)));
    }
}

/// One more partition in a list is one more invalid position.
pub proof fn lemma_invalid_positions_push(list: Seq<ElemView>, e: ElemView)
    ensures
        invalid_positions(list.push(e)) == invalid_positions(list).insert(e.key(), Offset::Invalid),
{
    let all = invalid_positions(list.push(e));
    let one_more = invalid_positions(list).insert(e.key(), Offset::Invalid);
    assert forall|key: PartitionKey| #[trigger]
        all.dom().contains(key) <==> one_more.dom().contains(key) by {
        lemma_push_has_key(list, e, key);
    }
    assert(all =~= one_more);
}

impl Positions {
    #[verifier::type_invariant]
    closed spec fn nothing_twice(self) -> bool {
        distinct(elems(self.entries@))
    }

    /// No partition has a position.
    pub fn new() -> (positions: Self)
        ensures
            positions@ == Map::<PartitionKey, Offset>::empty(),
    {
        let entries: Vec<Elem> = Vec::new();
        proof {
            assert(as_map(elems(entries@)) =~= Map::<PartitionKey, Offset>::empty());
        }
        Positions { entries }
    }

    /// The position of a partition.
    pub fn get(&self, topic: &String, partition: i32) -> (offset: Option<Offset>)
        ensures
            offset == self@.get((topic@, partition)),
    {
        match find_last(&self.entries, topic, partition) {
            Some(i) => {
                proof {
                    lemma_last_index(elems(self.entries@), (topic@, partition));
                }
                Some(self.entries[i].offset)
            },
            None => None,
        }
    }

    /// Sets the position of a partition.
    pub fn insert(&mut self, topic: String, partition: i32, offset: Offset)
        ensures
            final(self)@ == old(self)@.insert((topic@, partition), offset),
    {
        proof {
            use_type_invariant(&*self);
        }
        let mut entries: Vec<Elem> = Vec::new();
        std::mem::swap(&mut entries, &mut self.entries);
        let ghost before = elems(entries@);
        match find_last(&entries, &topic, partition) {
            Some(i) => {
                proof {
                    lemma_last_index(before, (topic@, partition));
                    lemma_update(before, i as int, offset);
                }
                entries.set(i, Elem { topic, partition, offset });
                assert(elems(entries@) =~= before.update(i as int, before[i as int].at(offset)));
            },
            None => {
                let e: Elem = Elem { topic, partition, offset };
                proof {
                    lemma_push(before, e@);
                }
                entries.push(e);
                assert(elems(entries@) =~= before.push(e@));
            },
        }
        self.entries = entries;
    }

    /// Every partition of the list, and no other, has the invalid position.
    pub fn invalid_for(list: &Vec<Elem>) -> (positions: Self)
        ensures
            positions@ == invalid_positions(elems(list@)),
    {
        let mut positions: Positions = Positions::new();
        let mut i: usize = 0;
        assert(invalid_positions(elems(list@.take(0))) =~= Map::<PartitionKey, Offset>::empty());
        while i < list.len()
            invariant
                i <= list@.len(),
                positions@ == invalid_positions(elems(list@.take(i as int))),
            decreases list@.len() - i,
        {
            proof {
                let e = list@[i as int]@;
                lemma_invalid_positions_push(elems(list@.take(i as int)), e);
                assert(elems(list@.take(i + 1)) =~= elems(list@.take(i as int)).push(e));
            }
            positions.insert(list[i].topic.clone(), list[i].partition, Offset::Invalid);
            i = i + 1;
        }
        assert(list@.take(i as int) =~= list@);
        positions
    }

    /// Forgets the positions of the partitions of the list.
    pub fn remove_all(&mut self, list: &Vec<Elem>)
        ensures
            final(self)@ == old(self)@.remove_keys(keys(elems(list@))),
    {
        proof {
            use_type_invariant(&*self);
            lemma_without(elems(self.entries@), elems(list@));
        }
        let kept: Vec<Elem> = retain_without(&self.entries, list);
        self.entries = kept;
    }
}

} // verus!
