//! Lists of topic partitions with an offset each, and how partitions are looked up in them.

use crate::error::KafkaResult;
use vstd::prelude::*;

verus! {

/// A place in a partition.
#[derive(Clone, Copy, Debug, PartialEq, Eq, Structural)]
pub enum Offset {
    /// The start of the partition.
    Beginning,
    /// The end of the partition.
    End,
    /// The offset kept by the offset store.
    Stored,
    /// No offset at all.
    Invalid,
    /// A given offset.
    Offset(i64),
    /// An offset counted back from the end.
    OffsetTail(i64),
}

/// What tells two partitions apart: the topic and the partition's number in it.
pub type PartitionKey = (Seq<char>, i32);

/// The mathematical value of an [`Elem`].
pub struct ElemView {
    pub topic: Seq<char>,
    pub partition: i32,
    pub offset: Offset,
}

impl ElemView {
    /// The partition that the element speaks of.
    pub open spec fn key(self) -> PartitionKey {
        (self.topic, self.partition)
    }

    /// The same partition at another offset.
    pub open spec fn at(self, offset: Offset) -> ElemView {
        ElemView { offset, ..self }
    }
}

/// One partition and an offset in it.
#[derive(Debug, PartialEq, Eq)]
pub struct Elem {
    pub topic: String,
    pub partition: i32,
    pub offset: Offset,
}

impl View for Elem {
    type V = ElemView;

    open spec fn view(&self) -> ElemView {
        ElemView { topic: self.topic@, partition: self.partition, offset: self.offset }
    }
}

impl Clone for Elem {
    fn clone(&self) -> (copy: Self)
        ensures
            copy == *self,
    {
        Elem { topic: self.topic.clone(), partition: self.partition, offset: self.offset }
    }
}

/// The values of a sequence of elements.
pub open spec fn elems(list: Seq<Elem>) -> Seq<ElemView> {
    Seq::new(list.len(), |i: int| list[i]@)
}

/// Whether some element of the list speaks of the partition.
pub open spec fn has_key(list: Seq<ElemView>, key: PartitionKey) -> bool {
    exists|i: int| 0 <= i < list.len() && #[trigger] list[i].key() == key
}

/// The index of the last element that speaks of the partition, or -1 where there is none.
pub open spec fn last_index(list: Seq<ElemView>, key: PartitionKey) -> int
    decreases list.len(),
{
    if list.len() == 0 {
        -1
    } else if list.last().key() == key {
        list.len() - 1
    } else {
        last_index(list.drop_last(), key)
    }
}

/// What [`last_index`] finds is the last element with the key, and it finds one if there is one.
pub proof fn lemma_last_index(list: Seq<ElemView>, key: PartitionKey)
    ensures
        -1 <= last_index(list, key) < list.len(),
        has_key(list, key) <==> last_index(list, key) >= 0,
        last_index(list, key) >= 0 ==> list[last_index(list, key)].key() == key,
        forall|i: int|
            last_index(list, key) < i < list.len() ==> #[trigger] list[i].key() != key,
    decreases list.len(),
{
    if list.len() > 0 {
        let front = list.drop_last();
        lemma_last_index(front, key);
        assert(forall|i: int| 0 <= i < front.len() ==> front[i] == list[i]);
        if list.last().key() == key {
            assert(list[list.len() - 1].key() == key);
        } else {
            if has_key(front, key) {
                let i = choose|i: int| 0 <= i < front.len() && #[trigger] front[i].key() == key;
                assert(list[i].key() == key);
            }
            if has_key(list, key) {
                let i = choose|i: int| 0 <= i < list.len() && #[trigger] list[i].key() == key;
                assert(front[i].key() == key);
            }
            assert forall|i: int| last_index(list, key) < i < list.len() implies
                #[trigger] list[i].key() != key by {
                if i < front.len() {
                    assert(front[i].key() != key);
                }
            }
        }
    }
}

/// An index with the key behind which the key does not occur is the one that is found.
pub proof fn lemma_last_index_is(list: Seq<ElemView>, key: PartitionKey, at: int)
    requires
        0 <= at < list.len(),
        list[at].key() == key,
        forall|i: int| at < i < list.len() ==> #[trigger] list[i].key() != key,
    ensures
        last_index(list, key) == at,
{
    lemma_last_index(list, key);
    assert(has_key(list, key));
}

/// The index of the last element that speaks of the given partition.
pub(crate) fn find_last(list: &Vec<Elem>, topic: &String, partition: i32) -> (found: Option<usize>)
    ensures
        match found {
            Some(i) => i < list@.len() && i == last_index(elems(list@), (topic@, partition)),
            None => !has_key(elems(list@), (topic@, partition)),
        },
{
    let ghost all = elems(list@);
    let ghost key = (topic@, partition);
    let mut i: usize = list.len();
    while i > 0
        invariant
            i <= list@.len(),
            all == elems(list@),
            key == (topic@, partition),
            forall|j: int| i <= j < all.len() ==> #[trigger] all[j].key() != key,
        decreases i,
    {
        i = i - 1;
        assert(all[i as int] == list@[i as int]@);
        if list[i].partition == partition && list[i].topic == *topic {
            proof {
                lemma_last_index_is(all, key, i as int);
            }
            return Some(i);
        }
    }
    None
}

/// The elements of a list that do not speak of a partition of `removed`, in their order.
pub open spec fn without(list: Seq<ElemView>, removed: Seq<ElemView>) -> Seq<ElemView> {
    list.filter(|e: ElemView| !has_key(removed, e.key()))
}

/// [`without`] decides on the last element alone, and then on those before it.
pub proof fn lemma_without_push(list: Seq<ElemView>, e: ElemView, removed: Seq<ElemView>)
    ensures
        without(list.push(e), removed) == if has_key(removed, e.key()) {
            without(list, removed)
        } else {
            without(list, removed).push(e)
        },
{
    reveal(Seq::filter);
    assert(list.push(e).drop_last() =~= list);
}

/// A partition is left in [`without`] if and only if it was there and is not removed.
pub proof fn lemma_without_has_key(
    list: Seq<ElemView>,
    removed: Seq<ElemView>,
    key: PartitionKey,
)
    ensures
        has_key(without(list, removed), key) <==> has_key(list, key) && !has_key(removed, key),
    decreases list.len(),
{
    reveal(Seq::filter);
    if list.len() > 0 {
        let front = list.drop_last();
        let e = list.last();
        lemma_without_has_key(front, removed, key);
        lemma_without_push(front, e, removed);
        assert(front.push(e) =~= list);
        lemma_push_has_key(front, e, key);
        lemma_push_has_key(without(front, removed), e, key);
    }
}

/// Appending an element adds its partition and no other.
pub proof fn lemma_push_has_key(list: Seq<ElemView>, e: ElemView, key: PartitionKey)
    ensures
        has_key(list.push(e), key) <==> has_key(list, key) || key == e.key(),
{
    lemma_last_index(list, key);
    lemma_last_index(list.push(e), key);
    assert(list.push(e).drop_last() =~= list);
}

/// Takes the elements out of a list that speak of a partition of `removed`.
pub(crate) fn retain_without(list: &Vec<Elem>, removed: &Vec<Elem>) -> (kept: Vec<Elem>)
    ensures
        elems(kept@) == without(elems(list@), elems(removed@)),
{
    let mut kept: Vec<Elem> = Vec::new();
    let mut i: usize = 0;
    assert(elems(list@.take(0)) =~= Seq::<ElemView>::empty());
    proof {
        reveal(Seq::filter);
    }
    while i < list.len()
        invariant
            i <= list@.len(),
            elems(kept@) == without(elems(list@.take(i as int)), elems(removed@)),
        decreases list@.len() - i,
    {
        let ghost before = elems(list@.take(i as int));
        let ghost e = list@[i as int]@;
        let ghost kept_before = elems(kept@);
        proof {
            lemma_without_push(before, e, elems(removed@));
            assert(elems(list@.take(i + 1)) =~= before.push(e));
        }
        if find_last(removed, &list[i].topic, list[i].partition).is_none() {
            kept.push(list[i].clone());
            assert(elems(kept@) =~= kept_before.push(e));
        } else {
            proof {
                lemma_last_index(elems(removed@), e.key());
            }
        }
        i = i + 1;
    }
    assert(list@.take(i as int) =~= list@);
    kept
}

/// A list of topic partitions, in the order in which they were added.
#[derive(Debug, PartialEq, Eq)]
pub struct TopicPartitionList {
    pub list: Vec<Elem>,
}

impl View for TopicPartitionList {
    type V = Seq<ElemView>;

    open spec fn view(&self) -> Seq<ElemView> {
        elems(self.list@)
    }
}

impl Clone for TopicPartitionList {
    fn clone(&self) -> (copy: Self)
        ensures
            copy@ == self@,
    {
        let mut list: Vec<Elem> = Vec::with_capacity(self.list.len());
        let mut i: usize = 0;
        while i < self.list.len()
            invariant
                i <= self.list@.len(),
                list@ == self.list@.take(i as int),
            decreases self.list@.len() - i,
        {
            list.push(self.list[i].clone());
            i = i + 1;
        }
        TopicPartitionList { list }
    }
}

impl TopicPartitionList {
    /// An empty list.
    pub fn new() -> (tpl: Self)
        ensures
            tpl@ == Seq::<ElemView>::empty(),
    {
        TopicPartitionList { list: Vec::new() }
    }

    /// An empty list with room for the given number of elements.
    pub fn with_capacity(capacity: usize) -> (tpl: Self)
        ensures
            tpl@ == Seq::<ElemView>::empty(),
    {
        TopicPartitionList { list: Vec::with_capacity(capacity) }
    }

    /// How many elements the list has.
    pub fn count(&self) -> (count: usize)
        ensures
            count == self@.len(),
    {
        self.list.len()
    }

    /// Appends a partition without an offset.
    pub fn add_partition(&mut self, topic: &str, partition: i32)
        ensures
            final(self)@ == old(self)@.push(
                ElemView { topic: topic@, partition, offset: Offset::Invalid },
            ),
    {
        self.list.push(Elem { topic: topic.to_owned(), partition, offset: Offset::Invalid });
    }

    /// Appends a partition at the given offset.
    pub fn add_partition_offset(&mut self, topic: &str, partition: i32, offset: Offset) -> (r:
        KafkaResult<()>)
        ensures
            r is Ok,
            final(self)@ == old(self)@.push(ElemView { topic: topic@, partition, offset }),
    {
        self.list.push(Elem { topic: topic.to_owned(), partition, offset });
        Ok(())
    }
}

} // verus!
