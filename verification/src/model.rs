//! What the operations of a consumer do, as functions on the mathematical value of its state.

use crate::config::AutoOffsetResetStrategy;
use crate::error::SeekRefusal;
use crate::message::OwnedMessage;
use crate::positions::{invalid_positions, keys};
use crate::topic_partition_list::{
    has_key, last_index, lemma_push_has_key, without, ElemView, Offset, PartitionKey,
};
use vstd::prelude::*;

verus! {

/// The mathematical value of a consumer's state.
#[verifier::ext_equal]
pub struct ConsumerView {
    /// The assigned partitions, each with the offset to fetch from next.
    pub tpl: Seq<ElemView>,
    /// The positions that are known.
    pub positions: Map<PartitionKey, Offset>,
    /// The messages that were fetched and not consumed yet.
    pub buffer: Seq<OwnedMessage>,
}

/// A list of partitions in which those without an offset got the one of the strategy.
pub open spec fn reset_all(
    strategy: AutoOffsetResetStrategy,
    list: Seq<ElemView>,
) -> Seq<ElemView> {
    Seq::new(list.len(), |i: int| list[i].at(strategy.reset(list[i].offset)))
}

/// The elements of `list`, in their order, that speak of a partition which neither `tpl` nor an
/// earlier element of `list` speaks of.
pub open spec fn fresh(tpl: Seq<ElemView>, list: Seq<ElemView>) -> Seq<ElemView>
    decreases list.len(),
{
    if list.len() == 0 {
        Seq::empty()
    } else {
        let found = fresh(tpl, list.drop_last());
        let e = list.last();
        if has_key(tpl, e.key()) || has_key(list.drop_last(), e.key()) {
            found
        } else {
            found.push(e)
        }
    }
}

/// Why a seek to the given place is refused, if it is.
pub open spec fn refusal(tpl: Seq<ElemView>, requested: ElemView) -> Option<SeekRefusal> {
    match requested.offset {
        Offset::Invalid => Some(SeekRefusal::InvalidOffset),
        Offset::Stored => Some(SeekRefusal::StoredOffset),
        Offset::OffsetTail(_) => Some(SeekRefusal::OffsetTail),
        _ => if has_key(tpl, requested.key()) {
            None
        } else {
            Some(SeekRefusal::NotAssigned)
        },
    }
}

/// What is said of the first place in the list, from the given index on, to which a seek is
/// refused.
pub open spec fn refused_from(
    tpl: Seq<ElemView>,
    requested: Seq<ElemView>,
    from: int,
) -> Option<Seq<char>>
    decreases requested.len() - from,
{
    if from >= requested.len() {
        None
    } else {
        match refusal(tpl, requested[from]) {
            Some(why) => Some(why.spec_text(requested[from].topic, requested[from].partition)),
            None => refused_from(tpl, requested, from + 1),
        }
    }
}

/// What is said of the first place in the list to which a seek is refused, if there is one.
pub open spec fn refused(tpl: Seq<ElemView>, requested: Seq<ElemView>) -> Option<Seq<char>> {
    refused_from(tpl, requested, 0)
}

/// The assigned partitions after a seek: where a partition was requested, its last element is at
/// the offset that was last requested for it.
pub open spec fn sought(tpl: Seq<ElemView>, requested: Seq<ElemView>) -> Seq<ElemView> {
    Seq::new(
        tpl.len(),
        |i: int|
            {
                let key = tpl[i].key();
                if has_key(requested, key) && i == last_index(tpl, key) {
                    tpl[i].at(requested[last_index(requested, key)].offset)
                } else {
                    tpl[i]
                }
            },
    )
}

/// A partition is added, or was assigned, if and only if it is in one of the two lists.
pub proof fn lemma_fresh_has_key(
    tpl: Seq<ElemView>,
    list: Seq<ElemView>,
    key: PartitionKey,
)
    ensures
        has_key(tpl + fresh(tpl, list), key) <==> has_key(tpl, key) || has_key(list, key),
        has_key(fresh(tpl, list), key) <==> !has_key(tpl, key) && has_key(list, key),
    decreases list.len(),
{
    if list.len() == 0 {
        assert(tpl + fresh(tpl, list) =~= tpl);
    } else {
        let front = list.drop_last();
        let e = list.last();
        lemma_fresh_has_key(tpl, front, key);
        assert(front.push(e) =~= list);
        lemma_push_has_key(front, e, key);
        lemma_push_has_key(tpl + fresh(tpl, front), e, key);
        lemma_push_has_key(fresh(tpl, front), e, key);
        assert(tpl + fresh(tpl, front).push(e) =~= (tpl + fresh(tpl, front)).push(e));
    }
}

impl ConsumerView {
    /// A consumer to which nothing is assigned.
    pub open spec fn init() -> ConsumerView {
        ConsumerView { tpl: Seq::empty(), positions: Map::empty(), buffer: Seq::empty() }
    }

    /// Replaces the assignment.
    pub open spec fn assign(
        self,
        strategy: AutoOffsetResetStrategy,
        list: Seq<ElemView>,
    ) -> ConsumerView {
        ConsumerView {
            tpl: reset_all(strategy, list),
            positions: invalid_positions(list),
            buffer: Seq::empty(),
        }
    }

    /// Adds to the assignment what is not in it.
    pub open spec fn incremental_assign(
        self,
        strategy: AutoOffsetResetStrategy,
        list: Seq<ElemView>,
    ) -> ConsumerView {
        let new = fresh(self.tpl, reset_all(strategy, list));
        ConsumerView {
            tpl: self.tpl + new,
            positions: self.positions.union_prefer_right(invalid_positions(new)),
            buffer: self.buffer,
        }
    }

    /// Takes partitions out of the assignment. Where nothing is assigned, nothing changes.
    pub open spec fn incremental_unassign(self, list: Seq<ElemView>) -> ConsumerView {
        if self.tpl.len() == 0 {
            self
        } else {
            ConsumerView {
                tpl: without(self.tpl, list),
                positions: self.positions.remove_keys(keys(list)),
                buffer: self.buffer,
            }
        }
    }

    /// Goes on at the requested offsets.
    pub open spec fn seek(self, requested: Seq<ElemView>) -> ConsumerView {
        ConsumerView {
            tpl: sought(self.tpl, requested),
            positions: self.positions.union_prefer_right(invalid_positions(requested)),
            buffer: Seq::empty(),
        }
    }

    /// The position that is reported for a partition.
    pub open spec fn position_of(self, key: PartitionKey) -> Offset {
        if self.positions.contains_key(key) {
            self.positions[key]
        } else {
            Offset::Invalid
        }
    }

    /// The assigned partitions with the position of each.
    pub open spec fn position(self) -> Seq<ElemView> {
        Seq::new(self.tpl.len(), |i: int| self.tpl[i].at(self.position_of(self.tpl[i].key())))
    }

    /// What the broker returned takes the place of the buffer and of the assignment.
    pub open spec fn receive(self, msgs: Seq<OwnedMessage>, tpl: Seq<ElemView>) -> ConsumerView {
        ConsumerView { tpl, positions: self.positions, buffer: msgs }
    }

    /// Takes the first message out of the buffer, if there is one, and moves the position of its
    /// partition behind it.
    pub open spec fn consume(self) -> ConsumerView {
        if self.buffer.len() == 0 {
            self
        } else {
            let msg = self.buffer[0];
            ConsumerView {
                tpl: self.tpl,
                positions: self.positions.insert(
                    msg.source(),
                    Offset::Offset((msg.offset + 1) as i64),
                ),
                buffer: self.buffer.drop_first(),
            }
        }
    }

    /// The message that [`ConsumerView::consume`] hands out.
    pub open spec fn head(self) -> Option<OwnedMessage> {
        if self.buffer.len() == 0 {
            None
        } else {
            Some(self.buffer[0])
        }
    }
}

} // verus!
