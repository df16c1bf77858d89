//! The freshness index: a priority queue of (timestamp, key) candidate-eviction
//! records with min-ordering on time, so the earliest-queued timestamp is always
//! retrievable first.  Duplicate and stale records are expected and tolerated by
//! the caller; the queue itself only promises multiset behaviour and min-order.
//!
//! The records are laid out as an implicit binary min-heap inside a `Vec`:
//! the record at slot `i` is no earlier than the one at slot `(i - 1) / 2`.

use vstd::prelude::*;
use vstd::multiset::Multiset;
use vstd::seq_lib::group_to_multiset_ensures;

verus! {

/// One candidate-eviction record: `key` was touched at time `stamp`
/// (milliseconds) when the record was queued.
#[derive(Clone, Copy)]
pub(crate) struct Access {
    pub stamp: u64,
    pub key: u64,
}

/// The implicit binary-heap shape: every slot from 1 on holds a record no
/// earlier than its parent slot.
pub(crate) open spec fn heap_ordered(s: Seq<Access>) -> bool {
    forall|i: int| 1 <= i < s.len() ==> (#[trigger] s[i].stamp) >= s[(i - 1) / 2].stamp
}

/// `heap_ordered`, except that the edge from slot `c` up to its parent may be
/// violated; in exchange, the children of `c` are known to be no earlier than
/// the parent of `c`.  This is the state in the middle of a sift-up pass.
spec fn heap_ordered_except_up(s: Seq<Access>, c: int) -> bool {
    &&& forall|i: int| 1 <= i < s.len() && i != c ==> (#[trigger] s[i].stamp) >= s[(i - 1) / 2].stamp
    &&& c >= 1 ==> forall|i: int|
        1 <= i < s.len() && (i - 1) / 2 == c ==> (#[trigger] s[i].stamp) >= s[(c - 1) / 2].stamp
}

/// `heap_ordered`, except that the edges from the children of slot `c` up to
/// `c` may be violated; in exchange, those children are no earlier than the
/// parent of `c`.  This is the state in the middle of a sift-down pass.
spec fn heap_ordered_except_down(s: Seq<Access>, c: int) -> bool {
    &&& forall|i: int|
        1 <= i < s.len() && (i - 1) / 2 != c ==> (#[trigger] s[i].stamp) >= s[(i - 1) / 2].stamp
    &&& c >= 1 ==> forall|i: int|
        1 <= i < s.len() && (i - 1) / 2 == c ==> (#[trigger] s[i].stamp) >= s[(c - 1) / 2].stamp
}

/// In a heap-ordered sequence the root is a minimum: slot 0 is no later than
/// slot `i`.
proof fn lemma_root_le(s: Seq<Access>, i: int)
    requires
        heap_ordered(s),
        0 <= i < s.len(),
    ensures
        s[0].stamp <= s[i].stamp,
    decreases i,
{
    if i > 0 {
        lemma_root_le(s, (i - 1) / 2);
    }
}

/// Swapping two slots leaves the multiset of records unchanged.
proof fn lemma_swap_preserves_multiset(s: Seq<Access>, i: int, j: int)
    requires
        0 <= i < s.len(),
        0 <= j < s.len(),
    ensures
        s.update(i, s[j]).update(j, s[i]).to_multiset() == s.to_multiset(),
{
    broadcast use group_to_multiset_ensures;

    let s1 = s.update(i, s[j]);
    let s2 = s1.update(j, s[i]);
    assert(s1.to_multiset() == s.to_multiset().remove(s[i]).insert(s[j]));
    assert(s2.to_multiset() == s1.to_multiset().remove(s1[j]).insert(s[i]));
    assert(s2.to_multiset() =~= s.to_multiset()) by {
        assert(s.to_multiset().count(s[i]) > 0);
        assert(s.to_multiset().count(s[j]) > 0);
    }
}

/// The min-ordered priority queue of candidate-eviction records.
pub(crate) struct FreshnessIndex {
    records: Vec<Access>,
}

impl FreshnessIndex {
    /// The records currently queued, as a multiset: order and duplicates are
    /// bookkeeping of the heap, not part of the abstraction.
    pub(crate) closed spec fn ms(&self) -> Multiset<Access> {
        self.records@.to_multiset()
    }

    /// Internal well-formedness: the backing vector is heap-ordered.
    pub(crate) closed spec fn wf(&self) -> bool {
        heap_ordered(self.records@)
    }

    pub(crate) fn new() -> (index: Self)
        ensures
            index.wf(),
            index.ms() == Multiset::<Access>::empty(),
    {
        let index = FreshnessIndex { records: Vec::new() };
        proof {
            broadcast use group_to_multiset_ensures;

            assert(index.records@.to_multiset() =~= Multiset::<Access>::empty());
        }
        index
    }

    /// The earliest queued record, if any, without removing it.
    pub(crate) fn peek(&self) -> (head: Option<Access>)
        requires
            self.wf(),
        ensures
            match head {
                None => self.ms().len() == 0,
                Some(first) => self.ms().count(first) > 0 && forall|x: Access|
                    self.ms().count(x) > 0 ==> first.stamp <= x.stamp,
            },
    {
        proof {
            broadcast use group_to_multiset_ensures;
        }
        if self.records.len() == 0 {
            None
        } else {
            let first = self.records[0];
            proof {
                assert forall|x: Access| self.ms().count(x) > 0 implies first.stamp <= x.stamp by {
                    assert(self.records@.contains(x));
                    let i = choose|i: int| 0 <= i < self.records@.len() && self.records@[i] == x;
                    lemma_root_le(self.records@, i);
                }
            }
            Some(first)
        }
    }

    /// Queue a record.  No deduplication happens: repeated accesses produce
    /// repeated records.
    pub(crate) fn push(&mut self, record: Access)
        requires
            old(self).wf(),
        ensures
            final(self).wf(),
            final(self).ms() == old(self).ms().insert(record),
    {
        proof {
            broadcast use group_to_multiset_ensures;
        }
        self.records.push(record);
        let mut child: usize = self.records.len() - 1;
        proof {
            assert forall|i: int|
                1 <= i < self.records@.len() && i != child implies (
                #[trigger] self.records@[i].stamp) >= self.records@[(i - 1) / 2].stamp by {}
        }
        while child > 0
            invariant
                0 <= child < self.records@.len(),
                heap_ordered_except_up(self.records@, child as int),
                self.records@.to_multiset() == old(self).ms().insert(record),
            ensures
                heap_ordered(self.records@),
                self.records@.to_multiset() == old(self).ms().insert(record),
            decreases child,
        {
            let parent: usize = (child - 1) / 2;
            if self.records[parent].stamp <= self.records[child].stamp {
                break ;
            }
            let parent_record = self.records[parent];
            let child_record = self.records[child];
            proof {
                lemma_swap_preserves_multiset(self.records@, parent as int, child as int);
            }
            self.records[parent] = child_record;
            self.records[child] = parent_record;
            child = parent;
        }
    }

    /// Remove and return an earliest record.  Requires the queue to be
    /// non-empty; the caller peeks first.
    #[verifier::rlimit(100)]
    pub(crate) fn pop(&mut self) -> (head: Access)
        requires
            old(self).wf(),
            old(self).ms().len() > 0,
        ensures
            final(self).wf(),
            old(self).ms().count(head) > 0,
            final(self).ms() == old(self).ms().remove(head),
            forall|x: Access| old(self).ms().count(x) > 0 ==> head.stamp <= x.stamp,
    {
        proof {
            broadcast use group_to_multiset_ensures;
        }
        let head = self.records[0];
        proof {
            assert forall|x: Access| old(self).ms().count(x) > 0 implies head.stamp <= x.stamp by {
                assert(self.records@.contains(x));
                let i = choose|i: int| 0 <= i < self.records@.len() && self.records@[i] == x;
                lemma_root_le(self.records@, i);
            }
        }
        let last = match self.records.pop() {
            Some(record) => record,
            None => head,
        };
        if self.records.len() == 0 {
            proof {
                assert(old(self).records@ =~= Seq::<Access>::empty().push(head));
                assert(Seq::<Access>::empty().push(head).to_multiset() =~= Multiset::<
                    Access,
                >::empty().insert(head));
                assert(self.records@.to_multiset() =~= old(self).ms().remove(head));
            }
            return head;
        }
        proof {
            let popped = old(self).records@;
            assert(popped.drop_last().push(popped.last()) =~= popped);
            assert(popped.drop_last().to_multiset() == popped.to_multiset().remove(popped.last()))
                by {
                assert(popped.drop_last().push(popped.last()).to_multiset() == popped.drop_last()
                    .to_multiset().insert(popped.last()));
                assert(popped.to_multiset().count(popped.last()) > 0);
                assert(popped.drop_last().to_multiset() =~= popped.to_multiset().remove(
                    popped.last(),
                ));
            }
        }
        self.records[0] = last;
        proof {
            let popped = old(self).records@;
            assert(self.records@ == popped.drop_last().update(0, popped.last()));
            assert(self.records@.to_multiset() == popped.drop_last().to_multiset().remove(
                popped.drop_last()[0],
            ).insert(popped.last()));
            assert(popped.drop_last()[0] == head);
            assert(self.records@.to_multiset() =~= old(self).ms().remove(head)) by {
                assert(popped.to_multiset().count(head) > 0);
            }
        }
        let mut hole: usize = 0;
        loop
            invariant
                0 <= hole < self.records@.len(),
                heap_ordered_except_down(self.records@, hole as int),
                self.records@.to_multiset() == old(self).ms().remove(head),
            ensures
                heap_ordered(self.records@),
                self.records@.to_multiset() == old(self).ms().remove(head),
            decreases self.records@.len() - hole,
        {
            let n = self.records.len();
            if hole >= n / 2 {
                proof {
                    assert forall|i: int|
                        1 <= i < self.records@.len() implies (#[trigger] self.records@[i].stamp)
                        >= self.records@[(i - 1) / 2].stamp by {
                        assert((i - 1) / 2 != hole as int);
                    }
                }
                break ;
            }
            let left = 2 * hole + 1;
            let right = left + 1;
            let mut smallest = hole;
            if self.records[left].stamp < self.records[smallest].stamp {
                smallest = left;
            }
            if right < n && self.records[right].stamp < self.records[smallest].stamp {
                smallest = right;
            }
            if smallest == hole {
                proof {
                    assert forall|i: int|
                        1 <= i < self.records@.len() implies (#[trigger] self.records@[i].stamp)
                        >= self.records@[(i - 1) / 2].stamp by {}
                }
                break ;
            }
            let hole_record = self.records[hole];
            let child_record = self.records[smallest];
            proof {
                lemma_swap_preserves_multiset(self.records@, hole as int, smallest as int);
            }
            self.records[hole] = child_record;
            self.records[smallest] = hole_record;
            hole = smallest;
        }
        head
    }
}

} // verus!
