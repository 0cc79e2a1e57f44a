//! A priority queue of `(distance, vertex)` entries that hands out a
//! smallest distance first: a binary heap in a vector.

use vstd::multiset::Multiset;
use vstd::prelude::*;

verus! {

/// Every entry but the first is at least the entry above it in the tree.
pub open spec fn heap_ordered(s: Seq<(u64, usize)>) -> bool {
    forall|i: int| 1 <= i < s.len() ==> s[(i - 1) / 2].0 <= (#[trigger] s[i]).0
}

/// Every entry is ordered with the one above it, but for the entry at
/// `hole` and the entries right below it; those are ordered with the entry
/// above `hole`.
pub open spec fn ordered_around(s: Seq<(u64, usize)>, hole: int) -> bool {
    &&& forall|i: int|
        1 <= i < s.len() && i != hole && (i - 1) / 2 != hole ==> s[(i - 1) / 2].0 <= (#[trigger] s[i]).0
    &&& forall|i: int|
        1 <= i < s.len() && (i - 1) / 2 == hole && hole >= 1 ==> s[(hole - 1) / 2].0 <= (#[trigger] s[i]).0
}

/// Every entry is ordered with the one above it, but for the entries
/// right below `hole`; those are ordered with the entry above `hole`.
pub open spec fn ordered_below(s: Seq<(u64, usize)>, hole: int) -> bool {
    &&& forall|i: int| 1 <= i < s.len() && (i - 1) / 2 != hole ==> s[(i - 1) / 2].0 <= (#[trigger] s[i]).0
    &&& forall|i: int|
        1 <= i < s.len() && (i - 1) / 2 == hole && hole >= 1 ==> s[(hole - 1) / 2].0 <= (#[trigger] s[i]).0
}

/// In an ordered heap the first entry is a smallest one.
pub proof fn lemma_first_is_least(s: Seq<(u64, usize)>, i: int)
    requires
        heap_ordered(s),
        0 <= i < s.len(),
    ensures
        s[0].0 <= s[i].0,
    decreases i,
{
    if i > 0 {
        lemma_first_is_least(s, (i - 1) / 2);
        assert(s[(i - 1) / 2].0 <= s[i].0);
    }
}

/// Exchanging two entries keeps what is held.
pub proof fn lemma_exchange_keeps_entries(s: Seq<(u64, usize)>, i: int, j: int)
    requires
        0 <= i < s.len(),
        0 <= j < s.len(),
    ensures
        s.update(i, s[j]).update(j, s[i]).to_multiset() == s.to_multiset(),
{
    broadcast use vstd::multiset::group_multiset_axioms;

    let mid = s.update(i, s[j]);
    vstd::seq_lib::to_multiset_update(s, i, s[j]);
    vstd::seq_lib::to_multiset_update(mid, j, s[i]);
    vstd::seq_lib::to_multiset_contains(s, s[i]);
    vstd::seq_lib::to_multiset_contains(s, s[j]);
    assert(s.contains(s[i]) && s.contains(s[j]));
    assert(s.update(i, s[j]).update(j, s[i]).to_multiset() =~= s.to_multiset());
}

/// Exchanges the entries at `i` and `j`.
fn exchange(data: &mut Vec<(u64, usize)>, i: usize, j: usize)
    requires
        i < old(data)@.len(),
        j < old(data)@.len(),
    ensures
        final(data)@ == old(data)@.update(i as int, old(data)@[j as int]).update(
            j as int,
            old(data)@[i as int],
        ),
        final(data)@.to_multiset() == old(data)@.to_multiset(),
{
    proof {
        lemma_exchange_keeps_entries(data@, i as int, j as int);
    }
    let a = data[i];
    let b = data[j];
    data[i] = b;
    data[j] = a;
}

/// A min-queue keyed by the first component of its entries.
pub struct MinQueue {
    data: Vec<(u64, usize)>,
}

impl View for MinQueue {
    type V = Multiset<(u64, usize)>;

    /// The entries held, with multiplicity.
    closed spec fn view(&self) -> Multiset<(u64, usize)> {
        self.data@.to_multiset()
    }
}

impl MinQueue {
    /// The vector is an ordered heap.
    pub closed spec fn wf(&self) -> bool {
        heap_ordered(self.data@)
    }

    /// The empty queue.
    pub fn new() -> (q: MinQueue)
        ensures
            q.wf(),
            q@ == Multiset::<(u64, usize)>::empty(),
    {
        let q = MinQueue { data: Vec::new() };
        proof {
            assert(q.data@.to_multiset() =~= Multiset::<(u64, usize)>::empty()) by {
                assert forall|x: (u64, usize)| q.data@.to_multiset().count(x) == 0 by {
                    vstd::seq_lib::to_multiset_contains(q.data@, x);
                }
            }
        }
        q
    }

    /// The number of entries held.
    pub fn len(&self) -> (r: usize)
        ensures
            r == self@.len(),
    {
        proof {
            vstd::seq_lib::to_multiset_len(self.data@);
        }
        self.data.len()
    }

    /// Whether no entry is held.
    pub fn is_empty(&self) -> (r: bool)
        ensures
            r == (self@.len() == 0),
    {
        proof {
            vstd::seq_lib::to_multiset_len(self.data@);
        }
        self.data.len() == 0
    }

    /// Adds one entry.
    pub fn push(&mut self, key: u64, vertex: usize)
        requires
            old(self).wf(),
        ensures
            final(self).wf(),
            final(self)@ == old(self)@.insert((key, vertex)),
    {
        proof {
            vstd::seq_lib::to_multiset_build(self.data@, (key, vertex));
        }
        self.data.push((key, vertex));
        let ghost held = self.data@.to_multiset();
        let mut i: usize = self.data.len() - 1;
        while i > 0
            invariant
                i < self.data@.len(),
                self.data@.to_multiset() == held,
                ordered_around(self.data@, i as int),
                forall|c: int|
                    1 <= c < self.data@.len() && (c - 1) / 2 == i ==> self.data@[i as int].0 <= (
                    #[trigger] self.data@[c]).0,
            ensures
                heap_ordered(self.data@),
                self.data@.to_multiset() == held,
            decreases i,
        {
            let parent = (i - 1) / 2;
            if self.data[parent].0 <= self.data[i].0 {
                break ;
            }
            let ghost before = self.data@;
            exchange(&mut self.data, parent, i);
            proof {
                let after = self.data@;
                assert forall|c: int|
                    1 <= c < after.len() && c != parent && (c - 1) / 2 != parent implies after[(c - 1) / 2].0
                    <= (#[trigger] after[c]).0 by {
                    if c == i {
                    } else if (c - 1) / 2 == i {
                        assert(before[i as int].0 <= before[c].0);
                    } else {
                        assert(before[(c - 1) / 2].0 <= before[c].0);
                    }
                }
                assert forall|c: int|
                    1 <= c < after.len() && (c - 1) / 2 == parent && parent >= 1 implies after[(parent - 1)
                        / 2].0 <= (#[trigger] after[c]).0 by {
                    assert(before[(parent - 1) / 2].0 <= before[parent as int].0);
                    if c != i {
                        assert(before[(c - 1) / 2].0 <= before[c].0);
                    }
                }
                assert forall|c: int|
                    1 <= c < after.len() && (c - 1) / 2 == parent implies after[parent as int].0 <= (
                #[trigger] after[c]).0 by {
                    if c != i {
                        assert(before[(c - 1) / 2].0 <= before[c].0);
                    }
                }
            }
            i = parent;
        }
    }

    /// Removes and returns an entry whose key is smallest, if there is one.
    pub fn pop(&mut self) -> (r: Option<(u64, usize)>)
        requires
            old(self).wf(),
        ensures
            final(self).wf(),
            match r {
                None => old(self)@.len() == 0 && final(self)@ == old(self)@,
                Some(e) => {
                    &&& old(self)@.count(e) > 0
                    &&& final(self)@ == old(self)@.remove(e)
                    &&& forall|x: (u64, usize)| old(self)@.count(x) > 0 ==> e.0 <= x.0
                },
            },
    {
        let ghost start = self.data@;
        proof {
            vstd::seq_lib::to_multiset_len(start);
        }
        let last = match self.data.pop() {
            None => {
                return None;
            },
            Some(last) => last,
        };
        let ghost shorter = self.data@;
        proof {
            assert(start =~= shorter.push(last));
            vstd::seq_lib::to_multiset_build(shorter, last);
            assert forall|x: (u64, usize)| start.to_multiset().count(x) > 0 implies start[0].0 <= x.0 by {
                vstd::seq_lib::to_multiset_contains(start, x);
                let j = choose|j: int| 0 <= j < start.len() && start[j] == x;
                lemma_first_is_least(start, j);
            }
            vstd::seq_lib::to_multiset_contains(start, start[0]);
            assert(start.contains(start[0]));
        }
        if self.data.len() == 0 {
            proof {
                broadcast use vstd::multiset::group_multiset_axioms;

                assert(shorter.to_multiset() =~= start.to_multiset().remove(last));
            }
            return Some(last);
        }
        let top = self.data[0];
        self.data[0] = last;
        let ghost held = self.data@.to_multiset();
        proof {
            broadcast use vstd::multiset::group_multiset_axioms;

            vstd::seq_lib::to_multiset_update(shorter, 0, last);
            assert(held =~= start.to_multiset().remove(top));
            assert forall|c: int|
                1 <= c < self.data@.len() && (c - 1) / 2 != 0 implies self.data@[(c - 1) / 2].0 <= (
            #[trigger] self.data@[c]).0 by {
                assert(start[(c - 1) / 2].0 <= start[c].0);
            }
        }
        let len = self.data.len();
        let mut i: usize = 0;
        while i < len / 2
            invariant
                len == self.data@.len(),
                i < len,
                self.data@.to_multiset() == held,
                ordered_below(self.data@, i as int),
            ensures
                heap_ordered(self.data@),
                self.data@.to_multiset() == held,
            decreases len - i,
        {
            let left = 2 * i + 1;
            let right = left + 1;
            let smallest = if right < len && self.data[right].0 < self.data[left].0 {
                right
            } else {
                left
            };
            if self.data[i].0 <= self.data[smallest].0 {
                proof {
                    let s = self.data@;
                    assert forall|c: int| 1 <= c < s.len() implies s[(c - 1) / 2].0 <= (
                    #[trigger] s[c]).0 by {
                        if (c - 1) / 2 == i {
                            assert(c == left || c == right);
                        }
                    }
                }
                break ;
            }
            let ghost before = self.data@;
            exchange(&mut self.data, i, smallest);
            proof {
                let after = self.data@;
                assert forall|c: int|
                    1 <= c < after.len() && (c - 1) / 2 != smallest implies after[(c - 1) / 2].0 <= (
                #[trigger] after[c]).0 by {
                    if (c - 1) / 2 == i {
                        assert(c == left || c == right);
                    } else if c == i {
                        assert(before[(i - 1) / 2].0 <= before[smallest as int].0);
                    } else {
                        assert(before[(c - 1) / 2].0 <= before[c].0);
                    }
                }
                assert forall|c: int|
                    1 <= c < after.len() && (c - 1) / 2 == smallest && smallest >= 1 implies after[(smallest
                        - 1) / 2].0 <= (#[trigger] after[c]).0 by {
                    assert(before[(c - 1) / 2].0 <= before[c].0);
                }
            }
            i = smallest;
        }
        Some(top)
    }
}

} // verus!
