//! Sets of vertices kept in increasing order of vertex id, so that every
//! traversal of a set visits its members in the same order.

use vstd::prelude::*;

verus! {

/// No element of `s` is repeated and smaller ids come first.
pub open spec fn strictly_increasing(s: Seq<usize>) -> bool {
    forall|i: int, j: int| 0 <= i < j < s.len() ==> s[i] < s[j]
}

/// Two increasing sequences with the same members are the same sequence.
pub proof fn lemma_increasing_unique(a: Seq<usize>, b: Seq<usize>)
    requires
        strictly_increasing(a),
        strictly_increasing(b),
        forall|v: usize| a.contains(v) <==> b.contains(v),
    ensures
        a == b,
    decreases a.len(),
{
    if a.len() == 0 {
        if b.len() > 0 {
            assert(b.contains(b[0]));
        }
        assert(a =~= b);
    } else {
        let top = a.last();
        assert(a.contains(top));
        let j = choose|j: int| 0 <= j < b.len() && b[j] == top;
        if j != b.len() - 1 {
            let other = b.last();
            assert(b.contains(other));
            let i = choose|i: int| 0 <= i < a.len() && a[i] == other;
            assert(a[i] <= top);
            assert(b[j] < b[b.len() - 1]);
        }
        let a1 = a.drop_last();
        let b1 = b.drop_last();
        assert forall|v: usize| a1.contains(v) <==> b1.contains(v) by {
            if a1.contains(v) {
                let i = choose|i: int| 0 <= i < a1.len() && a1[i] == v;
                assert(a[i] == v && a[i] < top);
                assert(a.contains(v));
                let m = choose|m: int| 0 <= m < b.len() && b[m] == v;
                assert(b1[m] == v);
            }
            if b1.contains(v) {
                let i = choose|i: int| 0 <= i < b1.len() && b1[i] == v;
                assert(b[i] == v && b[i] < top);
                assert(b.contains(v));
                let m = choose|m: int| 0 <= m < a.len() && a[m] == v;
                assert(a1[m] == v);
            }
        }
        lemma_increasing_unique(a1, b1);
        assert(a =~= a1.push(top));
        assert(b =~= b1.push(top));
    }
}

/// A set of vertices, held as the increasing sequence of its members.
#[derive(Debug)]
pub struct VertexSet {
    ids: Vec<usize>,
}

impl View for VertexSet {
    type V = Seq<usize>;

    /// The members, smallest id first.
    closed spec fn view(&self) -> Seq<usize> {
        self.ids@
    }
}

impl VertexSet {
    /// The members are held in strictly increasing order.
    pub open spec fn wf(&self) -> bool {
        strictly_increasing(self@)
    }

    /// The empty set.
    pub fn new() -> (r: VertexSet)
        ensures
            r.wf(),
            r@.len() == 0,
    {
        VertexSet { ids: Vec::new() }
    }

    /// The number of members.
    pub fn len(&self) -> (r: usize)
        ensures
            r == self@.len(),
    {
        self.ids.len()
    }

    /// Whether the set has no member.
    pub fn is_empty(&self) -> (r: bool)
        ensures
            r == (self@.len() == 0),
    {
        self.ids.len() == 0
    }

    /// The member at position `i` in increasing order.
    pub fn get(&self, i: usize) -> (r: usize)
        requires
            i < self@.len(),
        ensures
            r == self@[i as int],
    {
        self.ids[i]
    }

    /// The number of members smaller than `v`.
    fn lower_bound(&self, v: usize) -> (pos: usize)
        requires
            self.wf(),
        ensures
            pos <= self@.len(),
            forall|i: int| 0 <= i < pos ==> self@[i] < v,
            forall|i: int| pos <= i < self@.len() ==> self@[i] >= v,
    {
        let mut lo: usize = 0;
        let mut hi: usize = self.ids.len();
        while lo < hi
            invariant
                self.wf(),
                lo <= hi <= self.ids@.len(),
                forall|i: int| 0 <= i < lo ==> self.ids@[i] < v,
                forall|i: int| hi <= i < self.ids@.len() ==> self.ids@[i] >= v,
            decreases hi - lo,
        {
            let mid = lo + (hi - lo) / 2;
            if self.ids[mid] < v {
                lo = mid + 1;
            } else {
                hi = mid;
            }
        }
        lo
    }

    /// Whether `v` is a member.
    pub fn contains(&self, v: usize) -> (r: bool)
        requires
            self.wf(),
        ensures
            r == self@.contains(v),
    {
        let pos = self.lower_bound(v);
        let found = pos < self.ids.len() && self.ids[pos] == v;
        proof {
            if found {
                assert(self@[pos as int] == v);
            }
        }
        found
    }

    /// Adds `v` to the set; says whether it was new.
    pub fn insert(&mut self, v: usize) -> (added: bool)
        requires
            old(self).wf(),
        ensures
            final(self).wf(),
            added == !old(self)@.contains(v),
            forall|x: usize| final(self)@.contains(x) <==> (x == v || old(self)@.contains(x)),
            final(self)@.len() == old(self)@.len() + if added { 1int } else { 0int },
    {
        let pos = self.lower_bound(v);
        if pos < self.ids.len() && self.ids[pos] == v {
            proof {
                assert(self@[pos as int] == v);
            }
            return false;
        }
        self.ids.insert(pos, v);
        proof {
            let before = old(self)@;
            let after = self@;
            assert(after[pos as int] == v);
            assert forall|x: usize| after.contains(x) <==> (x == v || before.contains(x)) by {
                if before.contains(x) {
                    let i = choose|i: int| 0 <= i < before.len() && before[i] == x;
                    if i < pos {
                        assert(after[i] == x);
                    } else {
                        assert(after[i + 1] == x);
                    }
                }
                if after.contains(x) && x != v {
                    let i = choose|i: int| 0 <= i < after.len() && after[i] == x;
                    if i < pos {
                        assert(before[i] == x);
                    } else {
                        assert(before[i - 1] == x);
                    }
                }
            }
        }
        true
    }

    /// Adds a vertex whose id is above every member's.
    pub(crate) fn push_larger(&mut self, v: usize)
        requires
            old(self).wf(),
            forall|i: int| 0 <= i < old(self)@.len() ==> old(self)@[i] < v,
        ensures
            final(self).wf(),
            final(self)@ == old(self)@.push(v),
    {
        self.ids.push(v);
    }

    /// The set of the elements of `v`.
    pub fn from_vec(v: Vec<usize>) -> (r: VertexSet)
        ensures
            r.wf(),
            forall|x: usize| r@.contains(x) <==> v@.contains(x),
    {
        let mut r = VertexSet::new();
        let mut i: usize = 0;
        while i < v.len()
            invariant
                i <= v@.len(),
                r.wf(),
                forall|x: usize| r@.contains(x) <==> v@.take(i as int).contains(x),
            decreases v@.len() - i,
        {
            let ghost prev = r@;
            r.insert(v[i]);
            proof {
                let done = v@.take(i as int);
                let next = v@.take(i + 1);
                assert(next =~= done.push(v@[i as int]));
                assert forall|x: usize| r@.contains(x) <==> next.contains(x) by {
                    if next.contains(x) {
                        let j = choose|j: int| 0 <= j < next.len() && next[j] == x;
                        if j < i {
                            assert(done[j] == x);
                        }
                    }
                    if done.contains(x) {
                        let j = choose|j: int| 0 <= j < done.len() && done[j] == x;
                        assert(next[j] == x);
                    }
                    assert(next[i as int] == v@[i as int]);
                }
            }
            i += 1;
        }
        proof {
            assert(v@.take(v@.len() as int) =~= v@);
        }
        r
    }

    /// The members in increasing order.
    pub fn to_vec(&self) -> (r: Vec<usize>)
        ensures
            r@ == self@,
    {
        let mut r: Vec<usize> = Vec::new();
        let mut i: usize = 0;
        while i < self.ids.len()
            invariant
                i <= self.ids@.len(),
                r@ == self.ids@.take(i as int),
            decreases self.ids@.len() - i,
        {
            r.push(self.ids[i]);
            proof {
                assert(self.ids@.take(i + 1) =~= self.ids@.take(i as int).push(self.ids@[i as int]));
            }
            i += 1;
        }
        proof {
            assert(self.ids@.take(self.ids@.len() as int) =~= self.ids@);
        }
        r
    }
}

} // verus!
