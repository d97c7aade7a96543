//! A min-heap of grid positions keyed by an integer cost.
use vstd::prelude::*;
use vstd::multiset::Multiset;
use crate::point::Point;

verus! {

/// Heap order: by cost, then by `y`, then by `x`.
pub open spec fn entry_le(a: (i32, Point), b: (i32, Point)) -> bool {
    a.0 < b.0 || (a.0 == b.0 && (a.1.y < b.1.y || (a.1.y == b.1.y && a.1.x <= b.1.x)))
}

/// `e` is the least entry of `m` in heap order.
pub open spec fn is_least(m: Multiset<(i32, Point)>, e: (i32, Point)) -> bool {
    m.contains(e) && forall|o: (i32, Point)| #[trigger] m.contains(o) ==> entry_le(e, o)
}

pub open spec fn parent(i: int) -> int {
    (i - 1) / 2
}

fn entry_lt(a: (i32, Point), b: (i32, Point)) -> (r: bool)
    ensures
        r == !entry_le(b, a),
{
    a.0 < b.0 || (a.0 == b.0 && (a.1.y < b.1.y || (a.1.y == b.1.y && a.1.x < b.1.x)))
}

/// A binary min-heap of positions with a cost. Equal costs are popped by
/// ascending `y`, then ascending `x`; duplicates are allowed.
#[derive(Clone, Debug)]
pub struct MinHeap {
    items: Vec<(i32, Point)>,
}

impl Default for MinHeap {
    fn default() -> (r: MinHeap)
        ensures
            r.wf(),
            r@ == Multiset::<(i32, Point)>::empty(),
    {
        MinHeap::new()
    }
}

impl View for MinHeap {
    type V = Multiset<(i32, Point)>;

    closed spec fn view(&self) -> Multiset<(i32, Point)> {
        self.items@.to_multiset()
    }
}

proof fn lemma_le_total(a: (i32, Point), b: (i32, Point))
    ensures
        entry_le(a, b) || entry_le(b, a),
        entry_le(a, b) && entry_le(b, a) ==> a == b,
{
}

proof fn lemma_empty_view(s: Seq<(i32, Point)>)
    requires
        s.len() == 0,
    ensures
        s.to_multiset() == Multiset::<(i32, Point)>::empty(),
{
    broadcast use vstd::seq_lib::group_to_multiset_ensures;
    assert(s.to_multiset() =~= Multiset::<(i32, Point)>::empty()) by {
        assert forall|a: (i32, Point)| s.to_multiset().count(a) == 0 by {
            assert(!s.contains(a));
        }
    }
}

/// Successive pops come out in heap order: when `a` is the least entry of
/// `m` and `b` the least of what remains, `a` is no greater than `b`; in
/// particular its cost is no greater.
pub proof fn lemma_pops_ordered(m: Multiset<(i32, Point)>, a: (i32, Point), b: (i32, Point))
    requires
        is_least(m, a),
        is_least(m.remove(a), b),
    ensures
        entry_le(a, b),
        a.0 <= b.0,
{
    assert(m.remove(a).contains(b));
    assert(m.contains(b));
}

/// The least entry is unique, so the order in which equal costs leave the
/// heap is fixed by their positions alone.
pub proof fn lemma_least_unique(m: Multiset<(i32, Point)>, a: (i32, Point), b: (i32, Point))
    requires
        is_least(m, a),
        is_least(m, b),
    ensures
        a == b,
{
    lemma_le_total(a, b);
}

proof fn lemma_le_trans(a: (i32, Point), b: (i32, Point), c: (i32, Point))
    requires
        entry_le(a, b),
        entry_le(b, c),
    ensures
        entry_le(a, c),
{
}

impl MinHeap {
    pub closed spec fn heap_ordered(s: Seq<(i32, Point)>) -> bool {
        forall|i: int| 0 < i < s.len() ==> entry_le(#[trigger] s[parent(i)], s[i])
    }

    /// The heap's well-formedness: its array is in heap order.
    pub closed spec fn wf(&self) -> bool {
        Self::heap_ordered(self.items@)
    }

    proof fn lemma_root_least(s: Seq<(i32, Point)>, i: int)
        requires
            Self::heap_ordered(s),
            0 <= i < s.len(),
        ensures
            entry_le(s[0], s[i]),
        decreases i,
    {
        if i > 0 {
            Self::lemma_root_least(s, parent(i));
            lemma_le_trans(s[0], s[parent(i)], s[i]);
        }
    }

    proof fn lemma_root_is_least(s: Seq<(i32, Point)>)
        requires
            Self::heap_ordered(s),
            s.len() > 0,
        ensures
            is_least(s.to_multiset(), s[0]),
    {
        broadcast use vstd::seq_lib::group_to_multiset_ensures;
        assert(s.contains(s[0]));
        assert forall|o: (i32, Point)| #[trigger] s.to_multiset().contains(o) implies entry_le(s[0], o) by {
            assert(s.contains(o));
            let j = choose|j: int| 0 <= j < s.len() && s[j] == o;
            Self::lemma_root_least(s, j);
        }
    }

    pub fn new() -> (r: MinHeap)
        ensures
            r.wf(),
            r@ == Multiset::<(i32, Point)>::empty(),
    {
        let r = MinHeap { items: Vec::new() };
        proof {
            lemma_empty_view(r.items@);
        }
        r
    }

    pub fn with_capacity(capacity: usize) -> (r: MinHeap)
        ensures
            r.wf(),
            r@ == Multiset::<(i32, Point)>::empty(),
    {
        let r = MinHeap { items: Vec::with_capacity(capacity) };
        proof {
            lemma_empty_view(r.items@);
        }
        r
    }

    /// Remove every entry.
    pub fn clear(&mut self)
        ensures
            final(self).wf(),
            final(self)@ == Multiset::<(i32, Point)>::empty(),
    {
        self.items.clear();
        proof {
            lemma_empty_view(self.items@);
        }
    }

    pub fn len(&self) -> (r: usize)
        ensures
            r == self@.len(),
    {
        proof {
            broadcast use vstd::seq_lib::group_to_multiset_ensures;
        }
        self.items.len()
    }

    pub fn is_empty(&self) -> (r: bool)
        ensures
            r == (self@.len() == 0),
    {
        proof {
            broadcast use vstd::seq_lib::group_to_multiset_ensures;
        }
        self.items.len() == 0
    }

    fn swap(&mut self, i: usize, j: usize)
        requires
            i < old(self).items.len(),
            j < old(self).items.len(),
        ensures
            final(self).items@ == old(self).items@.update(i as int, old(self).items@[j as int]).update(
                j as int,
                old(self).items@[i as int],
            ),
            final(self)@ == old(self)@,
    {
        proof {
            broadcast use vstd::seq_lib::group_to_multiset_ensures;
        }
        let a = self.items[i];
        let b = self.items[j];
        self.items.set(i, b);
        self.items.set(j, a);
        proof {
            let s = old(self).items@;
            if i != j {
                assert(s.update(i as int, s[j as int]).to_multiset() == s.to_multiset().insert(
                    s[j as int],
                ).remove(s[i as int]));
            }
        }
    }

    /// Add the position `xy` with the given cost.
    pub fn push(&mut self, xy: [i32; 2], cost: i32)
        requires
            old(self).wf(),
        ensures
            final(self).wf(),
            final(self)@ == old(self)@.insert((cost, Point::spec_from(xy))),
    {
        self.insert(Point::from_array(xy), cost);
    }

    /// Add a position with the given cost.
    pub fn insert(&mut self, pos: Point, cost: i32)
        requires
            old(self).wf(),
        ensures
            final(self).wf(),
            final(self)@ == old(self)@.insert((cost, pos)),
    {
        proof {
            broadcast use vstd::seq_lib::group_to_multiset_ensures;
        }
        self.items.push((cost, pos));
        let mut k: usize = self.items.len() - 1;
        loop
            invariant
                0 <= k < self.items.len(),
                self@ == old(self)@.insert((cost, pos)),
                forall|i: int|
                    0 < i < self.items@.len() && i != k ==> entry_le(
                        #[trigger] self.items@[parent(i)],
                        self.items@[i],
                    ),
                k > 0 ==> forall|i: int|
                    0 < i < self.items@.len() && parent(i) == k ==> entry_le(
                        self.items@[parent(k as int)],
                        #[trigger] self.items@[i],
                    ),
            ensures
                Self::heap_ordered(self.items@),
                self@ == old(self)@.insert((cost, pos)),
            decreases k,
        {
            if k == 0 {
                break;
            }
            let p = (k - 1) / 2;
            if entry_lt(self.items[k], self.items[p]) {
                let ghost s = self.items@;
                self.swap(k, p);
                proof {
                    let t = self.items@;
                    assert forall|i: int| 0 < i < t.len() && i != p implies entry_le(
                        #[trigger] t[parent(i)],
                        t[i],
                    ) by {
                        lemma_le_total(s[k as int], s[p as int]);
                        if i == k {
                        } else if parent(i) == k {
                        } else if parent(i) == p {
                            lemma_le_trans(s[k as int], s[p as int], s[i]);
                        } else {
                        }
                    }
                    if p > 0 {
                        assert forall|i: int| 0 < i < t.len() && parent(i) == p implies entry_le(
                            t[parent(p as int)],
                            #[trigger] t[i],
                        ) by {
                            assert(entry_le(s[parent(p as int)], s[p as int]));
                            if i != k {
                                lemma_le_trans(s[parent(p as int)], s[p as int], s[i]);
                            }
                        }
                    }
                }
                k = p;
            } else {
                proof {
                    let s = self.items@;
                    assert forall|i: int| 0 < i < s.len() implies entry_le(
                        #[trigger] s[parent(i)],
                        s[i],
                    ) by {
                        if i == k {
                            assert(entry_le(s[p as int], s[k as int]));
                        }
                    }
                }
                break;
            }
        }
    }

    /// Remove and return the least entry's position (by cost, then `y`, then
    /// `x`), or `None` when the heap is empty.
    pub fn pop(&mut self) -> (r: Option<Point>)
        requires
            old(self).wf(),
        ensures
            final(self).wf(),
            old(self)@.len() == 0 ==> r is None && final(self)@ == old(self)@,
            old(self)@.len() > 0 ==> r is Some && exists|c: i32|
                #![trigger is_least(old(self)@, (c, r->0))]
                is_least(old(self)@, (c, r->0)) && final(self)@ == old(self)@.remove((c, r->0)),
    {
        let r = self.pop_entry();
        match r {
            Some(e) => {
                proof {
                    assert(e == (e.0, e.1));
                    assert(old(self)@.contains((e.0, e.1)));
                    assert(is_least(old(self)@, (e.0, e.1)));
                    assert(self@ == old(self)@.remove((e.0, e.1)));
                    let ret = Some(e.1);
                    assert(is_least(old(self)@, (e.0, ret->0)));
                }
                Some(e.1)
            },
            None => None,
        }
    }

    /// Remove and return the least entry, cost included.
    pub fn pop_entry(&mut self) -> (r: Option<(i32, Point)>)
        requires
            old(self).wf(),
        ensures
            final(self).wf(),
            old(self)@.len() == 0 ==> r is None && final(self)@ == old(self)@,
            old(self)@.len() > 0 ==> r is Some && is_least(old(self)@, r->0) && final(self)@
                == old(self)@.remove(r->0),
    {
        proof {
            broadcast use vstd::seq_lib::group_to_multiset_ensures;
        }
        let n = self.items.len();
        if n == 0 {
            return None;
        }
        proof {
            Self::lemma_root_is_least(self.items@);
        }
        let last = n - 1;
        self.swap(0, last);
        let top = self.items.pop().unwrap();
        proof {
            let s = old(self).items@;
            let t = self.items@;
            assert(t == s.update(0, s[last as int]).drop_last());
            assert(self@ == old(self)@.remove(s[0])) by {
                let u = s.update(0, s[last as int]).update(last as int, s[0]);
                assert(u.to_multiset() == old(self)@);
                assert(u.drop_last() =~= u.remove(last as int));
                assert(t == u.drop_last());
            }
        }
        let len = self.items.len();
        let mut k: usize = 0;
        loop
            invariant
                len == self.items.len(),
                self@ == old(self)@.remove(top),
                forall|i: int|
                    0 < i < self.items@.len() && parent(i) != k ==> entry_le(
                        #[trigger] self.items@[parent(i)],
                        self.items@[i],
                    ),
                k > 0 ==> forall|i: int|
                    0 < i < self.items@.len() && parent(i) == k ==> entry_le(
                        self.items@[parent(k as int)],
                        #[trigger] self.items@[i],
                    ),
            ensures
                Self::heap_ordered(self.items@),
                self@ == old(self)@.remove(top),
            decreases len - k,
        {
            if len < 2 || k > (len - 2) / 2 {
                proof {
                    let s = self.items@;
                    assert forall|i: int| 0 < i < s.len() implies entry_le(
                        #[trigger] s[parent(i)],
                        s[i],
                    ) by {
                        assert(parent(i) != k);
                    }
                }
                break;
            }
            let l = 2 * k + 1;
            let r = l + 1;
            let c = if r < len && entry_lt(self.items[r], self.items[l]) { r } else { l };
            proof {
                assert(parent(l as int) == k);
                assert(parent(r as int) == k);
                if r < len {
                    lemma_le_total(self.items@[l as int], self.items@[r as int]);
                }
            }
            if entry_lt(self.items[c], self.items[k]) {
                let ghost s = self.items@;
                self.swap(k, c);
                proof {
                    let t = self.items@;
                    lemma_le_total(s[k as int], s[c as int]);
                    assert forall|i: int| 0 < i < t.len() && parent(i) != c implies entry_le(
                        #[trigger] t[parent(i)],
                        t[i],
                    ) by {
                        if i == c {
                        } else if parent(i) == k {
                            assert(i == l || i == r);
                            lemma_le_total(s[c as int], s[i]);
                        } else if i == k {
                            assert(entry_le(s[parent(k as int)], s[c as int]));
                        } else {
                        }
                    }
                    assert forall|i: int| 0 < i < t.len() && parent(i) == c implies entry_le(
                        t[parent(c as int)],
                        #[trigger] t[i],
                    ) by {
                        assert(parent(c as int) == k);
                    }
                }
                k = c;
            } else {
                proof {
                    let s = self.items@;
                    lemma_le_total(s[k as int], s[c as int]);
                    assert forall|i: int| 0 < i < s.len() && parent(i) == k implies entry_le(
                        #[trigger] s[parent(i)],
                        s[i],
                    ) by {
                        assert(i == l || i == r);
                        if i != c {
                            lemma_le_trans(s[k as int], s[c as int], s[i]);
                        }
                    }
                    assert forall|i: int| 0 < i < s.len() implies entry_le(
                        #[trigger] s[parent(i)],
                        s[i],
                    ) by {
                        if parent(i) == k {
                        }
                    }
                }
                break;
            }
        }
        Some(top)
    }
}

} // verus!
