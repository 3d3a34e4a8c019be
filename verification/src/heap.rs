//! A bounded binary min-heap.
//!
//! The heap orders its elements by a total preorder supplied through the
//! [`HeapOrd`] trait. Its contents are modelled as a multiset; `push` inserts
//! (refusing when full) and `pop` removes an element that is least among the
//! whole contents.

use vstd::prelude::*;

verus! {

use vstd::multiset::Multiset;
use vstd::pervasive::unreached;
use vstd::seq_lib::group_to_multiset_ensures;

broadcast use group_to_multiset_ensures;

/// A total preorder: the order a [`Heap`] sorts by.
pub trait HeapOrd: Sized {
    /// The ordering relation, as seen by specifications.
    spec fn le_spec(&self, other: &Self) -> bool;

    /// The relation is total (hence also reflexive).
    proof fn lemma_le_total(a: &Self, b: &Self)
        ensures
            a.le_spec(b) || b.le_spec(a),
    ;

    /// The relation is transitive.
    proof fn lemma_le_trans(a: &Self, b: &Self, c: &Self)
        requires
            a.le_spec(b),
            b.le_spec(c),
        ensures
            a.le_spec(c),
    ;

    /// Executable comparison, agreeing with `le_spec`.
    fn le(&self, other: &Self) -> (r: bool)
        ensures
            r == self.le_spec(other),
    ;
}

impl HeapOrd for i32 {
    open spec fn le_spec(&self, other: &Self) -> bool {
        *self <= *other
    }

    proof fn lemma_le_total(a: &Self, b: &Self) {
    }

    proof fn lemma_le_trans(a: &Self, b: &Self, c: &Self) {
    }

    fn le(&self, other: &Self) -> (r: bool) {
        *self <= *other
    }
}

/// Swaps two elements of a vector in place.
fn vec_swap<T>(v: &mut Vec<T>, i: usize, j: usize)
    requires
        i < old(v)@.len(),
        j < old(v)@.len(),
    ensures
        final(v)@ == old(v)@.update(i as int, old(v)@[j as int]).update(j as int, old(v)@[i as int]),
        final(v)@.to_multiset() == old(v)@.to_multiset(),
        final(v)@.len() == old(v)@.len(),
{
    proof {
        assert(old(v)@.contains(old(v)@[i as int]));
        assert(old(v)@.contains(old(v)@[j as int]));
    }
    if i == j {
        assert(old(v)@.update(i as int, old(v)@[j as int]).update(j as int, old(v)@[i as int])
            =~= old(v)@);
        assert(v@.to_multiset() =~= old(v)@.to_multiset());
        return;
    }
    let (lo, hi) = if i < j { (i, j) } else { (j, i) };
    let ghost orig = v@;
    let s = v.as_mut_slice();
    let (front, back) = s.split_at_mut(hi);
    let (front_rest, at_lo) = front.split_at_mut(lo);
    let e_lo = match at_lo.first_mut() {
        Some(x) => x,
        None => unreached(),
    };
    let e_hi = match back.first_mut() {
        Some(x) => x,
        None => unreached(),
    };
    core::mem::swap(e_lo, e_hi);
    proof {
        assert(v@ =~= orig.update(lo as int, orig[hi as int]).update(hi as int, orig[lo as int]));
        assert(v@ =~= orig.update(i as int, orig[j as int]).update(j as int, orig[i as int]));
        let m0 = orig.to_multiset();
        let s1 = orig.update(i as int, orig[j as int]);
        assert(s1.to_multiset() == m0.insert(orig[j as int]).remove(orig[i as int]));
        assert(s1[j as int] == orig[j as int]);
        assert(s1.contains(orig[j as int]));
        assert(v@.to_multiset() == s1.to_multiset().insert(orig[i as int]).remove(
            orig[j as int],
        ));
        assert(v@.to_multiset() =~= m0);
    }
}

/// A fixed-capacity binary min-heap over `T`'s total preorder.
pub struct Heap<T> {
    data: Vec<T>,
    max_size: usize,
}

impl<T: HeapOrd> Heap<T> {
    /// The contents, as a multiset.
    pub closed spec fn ms(&self) -> Multiset<T> {
        self.data@.to_multiset()
    }

    /// The number of elements held.
    pub closed spec fn spec_len(&self) -> int {
        self.data@.len() as int
    }

    /// The fixed capacity.
    pub closed spec fn spec_capacity(&self) -> int {
        self.max_size as int
    }

    /// The element `peek` and `pop` will hand out next.
    pub closed spec fn root(&self) -> T {
        self.data@[0]
    }

    /// The element at `i` is ordered at or above its parent.
    spec fn hp_at(&self, i: int) -> bool {
        self.data@[(i - 1) / 2].le_spec(&self.data@[i])
    }

    /// Structural well-formedness: bounded size and the binary-heap shape.
    pub closed spec fn wf(&self) -> bool {
        &&& self.data@.len() <= self.max_size
        &&& self.max_size <= (usize::MAX - 2) / 2
        &&& forall|i: int| 1 <= i < self.data@.len() ==> #[trigger] self.hp_at(i)
    }

    /// The root is least among all elements (by transitivity down the tree).
    proof fn lemma_root_le(&self, i: int)
        requires
            self.wf(),
            0 <= i < self.data@.len(),
        ensures
            self.data@[0].le_spec(&self.data@[i]),
        decreases i,
    {
        if i == 0 {
            T::lemma_le_total(&self.data@[0], &self.data@[0]);
        } else {
            let p = (i - 1) / 2;
            self.lemma_root_le(p);
            assert(self.hp_at(i));
            T::lemma_le_trans(&self.data@[0], &self.data@[p], &self.data@[i]);
        }
    }

    /// An empty heap holds nothing.
    pub proof fn lemma_empty_ms(&self)
        requires
            self.spec_len() == 0,
        ensures
            forall|x: T| self.ms().count(x) == 0,
    {
        assert forall|x: T| self.ms().count(x) == 0 by {
            if self.ms().count(x) > 0 {
                assert(self.data@.contains(x));
            }
        }
    }

    /// A well-formed heap never exceeds its capacity.
    pub proof fn lemma_len_le_cap(&self)
        requires
            self.wf(),
        ensures
            0 <= self.spec_len() <= self.spec_capacity(),
    {
    }

    /// Creates an empty heap that will hold at most `max_size` elements.
    pub fn new(max_size: usize) -> (r: Self)
        requires
            max_size <= (usize::MAX - 2) / 2,
        ensures
            r.wf(),
            r.ms() == Multiset::<T>::empty(),
            r.spec_len() == 0,
            r.spec_capacity() == max_size,
    {
        let r = Heap { data: Vec::with_capacity(max_size), max_size };
        proof {
            assert(r.data@.to_multiset() =~= Multiset::<T>::empty());
        }
        r
    }

    /// The fixed capacity.
    pub fn capacity(&self) -> (r: usize)
        ensures
            r == self.spec_capacity(),
    {
        self.max_size
    }

    /// The number of elements held.
    pub fn len(&self) -> (r: usize)
        ensures
            r == self.spec_len(),
    {
        self.data.len()
    }

    /// Whether the heap holds no element.
    pub fn is_empty(&self) -> (r: bool)
        ensures
            r == (self.spec_len() == 0),
    {
        self.data.len() == 0
    }

    /// Adds `item`; returns false (and changes nothing) when the heap is full.
    pub fn push(&mut self, item: T) -> (r: bool)
        requires
            old(self).wf(),
        ensures
            final(self).wf(),
            final(self).spec_capacity() == old(self).spec_capacity(),
            old(self).spec_len() < old(self).spec_capacity() ==> {
                &&& r
                &&& final(self).ms() == old(self).ms().insert(item)
                &&& final(self).spec_len() == old(self).spec_len() + 1
            },
            old(self).spec_len() >= old(self).spec_capacity() ==> {
                &&& !r
                &&& *final(self) == *old(self)
            },
    {
        if self.data.len() >= self.max_size {
            return false;
        }
        let ghost before = self.data@;
        self.data.push(item);
        let pos = self.data.len() - 1;
        proof {
            assert(self.data@.to_multiset() =~= before.to_multiset().insert(item));
            assert forall|i: int| 1 <= i < self.data@.len() && i != pos as int
                implies #[trigger] self.hp_at(i) by {
                assert(old(self).hp_at(i));
                assert(self.data@[i] == before[i]);
                assert(self.data@[(i - 1) / 2] == before[(i - 1) / 2]);
            }
        }
        self.sift_up(pos);
        true
    }

    /// Restores the heap shape after the element at `pos` may have become
    /// smaller than its parent.
    fn sift_up(&mut self, pos: usize)
        requires
            old(self).data@.len() <= old(self).max_size,
            old(self).max_size <= (usize::MAX - 2) / 2,
            pos < old(self).data@.len(),
            forall|i: int|
                1 <= i < old(self).data@.len() && i != pos ==> #[trigger] old(self).hp_at(i),
            forall|i: int|
                1 <= i < old(self).data@.len() && (i - 1) / 2 == pos as int && pos >= 1
                    ==> old(self).data@[(pos as int - 1) / 2].le_spec(
                    #[trigger] &old(self).data@[i],
                ),
        ensures
            final(self).wf(),
            final(self).max_size == old(self).max_size,
            final(self).data@.len() == old(self).data@.len(),
            final(self).ms() == old(self).ms(),
    {
        let ghost orig_ms = self.data@.to_multiset();
        let mut pos = pos;
        loop
            invariant
                self.data@.len() <= self.max_size,
                self.max_size <= (usize::MAX - 2) / 2,
                self.max_size == old(self).max_size,
                self.data@.len() == old(self).data@.len(),
                self.data@.to_multiset() == orig_ms,
                orig_ms == old(self).ms(),
                pos < self.data@.len(),
                forall|i: int|
                    1 <= i < self.data@.len() && i != pos as int ==> #[trigger] self.hp_at(i),
                forall|i: int|
                    1 <= i < self.data@.len() && (i - 1) / 2 == pos as int && pos >= 1
                        ==> self.data@[(pos as int - 1) / 2].le_spec(
                        #[trigger] &self.data@[i],
                    ),
            ensures
                self.data@.len() == old(self).data@.len(),
                self.max_size == old(self).max_size,
                self.data@.to_multiset() == old(self).ms(),
                forall|i: int| 1 <= i < self.data@.len() ==> #[trigger] self.hp_at(i),
            decreases pos,
        {
            if pos == 0 {
                break;
            }
            let parent = (pos - 1) / 2;
            if !self.data[pos].le(&self.data[parent]) {
                proof {
                    T::lemma_le_total(&self.data@[pos as int], &self.data@[parent as int]);
                    assert(self.hp_at(pos as int));
                }
                break;
            }
            let ghost pre = *self;
            vec_swap(&mut self.data, pos, parent);
            proof {
                let p = parent as int;
                let q = pos as int;
                let d = pre.data@;
                assert(d[q].le_spec(&d[p]));
                assert forall|i: int| 1 <= i < self.data@.len() && i != p
                    implies #[trigger] self.hp_at(i) by {
                    if i == q {
                        assert(self.data@[p] == d[q]);
                        assert(self.data@[q] == d[p]);
                    } else if (i - 1) / 2 == p {
                        assert(pre.hp_at(i));
                        assert(self.data@[i] == d[i]);
                        T::lemma_le_trans(&d[q], &d[p], &d[i]);
                    } else if (i - 1) / 2 == q {
                        assert(self.data@[i] == d[i]);
                        assert(d[(q - 1) / 2].le_spec(&d[i]));
                        assert(self.data@[q] == d[p]);
                    } else {
                        assert(pre.hp_at(i));
                        assert(self.data@[i] == d[i]);
                        assert(self.data@[(i - 1) / 2] == d[(i - 1) / 2]);
                    }
                }
                assert forall|i: int|
                    1 <= i < self.data@.len() && (i - 1) / 2 == p && p >= 1
                    implies self.data@[(p - 1) / 2].le_spec(#[trigger] &self.data@[i]) by {
                    let g = (p - 1) / 2;
                    assert(self.data@[g] == d[g]);
                    assert(pre.hp_at(p));
                    if i == q {
                        assert(self.data@[q] == d[p]);
                    } else {
                        assert(pre.hp_at(i));
                        assert(self.data@[i] == d[i]);
                        T::lemma_le_trans(&d[g], &d[p], &d[i]);
                    }
                }
            }
            pos = parent;
        }
    }

    /// Borrows a least element, or None when empty.
    pub fn peek(&self) -> (r: Option<&T>)
        requires
            self.wf(),
        ensures
            match r {
                Some(x) => {
                    &&& self.spec_len() > 0
                    &&& self.ms().count(*x) > 0
                    &&& *x == self.root()
                    &&& forall|y: T| self.ms().count(y) > 0 ==> x.le_spec(&y)
                },
                None => self.spec_len() == 0,
            },
    {
        if self.data.len() == 0 {
            None
        } else {
            proof {
                assert(self.data@.contains(self.data@[0]));
                assert forall|y: T| self.ms().count(y) > 0 implies self.data@[0].le_spec(&y) by {
                    assert(self.data@.contains(y));
                    let i = choose|i: int| 0 <= i < self.data@.len() && self.data@[i] == y;
                    self.lemma_root_le(i);
                }
            }
            Some(&self.data[0])
        }
    }

    /// Removes and returns a least element, or None when empty.
    pub fn pop(&mut self) -> (r: Option<T>)
        requires
            old(self).wf(),
        ensures
            final(self).wf(),
            final(self).spec_capacity() == old(self).spec_capacity(),
            match r {
                Some(x) => {
                    &&& old(self).spec_len() > 0
                    &&& x == old(self).root()
                    &&& old(self).ms().count(x) > 0
                    &&& forall|y: T| old(self).ms().count(y) > 0 ==> x.le_spec(&y)
                    &&& final(self).ms() == old(self).ms().remove(x)
                    &&& final(self).spec_len() == old(self).spec_len() - 1
                },
                None => {
                    &&& old(self).spec_len() == 0
                    &&& *final(self) == *old(self)
                },
            },
    {
        if self.data.len() == 0 {
            return None;
        }
        proof {
            assert forall|y: T| old(self).ms().count(y) > 0 implies old(self).data@[0].le_spec(
                &y,
            ) by {
                assert(old(self).data@.contains(y));
                let i = choose|i: int| 0 <= i < old(self).data@.len() && old(self).data@[i] == y;
                old(self).lemma_root_le(i);
            }
        }
        let last = self.data.len() - 1;
        if last > 0 {
            vec_swap(&mut self.data, 0, last);
        }
        let ghost swapped = self.data@;
        let item = self.data.pop().unwrap();
        proof {
            assert(item == old(self).data@[0]);
            assert(self.data@ =~= swapped.remove(swapped.len() - 1));
            assert(self.data@.to_multiset() == swapped.to_multiset().remove(item));
            assert(self.data@.to_multiset() == old(self).ms().remove(item));
            // Shape holds everywhere except possibly at the children of the
            // root, where the moved-in last element now sits.
            assert forall|i: int| 1 <= i < self.data@.len() && (i - 1) / 2 != 0
                implies #[trigger] self.hp_at(i) by {
                assert(old(self).hp_at(i));
                assert(self.data@[i] == old(self).data@[i]);
                assert(self.data@[(i - 1) / 2] == old(self).data@[(i - 1) / 2]);
            }
        }
        if self.data.len() > 0 {
            self.sift_down(0);
        }
        Some(item)
    }

    /// Restores the heap shape after the element at `pos` may have become
    /// larger than its children.
    fn sift_down(&mut self, pos: usize)
        requires
            old(self).data@.len() <= old(self).max_size,
            old(self).max_size <= (usize::MAX - 2) / 2,
            pos < old(self).data@.len(),
            forall|i: int|
                1 <= i < old(self).data@.len() && (i - 1) / 2 != pos as int ==> #[trigger] old(
                    self,
                ).hp_at(i),
            forall|i: int|
                1 <= i < old(self).data@.len() && (i - 1) / 2 == pos as int && pos >= 1
                    ==> old(self).data@[(pos as int - 1) / 2].le_spec(
                    #[trigger] &old(self).data@[i],
                ),
            pos >= 1 ==> old(self).hp_at(pos as int),
        ensures
            final(self).wf(),
            final(self).max_size == old(self).max_size,
            final(self).data@.len() == old(self).data@.len(),
            final(self).ms() == old(self).ms(),
    {
        let ghost orig_ms = self.data@.to_multiset();
        let n = self.data.len();
        let mut pos = pos;
        loop
            invariant
                self.data@.len() == old(self).data@.len(),
                self.data@.len() <= self.max_size,
                self.max_size <= (usize::MAX - 2) / 2,
                self.max_size == old(self).max_size,
                n == self.data@.len(),
                self.data@.to_multiset() == orig_ms,
                orig_ms == old(self).ms(),
                pos < n,
                forall|i: int|
                    1 <= i < self.data@.len() && (i - 1) / 2 != pos as int ==> #[trigger] self.hp_at(
                        i,
                    ),
                forall|i: int|
                    1 <= i < self.data@.len() && (i - 1) / 2 == pos as int && pos >= 1
                        ==> self.data@[(pos as int - 1) / 2].le_spec(
                        #[trigger] &self.data@[i],
                    ),
                pos >= 1 ==> self.hp_at(pos as int),
            ensures
                self.data@.len() == old(self).data@.len(),
                self.max_size == old(self).max_size,
                self.data@.to_multiset() == old(self).ms(),
                forall|i: int| 1 <= i < self.data@.len() ==> #[trigger] self.hp_at(i),
            decreases n - pos,
        {
            let mut smallest = pos;
            let left = 2 * pos + 1;
            let right = 2 * pos + 2;

            if left < n && !self.data[smallest].le(&self.data[left]) {
                proof {
                    T::lemma_le_total(&self.data@[pos as int], &self.data@[left as int]);
                }
                smallest = left;
            }
            if right < n && !self.data[smallest].le(&self.data[right]) {
                proof {
                    T::lemma_le_total(&self.data@[smallest as int], &self.data@[right as int]);
                }
                smallest = right;
            }

            proof {
                // smallest is least among pos and its present children.
                let d = self.data@;
                let p = pos as int;
                let l = left as int;
                let rr = right as int;
                let s = smallest as int;
                T::lemma_le_total(&d[s], &d[s]);
                if s != p && s == rr && l < n {
                    if d[p].le_spec(&d[l]) {
                        T::lemma_le_trans(&d[rr], &d[p], &d[l]);
                    } else {
                        T::lemma_le_trans(&d[rr], &d[l], &d[p]);
                    }
                }
                assert(d[s].le_spec(&d[p]));
                assert(l < n ==> d[s].le_spec(&d[l]));
                assert(rr < n ==> d[s].le_spec(&d[rr]));
            }

            if smallest == pos {
                proof {
                    assert forall|i: int| 1 <= i < self.data@.len() implies #[trigger] self.hp_at(
                        i,
                    ) by {
                        if (i - 1) / 2 == pos as int {
                            assert(i == left as int || i == right as int);
                        }
                    }
                }
                break;
            }
            let ghost pre = *self;
            vec_swap(&mut self.data, pos, smallest);
            proof {
                let p = pos as int;
                let s = smallest as int;
                let d = pre.data@;
                assert(s == 2 * p + 1 || s == 2 * p + 2);
                assert((s - 1) / 2 == p);
                assert forall|i: int| 1 <= i < self.data@.len() && (i - 1) / 2 != s
                    implies #[trigger] self.hp_at(i) by {
                    if i == s {
                        assert(self.data@[p] == d[s]);
                        assert(self.data@[s] == d[p]);
                        assert(d[s].le_spec(&d[p]));
                    } else if (i - 1) / 2 == p && i != s {
                        assert(self.data@[i] == d[i]);
                        assert(self.data@[p] == d[s]);
                        assert(i == 2 * p + 1 || i == 2 * p + 2);
                        assert(d[s].le_spec(&d[i]));
                    } else if i == p {
                        assert(self.data@[(p - 1) / 2] == d[(p - 1) / 2]);
                        assert(self.data@[p] == d[s]);
                        assert(d[(p - 1) / 2].le_spec(&d[s]));
                    } else {
                        assert(pre.hp_at(i));
                        assert(self.data@[i] == d[i]);
                        assert(self.data@[(i - 1) / 2] == d[(i - 1) / 2]);
                    }
                }
                assert forall|i: int|
                    1 <= i < self.data@.len() && (i - 1) / 2 == s
                    implies self.data@[(s - 1) / 2].le_spec(#[trigger] &self.data@[i]) by {
                    assert(self.data@[p] == d[s]);
                    assert(pre.hp_at(i));
                    assert(self.data@[i] == d[i]);
                }
                assert(self.hp_at(s)) by {
                    assert(self.data@[(s - 1) / 2] == d[s]);
                    assert(self.data@[s] == d[p]);
                }
            }
            pos = smallest;
        }
    }
}

} // verus!
