//! A fixed-capacity set with ring replacement.
//!
//! Insertion adds a new element; once the capacity is reached, each new
//! element evicts the oldest one.  Re-inserting an element that is already
//! present changes nothing, so its eviction age is kept.  Issued auth
//! tokens are held in such a set.

use vstd::prelude::*;
use vstd::pervasive::VecAdditionalExecFns;

verus! {

/// An element a `BoundedSet` can hold: one that can decide equality of
/// abstract values.
pub trait SetItem: View + Sized {
    /// Whether the two values are the same.
    fn same(&self, other: &Self) -> (r: bool)
        ensures
            r == (self@ == other@),
    ;
}

impl SetItem for i32 {
    fn same(&self, other: &Self) -> (r: bool)
        ensures
            r == (self@ == other@),
    {
        *self == *other
    }
}

impl SetItem for i64 {
    fn same(&self, other: &Self) -> (r: bool)
        ensures
            r == (self@ == other@),
    {
        *self == *other
    }
}

impl SetItem for u64 {
    fn same(&self, other: &Self) -> (r: bool)
        ensures
            r == (self@ == other@),
    {
        *self == *other
    }
}

impl SetItem for usize {
    fn same(&self, other: &Self) -> (r: bool)
        ensures
            r == (self@ == other@),
    {
        *self == *other
    }
}

impl SetItem for String {
    fn same(&self, other: &Self) -> (r: bool)
        ensures
            r == (self@ == other@),
    {
        String::eq(self, other)
    }
}

/// One insertion step: what `BoundedSet::insert` does to the elements and
/// the ring cursor.
pub open spec fn bs_step<V>(elems: Seq<V>, ring: int, cap: int, v: V) -> (Seq<V>, int) {
    if elems.contains(v) {
        (elems, ring)
    } else if elems.len() == cap {
        (elems.update(ring, v), (ring + 1) % cap)
    } else {
        (elems.push(v), ring)
    }
}

/// The state after inserting a whole sequence of values into an empty set.
pub open spec fn bs_run<V>(cap: int, vs: Seq<V>) -> (Seq<V>, int)
    decreases vs.len(),
{
    if vs.len() == 0 {
        (Seq::empty(), 0)
    } else {
        let p = bs_run(cap, vs.drop_last());
        bs_step(p.0, p.1, cap, vs.last())
    }
}

/// After inserting a sequence of distinct values into an empty set, the
/// held elements are exactly the last `cap` of them (all of them while
/// they fit): eviction follows insertion order.
pub proof fn lemma_run_keeps_latest<V>(cap: int, vs: Seq<V>)
    requires
        1 <= cap,
        vs.no_duplicates(),
    ensures
        vs.len() <= cap ==> bs_run(cap, vs).0 == vs,
        vs.len() > cap ==> bs_run(cap, vs).0.to_set() == vs.skip(vs.len() - cap).to_set(),
    decreases vs.len(),
{
    lemma_run_shape(cap, vs);
    if vs.len() > cap {
        let r = bs_run(cap, vs);
        let tail = vs.skip(vs.len() - cap);
        assert forall|x: V| r.0.to_set().contains(x) implies tail.to_set().contains(x) by {
            let k = choose|k: int| 0 <= k < r.0.len() && r.0[k] == x;
            let j = ((k - r.1) % cap + cap) % cap;
            assert(0 <= j < cap && (r.1 + j) % cap == k) by (nonlinear_arith)
                requires
                    0 <= k < cap,
                    0 <= r.1 < cap,
                    cap >= 1,
                    j == ((k - r.1) % cap + cap) % cap,
            ;
            assert(r.0[(r.1 + j) % cap] == vs[vs.len() - cap + j]);
            assert(tail[j] == vs[vs.len() - cap + j]);
            assert(tail[j] == x);
        }
        assert forall|x: V| tail.to_set().contains(x) implies r.0.to_set().contains(x) by {
            let j = choose|j: int| 0 <= j < tail.len() && tail[j] == x;
            assert(r.0[(r.1 + j) % cap] == vs[vs.len() - cap + j]);
            assert(0 <= (r.1 + j) % cap < cap) by (nonlinear_arith)
                requires
                    cap >= 1,
            ;
        }
        assert(r.0.to_set() =~= tail.to_set());
    }
}

/// The exact layout of a run over distinct values: while the values fit
/// they sit in insertion order; once over the cap the ring holds the last
/// `cap` of them, oldest at the cursor.
proof fn lemma_run_shape<V>(cap: int, vs: Seq<V>)
    requires
        1 <= cap,
        vs.no_duplicates(),
    ensures
        vs.len() <= cap ==> bs_run(cap, vs) == (vs, 0int),
        vs.len() > cap ==> {
            let r = bs_run(cap, vs);
            &&& r.0.len() == cap
            &&& 0 <= r.1 < cap
            &&& forall|k: int|
                0 <= k < cap ==> r.0[#[trigger] ((r.1 + k) % cap)] == vs[vs.len() - cap + k]
        },
    decreases vs.len(),
{
    if vs.len() == 0 {
        assert(bs_run(cap, vs) == (Seq::<V>::empty(), 0int));
        assert(Seq::<V>::empty() =~= vs);
    } else {
        let prefix = vs.drop_last();
        assert(prefix.no_duplicates());
        lemma_run_shape(cap, prefix);
        let p = bs_run(cap, prefix);
        let v = vs.last();
        assert(forall|i: int| 0 <= i < prefix.len() ==> prefix[i] == #[trigger] vs[i]);
        // the new value is not already held
        assert(!p.0.contains(v)) by {
            if p.0.contains(v) {
                let k = choose|k: int| 0 <= k < p.0.len() && p.0[k] == v;
                if prefix.len() <= cap {
                    assert(vs[k] == vs[vs.len() - 1]);
                    assert(false);
                } else {
                    let j = ((k - p.1) % cap + cap) % cap;
                    assert(0 <= j < cap && (p.1 + j) % cap == k) by (nonlinear_arith)
                        requires
                            0 <= k < cap,
                            0 <= p.1 < cap,
                            cap >= 1,
                            j == ((k - p.1) % cap + cap) % cap,
                    ;
                    assert(p.0[(p.1 + j) % cap] == prefix[prefix.len() - cap + j]);
                    assert(prefix[prefix.len() - cap + j] == vs[prefix.len() - cap + j]);
                    assert(vs[prefix.len() - cap + j] == vs[vs.len() - 1]);
                    assert(false);
                }
            }
        }
        if prefix.len() < cap {
            assert(bs_run(cap, vs).0 =~= vs);
        } else if prefix.len() == cap {
            // first eviction: the oldest slot is overwritten
            let r = bs_run(cap, vs);
            assert(r.0 == p.0.update(p.1, v));
            assert(r.1 == (p.1 + 1) % cap);
            assert forall|k: int|
                0 <= k < cap implies r.0[#[trigger] ((r.1 + k) % cap)] == vs[vs.len() - cap + k] by {
                if k == cap - 1 {
                    assert((r.1 + k) % cap == p.1) by (nonlinear_arith)
                        requires
                            0 <= p.1 < cap,
                            cap >= 1,
                            r.1 == (p.1 + 1) % cap,
                            k == cap - 1,
                    ;
                    assert(vs[vs.len() - cap + k] == v);
                } else {
                    assert((r.1 + k) % cap == p.1 + 1 + k - (if p.1 + 1 + k < cap {
                        0int
                    } else {
                        cap
                    })) by (nonlinear_arith)
                        requires
                            0 <= p.1 < cap,
                            cap >= 1,
                            r.1 == (p.1 + 1) % cap,
                            0 <= k < cap - 1,
                    ;
                    if prefix.len() == cap {
                        let idx = (r.1 + k) % cap;
                        assert(idx != p.1) by (nonlinear_arith)
                            requires
                                0 <= p.1 < cap,
                                cap >= 1,
                                r.1 == (p.1 + 1) % cap,
                                0 <= k < cap - 1,
                                idx == (r.1 + k) % cap,
                        ;
                        assert(r.0[idx] == p.0[idx]);
                        assert(p.0[idx] == prefix[idx]);
                        assert(idx == vs.len() - cap + k + (if p.1 + 1 + k < cap {
                            p.1 + 1
                        } else {
                            p.1 + 1 - cap
                        }) - 1 - p.1 + p.1) by (nonlinear_arith)
                            requires
                                0 <= p.1 < cap,
                                cap >= 1,
                                vs.len() == cap + 1,
                                r.1 == (p.1 + 1) % cap,
                                0 <= k < cap - 1,
                                idx == (r.1 + k) % cap,
                        ;
                    }
                }
            }
        } else {
            // steady state: one slot turns over each time
            let r = bs_run(cap, vs);
            assert(r.0 == p.0.update(p.1, v));
            assert(r.1 == (p.1 + 1) % cap);
            assert forall|k: int|
                0 <= k < cap implies r.0[#[trigger] ((r.1 + k) % cap)] == vs[vs.len() - cap + k] by {
                if k == cap - 1 {
                    assert((r.1 + k) % cap == p.1) by (nonlinear_arith)
                        requires
                            0 <= p.1 < cap,
                            cap >= 1,
                            r.1 == (p.1 + 1) % cap,
                            k == cap - 1,
                    ;
                    assert(vs[vs.len() - cap + k] == v);
                } else {
                    let idx = (r.1 + k) % cap;
                    assert(idx == (p.1 + (k + 1)) % cap && idx != p.1) by (nonlinear_arith)
                        requires
                            0 <= p.1 < cap,
                            cap >= 1,
                            r.1 == (p.1 + 1) % cap,
                            0 <= k < cap - 1,
                            idx == (r.1 + k) % cap,
                    ;
                    assert(r.0[idx] == p.0[idx]);
                    assert(p.0[(p.1 + (k + 1)) % cap] == prefix[prefix.len() - cap + k + 1]);
                    assert(vs[prefix.len() - cap + k + 1] == vs[vs.len() - cap + k]);
                }
            }
        }
    }
}

/// A set of at most `max_size` elements; the oldest is evicted on overflow.
pub struct BoundedSet<T: SetItem> {
    order: Vec<T>,
    max_size: usize,
    ring_index: usize,
}

impl<T: SetItem> BoundedSet<T> {
    /// The held elements in slot order.
    pub closed spec fn elements(&self) -> Seq<T::V> {
        self.order@.map_values(|t: T| t@)
    }

    /// The capacity the set was made with.
    pub closed spec fn capacity(&self) -> usize {
        self.max_size
    }

    /// The slot the next eviction will use.
    pub closed spec fn cursor(&self) -> usize {
        self.ring_index
    }

    #[verifier::type_invariant]
    spec fn bs_inv(self) -> bool {
        &&& self.max_size >= 1
        &&& self.order@.len() <= self.max_size
        &&& self.ring_index < self.max_size
    }

    /// Make an empty set bounded to at most `max_size` elements.
    pub fn new(max_size: usize) -> (r: BoundedSet<T>)
        requires
            max_size >= 1,
        ensures
            r.elements() == Seq::<T::V>::empty(),
            r.capacity() == max_size,
            r.cursor() == 0,
    {
        let r = BoundedSet { order: Vec::new(), max_size, ring_index: 0 };
        proof {
            assert(r.elements() =~= Seq::<T::V>::empty());
        }
        r
    }

    /// How many elements the set holds.
    pub fn len(&self) -> (r: usize)
        ensures
            r == self.elements().len(),
    {
        self.order.len()
    }

    /// The capacity the set was made with.
    pub fn max_size(&self) -> (r: usize)
        ensures
            r == self.capacity(),
    {
        self.max_size
    }

    /// The slot the next eviction will use.
    pub fn ring_index(&self) -> (r: usize)
        ensures
            r == self.cursor(),
    {
        self.ring_index
    }

    /// The held elements in slot order.
    pub fn items(&self) -> (r: &Vec<T>)
        ensures
            r@.map_values(|t: T| t@) == self.elements(),
    {
        &self.order
    }

    /// Whether the set holds this value.
    pub fn contains(&self, value: &T) -> (r: bool)
        ensures
            r == self.elements().contains(value@),
    {
        let n = self.order.len();
        let mut idx: usize = 0;
        loop
            invariant
                0 <= idx <= n,
                n == self.order@.len(),
                forall|k: int| 0 <= k < idx ==> self.elements()[k] != value@,
            ensures
                (idx < n && self.elements()[idx as int] == value@) || (idx == n && forall|k: int|
                    0 <= k < n ==> self.elements()[k] != value@),
            decreases n - idx,
        {
            if idx >= n {
                break;
            }
            if self.order[idx].same(value) {
                break;
            }
            idx = idx + 1;
        }
        if idx < n {
            proof {
                assert(self.elements().contains(value@));
            }
            true
        } else {
            proof {
                if self.elements().contains(value@) {
                    let k = choose|k: int| 0 <= k < n && self.elements()[k] == value@;
                    assert(self.elements()[k] == value@);
                }
            }
            false
        }
    }

    /// Add a value.  One already present leaves the set unchanged, keeping
    /// its eviction age; a new one evicts the oldest element when the set
    /// is full.
    pub fn insert(&mut self, value: T)
        ensures
            old(self).elements().len() <= old(self).capacity(),
            old(self).cursor() < old(self).capacity(),
            final(self).capacity() == old(self).capacity(),
            (final(self).elements(), final(self).cursor() as int) == bs_step(
                old(self).elements(),
                old(self).cursor() as int,
                old(self).capacity() as int,
                value@,
            ),
    {
        proof {
            use_type_invariant(&*self);
        }
        let ghost vv = value@;
        if self.contains(&value) {
            return ;
        }
        if self.order.len() == self.max_size {
            let ring = self.ring_index;
            let mut order: Vec<T> = Vec::new();
            core::mem::swap(&mut order, &mut self.order);
            order.set(ring, value);
            proof {
                assert(order@.map_values(|t: T| t@) =~= old(self).elements().update(
                    ring as int,
                    vv,
                ));
            }
            self.order = order;
            self.ring_index = (ring + 1) % self.max_size;
        } else {
            let mut order: Vec<T> = Vec::new();
            core::mem::swap(&mut order, &mut self.order);
            order.push(value);
            proof {
                assert(order@.map_values(|t: T| t@) =~= old(self).elements().push(vv));
            }
            self.order = order;
        }
    }
}

} // verus!
