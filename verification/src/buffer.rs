use vstd::arithmetic::div_mod::lemma_fundamental_div_mod_converse_mod;
use vstd::arithmetic::div_mod::lemma_mod_bound;
use vstd::arithmetic::div_mod::lemma_small_mod;
use vstd::prelude::*;

use crate::errors::RingError;

verus! {

/// The physical storage slot holding forward logical index `i`: counting
/// from the rotating origin, `i` positions towards older elements, wrapping
/// around at the end of the storage.
pub open spec fn physical_of(origin: nat, len: nat, i: int) -> int
    recommends
        len > 0,
{
    (origin + i) % (len as int)
}

/// The physical storage slot holding reversed logical index `i`: counting
/// from the oldest element towards newer ones.  At `i % len == 0` this is
/// the slot of forward logical index 0.
pub open spec fn physical_of_reversed(origin: nat, len: nat, i: int) -> int
    recommends
        len > 0,
{
    (origin + (len - i % (len as int))) % (len as int)
}

/// The forward logical content after queuing `e`: `e` becomes the newest
/// element and the oldest one is evicted.
pub open spec fn spec_queue<T>(s: Seq<T>, e: T) -> Seq<T>
    recommends
        s.len() > 0,
{
    seq![e] + s.drop_last()
}

/// The forward logical content after queuing `e` in reversed order: `e`
/// becomes the oldest element and the newest one is evicted.
pub open spec fn spec_queue_reversed<T>(s: Seq<T>, e: T) -> Seq<T>
    recommends
        s.len() > 0,
{
    s.drop_first() + seq![e]
}

/// Fixed-capacity circular buffer that is always full.
///
/// The buffer owns a non-empty storage block of fixed length together with
/// a rotating origin marking which physical slot holds forward logical
/// index 0 (the most recently queued element).  It is almost a FIFO queue:
/// it cannot be empty, and an element leaves only when `queue` inserts a
/// new one in its place.
pub struct CircularBuffer<T> {
    list: Vec<T>,
    first: usize,
}

impl<T> CircularBuffer<T> {
    /// The physical storage, oldest layout order (not logical order).
    pub closed spec fn storage_seq(&self) -> Seq<T> {
        self.list@
    }

    /// The physical slot currently holding forward logical index 0.
    pub closed spec fn origin(&self) -> nat {
        self.first as nat
    }

    /// The fixed number of elements the buffer holds.
    pub open spec fn capacity(&self) -> nat {
        self.storage_seq().len()
    }

    /// Validity: the storage is non-empty and the origin lies inside it.
    pub open spec fn wf(&self) -> bool {
        self.capacity() > 0 && self.origin() < self.capacity()
    }
}

/// A storage block read in forward logical order from the given origin:
/// index 0 is the slot at the origin, larger indices wrap around the end
/// of the storage.
pub open spec fn logical_view<T>(storage: Seq<T>, origin: nat) -> Seq<T> {
    Seq::new(storage.len(), |i: int| storage[physical_of(origin, storage.len(), i)])
}

impl<T> View for CircularBuffer<T> {
    type V = Seq<T>;

    /// The buffer seen in forward logical order: index 0 is the most
    /// recently queued element, larger indices are older elements.
    open spec fn view(&self) -> Seq<T> {
        logical_view(self.storage_seq(), self.origin())
    }
}

/// A buffer whose origin is 0 reads the same forwards as its storage.
pub(crate) proof fn lemma_view_at_zero_origin<T>(storage: Seq<T>)
    ensures
        logical_view(storage, 0) =~= storage,
{
    assert forall|i: int| 0 <= i < storage.len() implies logical_view(storage, 0)[i]
        == storage[i] by {
        lemma_small_mod(i as nat, storage.len());
    }
}

impl<T> CircularBuffer<T> {
    /// Builds the structure from its raw components.
    ///
    /// This is the unchecked reconstruction path: the caller carries the
    /// burden of supplying a non-empty storage block and an in-range
    /// origin, which here is a verified precondition rather than a runtime
    /// check.
    pub fn from_raw_parts(list: Vec<T>, first: usize) -> (r: Self)
        requires
            list@.len() > 0,
            first < list@.len(),
        ensures
            r.wf(),
            r.storage_seq() == list@,
            r.origin() == first as nat,
    {
        CircularBuffer { list, first }
    }

    /// Takes the structure apart into its raw components: the physical
    /// storage block and the origin offset.
    pub fn into_raw_parts(self) -> (r: (Vec<T>, usize))
        ensures
            r.0@ == self.storage_seq(),
            r.1 as nat == self.origin(),
    {
        (self.list, self.first)
    }

    /// Wraps an existing storage block as a buffer whose logical order
    /// coincides with the storage order.  Rejects empty storage, the one
    /// invalid state.
    pub fn from_storage(storage: Vec<T>) -> (r: Result<Self, RingError>)
        ensures
            storage@.len() > 0 <==> r is Ok,
            r matches Ok(b) ==> b.wf() && b.storage_seq() == storage@ && b.origin() == 0 && b@
                == storage@,
            r matches Err(e) ==> e == RingError::InvalidCapacity && storage@.len() == 0,
    {
        if storage.len() == 0 {
            return Err(RingError::InvalidCapacity);
        }
        let b = CircularBuffer { list: storage, first: 0 };
        proof {
            lemma_view_at_zero_origin(b.storage_seq());
        }
        Ok(b)
    }

    /// Returns the number of elements, which is the fixed capacity.
    pub fn len(&self) -> (r: usize)
        ensures
            r as nat == self.capacity(),
            r as nat == self@.len(),
    {
        self.list.len()
    }

    /// Returns the physical slot currently holding forward logical index 0.
    pub fn first_index(&self) -> (r: usize)
        ensures
            r as nat == self.origin(),
    {
        self.first
    }

    /// Read access to the physical storage block in storage order.
    pub fn storage(&self) -> (r: &Vec<T>)
        ensures
            r@ == self.storage_seq(),
    {
        &self.list
    }

    /// Translates forward logical index `index` to its physical slot.
    /// Indices at or past the capacity loop around.
    pub fn internal_index(&self, index: usize) -> (r: usize)
        requires
            self.wf(),
        ensures
            r as int == physical_of(self.origin(), self.capacity(), index as int),
            (r as nat) < self.capacity(),
    {
        let len = self.list.len();
        let j = index % len;
        proof {
            lemma_mod_mod_vanish(self.origin() as int, index as int, len as int);
        }
        offset_slot(self.first, j, len)
    }

    /// Translates reversed logical index `index` (0 is the oldest element)
    /// to its physical slot.  Indices at or past the capacity loop around,
    /// and an index equivalent to 0 resolves to the slot of forward logical
    /// index 0.
    pub fn internal_index_reversed(&self, index: usize) -> (r: usize)
        requires
            self.wf(),
        ensures
            r as int == physical_of_reversed(self.origin(), self.capacity(), index as int),
            (r as nat) < self.capacity(),
    {
        let len = self.list.len();
        let j = index % len;
        offset_slot(self.first, len - j, len)
    }

    /// Returns a reference to the element at forward logical index `index`
    /// (0 is the most recently queued element).  Out-of-range indices loop
    /// around, so this never fails.
    pub fn get(&self, index: usize) -> (r: &T)
        requires
            self.wf(),
        ensures
            *r == self@[(index as int) % (self@.len() as int)],
            *r == self.storage_seq()[physical_of(self.origin(), self.capacity(), index as int)],
    {
        let i = self.internal_index(index);
        proof {
            lemma_mod_bound(index as int, self.capacity() as int);
            lemma_mod_mod_vanish(self.origin() as int, index as int, self.capacity() as int);
        }
        &self.list[i]
    }

    /// Returns a mutable reference to the element at forward logical index
    /// `index` (0 is the most recently queued element).  Out-of-range
    /// indices loop around.  The slot it denotes is the one `get` reads.
    pub fn get_mut(&mut self, index: usize) -> (r: &mut T)
        requires
            old(self).wf(),
        ensures
            final(self).wf(),
            final(self).origin() == old(self).origin(),
            final(self).capacity() == old(self).capacity(),
            *r == old(self)@[(index as int) % (old(self)@.len() as int)],
            *r == old(self).storage_seq()[physical_of(
                old(self).origin(),
                old(self).capacity(),
                index as int,
            )],
            final(self)@ == old(self)@.update(
                (index as int) % (old(self)@.len() as int),
                *final(r),
            ),
            final(self).storage_seq() == old(self).storage_seq().update(
                physical_of(old(self).origin(), old(self).capacity(), index as int),
                *final(r),
            ),
    {
        let i = self.internal_index(index);
        let ghost j = (index as int) % (old(self).capacity() as int);
        proof {
            lemma_mod_bound(index as int, old(self).capacity() as int);
            lemma_mod_mod_vanish(
                old(self).origin() as int,
                index as int,
                old(self).capacity() as int,
            );
        }
        let r = &mut self.list[i];
        proof {
            lemma_logical_update(old(self).storage_seq(), old(self).origin(), j, *final(r));
        }
        r
    }

    /// Rotates the logical origin `index` positions forward: the element
    /// previously at forward logical index `index` becomes logical index 0.
    /// Element values are untouched.  Out-of-range offsets loop around.
    pub fn set_first(&mut self, index: usize)
        requires
            old(self).wf(),
        ensures
            final(self).wf(),
            final(self).capacity() == old(self).capacity(),
            final(self).storage_seq() == old(self).storage_seq(),
            final(self).origin() == physical_of(
                old(self).origin(),
                old(self).capacity(),
                index as int,
            ),
            forall|k: int|
                0 <= k < old(self)@.len() ==> #[trigger] final(self)@[k] == old(self)@[(k
                    + index) % (old(self)@.len() as int)],
    {
        self.first = self.internal_index(index);
        proof {
            lemma_logical_rotate(old(self).storage_seq(), old(self).origin(), index as int);
            assert(self@ == logical_view(
                old(self).storage_seq(),
                physical_of(old(self).origin(), old(self).capacity(), index as int) as nat,
            ));
        }
    }

    /// Replaces the most recently queued element (forward logical index 0)
    /// with `elem`, returning the element it replaced.  The origin does not
    /// move.
    pub fn swap(&mut self, elem: T) -> (r: T)
        requires
            old(self).wf(),
        ensures
            final(self).wf(),
            final(self).origin() == old(self).origin(),
            final(self).capacity() == old(self).capacity(),
            r == old(self)@[0],
            final(self)@ == old(self)@.update(0, elem),
    {
        let mut e = elem;
        let f = self.first;
        proof {
            lemma_small_mod(old(self).origin(), old(self).capacity());
        }
        let slot = &mut self.list[f];
        core::mem::swap(slot, &mut e);
        proof {
            lemma_logical_update(old(self).storage_seq(), old(self).origin(), 0, elem);
        }
        e
    }

    /// Replaces the element at forward logical index `index` with `elem`,
    /// returning the element it replaced.  The origin does not move.
    /// Out-of-range indices loop around.
    pub fn swap_at(&mut self, index: usize, elem: T) -> (r: T)
        requires
            old(self).wf(),
        ensures
            final(self).wf(),
            final(self).origin() == old(self).origin(),
            final(self).capacity() == old(self).capacity(),
            r == old(self)@[(index as int) % (old(self)@.len() as int)],
            final(self)@ == old(self)@.update((index as int) % (old(self)@.len() as int), elem),
    {
        let mut e = elem;
        let i = self.internal_index(index);
        let ghost j = (index as int) % (old(self).capacity() as int);
        proof {
            lemma_mod_bound(index as int, old(self).capacity() as int);
            lemma_mod_mod_vanish(
                old(self).origin() as int,
                index as int,
                old(self).capacity() as int,
            );
        }
        let slot = &mut self.list[i];
        core::mem::swap(slot, &mut e);
        proof {
            lemma_logical_update(old(self).storage_seq(), old(self).origin(), j, elem);
        }
        e
    }

    /// Queues `elem` as the new most recently queued element (forward
    /// logical index 0) and returns the evicted oldest element, the one
    /// that stood at forward logical index `len() - 1`.
    pub fn queue(&mut self, elem: T) -> (r: T)
        requires
            old(self).wf(),
        ensures
            final(self).wf(),
            final(self).capacity() == old(self).capacity(),
            final(self).origin() == physical_of_reversed(
                old(self).origin(),
                old(self).capacity(),
                1,
            ),
            r == old(self)@.last(),
            final(self)@ == spec_queue(old(self)@, elem),
    {
        let ghost st = old(self).storage_seq();
        let ghost o = old(self).origin();
        let ghost len = old(self).capacity();
        let f = self.internal_index_reversed(1);
        self.first = f;
        let ghost d = len as int - 1int % (len as int);
        proof {
            if len == 1 {
                vstd::arithmetic::div_mod::lemma_mod_self_0(1);
            } else {
                lemma_small_mod(1, len);
            }
            lemma_logical_rotate(st, o, d);
            lemma_small_mod(f as nat, len);
        }
        let mut e = elem;
        let slot = &mut self.list[f];
        core::mem::swap(slot, &mut e);
        proof {
            lemma_logical_update(st, f as nat, 0, elem);
            let mid = logical_view(st, f as nat);
            assert(f as int == physical_of(o, len, d));
            assert(mid == logical_view(st, physical_of(o, len, d) as nat));
            assert(self@ == mid.update(0, elem));
            assert forall|k: int| 0 <= k < len implies self@[k] == spec_queue(old(self)@, elem)[k]
                by {
                if k != 0 {
                    assert(mid[k] == old(self)@[(k + d) % (len as int)]);
                    lemma_fundamental_div_mod_converse_mod(k + d, len as int, 1int, k - 1);
                }
            }
            assert(self@ =~= spec_queue(old(self)@, elem));
            assert(mid[0] == old(self)@[(0int + d) % (len as int)]);
            if len == 1 {
                vstd::arithmetic::div_mod::lemma_mod_self_0(1);
            } else {
                lemma_small_mod((len - 1) as nat, len);
            }
            assert((0int + d) % (len as int) == len - 1);
        }
        e
    }

    /// Queues `elem` in reversed order: `elem` becomes the oldest element
    /// (forward logical index `len() - 1`) and the previous most recently
    /// queued element (forward logical index 0) is evicted and returned.
    pub fn queue_reversed(&mut self, elem: T) -> (r: T)
        requires
            old(self).wf(),
        ensures
            final(self).wf(),
            final(self).capacity() == old(self).capacity(),
            final(self).origin() == physical_of(old(self).origin(), old(self).capacity(), 1),
            r == old(self)@[0],
            final(self)@ == spec_queue_reversed(old(self)@, elem),
    {
        let ghost st = old(self).storage_seq();
        let ghost o = old(self).origin();
        let ghost len = old(self).capacity();
        let f = self.first;
        proof {
            lemma_small_mod(o, len);
        }
        let mut e = elem;
        let slot = &mut self.list[f];
        core::mem::swap(slot, &mut e);
        proof {
            lemma_logical_update(st, o, 0, elem);
        }
        let nf = self.internal_index(1);
        self.first = nf;
        proof {
            let st1 = st.update(f as int, elem);
            lemma_logical_rotate(st1, o, 1);
            assert(self@ == logical_view(st1, physical_of(o, len, 1) as nat));
            let mid = logical_view(st1, o);
            assert(mid == old(self)@.update(0, elem));
            assert forall|k: int| 0 <= k < len implies self@[k] == spec_queue_reversed(
                old(self)@,
                elem,
            )[k] by {
                if k < len - 1 {
                    lemma_small_mod((k + 1) as nat, len);
                } else {
                    vstd::arithmetic::div_mod::lemma_mod_self_0(len as int);
                }
            }
            assert(self@ =~= spec_queue_reversed(old(self)@, elem));
        }
        e
    }

    /// Exchanges the elements at forward logical indices `a` and `b` in
    /// place.  The origin does not move.  Out-of-range indices loop around.
    pub fn swap_internal(&mut self, a: usize, b: usize)
        requires
            old(self).wf(),
        ensures
            final(self).wf(),
            final(self).origin() == old(self).origin(),
            final(self).capacity() == old(self).capacity(),
            final(self)@ == old(self)@.update(
                (a as int) % (old(self)@.len() as int),
                old(self)@[(b as int) % (old(self)@.len() as int)],
            ).update(
                (b as int) % (old(self)@.len() as int),
                old(self)@[(a as int) % (old(self)@.len() as int)],
            ),
    {
        let ia = self.internal_index(a);
        let ib = self.internal_index(b);
        swap_vec_elems(&mut self.list, ia, ib);
        proof {
            let st = old(self).storage_seq();
            let o = old(self).origin();
            let len = old(self).capacity();
            let ja = (a as int) % (len as int);
            let jb = (b as int) % (len as int);
            lemma_mod_bound(a as int, len as int);
            lemma_mod_bound(b as int, len as int);
            lemma_mod_mod_vanish(o as int, a as int, len as int);
            lemma_mod_mod_vanish(o as int, b as int, len as int);
            lemma_logical_update(st, o, ja, st[ib as int]);
            lemma_logical_update(st.update(ia as int, st[ib as int]), o, jb, st[ia as int]);
        }
    }
}

impl<T: Copy> CircularBuffer<T> {
    /// The bounded traversal: the elements in forward logical order, newest
    /// to oldest, exactly `len()` of them.
    pub fn iter(&self) -> (r: Vec<T>)
        requires
            self.wf(),
        ensures
            r@ == self@,
    {
        let len = self.list.len();
        let mut r: Vec<T> = Vec::new();
        let mut k: usize = 0;
        while k < len
            invariant
                self.wf(),
                len as nat == self.capacity(),
                k <= len,
                r@.len() == k as nat,
                forall|j: int| 0 <= j < k ==> r@[j] == self@[j],
            decreases len - k,
        {
            let x = *self.get(k);
            proof {
                lemma_small_mod(k as nat, self.capacity());
            }
            r.push(x);
            k += 1;
        }
        proof {
            assert(r@ =~= self@);
        }
        r
    }

    /// The first `count` elements of the unbounded traversal, which starts
    /// at the most recently queued element and repeats the whole buffer
    /// forever once past the oldest one.
    pub fn iter_circular(&self, count: usize) -> (r: Vec<T>)
        requires
            self.wf(),
        ensures
            r@.len() == count as nat,
            forall|j: int| 0 <= j < count ==> r@[j] == self@[j % (self@.len() as int)],
    {
        let mut r: Vec<T> = Vec::new();
        let mut k: usize = 0;
        while k < count
            invariant
                self.wf(),
                k <= count,
                r@.len() == k as nat,
                forall|j: int| 0 <= j < k ==> r@[j] == self@[j % (self@.len() as int)],
            decreases count - k,
        {
            let x = *self.get(k);
            r.push(x);
            k += 1;
        }
        r
    }
}

/// Distinct logical indices below the capacity occupy distinct physical
/// slots.
proof fn lemma_physical_injective(origin: nat, len: nat, a: int, b: int)
    requires
        len > 0,
        0 <= a < len,
        0 <= b < len,
        a != b,
    ensures
        physical_of(origin, len, a) != physical_of(origin, len, b),
{
    vstd::arithmetic::div_mod::lemma_mod_equivalence(origin + a, origin + b, len as int);
    if a > b {
        lemma_small_mod((a - b) as nat, len);
    } else {
        vstd::arithmetic::div_mod::lemma_mod_equivalence(origin + b, origin + a, len as int);
        lemma_small_mod((b - a) as nat, len);
    }
}

/// Writing `v` into the physical slot of logical index `j` updates the
/// logical view at `j` and nowhere else.
proof fn lemma_logical_update<T>(storage: Seq<T>, origin: nat, j: int, v: T)
    requires
        storage.len() > 0,
        origin < storage.len(),
        0 <= j < storage.len(),
    ensures
        logical_view(storage.update(physical_of(origin, storage.len(), j), v), origin)
            =~= logical_view(storage, origin).update(j, v),
{
    let len = storage.len();
    let pj = physical_of(origin, len, j);
    lemma_mod_bound(origin + j, len as int);
    let s1 = logical_view(storage.update(pj, v), origin);
    let s2 = logical_view(storage, origin).update(j, v);
    assert forall|k: int| 0 <= k < len implies s1[k] == s2[k] by {
        lemma_mod_bound(origin + k, len as int);
        if k != j {
            lemma_physical_injective(origin, len, k, j);
        }
    }
}

/// Advancing the origin by `d` positions rotates the logical view left by
/// `d` positions.
proof fn lemma_logical_rotate<T>(storage: Seq<T>, origin: nat, d: int)
    requires
        storage.len() > 0,
        origin < storage.len(),
        0 <= d,
    ensures
        forall|k: int|
            0 <= k < storage.len() ==> #[trigger] logical_view(
                storage,
                physical_of(origin, storage.len(), d) as nat,
            )[k] == logical_view(storage, origin)[(k + d) % (storage.len() as int)],
{
    let len = storage.len() as int;
    let o2 = physical_of(origin, storage.len(), d);
    lemma_mod_bound(origin + d, len);
    assert forall|k: int| 0 <= k < len implies #[trigger] logical_view(storage, o2 as nat)[k]
        == logical_view(storage, origin)[(k + d) % len] by {
        lemma_mod_bound(k + d, len);
        lemma_mod_bound(origin + ((k + d) % len), len);
        // Both sides read the physical slot (origin + d + k) % len.
        lemma_mod_mod_vanish(k as int, origin + d, len);
        lemma_mod_mod_vanish(origin as int, k + d, len);
    }
}

/// `(first + index) % len` equals `(first + index % len) % len`: reducing
/// the logical index first does not change the physical slot.
proof fn lemma_mod_mod_vanish(first: int, index: int, len: int)
    requires
        len > 0,
        index >= 0,
    ensures
        (first + index % len) % len == (first + index) % len,
{
    vstd::arithmetic::div_mod::lemma_add_mod_noop_right(first, index, len);
}

/// Exchanges the elements of `v` at positions `i` and `j` in place, without
/// cloning them.
fn swap_vec_elems<T>(v: &mut Vec<T>, i: usize, j: usize)
    requires
        i < old(v)@.len(),
        j < old(v)@.len(),
    ensures
        final(v)@ == old(v)@.update(i as int, old(v)@[j as int]).update(
            j as int,
            old(v)@[i as int],
        ),
{
    if i == j {
        proof {
            assert(old(v)@ =~= old(v)@.update(i as int, old(v)@[i as int]).update(
                i as int,
                old(v)@[i as int],
            ));
        }
        return ;
    }
    let lo = if i < j {
        i
    } else {
        j
    };
    let hi = if i < j {
        j
    } else {
        i
    };
    let s = v.as_mut_slice();
    let (left, right) = s.split_at_mut(hi);
    let (_, inner) = left.split_at_mut(lo);
    let a = inner.first_mut();
    let b = right.first_mut();
    match (a, b) {
        (Some(x), Some(y)) => {
            core::mem::swap(x, y);
        },
        _ => {
            proof {
                assert(false);
            }
        },
    }
    proof {
        assert(final(v)@ =~= old(v)@.update(lo as int, old(v)@[hi as int]).update(
            hi as int,
            old(v)@[lo as int],
        ));
        assert(old(v)@.update(lo as int, old(v)@[hi as int]).update(hi as int, old(v)@[lo as int])
            =~= old(v)@.update(i as int, old(v)@[j as int]).update(j as int, old(v)@[i as int]));
    }
}

/// The buffer content after queuing each element of `xs` in turn, oldest
/// queued first.
pub open spec fn spec_queue_all<T>(s: Seq<T>, xs: Seq<T>) -> Seq<T>
    recommends
        s.len() > 0,
    decreases xs.len(),
{
    if xs.len() == 0 {
        s
    } else {
        spec_queue_all(spec_queue(s, xs[0]), xs.drop_first())
    }
}

/// The elements evicted while queuing each element of `xs` in turn.
pub open spec fn spec_evictions<T>(s: Seq<T>, xs: Seq<T>) -> Seq<T>
    recommends
        s.len() > 0,
    decreases xs.len(),
{
    if xs.len() == 0 {
        Seq::empty()
    } else {
        seq![s.last()] + spec_evictions(spec_queue(s, xs[0]), xs.drop_first())
    }
}

/// Queuing at most `s.len()` values evicts a prefix of `s.reverse()` and
/// leaves the queued values newest-first in front of what remains of `s`.
proof fn lemma_queue_all_prefix<T>(s: Seq<T>, xs: Seq<T>)
    requires
        s.len() > 0,
        xs.len() <= s.len(),
    ensures
        spec_evictions(s, xs) =~= s.reverse().take(xs.len() as int),
        spec_queue_all(s, xs) =~= xs.reverse() + s.take(s.len() - xs.len()),
    decreases xs.len(),
{
    if xs.len() == 0 {
        assert(s.take(s.len() as int) =~= s);
    } else {
        let s1 = spec_queue(s, xs[0]);
        lemma_queue_all_prefix(s1, xs.drop_first());
    }
}

/// Law: queuing as many values as the buffer holds evicts, in order,
/// exactly the previous content oldest-first, and afterwards the buffer
/// holds exactly the queued values newest-first.
pub proof fn lemma_queue_eviction_order<T>(s: Seq<T>, xs: Seq<T>)
    requires
        s.len() > 0,
        xs.len() == s.len(),
    ensures
        spec_evictions(s, xs) == s.reverse(),
        spec_queue_all(s, xs) == xs.reverse(),
{
    lemma_queue_all_prefix(s, xs);
    assert(s.reverse().take(s.len() as int) =~= s.reverse());
    assert(xs.reverse() + s.take(0) =~= xs.reverse());
}

/// Law: translating a forward logical index to a physical slot is
/// invariant under adding any whole number of full turns around the
/// buffer.
pub proof fn lemma_index_wraparound(origin: nat, len: nat, i: int, k: nat)
    requires
        len > 0,
        0 <= i,
    ensures
        physical_of(origin, len, i + k * len) == physical_of(origin, len, i),
{
    vstd::arithmetic::mul::lemma_mul_is_commutative(k as int, len as int);
    vstd::arithmetic::div_mod::lemma_mod_multiples_vanish(
        k as int,
        origin + i,
        len as int,
    );
}

/// Law: queuing forward puts the new element at forward logical index 0;
/// queuing reversed puts it at forward logical index `len - 1`.
pub proof fn lemma_queue_duality<T>(s: Seq<T>, x: T)
    requires
        s.len() > 0,
    ensures
        spec_queue(s, x)[0] == x,
        spec_queue_reversed(s, x)[s.len() - 1] == x,
{
}

/// Law: a buffer rebuilt from the raw parts another buffer was decomposed
/// into is observably identical: same capacity, same origin, and the same
/// element at every logical index.
pub proof fn lemma_raw_parts_round_trip<T>(a: CircularBuffer<T>, b: CircularBuffer<T>)
    requires
        a.wf(),
        b.storage_seq() == a.storage_seq(),
        b.origin() == a.origin(),
    ensures
        b.wf(),
        b@ == a@,
{
}

/// Advances a physical slot by `delta` positions, wrapping around, without
/// intermediate overflow.
fn offset_slot(first: usize, delta: usize, len: usize) -> (r: usize)
    requires
        len > 0,
        first < len,
        delta <= len,
    ensures
        r as int == (first + delta) % (len as int),
        r < len,
{
    if delta < len - first {
        proof {
            lemma_small_mod((first + delta) as nat, len as nat);
        }
        first + delta
    } else {
        proof {
            lemma_fundamental_div_mod_converse_mod(
                first + delta,
                len as int,
                1int,
                first + delta - len,
            );
        }
        delta - (len - first)
    }
}

} // verus!
