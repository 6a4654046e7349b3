//! A sliding window: a sparse ring of `N` slots indexed by a monotonically
//! increasing 64-bit key. The logical window is the half-open key interval
//! `[start, start + N)`; `start` advances only when the value at key `start`
//! is removed, and then skips every immediately following key that was
//! already removed, up to the first key still pending (or still live), and
//! never past the high-water mark left by the furthest insert.
//!
//! A key that was never filled is distinct from one whose value was removed:
//! the advance skips removed keys but waits at a pending one, so a consumer
//! that pops the front never passes over a key whose value is yet to come.

use vstd::map::*;
use vstd::prelude::*;
use vstd::assert_sets_equal;
use vstd::set::*;

verus! {

/// Why a window operation could not be carried out.
#[derive(Clone, Copy, Debug, PartialEq, Eq, Structural)]
pub enum WindowError {
    /// The key lies below `start`: the window has moved past it.
    TooOld,
    /// The key lies at or beyond `start + N`: the window has not reached it.
    OutOfWindow,
    /// The key lies at or beyond `start + N`; room must first be made by
    /// removing entries at the front.
    Full,
    /// The key already holds a live value.
    Duplicate,
    /// The key holds no value.
    Missing,
}

/// One ring slot: never filled in the current stretch, holding a live value,
/// or emptied by a removal and waiting for the front to pass by.
enum Slot<T> {
    Vacant,
    Filled(T),
    Consumed,
}

impl<T> Slot<T> {
    /// Whether this slot's value was removed and awaits the passing front.
    fn is_consumed(&self) -> (b: bool)
        ensures
            b == (self is Consumed),
    {
        match self {
            Slot::Consumed => true,
            _ => false,
        }
    }
}

/// Two distinct keys less than one ring length apart never share a slot.
proof fn lemma_slots_distinct(len: int, a: int, b: int)
    requires
        0 < len,
        0 <= a,
        0 <= b,
        a != b,
        a - len < b < a + len,
    ensures
        a % len != b % len,
{
    assert(a % len != b % len) by (nonlinear_arith)
        requires
            0 < len,
            0 <= a,
            0 <= b,
            a != b,
            a - len < b < a + len,
    ;
}

/// Slots repeat with the period of the ring length.
proof fn lemma_slot_period(len: int, k: int)
    requires
        0 < len,
        0 <= k,
    ensures
        (k + len) % len == k % len,
{
    assert((k + len) % len == k % len) by (nonlinear_arith)
        requires
            0 < len,
            0 <= k,
    ;
}

/// A sliding window that holds items of type `T`.
pub struct SlidingWindow<T> {
    /// The ring. A key `k` lives in slot `k % items.len()`.
    items: Vec<Slot<T>>,
    /// First key of the window.
    start: u64,
    /// Length of the span `[start, start + span)` that holds every live or
    /// consumed key: the distance from `start` to one past the furthest slot
    /// ever occupied in the current stretch (the tail marker, in key space).
    span: usize,
}

impl<T> SlidingWindow<T> {
    /// Number of slots in the ring.
    pub closed spec fn capacity(self) -> int {
        self.items@.len() as int
    }

    /// First key of the window.
    pub closed spec fn start_key(self) -> u64 {
        self.start
    }

    /// One past the highest key that may hold a value: the tail marker.
    /// Removal at the front never advances `start` beyond it.
    pub closed spec fn bound(self) -> int {
        self.start + self.span
    }

    /// The ring slot that holds key `k`.
    spec fn slot_of(self, k: int) -> int {
        k % (self.items@.len() as int)
    }

    /// The live entries, as a map from key to value.
    pub closed spec fn contents(self) -> Map<u64, T> {
        Map::new(
            |k: u64|
                self.start <= k < self.start + self.items@.len() && self.items@[self.slot_of(
                    k as int,
                )] is Filled,
            |k: u64| self.items@[self.slot_of(k as int)]->0,
        )
    }

    /// The keys whose values were removed while the front still stood below
    /// them; the front will skip them as it advances.
    pub closed spec fn consumed(self) -> Set<u64> {
        Set::new(
            |k: u64|
                self.start <= k < self.start + self.items@.len() && self.items@[self.slot_of(
                    k as int,
                )] is Consumed,
        )
    }

    /// Well-formedness: the ring has at least two slots, the live span fits
    /// both the ring and the key space, and every key past the tail marker is
    /// untouched.
    pub closed spec fn wf(self) -> bool {
        &&& self.items@.len() >= 2
        &&& self.span <= self.items@.len()
        &&& self.start + self.span <= u64::MAX
        &&& forall|k: int|
            self.start + self.span <= k < self.start + self.items@.len() ==> self.items@[
                #[trigger] self.slot_of(k)
            ] is Vacant
    }

    /// Create a window with the given number of slots.
    pub fn new(window_size: usize) -> (w: SlidingWindow<T>)
        requires
            2 <= window_size,
        ensures
            w.wf(),
            w.capacity() == window_size,
            w.start_key() == 0,
            w.bound() == 1,
            w.contents() == Map::<u64, T>::empty(),
            w.consumed() == Set::<u64>::empty(),
    {
        let mut items: Vec<Slot<T>> = Vec::new();
        let mut i: usize = 0;
        while i < window_size
            invariant
                i <= window_size,
                items@.len() == i,
                forall|j: int| 0 <= j < i ==> items@[j] is Vacant,
            decreases window_size - i,
        {
            items.push(Slot::Vacant);
            i += 1;
        }
        let w = SlidingWindow { items, start: 0u64, span: 1usize };
        proof {
            assert(w.contents() =~= Map::<u64, T>::empty());
            assert(w.consumed() =~= Set::<u64>::empty());
        }
        w
    }

    /// Insert `item` at key `loc`. A key below `start` fails `TooOld`; one at
    /// or beyond `start + N` fails `Full` (the caller makes room by removing
    /// entries at the front, then retries); a key already holding a live
    /// value fails `Duplicate`. On success the entry becomes live and the
    /// tail marker advances to cover it; `start` never moves and no other
    /// entry changes.
    pub fn insert(&mut self, loc: u64, item: T) -> (r: Result<(), WindowError>)
        requires
            old(self).wf(),
            loc < u64::MAX,
        ensures
            final(self).wf(),
            final(self).capacity() == old(self).capacity(),
            final(self).start_key() == old(self).start_key(),
            r == Err::<(), WindowError>(WindowError::TooOld) <==> loc < old(self).start_key(),
            r == Err::<(), WindowError>(WindowError::Full) <==> loc >= old(self).start_key()
                + old(self).capacity(),
            r == Err::<(), WindowError>(WindowError::Duplicate) <==> (old(self).start_key() <= loc
                < old(self).start_key() + old(self).capacity() && old(
                self,
            ).contents().contains_key(loc)),
            r is Err ==> *final(self) == *old(self),
            r is Ok <==> (old(self).start_key() <= loc < old(self).start_key() + old(
                self,
            ).capacity() && !old(self).contents().contains_key(loc)),
            r is Ok ==> insert_transition(*old(self), *final(self), loc, item),
            r is Ok ==> final(self).bound() == if loc + 1 > old(self).bound() {
                loc + 1
            } else {
                old(self).bound()
            },
            r is Err ==> final(self).bound() == old(self).bound(),
    {
        if loc < self.start {
            return Err(WindowError::TooOld);
        }
        let rel = loc - self.start;
        if rel >= self.items.len() as u64 {
            return Err(WindowError::Full);
        }
        let len = self.items.len();
        let slot = (loc % (len as u64)) as usize;
        match &self.items[slot] {
            Slot::Filled(_) => {
                return Err(WindowError::Duplicate);
            },
            _ => {},
        }
        let rel1 = rel as usize + 1;
        if rel1 > self.span {
            self.span = rel1;
        }
        self.items.set(slot, Slot::Filled(item));
        proof {
            let lenint = len as int;
            assert forall|k: int|
                self.start + self.span <= k < self.start + self.items@.len() implies self.items@[
                #[trigger] self.slot_of(k)
            ] is Vacant by {
                lemma_slots_distinct(lenint, loc as int, k);
                assert(old(self).items@[old(self).slot_of(k)] is Vacant);
            }
            assert forall|k: u64|
                old(self).start <= k < old(self).start + lenint && k != loc implies self.slot_of(
                k as int,
            ) != self.slot_of(loc as int) by {
                lemma_slots_distinct(lenint, loc as int, k as int);
            }
            assert(self.contents() =~= old(self).contents().insert(loc, item));
            assert(self.consumed() =~= old(self).consumed().remove(loc));
        }
        Ok(())
    }

    /// Remove and return the value at key `loc`. A key outside the window
    /// fails `TooOld` or `OutOfWindow`; a key holding no live value fails
    /// `Missing`, and no failure moves `start`. Removing the value at key
    /// `start` advances `start` past every immediately following consumed
    /// key, stopping at the first key that is live or still pending (or at
    /// the tail marker); removing any other key marks it consumed and leaves
    /// `start` alone.
    pub fn remove(&mut self, loc: u64) -> (r: Result<T, WindowError>)
        requires
            old(self).wf(),
        ensures
            final(self).wf(),
            final(self).capacity() == old(self).capacity(),
            final(self).bound() == old(self).bound(),
            final(self).start_key() >= old(self).start_key(),
            r == Err::<T, WindowError>(WindowError::TooOld) <==> loc < old(self).start_key(),
            r == Err::<T, WindowError>(WindowError::OutOfWindow) <==> loc >= old(self).start_key()
                + old(self).capacity(),
            r == Err::<T, WindowError>(WindowError::Missing) <==> (old(self).start_key() <= loc
                < old(self).start_key() + old(self).capacity() && !old(
                self,
            ).contents().contains_key(loc)),
            r is Err ==> *final(self) == *old(self),
            r is Ok <==> old(self).contents().contains_key(loc),
            r matches Ok(v) ==> removal_transition(*old(self), *final(self), loc, v),
    {
        if loc < self.start {
            return Err(WindowError::TooOld);
        }
        let rel = loc - self.start;
        if rel >= self.items.len() as u64 {
            return Err(WindowError::OutOfWindow);
        }
        let len = self.items.len();
        let slot = (loc % (len as u64)) as usize;
        match &self.items[slot] {
            Slot::Filled(_) => {},
            _ => {
                return Err(WindowError::Missing);
            },
        }
        let mut taken: Slot<T> = Slot::Consumed;
        self.items.set_and_swap(slot, &mut taken);
        let v = match taken {
            Slot::Filled(v) => v,
            _ => vstd::pervasive::unreached(),
        };
        if rel == 0 {
            self.items.set(slot, Slot::Vacant);
            self.start = self.start + 1;
            self.span = self.span - 1;
            proof {
                assert(old(self).slot_of(loc as int) == slot as int);
                assert(self.items@ =~= old(self).items@.update(slot as int, Slot::Vacant));
                assert forall|k2: int|
                    self.start <= k2 < old(self).start + len implies self.items@[#[trigger] old(
                    self,
                ).slot_of(k2)] == old(self).items@[old(self).slot_of(k2)] by {
                    lemma_slots_distinct(len as int, loc as int, k2);
                }
            }
            while self.span > 0 && self.items[(self.start % (len as u64)) as usize].is_consumed()
                invariant
                    old(self).wf(),
                    len == old(self).items@.len(),
                    2 <= len,
                    self.items@.len() == len,
                    self.span <= old(self).span,
                    old(self).start < self.start,
                    self.start + self.span == old(self).start + old(self).span,
                    old(self).start + old(self).span <= u64::MAX,
                    loc == old(self).start,
                    forall|k2: int|
                        old(self).start <= k2 < self.start ==> self.items@[#[trigger] old(
                            self,
                        ).slot_of(k2)] is Vacant,
                    forall|k2: int|
                        old(self).start < k2 < self.start ==> old(self).items@[#[trigger] old(
                            self,
                        ).slot_of(k2)] is Consumed,
                    forall|k2: int|
                        self.start <= k2 < old(self).start + len ==> self.items@[#[trigger] old(
                            self,
                        ).slot_of(k2)] == old(self).items@[old(self).slot_of(k2)],
                decreases self.span,
            {
                let s = (self.start % (len as u64)) as usize;
                proof {
                    assert(old(self).slot_of(self.start as int) == s as int);
                    assert(old(self).items@[old(self).slot_of(self.start as int)] is Consumed);
                }
                self.items.set(s, Slot::Vacant);
                self.start = self.start + 1;
                self.span = self.span - 1;
                proof {
                    assert forall|k2: int|
                        self.start <= k2 < old(self).start + len implies self.items@[
                        #[trigger] old(self).slot_of(k2)
                    ] == old(self).items@[old(self).slot_of(k2)] by {
                        lemma_slots_distinct(len as int, self.start - 1, k2);
                    }
                }
            }
            proof {
                let lenint = len as int;
                assert forall|k2: int|
                    self.start + self.span <= k2 < self.start + lenint implies self.items@[
                    #[trigger] self.slot_of(k2)
                ] is Vacant by {
                    assert(self.slot_of(k2) == old(self).slot_of(k2));
                    if k2 < old(self).start + lenint {
                        if self.start <= k2 {
                            assert(old(self).items@[old(self).slot_of(k2)] is Vacant);
                        }
                    } else {
                        lemma_slot_period(lenint, k2 - lenint);
                        assert(old(self).slot_of(k2) == old(self).slot_of(k2 - lenint));
                        assert(self.items@[old(self).slot_of(k2 - lenint)] is Vacant);
                    }
                }
                assert(self.wf());
                assert_maps_equal!(self.contents(), old(self).contents().remove(loc), k2 => {
                    assert(self.slot_of(k2 as int) == old(self).slot_of(k2 as int));
                    if old(self).start <= k2 < old(self).start + lenint && k2 != loc {
                        lemma_slots_distinct(lenint, loc as int, k2 as int);
                    }
                    if old(self).start + lenint <= k2 < self.start + lenint {
                        lemma_slot_period(lenint, k2 - lenint);
                        assert(old(self).slot_of(k2 as int) == old(self).slot_of(k2 - lenint));
                        assert(self.items@[old(self).slot_of(k2 - lenint)] is Vacant);
                    }
                });
                assert_sets_equal!(self.consumed(),
                    old(self).consumed().filter(|k2: u64| k2 >= self.start_key()), k2 => {
                    assert(self.slot_of(k2 as int) == old(self).slot_of(k2 as int));
                    if old(self).start <= k2 < old(self).start + lenint && k2 != loc {
                        lemma_slots_distinct(lenint, loc as int, k2 as int);
                    }
                    if old(self).start + lenint <= k2 < self.start + lenint {
                        lemma_slot_period(lenint, k2 - lenint);
                        assert(old(self).slot_of(k2 as int) == old(self).slot_of(k2 - lenint));
                        assert(self.items@[old(self).slot_of(k2 - lenint)] is Vacant);
                    }
                });
                assert forall|k2: u64|
                    old(self).start < k2 < self.start implies old(self).consumed().contains(
                    k2,
                ) by {
                    assert(old(self).items@[old(self).slot_of(k2 as int)] is Consumed);
                }
            }
        } else {
            proof {
                let lenint = len as int;
                assert forall|k2: int|
                    self.start + self.span <= k2 < self.start + lenint implies self.items@[
                    #[trigger] self.slot_of(k2)
                ] is Vacant by {
                    if self.slot_of(k2) != slot as int {
                        assert(old(self).items@[old(self).slot_of(k2)] is Vacant);
                    }
                }
                assert forall|k2: u64|
                    old(self).start <= k2 < old(self).start + lenint && k2 != loc implies self
                    .slot_of(k2 as int) != self.slot_of(loc as int) by {
                    lemma_slots_distinct(lenint, loc as int, k2 as int);
                }
                assert(self.contents() =~= old(self).contents().remove(loc));
                assert(self.consumed() =~= old(self).consumed().insert(loc));
            }
        }
        Ok(v)
    }

    /// Remove and return the value at the head of the window — key `start` —
    /// or `None` while that key holds no live value. The caller that wants
    /// the blocking behaviour retries until a value arrives.
    pub fn pop(&mut self) -> (r: Option<T>)
        requires
            old(self).wf(),
        ensures
            final(self).wf(),
            final(self).capacity() == old(self).capacity(),
            final(self).bound() == old(self).bound(),
            final(self).start_key() >= old(self).start_key(),
            r is Some <==> old(self).contents().contains_key(old(self).start_key()),
            r matches Some(v) ==> pop_transition(*old(self), *final(self), old(self).start_key(), v),
            r is None ==> *final(self) == *old(self),
    {
        let s = self.start;
        match self.remove(s) {
            Result::Ok(v) => Option::Some(v),
            Result::Err(_) => Option::None,
        }
    }

    /// Borrow the value at key `loc`, or `None` if that key holds none.
    pub fn get(&self, loc: u64) -> (r: Option<&T>)
        requires
            self.wf(),
        ensures
            r is Some <==> self.contents().contains_key(loc),
            r matches Some(v) ==> *v == self.contents()[loc],
    {
        if loc < self.start {
            return Option::None;
        }
        if loc - self.start >= self.items.len() as u64 {
            return Option::None;
        }
        let slot = (loc % (self.items.len() as u64)) as usize;
        match &self.items[slot] {
            Slot::Filled(v) => Option::Some(v),
            _ => Option::None,
        }
    }

    /// Exchange the live value at key `loc` for `item`, handing the old value
    /// back. Unlike `remove` followed by `insert`, the key never goes empty,
    /// so `start` cannot move past it. Fails exactly as `remove` does.
    pub fn replace(&mut self, loc: u64, item: T) -> (r: Result<T, WindowError>)
        requires
            old(self).wf(),
        ensures
            final(self).wf(),
            final(self).capacity() == old(self).capacity(),
            final(self).bound() == old(self).bound(),
            final(self).start_key() == old(self).start_key(),
            r == Err::<T, WindowError>(WindowError::TooOld) <==> loc < old(self).start_key(),
            r == Err::<T, WindowError>(WindowError::OutOfWindow) <==> loc >= old(self).start_key()
                + old(self).capacity(),
            r == Err::<T, WindowError>(WindowError::Missing) <==> (old(self).start_key() <= loc
                < old(self).start_key() + old(self).capacity() && !old(
                self,
            ).contents().contains_key(loc)),
            r is Err ==> *final(self) == *old(self),
            r is Ok <==> old(self).contents().contains_key(loc),
            r matches Ok(v) ==> v == old(self).contents()[loc] && final(self).contents() == old(
                self,
            ).contents().insert(loc, item) && final(self).consumed() == old(self).consumed(),
    {
        if loc < self.start {
            return Err(WindowError::TooOld);
        }
        let rel = loc - self.start;
        if rel >= self.items.len() as u64 {
            return Err(WindowError::OutOfWindow);
        }
        let len = self.items.len();
        let slot = (loc % (len as u64)) as usize;
        match &self.items[slot] {
            Slot::Filled(_) => {},
            _ => {
                return Err(WindowError::Missing);
            },
        }
        let mut swapped = Slot::Filled(item);
        self.items.set_and_swap(slot, &mut swapped);
        let v = match swapped {
            Slot::Filled(v) => v,
            _ => vstd::pervasive::unreached(),
        };
        proof {
            let lenint = len as int;
            assert forall|k2: int|
                self.start + self.span <= k2 < self.start + lenint implies self.items@[
                #[trigger] self.slot_of(k2)
            ] is Vacant by {
                lemma_slots_distinct(lenint, loc as int, k2);
                assert(old(self).items@[old(self).slot_of(k2)] is Vacant);
            }
            assert forall|k2: u64|
                old(self).start <= k2 < old(self).start + lenint && k2 != loc implies self.slot_of(
                k2 as int,
            ) != self.slot_of(loc as int) by {
                lemma_slots_distinct(lenint, loc as int, k2 as int);
            }
            assert(self.contents() =~= old(self).contents().insert(loc, item));
            assert(self.consumed() =~= old(self).consumed());
        }
        Ok(v)
    }

    /// The key interval the window currently addresses, as the half-open pair
    /// `(start, start + N)`, the upper end saturated at the top of key space.
    pub fn window(&self) -> (r: (u64, u64))
        requires
            self.wf(),
        ensures
            r.0 == self.start_key(),
            r.1 == vstd::math::min(self.start_key() + self.capacity(), u64::MAX as int),
    {
        let len = self.items.len() as u64;
        if self.start > u64::MAX - len {
            (self.start, u64::MAX)
        } else {
            (self.start, self.start + len)
        }
    }

    /// Find the lowest-keyed live value that satisfies the predicate,
    /// scanning from `start` toward the tail marker, and return its key.
    pub fn find_first<P: Fn(&T) -> bool>(&self, predicate: P) -> (r: Option<u64>)
        requires
            self.wf(),
            forall|v: &T| #[trigger] predicate.requires((v,)),
        ensures
            r matches Some(k) ==> {
                &&& self.contents().contains_key(k)
                &&& predicate.ensures((&self.contents()[k],), true)
                &&& forall|k2: u64|
                    self.start_key() <= k2 < k && self.contents().contains_key(k2)
                        ==> predicate.ensures((&self.contents()[k2],), false)
            },
            r is None ==> forall|k2: u64|
                self.contents().contains_key(k2) ==> predicate.ensures(
                    (&self.contents()[k2],),
                    false,
                ),
    {
        let len = self.items.len();
        let end = self.start + self.span as u64;
        let mut k = self.start;
        while k < end
            invariant
                self.wf(),
                self.start <= k <= end,
                end == self.start + self.span,
                len == self.items@.len(),
                forall|v: &T| #[trigger] predicate.requires((v,)),
                forall|k2: u64|
                    self.start_key() <= k2 < k && self.contents().contains_key(k2)
                        ==> predicate.ensures((&self.contents()[k2],), false),
            decreases end - k,
        {
            let slot = (k % (len as u64)) as usize;
            match &self.items[slot] {
                Slot::Filled(v) => {
                    if predicate(v) {
                        return Option::Some(k);
                    }
                },
                _ => {},
            }
            k = k + 1;
        }
        proof {
            assert forall|k2: u64| self.contents().contains_key(k2) implies predicate.ensures(
                (&self.contents()[k2],),
                false,
            ) by {
                assert(self.items@[self.slot_of(k2 as int)] is Filled);
            }
        }
        Option::None
    }

}

/// The relation a successful `remove` (or `pop`) establishes between the
/// window before and after the call: the key was live, its value is handed
/// back and is no longer live, no other entry changes, and `start` moves —
/// monotonically — exactly when the key at `start` itself was removed. It
/// then stops at the first following key that was not consumed: a key whose
/// value is still pending is never passed over.
pub open spec fn removal_transition<T>(
    pre: SlidingWindow<T>,
    post: SlidingWindow<T>,
    k: u64,
    v: T,
) -> bool {
    &&& pre.wf()
    &&& post.wf()
    &&& pre.contents().contains_key(k)
    &&& v == pre.contents()[k]
    &&& post.contents() == pre.contents().remove(k)
    &&& post.capacity() == pre.capacity()
    &&& post.bound() == pre.bound()
    &&& if k == pre.start_key() {
        &&& pre.start_key() < post.start_key() <= pre.bound()
        &&& forall|k2: u64|
            pre.start_key() < k2 < post.start_key() ==> pre.consumed().contains(k2)
        &&& !pre.consumed().contains(post.start_key())
        &&& post.consumed() == pre.consumed().filter(|k2: u64| k2 >= post.start_key())
    } else {
        &&& post.start_key() == pre.start_key()
        &&& post.consumed() == pre.consumed().insert(k)
    }
}

/// The relation a successful `insert` establishes between the window before
/// and after the call: the key held no live value inside the window, it is
/// now bound to the inserted value, and nothing else — `start` in
/// particular — changed.
pub open spec fn insert_transition<T>(
    pre: SlidingWindow<T>,
    post: SlidingWindow<T>,
    k: u64,
    v: T,
) -> bool {
    &&& pre.wf()
    &&& post.wf()
    &&& pre.start_key() <= k < pre.start_key() + pre.capacity()
    &&& !pre.contents().contains_key(k)
    &&& post.contents() == pre.contents().insert(k, v)
    &&& post.consumed() == pre.consumed().remove(k)
    &&& post.start_key() == pre.start_key()
    &&& post.capacity() == pre.capacity()
}

/// The relation a successful `pop` establishes: a removal of the value at
/// the head key `start`.
pub open spec fn pop_transition<T>(
    pre: SlidingWindow<T>,
    post: SlidingWindow<T>,
    k: u64,
    v: T,
) -> bool {
    &&& k == pre.start_key()
    &&& removal_transition(pre, post, k, v)
}

/// A well-formed window has at least two slots, and its key span never
/// outruns the key space.
pub proof fn lemma_wf_bounds<T>(w: SlidingWindow<T>)
    requires
        w.wf(),
    ensures
        w.capacity() >= 2,
        w.start_key() <= w.bound() <= w.start_key() + w.capacity(),
        w.bound() <= u64::MAX,
{
}

/// Window uniqueness: at most one live value exists per key at any time. A
/// successful insert binds its key, and no second insert at that key can
/// succeed until the first value is removed.
pub proof fn lemma_window_uniqueness<T>(w0: SlidingWindow<T>, w1: SlidingWindow<T>, k: u64, v: T)
    requires
        insert_transition(w0, w1, k, v),
    ensures
        w1.contents().contains_key(k),
        w1.contents()[k] == v,
        forall|w2: SlidingWindow<T>, v2: T| !(#[trigger] insert_transition(w1, w2, k, v2)),
{
}

/// Monotone start: no operation — insert, remove, or pop — ever moves
/// `start` backward.
pub proof fn lemma_start_monotone<T>(w0: SlidingWindow<T>, w1: SlidingWindow<T>, k: u64, v: T)
    requires
        insert_transition(w0, w1, k, v) || removal_transition(w0, w1, k, v),
    ensures
        w1.start_key() >= w0.start_key(),
{
}

/// Pop ordering: the keys handed out by successive pops on one window form a
/// strictly increasing sequence (beginning at 0 on a fresh window, whose
/// `start` is 0).
pub proof fn lemma_pop_order<T>(
    w0: SlidingWindow<T>,
    w1: SlidingWindow<T>,
    w2: SlidingWindow<T>,
    k1: u64,
    v1: T,
    k2: u64,
    v2: T,
)
    requires
        pop_transition(w0, w1, k1, v1),
        pop_transition(w1, w2, k2, v2),
    ensures
        k2 > k1,
{
}

/// In-order completeness: a window on which only the head is ever removed —
/// no key is consumed out of turn — hands out every key in succession. A pop
/// advances `start` by exactly one, so no pending key is skipped.
pub proof fn lemma_pop_consecutive<T>(w0: SlidingWindow<T>, w1: SlidingWindow<T>, k: u64, v: T)
    requires
        pop_transition(w0, w1, k, v),
        w0.consumed() == Set::<u64>::empty(),
    ensures
        w1.start_key() == w0.start_key() + 1,
        w1.consumed() == Set::<u64>::empty(),
{
    if w1.start_key() > w0.start_key() + 1 {
        assert(w0.consumed().contains((w0.start_key() + 1) as u64));
    }
    assert(w1.consumed() =~= Set::<u64>::empty());
}

} // verus!
