use vstd::arithmetic::div_mod::{lemma_mod_sub_multiples_vanish, lemma_small_mod};
use vstd::prelude::*;

verus! {

/// Why a single `pop` or `push` on a [`RingBuffer`] was refused.
#[derive(Debug, PartialEq, Eq, Structural)]
pub enum RingBufferError {
    AlreadyEmpty,
    AlreadyFull,
}

/// A first-in first-out queue of fixed capacity, stored in a preallocated
/// backing vector with a moving head index that wraps around.
#[derive(Debug)]
pub struct RingBuffer<T> {
    all: Vec<Option<T>>,
    first: usize,
    size: usize,
}

/// Index of the `i`-th slot after `first`, wrapping once around `n` slots.
pub open spec fn wrap(i: int, n: int) -> int {
    if i < n {
        i
    } else {
        i - n
    }
}

proof fn lemma_wrap_mod(i: int, n: int)
    requires
        0 <= i < 2 * n,
    ensures
        i % n == wrap(i, n),
{
    if i < n {
        lemma_small_mod(i as nat, n as nat);
    } else {
        lemma_mod_sub_multiples_vanish(i, n);
        lemma_small_mod((i - n) as nat, n as nat);
    }
}

impl<T> View for RingBuffer<T> {
    type V = Seq<T>;

    /// The queued items, oldest first.
    closed spec fn view(&self) -> Seq<T> {
        Seq::new(
            self.size as nat,
            |i: int| self.all@[wrap(self.first + i, self.all@.len() as int)]->Some_0,
        )
    }
}

impl<T> RingBuffer<T> {
    /// The number of slots, fixed at construction.
    pub closed spec fn capacity(&self) -> nat {
        self.all@.len()
    }

    /// Slots in the queued range hold an item, the others are empty.
    pub closed spec fn wf(&self) -> bool {
        let n = self.all@.len() as int;
        &&& self.size <= n
        &&& (n == 0 ==> self.first == 0)
        &&& (n > 0 ==> self.first < n)
        &&& forall|k: int|
            0 <= k < n ==> (#[trigger] self.all@[k] is Some <==> (if k >= self.first {
                k - self.first
            } else {
                k + n - self.first
            }) < self.size)
    }

    /// Builds a full queue holding `starting_vec`, its first item the oldest.
    pub fn new(starting_vec: Vec<T>) -> (r: Self)
        ensures
            r.wf(),
            r@ == starting_vec@,
            r.capacity() == starting_vec@.len(),
    {
        let mut rest = starting_vec;
        let ghost orig = rest@;
        let n = rest.len();
        let mut all: Vec<Option<T>> = Vec::new();
        let mut i: usize = 0;
        while i < n
            invariant
                n == orig.len(),
                0 <= i <= n,
                all@.len() == i,
                rest@ == orig.subrange(i as int, n as int),
                forall|k: int| 0 <= k < i ==> #[trigger] all@[k] == Some(orig[k]),
            decreases n - i,
        {
            let item = rest.remove(0);
            all.push(Some(item));
            i += 1;
        }
        let r = RingBuffer { all, first: 0, size: n };
        assert(r@ =~= orig);
        r
    }

    /// Advances a slot index by one, wrapping to the beginning past the last slot.
    pub fn add_one(&self, idx: usize) -> (r: usize)
        requires
            self.capacity() > 0,
            idx < usize::MAX,
        ensures
            r == (idx + 1) % (self.capacity() as int),
            idx < self.capacity() ==> r == wrap(idx + 1, self.capacity() as int),
    {
        let idx = idx + 1;
        let len = self.all.len();
        if idx > len - 1 {
            proof {
                if idx <= len {
                    lemma_wrap_mod(idx as int, len as int);
                }
            }
            idx % len
        } else {
            proof {
                lemma_small_mod(idx as nat, len as nat);
            }
            idx
        }
    }

    /// The oldest item, which the next `pop` would return.
    pub fn peek(&self) -> (r: &T)
        requires
            self.wf(),
            self@.len() > 0,
        ensures
            *r == self@[0],
    {
        assert(self.all@[self.first as int] is Some);
        self.all[self.first].as_ref().unwrap()
    }

    /// Takes out the oldest item; fails on an empty queue.
    pub fn pop(&mut self) -> (r: Result<T, RingBufferError>)
        requires
            old(self).wf(),
        ensures
            final(self).wf(),
            final(self).capacity() == old(self).capacity(),
            old(self)@.len() == 0 ==> r == Err::<T, RingBufferError>(RingBufferError::AlreadyEmpty)
                && final(self)@ == old(self)@,
            old(self)@.len() > 0 ==> r == Ok::<T, RingBufferError>(old(self)@[0])
                && final(self)@ == old(self)@.drop_first(),
    {
        if self.size == 0 {
            return Err(RingBufferError::AlreadyEmpty);
        }
        let ghost pre = *self;
        let n = self.all.len();
        assert(pre.all@[pre.first as int] is Some);
        let out = self.all[self.first].take();
        self.first = self.add_one(self.first);
        self.size -= 1;
        assert(forall|k: int| 0 <= k < n && k != pre.first ==> self.all@[k] == pre.all@[k]);
        assert(self@ =~= pre@.drop_first());
        Ok(out.unwrap())
    }

    /// Appends `val` as the newest item; fails on a full queue.
    pub fn push(&mut self, val: T) -> (r: Result<(), RingBufferError>)
        requires
            old(self).wf(),
        ensures
            final(self).wf(),
            final(self).capacity() == old(self).capacity(),
            old(self)@.len() >= old(self).capacity() ==> r == Err::<(), RingBufferError>(
                RingBufferError::AlreadyFull,
            ) && final(self)@ == old(self)@,
            old(self)@.len() < old(self).capacity() ==> r is Ok && final(self)@ == old(
                self,
            )@.push(val),
    {
        let n = self.all.len();
        if self.size >= n {
            return Err(RingBufferError::AlreadyFull);
        }
        let ghost pre = *self;
        // slot `first + size`, wrapped once; written so that no sum can overflow
        let room = n - self.first;
        let idx = if self.size < room {
            self.first + self.size
        } else {
            self.size - room
        };
        self.all[idx] = Some(val);
        self.size += 1;
        assert(forall|k: int| 0 <= k < n && k != idx ==> self.all@[k] == pre.all@[k]);
        assert(self@ =~= pre@.push(val));
        Ok(())
    }

    /// Replaces the oldest item by `t` and returns the item taken out. The
    /// queue stays full: its length never changes.
    pub fn pop_and_push(&mut self, t: T) -> (r: T)
        requires
            old(self).wf(),
            old(self)@.len() > 0,
            old(self)@.len() == old(self).capacity(),
        ensures
            final(self).wf(),
            final(self).capacity() == old(self).capacity(),
            r == old(self)@[0],
            final(self)@ == old(self)@.drop_first().push(t),
            final(self)@.len() == old(self)@.len(),
    {
        let out = self.pop();
        let _ = self.push(t);
        out.unwrap()
    }
}

} // verus!
