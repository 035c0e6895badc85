//! The reverse-growing arena cursor.
//!
//! Live values accumulate at the high end of the block and the stack grows
//! downward, yet the push/pop/peek contract is the same as the forward
//! cursor's, so higher layers need not care about the orientation. The one
//! visible difference: the bulk peek and pop hand their values out in memory
//! order, which here means top of the stack first.

use crate::stack::Storage;
use vstd::prelude::*;

verus! {

/// A bounds-checked cursor whose stack grows from the high end of the block
/// downward.
pub struct RevStackRef<T> {
    /// The live slots in memory order; the slot at index 0 is the top of the
    /// stack.
    mem: Vec<T>,
    capacity: usize,
}

impl<T> RevStackRef<T> {
    /// Total number of slots in the backing block.
    pub closed spec fn cap(self) -> nat {
        self.capacity as nat
    }

    /// The stack's contents, bottom first, as for the forward cursor.
    pub closed spec fn stack(self) -> Seq<T> {
        self.mem@.reverse()
    }

    /// The live slots never outnumber the block's slots.
    pub closed spec fn wf(self) -> bool {
        self.mem@.len() <= self.capacity
    }

    /// Wraps a storage block as an empty cursor.
    pub fn from_slice(buf: Storage<T>) -> (s: Self)
        requires
            buf.wf(),
        ensures
            s.wf(),
            s.cap() == buf.cap(),
            s.stack() == Seq::<T>::empty(),
    {
        proof {
            buf.lemma_view();
        }
        let capacity = buf.capacity;
        let s = RevStackRef { mem: Vec::new(), capacity };
        proof {
            assert(s.stack() =~= Seq::<T>::empty());
        }
        s
    }

    /// Wraps a fully populated block: every slot is live, and the slot at
    /// the low end is the top of the stack.
    pub fn new_full(buf: Vec<T>) -> (s: Self)
        ensures
            s.wf(),
            s.cap() == buf@.len(),
            s.stack() == buf@.reverse(),
    {
        let capacity = buf.len();
        RevStackRef { mem: buf, capacity }
    }

    /// How many values are on the stack.
    pub fn len(&self) -> (n: usize)
        requires
            self.wf(),
        ensures
            n == self.stack().len(),
    {
        self.mem.len()
    }

    /// Whether the stack holds nothing.
    pub fn is_empty(&self) -> (b: bool)
        requires
            self.wf(),
        ensures
            b <==> self.stack().len() == 0,
    {
        self.mem.is_empty()
    }

    /// How many free slots remain.
    pub fn room_left(&self) -> (n: usize)
        requires
            self.wf(),
        ensures
            n == self.cap() - self.stack().len(),
    {
        self.capacity - self.mem.len()
    }

    /// The number of live slots; the same count that `len` reports, kept
    /// under the forward cursor's name.
    pub fn write_index(&self) -> (n: usize)
        requires
            self.wf(),
        ensures
            n == self.stack().len(),
    {
        self.mem.len()
    }

    /// Pushes one value on top. Fails without any change, handing the value
    /// back, exactly when the block is full.
    pub fn push(&mut self, v: T) -> (r: Result<(), T>)
        requires
            old(self).wf(),
        ensures
            final(self).wf(),
            final(self).cap() == old(self).cap(),
            r is Ok <==> old(self).stack().len() < old(self).cap(),
            r is Err ==> *final(self) == *old(self) && r == Err::<(), T>(v),
            r is Ok ==> final(self).stack() == old(self).stack().push(v),
    {
        if self.mem.len() == self.capacity {
            return Err(v);
        }
        self.mem.insert(0, v);
        proof {
            assert(final(self).stack() =~= old(self).stack().push(v));
        }
        Ok(())
    }

    /// Pops the top value, or reports that nothing is live.
    pub fn pop(&mut self) -> (r: Option<T>)
        requires
            old(self).wf(),
        ensures
            final(self).wf(),
            final(self).cap() == old(self).cap(),
            r is Some <==> old(self).stack().len() > 0,
            r is None ==> *final(self) == *old(self),
            r is Some ==> r == Some(old(self).stack().last()) && final(self).stack() == old(
                self,
            ).stack().drop_last(),
    {
        if self.mem.is_empty() {
            return None;
        }
        let v = self.mem.remove(0);
        proof {
            assert(v == old(self).stack().last());
            assert(final(self).stack() =~= old(self).stack().drop_last());
        }
        Some(v)
    }

    /// Borrows the top value without popping it.
    pub fn peek(&self) -> (r: Option<&T>)
        requires
            self.wf(),
        ensures
            r is Some <==> self.stack().len() > 0,
            r matches Some(v) ==> *v == self.stack().last(),
    {
        if self.mem.is_empty() {
            return None;
        }
        Some(&self.mem[0])
    }

    /// Pushes an entire slice as one unit: the first value ends up deepest,
    /// the last on top, as repeated single pushes would leave them. Fails
    /// without any change exactly when the free slots cannot hold all of
    /// them.
    pub fn push_many(&mut self, vals: &[T]) -> (r: Result<(), ()>) where T: Copy
        requires
            old(self).wf(),
        ensures
            final(self).wf(),
            final(self).cap() == old(self).cap(),
            r is Ok <==> old(self).stack().len() + vals@.len() <= old(self).cap(),
            r is Err ==> *final(self) == *old(self),
            r is Ok ==> final(self).stack() == old(self).stack() + vals@,
    {
        if self.capacity - self.mem.len() < vals.len() {
            return Err(());
        }
        let n = vals.len();
        let mut i: usize = 0;
        while i < n
            invariant
                i <= n,
                n == vals@.len(),
                old(self).wf(),
                old(self).stack().len() + n <= old(self).cap(),
                self.capacity == old(self).capacity,
                self.mem@ == vals@.take(i as int).reverse() + old(self).mem@,
            decreases n - i,
        {
            let v = *vstd::slice::slice_index_get(vals, i);
            self.mem.insert(0, v);
            i = i + 1;
            proof {
                assert(self.mem@ =~= vals@.take(i as int).reverse() + old(self).mem@);
            }
        }
        proof {
            assert(vals@.take(n as int) == vals@);
            assert(final(self).stack() =~= old(self).stack() + vals@);
        }
        Ok(())
    }

    /// Copies the top `n` values without popping, in memory order: the top
    /// of the stack first. Reports nothing if fewer are live.
    pub fn peek_many(&self, n: usize) -> (r: Option<Vec<T>>) where T: Copy
        requires
            self.wf(),
        ensures
            r is Some <==> n <= self.stack().len(),
            r matches Some(out) ==> out@ == self.stack().skip(self.stack().len() - n).reverse(),
    {
        if n > self.mem.len() {
            return None;
        }
        let mut out: Vec<T> = Vec::new();
        let mut i: usize = 0;
        while i < n
            invariant
                i <= n <= self.mem@.len(),
                self.wf(),
                out@ == self.mem@.take(i as int),
            decreases n - i,
        {
            let v = self.mem[i];
            out.push(v);
            i = i + 1;
            proof {
                assert(out@ =~= self.mem@.take(i as int));
            }
        }
        proof {
            assert(out@ =~= self.stack().skip(self.stack().len() - n).reverse());
        }
        Some(out)
    }

    /// Pops the top `n` values as one unit, in memory order: the top of the
    /// stack first. Reports nothing, changing nothing, if fewer are live.
    pub fn pop_many(&mut self, n: usize) -> (r: Option<Vec<T>>) where T: Copy
        requires
            old(self).wf(),
        ensures
            final(self).wf(),
            final(self).cap() == old(self).cap(),
            r is Some <==> n <= old(self).stack().len(),
            r is None ==> *final(self) == *old(self),
            r matches Some(out) ==> out@ == old(self).stack().skip(
                old(self).stack().len() - n,
            ).reverse() && final(self).stack() == old(self).stack().take(
                old(self).stack().len() - n,
            ),
    {
        if n > self.mem.len() {
            return None;
        }
        let mut out: Vec<T> = Vec::new();
        let mut i: usize = 0;
        while i < n
            invariant
                i <= n <= old(self).mem@.len(),
                old(self).wf(),
                self.capacity == old(self).capacity,
                out@ == old(self).mem@.take(i as int),
                self.mem@ == old(self).mem@.skip(i as int),
            decreases n - i,
        {
            let v = self.mem.remove(0);
            out.push(v);
            i = i + 1;
            proof {
                assert(out@ =~= old(self).mem@.take(i as int));
                assert(self.mem@ =~= old(self).mem@.skip(i as int));
            }
        }
        proof {
            assert(out@ =~= old(self).stack().skip(old(self).stack().len() - n).reverse());
            assert(final(self).stack() =~= old(self).stack().take(old(self).stack().len() - n));
        }
        Some(out)
    }

    /// Relinquishes the cursor, handing the block back. Its initialized
    /// slots hold the live values in memory order: the top of the stack
    /// first.
    pub fn into_slice(self) -> (buf: Storage<T>)
        requires
            self.wf(),
        ensures
            buf.wf(),
            buf.cap() == self.cap(),
            buf.init() == self.stack().reverse(),
    {
        proof {
            assert(self.mem@.reverse().reverse() =~= self.mem@);
        }
        let buf = Storage { data: self.mem, capacity: self.capacity };
        proof {
            buf.lemma_view();
        }
        buf
    }
}

} // verus!
