//! The forward-growing arena cursor and its backing storage handle.

use vstd::prelude::*;

verus! {

/// A caller-owned block of storage slots.
///
/// `data` holds the slots that currently contain initialized values; they
/// always form a prefix of the block. The remaining `capacity - data.len()`
/// slots are uninitialized and carry no observable contents.
pub struct Storage<T> {
    pub(crate) data: Vec<T>,
    pub(crate) capacity: usize,
}

impl<T> Storage<T> {
    /// Total number of slots in the block.
    pub closed spec fn cap(self) -> nat {
        self.capacity as nat
    }

    /// The initialized slots, lowest first.
    pub closed spec fn init(self) -> Seq<T> {
        self.data@
    }

    /// The initialized slots never outnumber the block's slots.
    pub closed spec fn wf(self) -> bool {
        self.data@.len() <= self.capacity
    }

    /// How the block's views relate to its fields; for the crate's other
    /// modules, which handle blocks of their own.
    pub(crate) proof fn lemma_view(self)
        ensures
            self.cap() == self.capacity as nat,
            self.init() == self.data@,
            self.wf() == (self.data@.len() <= self.capacity),
    {
    }
}

/// Makes a fresh block of `SIZE` uninitialized slots.
pub fn make_storage<T, const SIZE: usize>() -> (s: Storage<T>)
    ensures
        s.wf(),
        s.cap() == SIZE,
        s.init() == Seq::<T>::empty(),
{
    Storage { data: Vec::new(), capacity: SIZE }
}

/// A bounds-checked cursor over one block of storage.
///
/// Slots below `head` are committed and hold the stack's values, bottom
/// first; slots from `head` up are free. Free slots may still hold leftover
/// values from earlier writes (they sit in `data` above `head`); they are
/// observable only through `set_write_index`, which may re-commit them.
pub struct StackRef<T> {
    data: Vec<T>,
    head: usize,
    capacity: usize,
}

impl<T> StackRef<T> {
    /// Total number of slots in the backing block.
    pub closed spec fn cap(self) -> nat {
        self.capacity as nat
    }

    /// Every slot of the block that holds an initialized value: the
    /// committed slots followed by the leftover ones.
    pub closed spec fn buf(self) -> Seq<T> {
        self.data@
    }

    /// The committed slots: the stack's contents, bottom first.
    pub closed spec fn stack(self) -> Seq<T> {
        self.data@.take(self.head as int)
    }

    /// The write position is inside the initialized region, which is inside
    /// the block.
    pub closed spec fn wf(self) -> bool {
        self.head <= self.data@.len() <= self.capacity
    }

    /// A cursor's capacity is a slot count, so it always fits a `usize`.
    pub proof fn lemma_cap_bound(self)
        ensures
            self.cap() <= usize::MAX,
    {
    }

    /// A well-formed cursor commits no more slots than its block holds.
    pub proof fn lemma_wf_bounds(self)
        requires
            self.wf(),
        ensures
            self.stack().len() <= self.cap() <= usize::MAX,
    {
    }

    /// The committed slots are exactly the lowest part of the initialized
    /// region: what the stack holds also stands in the block, slot for
    /// slot.
    pub proof fn lemma_stack_prefix(self)
        requires
            self.wf(),
        ensures
            self.stack().len() <= self.buf().len(),
            self.stack() == self.buf().take(self.stack().len() as int),
    {
    }

    /// An empty cursor with `capacity` free slots; for the crate's other
    /// modules, which rebuild cursors over regions they already own.
    pub(crate) fn empty_with_cap(capacity: usize) -> (s: Self)
        ensures
            s.wf(),
            s.cap() == capacity,
            s.stack() == Seq::<T>::empty(),
            s.buf() == Seq::<T>::empty(),
    {
        let s = StackRef { data: Vec::new(), head: 0, capacity };
        proof {
            assert(s.stack() =~= Seq::<T>::empty());
        }
        s
    }

    /// Wraps a storage block as an empty cursor. Nothing is committed yet,
    /// whatever the block's slots held before.
    pub fn from_slice(mem: Storage<T>) -> (s: Self)
        requires
            mem.wf(),
        ensures
            s.wf(),
            s.cap() == mem.cap(),
            s.buf() == mem.init(),
            s.stack() == Seq::<T>::empty(),
    {
        let s = StackRef { data: mem.data, head: 0, capacity: mem.capacity };
        proof {
            assert(s.stack() =~= Seq::<T>::empty());
        }
        s
    }

    /// Wraps a fully populated block: every slot is committed, the last one
    /// is the top of the stack.
    pub fn new_full(mem: Vec<T>) -> (s: Self)
        ensures
            s.wf(),
            s.cap() == mem@.len(),
            s.stack() == mem@,
            s.buf() == mem@,
    {
        let len = mem.len();
        let s = StackRef { data: mem, head: len, capacity: len };
        proof {
            assert(s.stack() =~= s.buf());
        }
        s
    }

    /// Relinquishes the cursor, handing the block back. Committed and
    /// leftover slots alike stay initialized.
    pub fn to_slice(self) -> (mem: Storage<T>)
        requires
            self.wf(),
        ensures
            mem.wf(),
            mem.cap() == self.cap(),
            mem.init() == self.buf(),
    {
        Storage { data: self.data, capacity: self.capacity }
    }

    /// The number of committed slots; restorable through `set_write_index`.
    pub fn write_index(&self) -> (i: usize)
        requires
            self.wf(),
        ensures
            i == self.stack().len(),
    {
        self.head
    }

    /// Restores a commit count. The slots below `idx` must still be validly
    /// initialized, which is the caller's obligation to show; no slot is
    /// written.
    pub fn set_write_index(&mut self, idx: usize)
        requires
            old(self).wf(),
            idx <= old(self).buf().len(),
        ensures
            final(self).wf(),
            final(self).cap() == old(self).cap(),
            final(self).buf() == old(self).buf(),
            final(self).stack() == old(self).buf().take(idx as int),
    {
        self.head = idx;
    }

    /// How many free slots remain.
    pub fn room_left(&self) -> (n: usize)
        requires
            self.wf(),
        ensures
            n == self.cap() - self.stack().len(),
    {
        self.capacity - self.head
    }

    /// Pushes one value on top. Fails without any change, handing the value
    /// back, exactly when the block is full.
    pub fn push(&mut self, v: T) -> (r: Result<(), T>)
        requires
            old(self).wf(),
        ensures
            final(self).wf(),
            final(self).cap() == old(self).cap(),
            r is Ok <==> old(self).stack().len() < old(self).cap(),
            r is Err ==> *final(self) == *old(self) && r == Err::<(), T>(v),
            r is Ok ==> final(self).stack() == old(self).stack().push(v),
            r is Ok ==> final(self).buf() == write_at(old(self).buf(), old(self).stack().len() as int, v),
    {
        if self.head == self.capacity {
            return Err(v);
        }
        self.write_slot(v);
        Ok(())
    }

    /// Writes `v` at the head and commits it; the head must not be at the
    /// block's end.
    fn write_slot(&mut self, v: T)
        requires
            old(self).wf(),
            old(self).stack().len() < old(self).cap(),
        ensures
            final(self).wf(),
            final(self).cap() == old(self).cap(),
            final(self).buf() == write_at(old(self).buf(), old(self).stack().len() as int, v),
            final(self).stack() == old(self).stack().push(v),
    {
        if self.head == self.data.len() {
            self.data.push(v);
        } else {
            self.data.set(self.head, v);
        }
        self.head = self.head + 1;
        proof {
            assert(final(self).stack() =~= old(self).stack().push(v));
        }
    }

    /// Pops the top value, or reports that nothing is committed. The popped
    /// slot leaves the initialized region.
    pub fn pop(&mut self) -> (r: Option<T>)
        requires
            old(self).wf(),
        ensures
            final(self).wf(),
            final(self).cap() == old(self).cap(),
            r is Some <==> old(self).stack().len() > 0,
            r is None ==> *final(self) == *old(self),
            r is Some ==> r == Some(old(self).stack().last())
                && final(self).buf() == old(self).buf().remove(old(self).stack().len() - 1)
                && final(self).stack() == old(self).stack().drop_last(),
    {
        if self.head == 0 {
            return None;
        }
        let v = self.data.remove(self.head - 1);
        self.head = self.head - 1;
        proof {
            assert(final(self).stack() =~= old(self).stack().drop_last());
        }
        Some(v)
    }

    /// Removes the top `k` committed slots and returns them, deepest first.
    fn remove_top(&mut self, k: usize) -> (out: Vec<T>)
        requires
            old(self).wf(),
            k <= old(self).stack().len(),
        ensures
            final(self).wf(),
            final(self).cap() == old(self).cap(),
            out@ == old(self).stack().skip(old(self).stack().len() - k),
            final(self).stack() == old(self).stack().take(old(self).stack().len() - k),
            final(self).buf() == old(self).buf().subrange(
                0,
                old(self).stack().len() - k,
            ) + old(self).buf().skip(old(self).stack().len() as int),
    {
        let start = self.head - k;
        let mut out: Vec<T> = Vec::new();
        let mut j: usize = 0;
        while j < k
            invariant
                j <= k,
                start == old(self).stack().len() - k,
                old(self).wf(),
                self.head == old(self).head,
                self.capacity == old(self).capacity,
                self.data@ == old(self).buf().subrange(0, start as int) + old(self).buf().skip(
                    start + j,
                ),
                out@ == old(self).buf().subrange(start as int, start + j),
            decreases k - j,
        {
            proof {
                assert(self.data@.len() == old(self).buf().len() - j);
                assert(self.data@[start as int] == old(self).buf()[start + j]);
            }
            let v = self.data.remove(start);
            out.push(v);
            j = j + 1;
            proof {
                assert(self.data@ =~= old(self).buf().subrange(0, start as int) + old(
                    self,
                ).buf().skip(start + j));
                assert(out@ =~= old(self).buf().subrange(start as int, start + j));
            }
        }
        self.head = start;
        proof {
            assert(out@ =~= old(self).stack().skip(old(self).stack().len() - k));
            assert(final(self).stack() =~= old(self).stack().take(old(self).stack().len() - k));
            assert(final(self).buf() =~= old(self).buf().subrange(
                0,
                old(self).stack().len() - k,
            ) + old(self).buf().skip(old(self).stack().len() as int));
        }
        out
    }

    /// Pops the top `SIZE` slots as one unit, deepest first, or reports that
    /// fewer are committed, leaving the cursor unchanged.
    pub fn pop_n<const SIZE: usize>(&mut self) -> (r: Option<Vec<T>>)
        requires
            old(self).wf(),
        ensures
            final(self).wf(),
            final(self).cap() == old(self).cap(),
            r is Some <==> SIZE <= old(self).stack().len(),
            r is None ==> *final(self) == *old(self),
            r matches Some(out) ==> out@ == old(self).stack().skip(
                old(self).stack().len() - SIZE,
            ) && final(self).stack() == old(self).stack().take(old(self).stack().len() - SIZE)
                && final(self).buf() == old(self).buf().subrange(
                0,
                old(self).stack().len() - SIZE,
            ) + old(self).buf().skip(old(self).stack().len() as int),
    {
        if SIZE > self.head {
            return None;
        }
        Some(self.remove_top(SIZE))
    }

    /// Pops the top `size` slots, deepest first, or reports that fewer are
    /// committed, leaving the cursor unchanged.
    pub fn pop_many(&mut self, size: usize) -> (r: Option<Vec<T>>) where T: Copy
        requires
            old(self).wf(),
        ensures
            final(self).wf(),
            final(self).cap() == old(self).cap(),
            r is Some <==> size <= old(self).stack().len(),
            r is None ==> *final(self) == *old(self),
            r matches Some(out) ==> out@ == old(self).stack().skip(
                old(self).stack().len() - size,
            ) && final(self).stack() == old(self).stack().take(old(self).stack().len() - size)
                && final(self).buf() == old(self).buf().subrange(
                0,
                old(self).stack().len() - size,
            ) + old(self).buf().skip(old(self).stack().len() as int),
    {
        if size > self.head {
            return None;
        }
        Some(self.remove_top(size))
    }

    /// Pops and discards up to `len` slots (all committed ones if fewer are
    /// committed).
    pub fn flush(&mut self, len: usize)
        requires
            old(self).wf(),
        ensures
            final(self).wf(),
            final(self).cap() == old(self).cap(),
            final(self).stack() == old(self).stack().take(
                old(self).stack().len() - min_nat(len as nat, old(self).stack().len()),
            ),
            final(self).buf() == old(self).buf().subrange(
                0,
                old(self).stack().len() - min_nat(len as nat, old(self).stack().len()),
            ) + old(self).buf().skip(old(self).stack().len() as int),
    {
        let k = if len < self.head {
            len
        } else {
            self.head
        };
        let _ = self.remove_top(k);
    }

    /// Pops and discards every committed slot.
    pub fn flush_all(&mut self)
        requires
            old(self).wf(),
        ensures
            final(self).wf(),
            final(self).cap() == old(self).cap(),
            final(self).stack() == Seq::<T>::empty(),
            final(self).buf() == old(self).buf().skip(old(self).stack().len() as int),
    {
        let h = self.head;
        let _ = self.remove_top(h);
        proof {
            assert(final(self).stack() =~= Seq::<T>::empty());
        }
    }

    /// Borrows the top committed slot without popping it.
    pub fn peek(&self) -> (r: Option<&T>)
        requires
            self.wf(),
        ensures
            r is Some <==> self.stack().len() > 0,
            r matches Some(v) ==> *v == self.stack().last(),
    {
        if self.head == 0 {
            return None;
        }
        Some(&self.data[self.head - 1])
    }

    /// Copies the top `size` committed slots, deepest first, without
    /// popping; reports nothing if fewer are committed.
    pub fn peek_many(&self, size: usize) -> (r: Option<Vec<T>>) where T: Copy
        requires
            self.wf(),
        ensures
            r is Some <==> size <= self.stack().len(),
            r matches Some(out) ==> out@ == self.stack().skip(self.stack().len() - size),
    {
        if size > self.head {
            return None;
        }
        let start = self.head - size;
        let mut out: Vec<T> = Vec::new();
        let mut i: usize = start;
        while i < self.head
            invariant
                self.wf(),
                start <= i <= self.head,
                start == self.head - size,
                out@ == self.buf().subrange(start as int, i as int),
            decreases self.head - i,
        {
            let v = self.data[i];
            out.push(v);
            i = i + 1;
            proof {
                assert(out@ =~= self.buf().subrange(start as int, i as int));
            }
        }
        proof {
            assert(out@ =~= self.stack().skip(self.stack().len() - size));
        }
        Some(out)
    }

    /// Copies the top `SIZE` committed slots, deepest first, without
    /// popping; reports nothing if fewer are committed.
    pub fn peek_n<const SIZE: usize>(&self) -> (r: Option<Vec<T>>) where T: Copy
        requires
            self.wf(),
        ensures
            r is Some <==> SIZE <= self.stack().len(),
            r matches Some(out) ==> out@ == self.stack().skip(self.stack().len() - SIZE),
    {
        self.peek_many(SIZE)
    }

    /// Pushes every value of the slice as one unit, the first one deepest.
    /// Fails without any change exactly when the free slots cannot hold all
    /// of them.
    pub fn push_slice(&mut self, v: &[T]) -> (r: Result<(), ()>) where T: Copy
        requires
            old(self).wf(),
        ensures
            final(self).wf(),
            final(self).cap() == old(self).cap(),
            r is Ok <==> old(self).stack().len() + v@.len() <= old(self).cap(),
            r is Err ==> *final(self) == *old(self),
            r is Ok ==> final(self).stack() == old(self).stack() + v@,
    {
        if v.len() > self.capacity - self.head {
            return Err(());
        }
        let n = v.len();
        let mut i: usize = 0;
        while i < n
            invariant
                i <= n,
                n == v@.len(),
                self.wf(),
                self.capacity == old(self).capacity,
                self.stack() == old(self).stack() + v@.take(i as int),
                old(self).stack().len() + n <= old(self).cap(),
            decreases n - i,
        {
            let x = *vstd::slice::slice_index_get(v, i);
            self.write_slot(x);
            i = i + 1;
            proof {
                assert(self.stack() =~= old(self).stack() + v@.take(i as int));
            }
        }
        proof {
            assert(final(self).stack() =~= old(self).stack() + v@);
        }
        Ok(())
    }

    /// Pushes a fixed-size batch as one unit, the first element deepest.
    /// Fails without any change, handing the batch back, exactly when the
    /// free slots cannot hold it.
    pub fn push_n<const SIZE: usize>(&mut self, v: [T; SIZE]) -> (r: Result<
        (),
        [T; SIZE],
    >) where T: Copy
        requires
            old(self).wf(),
        ensures
            final(self).wf(),
            final(self).cap() == old(self).cap(),
            r is Ok <==> old(self).stack().len() + SIZE <= old(self).cap(),
            r is Err ==> *final(self) == *old(self) && r == Err::<(), [T; SIZE]>(v),
            r is Ok ==> final(self).stack() == old(self).stack() + v@,
    {
        match self.push_slice(v.as_slice()) {
            Ok(()) => Ok(()),
            Err(()) => Err(v),
        }
    }

    /// Commits `add` slots that a split-off cursor already wrote, without
    /// writing anything here. Those slots must be initialized, which is the
    /// caller's obligation to show.
    pub fn advance(&mut self, add: usize)
        requires
            old(self).wf(),
            old(self).stack().len() + add <= old(self).buf().len(),
        ensures
            final(self).wf(),
            final(self).cap() == old(self).cap(),
            final(self).buf() == old(self).buf(),
            final(self).stack() == old(self).buf().take(old(self).stack().len() + add),
    {
        self.head = self.head + add;
    }

    /// Splits the cursor at its head: the committed slots come back as a
    /// frozen prefix, and a fresh, empty cursor covers exactly the free
    /// slots. The two parts share nothing, so nothing written through the
    /// new cursor can alter the prefix.
    pub fn split(self) -> (parts: (Vec<T>, StackRef<T>))
        requires
            self.wf(),
        ensures
            parts.0@ == self.stack(),
            parts.1.wf(),
            parts.1.cap() == self.cap() - self.stack().len(),
            parts.1.stack() == Seq::<T>::empty(),
            parts.1.buf() == self.buf().skip(self.stack().len() as int),
    {
        let mut data = self.data;
        let rest = data.split_off(self.head);
        let right = StackRef { data: rest, head: 0, capacity: self.capacity - self.head };
        proof {
            assert(data@ =~= self.stack());
            assert(right.stack() =~= Seq::<T>::empty());
        }
        (data, right)
    }

    /// Reunites a frozen prefix with the cursor that `split` produced over
    /// the slots above it; the prefix's slots count as committed again.
    pub fn join(prefix: Vec<T>, rest: StackRef<T>) -> (s: StackRef<T>)
        requires
            rest.wf(),
            prefix@.len() + rest.cap() <= usize::MAX,
        ensures
            s.wf(),
            s.cap() == prefix@.len() + rest.cap(),
            s.stack() == prefix@ + rest.stack(),
            s.buf() == prefix@ + rest.buf(),
    {
        let ghost p0 = prefix@;
        let mut data = prefix;
        let head = data.len() + rest.head;
        let capacity = data.len() + rest.capacity;
        let mut tail = rest.data;
        data.append(&mut tail);
        let s = StackRef { data, head, capacity };
        proof {
            assert(s.stack() =~= p0 + rest.stack());
        }
        s
    }

    /// Removes `count` committed slots from the middle of the stack: the
    /// removed run ends `skip` slots below the top slot, and everything
    /// above it shifts down. A `skip` of zero does nothing. Fails without
    /// any change when the addressed run is not entirely inside the
    /// committed region.
    pub fn drop_inside(&mut self, skip: usize, count: usize) -> (r: Result<(), ()>)
        requires
            old(self).wf(),
        ensures
            final(self).wf(),
            final(self).cap() == old(self).cap(),
            r is Ok <==> (skip == 0 || (skip < old(self).stack().len() && count <= skip)),
            r is Err ==> *final(self) == *old(self),
            skip == 0 ==> *final(self) == *old(self),
            r is Ok && skip > 0 ==> final(self).stack() == old(self).stack().subrange(
                0,
                old(self).stack().len() - 1 - skip,
            ) + old(self).stack().skip(old(self).stack().len() - 1 - skip + count),
            r is Ok && skip > 0 ==> final(self).buf() == old(self).buf().subrange(
                0,
                old(self).stack().len() - 1 - skip,
            ) + old(self).buf().skip(old(self).stack().len() - 1 - skip + count),
    {
        if skip == 0 {
            return Ok(());
        }
        if self.head == 0 {
            return Err(());
        }
        let stack_end = self.head - 1;
        if skip > stack_end {
            return Err(());
        }
        let spot = stack_end - skip;
        if count > skip {
            return Err(());
        }
        let mut j: usize = 0;
        while j < count
            invariant
                j <= count,
                old(self).wf(),
                spot + count < old(self).stack().len(),
                spot == old(self).stack().len() - 1 - skip,
                self.head == old(self).head,
                self.capacity == old(self).capacity,
                self.data@ == old(self).buf().subrange(0, spot as int) + old(self).buf().skip(
                    spot + j,
                ),
            decreases count - j,
        {
            proof {
                assert(self.data@.len() == old(self).buf().len() - j);
            }
            let _ = self.data.remove(spot);
            j = j + 1;
            proof {
                assert(self.data@ =~= old(self).buf().subrange(0, spot as int) + old(
                    self,
                ).buf().skip(spot + j));
            }
        }
        self.head = self.head - count;
        proof {
            assert(final(self).stack() =~= old(self).stack().subrange(
                0,
                old(self).stack().len() - 1 - skip,
            ) + old(self).stack().skip(old(self).stack().len() - 1 - skip + count));
        }
        Ok(())
    }

    /// Borrows every initialized slot of the block, committed and leftover
    /// alike.
    pub fn as_slice(&self) -> (r: &[T])
        requires
            self.wf(),
        ensures
            r@ == self.buf(),
    {
        self.data.as_slice()
    }
}

/// The smaller of two lengths.
pub open spec fn min_nat(a: nat, b: nat) -> nat {
    if a <= b {
        a
    } else {
        b
    }
}

/// Copies the last `n` values of a slice, or all of them if it holds fewer.
pub fn take_last<T>(slice: &[T], n: usize) -> (r: Vec<T>) where T: Copy
    ensures
        r@ == slice@.skip(slice@.len() - min_nat(n as nat, slice@.len())),
{
    let len = slice.len();
    let start = if n <= len {
        len - n
    } else {
        0
    };
    let mut out: Vec<T> = Vec::new();
    let mut i: usize = start;
    while i < len
        invariant
            start <= i <= len,
            len == slice@.len(),
            out@ == slice@.subrange(start as int, i as int),
        decreases len - i,
    {
        let v = *vstd::slice::slice_index_get(slice, i);
        out.push(v);
        i = i + 1;
        proof {
            assert(out@ =~= slice@.subrange(start as int, i as int));
        }
    }
    proof {
        assert(out@ =~= slice@.skip(slice@.len() - min_nat(n as nat, slice@.len())));
    }
    out
}

/// Detaches the last `n` values of a vector, or all of them if it holds
/// fewer, handing them to the caller for exclusive use.
pub fn take_last_mut<T>(v: &mut Vec<T>, n: usize) -> (r: Vec<T>)
    ensures
        r@ == old(v)@.skip(old(v)@.len() - min_nat(n as nat, old(v)@.len())),
        final(v)@ == old(v)@.take(old(v)@.len() - min_nat(n as nat, old(v)@.len())),
{
    let len = v.len();
    let start = if n <= len {
        len - n
    } else {
        0
    };
    v.split_off(start)
}

/// The initialized region after a write at position `at`: the slot is
/// overwritten if it was initialized before, and freshly initialized if it is
/// the first one past that region.
pub open spec fn write_at<T>(buf: Seq<T>, at: int, v: T) -> Seq<T>
    recommends
        0 <= at <= buf.len(),
{
    if at < buf.len() {
        buf.update(at, v)
    } else {
        buf.push(v)
    }
}

/// Values pushed with no pops in between come back out in reverse order:
/// after pushing `vs` on top of contents `s` the stack holds `s + vs`, and
/// the `k`-th following pop (counting the first pop as the 0th) returns
/// `vs[vs.len() - 1 - k]` and leaves the stack one value shorter, exactly as
/// `pop`'s contract describes over each intermediate state.
pub proof fn lemma_lifo_order<T>(s: Seq<T>, vs: Seq<T>, k: int)
    requires
        0 <= k < vs.len(),
    ensures
        (s + vs).take(s.len() + vs.len() - k).last() == vs[vs.len() - 1 - k],
        (s + vs).take(s.len() + vs.len() - k).drop_last() == (s + vs).take(
            s.len() + vs.len() - (k + 1),
        ),
{
    assert((s + vs).take(s.len() + vs.len() - k).drop_last() =~= (s + vs).take(
        s.len() + vs.len() - (k + 1),
    ));
}

/// Saving the write index, pushing one value, and restoring the saved index
/// leaves the committed contents exactly as they were; and the pushed value
/// still sits in the slot just above the restored head, so pushing it again
/// re-commits precisely the stack the push had produced, and the next pop
/// returns it.
pub proof fn lemma_index_roundtrip<T>(buf: Seq<T>, head: int, x: T)
    requires
        0 <= head <= buf.len(),
    ensures
        write_at(buf, head, x).take(head) == buf.take(head),
        write_at(buf, head, x).take(head + 1) == buf.take(head).push(x),
{
    assert(write_at(buf, head, x).take(head) =~= buf.take(head));
    assert(write_at(buf, head, x).take(head + 1) =~= buf.take(head).push(x));
}

/// Capacity is conserved across a refused push: the push's contract says a
/// failure leaves the cursor exactly as it was — it fails only on a full
/// block — and since success depends on nothing but the committed count
/// against the capacity, one pop frees the room for the same value to go
/// in.
pub proof fn lemma_capacity_conservation<T>(s: StackRef<T>)
    requires
        s.wf(),
        s.stack().len() == s.cap(),
        s.stack().len() > 0,
    ensures
        s.stack().drop_last().len() < s.cap(),
{
}

/// A split parts the slots into two disjoint regions: whatever the new
/// cursor comes to hold, rejoining shows every slot of the frozen prefix
/// unchanged, and the slots above the prefix are exactly the new cursor's.
pub proof fn lemma_split_disjoint<T>(prefix: Seq<T>, written: Seq<T>)
    ensures
        (prefix + written).take(prefix.len() as int) == prefix,
        (prefix + written).skip(prefix.len() as int) == written,
{
    assert((prefix + written).take(prefix.len() as int) =~= prefix);
    assert((prefix + written).skip(prefix.len() as int) =~= written);
}

} // verus!
