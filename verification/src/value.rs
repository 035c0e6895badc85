//! Tagged values and the frame stack built over an arena cursor.
//!
//! A frame stack groups the committed slots of one forward cursor into
//! frames: a run of payload slots closed by one marker slot that records the
//! payload's length. Values reference other values by arena index, and the
//! ordering invariant demands that every reference point strictly below the
//! referencing value's own frame. Any prefix of the stack below a frame is
//! therefore stable while that frame is being built, and dropping the top
//! frame can never dangle a reference held by a surviving frame.

use crate::stack::StackRef;
use vstd::prelude::*;

verus! {

/// One tagged stack slot.
///
/// The scalar kinds occupy one slot each; the opaque token and code kinds
/// carry handles whose meaning belongs to the embedding interpreter. A cons
/// cell also occupies one slot and holds the arena indices of its two
/// referents. A record tag sits on top of its record's other slots and
/// carries the record's whole slot span, itself included. A frame marker
/// closes a frame and records the payload slot count; it is stack
/// bookkeeping, never a user-visible value.
#[derive(Clone, Copy, Debug, PartialEq, Eq, Structural)]
pub enum Value {
    Nil,
    False,
    True,
    Int(i64),
    Token(u64),
    Code(u64),
    Cons(usize, usize),
    Record(usize),
    Frame(usize),
}

/// Whether `v` is a frame marker.
pub open spec fn is_marker(v: Value) -> bool {
    v matches Value::Frame(_)
}

/// Whether every arena index stored inside `v` points strictly below
/// `limit`.
pub open spec fn refs_below(v: Value, limit: int) -> bool {
    match v {
        Value::Cons(a, b) => a < limit && b < limit,
        _ => true,
    }
}

/// Whether every value of a frame payload is admissible there: no frame
/// marker hides among them, and every reference points strictly below
/// `base`, the arena index of the frame's first slot.
pub open spec fn payload_wf(p: Seq<Value>, base: int) -> bool {
    forall|i: int| 0 <= i < p.len() ==> !is_marker(#[trigger] p[i]) && refs_below(p[i], base)
}

/// Whether `s` parses from the top down as whole frames whose payloads are
/// admissible, with `origin` the arena index of the lowest slot of `s`.
/// This is the frame stack's shape and its ordering invariant in one
/// statement.
pub open spec fn frames_wf(s: Seq<Value>, origin: int) -> bool
    decreases s.len(),
{
    s.len() == 0 || (match s.last() {
        Value::Frame(n) => n + 1 <= s.len() && payload_wf(
            s.subrange(s.len() - 1 - n, s.len() - 1),
            origin + s.len() - 1 - n,
        ) && frames_wf(s.take(s.len() - 1 - n), origin),
        _ => false,
    })
}

/// The ordering invariant, read off a well-formed stack: the top frame's
/// payload holds no marker and references only slots strictly below the
/// frame's first slot, and what lies below that frame is itself a
/// well-formed frame stack that removing the top frame leaves untouched.
pub proof fn lemma_frames_invariant(s: Seq<Value>, origin: int)
    requires
        frames_wf(s, origin),
        s.len() > 0,
    ensures
        s.last() matches Value::Frame(n) && n + 1 <= s.len() && payload_wf(
            s.subrange(s.len() - 1 - n, s.len() - 1),
            origin + s.len() - 1 - n,
        ) && frames_wf(s.take(s.len() - 1 - n), origin),
{
}

/// Well-formed frame stacks stack: frames laid over further frames, the
/// upper run based where the lower run ends, make one well-formed whole.
pub proof fn lemma_frames_concat(a: Seq<Value>, b: Seq<Value>, origin: int)
    requires
        frames_wf(a, origin),
        frames_wf(b, origin + a.len()),
    ensures
        frames_wf(a + b, origin),
    decreases b.len(),
{
    if b.len() == 0 {
        assert(a + b =~= a);
    } else {
        match b.last() {
            Value::Frame(n) => {
                let s = a + b;
                assert(s.last() == b.last());
                let cut = s.len() - 1 - n;
                assert(s.subrange(cut, s.len() - 1) =~= b.subrange(b.len() - 1 - n, b.len() - 1));
                assert(s.take(cut) =~= a + b.take(b.len() - 1 - n));
                lemma_frames_concat(a, b.take(b.len() - 1 - n), origin);
            },
            _ => {
                assert(false);
            },
        }
    }
}

/// Whether one tagged value may enter a frame payload whose frame starts at
/// arena index `limit`.
fn admissible(v: Value, limit: usize) -> (b: bool)
    ensures
        b == (!is_marker(v) && refs_below(v, limit as int)),
{
    match v {
        Value::Cons(a, b) => a < limit && b < limit,
        Value::Frame(_) => false,
        _ => true,
    }
}

/// Whether every value of `vals` may enter a frame payload whose frame
/// starts at arena index `limit`.
fn admissible_all(vals: &[Value], limit: usize) -> (b: bool)
    ensures
        b == payload_wf(vals@, limit as int),
{
    let n = vals.len();
    let mut i: usize = 0;
    while i < n
        invariant
            i <= n,
            n == vals@.len(),
            payload_wf(vals@.take(i as int), limit as int),
        decreases n - i,
    {
        let v = *vstd::slice::slice_index_get(vals, i);
        if !admissible(v, limit) {
            proof {
                assert(!(!is_marker(vals@[i as int]) && refs_below(vals@[i as int], limit as int)));
            }
            return false;
        }
        i = i + 1;
        proof {
            assert(forall|j: int|
                0 <= j < i ==> vals@.take(i as int)[j] == vals@.take(i - 1)[j] || j == i - 1);
        }
    }
    proof {
        assert(vals@.take(n as int) =~= vals@);
    }
    true
}

/// A frame stack over one forward arena cursor of tagged values.
///
/// The committed slots always parse as whole frames, and every reference
/// points strictly below its frame: operations that would break either
/// property are refused before they touch a slot. A stack built by `split`
/// inside a dependent push starts above `base()` slots that belong to the
/// parent stack; references it stores are measured against the whole arena,
/// not the sub-stack alone.
pub struct ValueStack {
    inner: StackRef<Value>,
    origin: usize,
}

impl ValueStack {
    /// The stack's committed slots, bottom first.
    pub closed spec fn stack(self) -> Seq<Value> {
        self.inner.stack()
    }

    /// Total number of slots of the cursor this stack wraps.
    pub closed spec fn cap(self) -> nat {
        self.inner.cap()
    }

    /// The arena index of this stack's lowest slot: zero for a stack over a
    /// whole block, the split point for a sub-stack handed to a builder.
    pub closed spec fn base(self) -> nat {
        self.origin as nat
    }

    #[verifier::type_invariant]
    spec fn inv(self) -> bool {
        &&& self.inner.wf()
        &&& frames_wf(self.inner.stack(), self.origin as int)
        &&& self.origin + self.inner.cap() <= usize::MAX
    }

    /// Wraps an empty arena cursor of tagged values as a frame stack over
    /// the whole block.
    pub fn new(s: StackRef<Value>) -> (vs: Self)
        requires
            s.wf(),
            s.stack().len() == 0,
        ensures
            vs.stack() == Seq::<Value>::empty(),
            vs.cap() == s.cap(),
            vs.base() == 0,
    {
        proof {
            s.lemma_cap_bound();
            assert(s.stack() =~= Seq::<Value>::empty());
        }
        ValueStack { inner: s, origin: 0 }
    }

    /// The number of committed slots.
    pub fn write_index(&self) -> (n: usize)
        ensures
            n == self.stack().len(),
    {
        proof {
            use_type_invariant(self);
        }
        self.inner.write_index()
    }

    /// Copies every committed slot, bottom first.
    pub fn peek_all(&self) -> (r: Vec<Value>)
        ensures
            r@ == self.stack(),
    {
        proof {
            use_type_invariant(self);
        }
        let n = self.inner.write_index();
        match self.inner.peek_many(n) {
            Some(r) => {
                proof {
                    assert(r@ =~= self.stack());
                }
                r
            },
            None => {
                proof {
                    assert(false);
                }
                Vec::new()
            },
        }
    }

    /// Pushes one frame: the payload, then its marker, as one unit. Fails
    /// without any change when the free slots cannot hold payload and
    /// marker together, or when a payload value is inadmissible — a marker,
    /// or a reference that fails to point strictly below the new frame.
    pub fn push_frame(&mut self, values: &[Value]) -> (r: Result<(), ()>)
        ensures
            final(self).cap() == old(self).cap(),
            final(self).base() == old(self).base(),
            r is Ok <==> old(self).stack().len() + values@.len() + 1 <= old(self).cap()
                && payload_wf(values@, old(self).base() + old(self).stack().len() as int),
            r is Err ==> *final(self) == *old(self),
            r is Ok ==> final(self).stack() == old(self).stack() + values@ + seq![
                Value::Frame(values@.len() as usize),
            ],
    {
        proof {
            use_type_invariant(&*self);
        }
        let room = self.inner.room_left();
        if room == 0 || values.len() > room - 1 {
            return Err(());
        }
        let limit = self.origin + self.inner.write_index();
        if !admissible_all(values, limit) {
            return Err(());
        }
        let mut cursor = StackRef::empty_with_cap(0);
        core::mem::swap(&mut cursor, &mut self.inner);
        let ghost s0 = cursor.stack();
        let marker = Value::Frame(values.len());
        match cursor.push_slice(values) {
            Ok(()) => {},
            Err(()) => {
                proof {
                    assert(false);
                }
            },
        }
        match cursor.push(marker) {
            Ok(()) => {},
            Err(_) => {
                proof {
                    assert(false);
                }
            },
        }
        proof {
            let s1 = cursor.stack();
            assert(s1 =~= s0 + values@ + seq![marker]);
            lemma_push_frame_wf(s0, values@, self.origin as int);
        }
        self.inner = cursor;
        Ok(())
    }

    /// Pushes one frame from a fixed-size batch, handing the batch back
    /// unchanged if the push is refused.
    pub fn push_frame_const<const K: usize>(&mut self, values: [Value; K]) -> (r: Result<
        (),
        [Value; K],
    >)
        ensures
            final(self).cap() == old(self).cap(),
            final(self).base() == old(self).base(),
            r is Ok <==> old(self).stack().len() + K + 1 <= old(self).cap() && payload_wf(
                values@,
                old(self).base() + old(self).stack().len() as int,
            ),
            r is Err ==> *final(self) == *old(self) && r == Err::<(), [Value; K]>(values),
            r is Ok ==> final(self).stack() == old(self).stack() + values@ + seq![
                Value::Frame(K),
            ],
    {
        match self.push_frame(values.as_slice()) {
            Ok(()) => Ok(()),
            Err(()) => Err(values),
        }
    }

    /// Copies the top frame's payload, marker excluded; reports nothing
    /// when the stack is empty.
    pub fn peek_frame(&self) -> (r: Option<Vec<Value>>)
        ensures
            r is Some <==> self.stack().len() > 0,
            r matches Some(p) ==> (self.stack().last() matches Value::Frame(n) && p@
                == self.stack().subrange(self.stack().len() - 1 - n, self.stack().len() - 1)),
    {
        proof {
            use_type_invariant(self);
        }
        let top = match self.inner.peek() {
            None => {
                return None;
            },
            Some(t) => *t,
        };
        proof {
            lemma_frames_invariant(self.stack(), self.origin as int);
            self.inner.lemma_wf_bounds();
        }
        match top {
            Value::Frame(n) => {
                let mut w = match self.inner.peek_many(n + 1) {
                    Some(w) => w,
                    None => {
                        proof {
                            assert(false);
                        }
                        return None;
                    },
                };
                w.truncate(n);
                proof {
                    assert(w@ =~= self.stack().subrange(
                        self.stack().len() - 1 - n,
                        self.stack().len() - 1,
                    ));
                }
                Some(w)
            },
            _ => {
                proof {
                    assert(false);
                }
                None
            },
        }
    }

    /// Removes the top frame, marker and payload, as one unit; everything
    /// below it stays exactly as it was. Fails without any change when the
    /// stack is empty.
    pub fn drop_frame(&mut self) -> (r: Result<(), ()>)
        ensures
            final(self).cap() == old(self).cap(),
            final(self).base() == old(self).base(),
            r is Ok <==> old(self).stack().len() > 0,
            r is Err ==> *final(self) == *old(self),
            r is Ok ==> (old(self).stack().last() matches Value::Frame(n) && final(self).stack()
                == old(self).stack().take(old(self).stack().len() - 1 - n)),
    {
        proof {
            use_type_invariant(&*self);
        }
        let top = match self.inner.peek() {
            None => {
                return Err(());
            },
            Some(t) => *t,
        };
        proof {
            lemma_frames_invariant(self.stack(), self.origin as int);
            self.inner.lemma_wf_bounds();
        }
        match top {
            Value::Frame(n) => {
                let mut cursor = StackRef::empty_with_cap(0);
                core::mem::swap(&mut cursor, &mut self.inner);
                cursor.flush(n + 1);
                self.inner = cursor;
                Ok(())
            },
            _ => {
                proof {
                    assert(false);
                }
                Err(())
            },
        }
    }

    /// Splits the stack at its head and runs a builder on the frozen
    /// prefix; the fixed-size batch the builder returns becomes one new
    /// frame, so the new frame may reference everything already on the
    /// stack. Fails without any change, handing the batch back, when the
    /// batch does not fit or holds an inadmissible value.
    pub fn push_dependent<const SIZE: usize, F: FnOnce(&Vec<Value>) -> [Value; SIZE]>(
        &mut self,
        f: F,
    ) -> (r: Result<(), [Value; SIZE]>)
        requires
            forall|p: &Vec<Value>| p@ == old(self).stack() ==> #[trigger] call_requires(f, (p,)),
        ensures
            final(self).cap() == old(self).cap(),
            final(self).base() == old(self).base(),
            exists|p: &Vec<Value>, vals: [Value; SIZE]|
                #[trigger] call_ensures(f, (p,), vals) && dependent_push_post(
                    *old(self),
                    *final(self),
                    p,
                    vals,
                    r,
                ),
    {
        let prefix = self.peek_all();
        let pref_ref = &prefix;
        let ghost gp = pref_ref;
        let vals = f(pref_ref);
        let r = self.push_frame_const(vals);
        proof {
            assert(dependent_push_post(*old(self), *self, gp, vals, r));
        }
        r
    }

    /// Splits the stack at its head and runs a builder on the frozen
    /// prefix together with a fresh sub-stack over the free slots, then
    /// adopts whatever whole frames the builder committed there — an
    /// arbitrarily sized, possibly multi-frame result referencing
    /// everything already on the stack. Whatever the builder reports, its
    /// committed frames are adopted; adoption is refused, failing the call
    /// with the stack unchanged, only when the builder hands back a stack
    /// that is not the split's own continuation: one based elsewhere, or
    /// holding more than the free slots could.
    pub fn call_split<F: FnOnce(&Vec<Value>, ValueStack) -> (ValueStack, Result<(), ()>)>(
        &mut self,
        f: F,
    ) -> (r: Result<(), ()>)
        requires
            forall|p: &Vec<Value>, s: ValueStack|
                p@ == old(self).stack() && s.stack() == Seq::<Value>::empty() && s.base() == old(
                    self,
                ).base() + old(self).stack().len() && s.cap() == old(self).cap() - old(
                    self,
                ).stack().len() ==> #[trigger] call_requires(f, (p, s)),
        ensures
            final(self).cap() == old(self).cap(),
            final(self).base() == old(self).base(),
            final(self).stack().take(old(self).stack().len() as int) == old(self).stack(),
            exists|p: &Vec<Value>, s: ValueStack, t: (ValueStack, Result<(), ()>)|
                #[trigger] call_ensures(f, (p, s), t) && split_build_post(
                    *old(self),
                    *final(self),
                    p,
                    s,
                    t,
                    r,
                ),
    {
        proof {
            use_type_invariant(&*self);
            self.inner.lemma_wf_bounds();
        }
        let mut cursor = StackRef::empty_with_cap(0);
        core::mem::swap(&mut cursor, &mut self.inner);
        let mark = cursor.write_index();
        let room = cursor.room_left();
        let new_origin = self.origin + mark;
        let (prefix, sub_cursor) = cursor.split();
        let sub = ValueStack { inner: sub_cursor, origin: new_origin };
        let ghost gsub = sub;
        let pref_ref = &prefix;
        let ghost gp = pref_ref;
        let (out, res) = f(pref_ref, sub);
        proof {
            use_type_invariant(&out);
            out.inner.lemma_wf_bounds();
        }
        let out_len = out.inner.write_index();
        let matched = out.origin == new_origin && out_len <= room;
        let r: Result<(), ()> = if matched {
            let content = out.peek_all();
            let mut joined = StackRef::join(prefix, StackRef::empty_with_cap(room));
            match joined.push_slice(content.as_slice()) {
                Ok(()) => {},
                Err(()) => {
                    proof {
                        assert(false);
                    }
                },
            }
            proof {
                lemma_frames_concat(old(self).stack(), content@, self.origin as int);
                assert(joined.stack() =~= old(self).stack() + content@);
            }
            self.inner = joined;
            if res.is_ok() {
                Ok(())
            } else {
                Err(())
            }
        } else {
            let joined = StackRef::join(prefix, StackRef::empty_with_cap(room));
            proof {
                assert(joined.stack() =~= old(self).stack());
            }
            self.inner = joined;
            Err(())
        };
        proof {
            assert(final(self).stack().take(old(self).stack().len() as int) =~= old(self).stack());
            assert(split_build_post(*old(self), *self, gp, gsub, (out, res), r));
        }
        r
    }

    /// Splits off the top frame and everything below it, and runs a
    /// builder on both — the slots below the frame by reference, the
    /// doomed frame's payload as a copy to take values from — together
    /// with a fresh sub-stack based where the frame begins. The top frame
    /// is then removed and the frames the builder committed take its
    /// place, all as one step. Fails without any change when the stack is
    /// empty, or when the builder hands back a stack that is not the
    /// split's own continuation.
    pub fn call_split_drop<
        F: FnOnce(&Vec<Value>, &Vec<Value>, ValueStack) -> (ValueStack, Result<(), ()>),
    >(&mut self, f: F) -> (r: Result<(), ()>)
        requires
            forall|p: &Vec<Value>, q: &Vec<Value>, s: ValueStack|
                s.stack() == Seq::<Value>::empty() ==> #[trigger] call_requires(f, (p, q, s)),
        ensures
            final(self).cap() == old(self).cap(),
            final(self).base() == old(self).base(),
            old(self).stack().len() == 0 ==> r is Err && *final(self) == *old(self),
            old(self).stack().len() > 0 ==> exists|
                rest: &Vec<Value>,
                fpay: &Vec<Value>,
                s: ValueStack,
                t: (ValueStack, Result<(), ()>),
            |
                #[trigger] call_ensures(f, (rest, fpay, s), t) && split_replace_post(
                    *old(self),
                    *final(self),
                    rest,
                    fpay,
                    s,
                    t,
                    r,
                ),
    {
        proof {
            use_type_invariant(&*self);
            self.inner.lemma_wf_bounds();
        }
        let top = match self.inner.peek() {
            None => {
                return Err(());
            },
            Some(t) => *t,
        };
        proof {
            lemma_frames_invariant(self.stack(), self.origin as int);
        }
        let n = match top {
            Value::Frame(n) => n,
            _ => {
                proof {
                    assert(false);
                }
                return Err(());
            },
        };
        let h = self.inner.write_index();
        let cut = h - 1 - n;
        let mut cursor = StackRef::empty_with_cap(0);
        core::mem::swap(&mut cursor, &mut self.inner);
        let room = cursor.room_left();
        let avail = room + n + 1;
        let new_origin = self.origin + cut;
        let (prefix, sub_cursor) = cursor.split();
        let rest = copy_range(&prefix, 0, cut);
        let fpay = copy_range(&prefix, cut, h - 1);
        let sub = ValueStack { inner: sub_cursor, origin: new_origin };
        let ghost gsub = sub;
        let rest_ref = &rest;
        let fpay_ref = &fpay;
        let ghost grest = rest_ref;
        let ghost gfpay = fpay_ref;
        let (out, res) = f(rest_ref, fpay_ref, sub);
        proof {
            use_type_invariant(&out);
            out.inner.lemma_wf_bounds();
        }
        let out_len = out.inner.write_index();
        let matched = out.origin == new_origin && out_len <= avail;
        let r: Result<(), ()> = if matched {
            let content = out.peek_all();
            let mut joined = StackRef::join(rest, StackRef::empty_with_cap(avail));
            match joined.push_slice(content.as_slice()) {
                Ok(()) => {},
                Err(()) => {
                    proof {
                        assert(false);
                    }
                },
            }
            proof {
                assert(grest@ =~= old(self).stack().take(cut as int));
                lemma_frames_concat(grest@, content@, self.origin as int);
                assert(joined.stack() =~= grest@ + content@);
            }
            self.inner = joined;
            if res.is_ok() {
                Ok(())
            } else {
                Err(())
            }
        } else {
            let joined = StackRef::join(prefix, StackRef::empty_with_cap(room));
            proof {
                assert(joined.stack() =~= old(self).stack());
            }
            self.inner = joined;
            Err(())
        };
        proof {
            assert(split_replace_post(*old(self), *self, grest, gfpay, gsub, (out, res), r));
        }
        r
    }
}

/// Copies one contiguous run of a vector's values.
fn copy_range(v: &Vec<Value>, from: usize, to: usize) -> (out: Vec<Value>)
    requires
        from <= to <= v@.len(),
    ensures
        out@ == v@.subrange(from as int, to as int),
{
    let mut out: Vec<Value> = Vec::new();
    let mut i: usize = from;
    while i < to
        invariant
            from <= i <= to <= v@.len(),
            out@ == v@.subrange(from as int, i as int),
        decreases to - i,
    {
        let x = v[i];
        out.push(x);
        i = i + 1;
        proof {
            assert(out@ =~= v@.subrange(from as int, i as int));
        }
    }
    out
}

/// The payload length a frame marker records; zero for any other value.
pub open spec fn marker_len(v: Value) -> nat {
    match v {
        Value::Frame(n) => n as nat,
        _ => 0,
    }
}

/// Whether a builder's output stack may be adopted at a split point: it is
/// based at that point's arena index and its contents fit the room there.
pub open spec fn adoptable(out: ValueStack, base: int, room: int) -> bool {
    out.base() == base && out.stack().len() <= room
}

/// How a dependent build relates everything involved: the builder ran on
/// the committed prefix `p` and a fresh sub-stack `s` based at the split
/// point, returned `t`, and the parent adopted `t`'s stack exactly when its
/// bookkeeping matched — based at the split point, contents within the free
/// room. The builder's own failure is passed through, but whatever it
/// committed is adopted all the same.
pub open spec fn split_build_post(
    pre: ValueStack,
    post: ValueStack,
    p: &Vec<Value>,
    s: ValueStack,
    t: (ValueStack, Result<(), ()>),
    r: Result<(), ()>,
) -> bool {
    let base = pre.base() + pre.stack().len();
    let room = pre.cap() - pre.stack().len();
    &&& p@ == pre.stack()
    &&& s.stack() == Seq::<Value>::empty()
    &&& s.base() == base
    &&& s.cap() == room
    &&& (adoptable(t.0, base as int, room) ==> post.stack() == pre.stack() + t.0.stack() && (
    r is Ok <==> t.1 is Ok))
    &&& (!adoptable(t.0, base as int, room) ==> post.stack() == pre.stack() && r is Err)
}

/// How a frame replacement relates everything involved: the builder ran on
/// the slots below the top frame (`rest`), a copy of the top frame's
/// payload (`fpay`), and a fresh sub-stack based where the top frame
/// begins; when the returned stack's bookkeeping matched, the top frame was
/// removed and the returned stack's contents took its place.
pub open spec fn split_replace_post(
    pre: ValueStack,
    post: ValueStack,
    rest: &Vec<Value>,
    fpay: &Vec<Value>,
    s: ValueStack,
    t: (ValueStack, Result<(), ()>),
    r: Result<(), ()>,
) -> bool {
    let n = marker_len(pre.stack().last());
    let cut = pre.stack().len() - 1 - n;
    let base = pre.base() + cut;
    let room = pre.cap() - cut;
    &&& pre.stack().len() > 0
    &&& is_marker(pre.stack().last())
    &&& rest@ == pre.stack().take(cut)
    &&& fpay@ == pre.stack().subrange(cut, pre.stack().len() - 1)
    &&& s.stack() == Seq::<Value>::empty()
    &&& s.base() == base
    &&& s.cap() == pre.cap() - pre.stack().len()
    &&& (adoptable(t.0, base, room) ==> post.stack() == pre.stack().take(cut) + t.0.stack() && (
    r is Ok <==> t.1 is Ok))
    &&& (!adoptable(t.0, base, room) ==> post.stack() == pre.stack() && r is Err)
}

/// How a dependent frame push relates everything involved: the builder ran
/// on the committed prefix `p` and returned the batch `vals`, which became
/// one new frame exactly when it fit and was admissible, and came back with
/// the failure otherwise.
pub open spec fn dependent_push_post<const SIZE: usize>(
    pre: ValueStack,
    post: ValueStack,
    p: &Vec<Value>,
    vals: [Value; SIZE],
    r: Result<(), [Value; SIZE]>,
) -> bool {
    &&& p@ == pre.stack()
    &&& (r is Ok <==> pre.stack().len() + SIZE + 1 <= pre.cap() && payload_wf(
        vals@,
        pre.base() + pre.stack().len() as int,
    ))
    &&& (r is Ok ==> post.stack() == pre.stack() + vals@ + seq![Value::Frame(SIZE)])
    &&& (r matches Err(a) ==> a == vals && post.stack() == pre.stack())
}

/// The slot span of the frame whose top slot is `v`, read off the tag
/// itself: a record tag spans its whole record, a frame marker its payload
/// and itself, and every other value stands alone.
pub open spec fn span_of(v: Value) -> int {
    match v {
        Value::Record(k) => k as int,
        Value::Frame(n) => n as int + 1,
        _ => 1,
    }
}

/// Whether a stack of tagged values ends in two whole frames, as their top
/// slots' tags measure them.
pub open spec fn has_two_frames(st: Seq<Value>) -> bool {
    let len = st.len() as int;
    &&& st.len() > 0
    &&& 1 <= span_of(st.last()) < len
    &&& 1 <= span_of(st[len - 1 - span_of(st.last())])
    &&& span_of(st.last()) + span_of(st[len - 1 - span_of(st.last())]) <= len
}

/// The same stack with its two topmost frames exchanged, their internal
/// slot order preserved.
pub open spec fn swapped_top_frames(st: Seq<Value>) -> Seq<Value>
    recommends
        has_two_frames(st),
{
    let len = st.len() as int;
    let a = span_of(st.last());
    let b = span_of(st[len - 1 - a]);
    st.take(len - a - b) + st.skip(len - a) + st.subrange(len - a - b, len - a)
}

/// Exchanges the two topmost frames of a raw tagged-value cursor in place.
/// No frame markers are needed here: each frame's span is read off its top
/// slot's own tag. Fails without any change when the committed slots do
/// not end in two whole frames.
pub fn swap_things(s: &mut StackRef<Value>) -> (r: Result<(), ()>)
    requires
        old(s).wf(),
    ensures
        final(s).wf(),
        final(s).cap() == old(s).cap(),
        r is Ok <==> has_two_frames(old(s).stack()),
        r is Err ==> *final(s) == *old(s),
        r is Ok ==> final(s).stack() == swapped_top_frames(old(s).stack()),
{
    proof {
        old(s).lemma_wf_bounds();
    }
    let h = s.write_index();
    if h == 0 {
        return Err(());
    }
    let top = match s.peek() {
        Some(t) => *t,
        None => {
            proof {
                assert(false);
            }
            return Err(());
        },
    };
    let a = match top {
        Value::Record(k) => k,
        Value::Frame(n) => {
            if n >= h {
                return Err(());
            }
            n + 1
        },
        _ => 1,
    };
    if a == 0 || a >= h {
        return Err(());
    }
    let w = match s.peek_many(a + 1) {
        Some(w) => w,
        None => {
            proof {
                assert(false);
            }
            return Err(());
        },
    };
    let tag2 = w[0];
    proof {
        assert(tag2 == old(s).stack()[h - 1 - a]);
    }
    let b = match tag2 {
        Value::Record(k) => k,
        Value::Frame(n) => {
            if n >= h - a {
                return Err(());
            }
            n + 1
        },
        _ => 1,
    };
    if b == 0 || b > h - a {
        return Err(());
    }
    let both = match s.pop_many(a + b) {
        Some(v) => v,
        None => {
            proof {
                assert(false);
            }
            return Err(());
        },
    };
    let ghost st0 = old(s).stack();
    proof {
        assert(both@ == st0.skip(h - a - b));
        assert(s.stack() == st0.take(h - a - b));
    }
    let mut i: usize = b;
    while i < b + a
        invariant
            b <= i <= b + a,
            a + b <= h <= old(s).cap(),
            both@ == st0.skip(h - a - b),
            st0.len() == h,
            s.wf(),
            s.cap() == old(s).cap(),
            s.stack() == st0.take(h - a - b) + both@.subrange(b as int, i as int),
        decreases b + a - i,
    {
        let x = both[i];
        match s.push(x) {
            Ok(()) => {},
            Err(_) => {
                proof {
                    assert(false);
                }
            },
        }
        i = i + 1;
        proof {
            assert(s.stack() =~= st0.take(h - a - b) + both@.subrange(b as int, i as int));
        }
    }
    let mut j: usize = 0;
    while j < b
        invariant
            j <= b,
            a + b <= h <= old(s).cap(),
            both@ == st0.skip(h - a - b),
            st0.len() == h,
            s.wf(),
            s.cap() == old(s).cap(),
            s.stack() == st0.take(h - a - b) + both@.subrange(b as int, (b + a) as int)
                + both@.subrange(0, j as int),
        decreases b - j,
    {
        let x = both[j];
        match s.push(x) {
            Ok(()) => {},
            Err(_) => {
                proof {
                    assert(false);
                }
            },
        }
        j = j + 1;
        proof {
            assert(s.stack() =~= st0.take(h - a - b) + both@.subrange(b as int, (b + a) as int)
                + both@.subrange(0, j as int));
        }
    }
    proof {
        assert(both@.subrange(b as int, (b + a) as int) =~= st0.skip(h - a));
        assert(both@.subrange(0, b as int) =~= st0.subrange(h - a - b, h - a));
        assert(final(s).stack() =~= swapped_top_frames(st0));
    }
    Ok(())
}

/// A well-formed stack stays well formed when one whole frame — an
/// admissible payload and its marker — lands on top of it.
proof fn lemma_push_frame_wf(s: Seq<Value>, payload: Seq<Value>, origin: int)
    requires
        frames_wf(s, origin),
        payload_wf(payload, origin + s.len()),
        payload.len() <= usize::MAX,
    ensures
        frames_wf(s + payload + seq![Value::Frame(payload.len() as usize)], origin),
{
    let whole = s + payload + seq![Value::Frame(payload.len() as usize)];
    let n = payload.len() as int;
    assert(whole.last() == Value::Frame(payload.len() as usize));
    assert(whole.subrange(whole.len() - 1 - n, whole.len() - 1) =~= payload);
    assert(whole.take(whole.len() - 1 - n) =~= s);
}

} // verus!
