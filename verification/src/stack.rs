//! The execution stack: an ordered sequence of entries, each either a
//! native signed integer or a handle into a shared arena of byte buffers.
//!
//! Buffers are shared by design: several stack slots may hold the same
//! handle, so a write to the buffer behind one slot is visible through
//! every slot that aliases it. The arena stands in for reference-counted
//! shared cells; a buffer simply stays in the arena for the stack's
//! lifetime, and duplicating an entry copies only its handle.

use vstd::pervasive::VecAdditionalExecFns;
use vstd::prelude::*;

use crate::scriptnum::read_scriptint;
use crate::scriptnum::scriptint_vec;
use crate::scriptnum::scriptnum_enc;
use crate::scriptnum::scriptnum_read;
use crate::ExecError;

verus! {

/// One stack slot: a native integer, or a handle to a byte buffer in the
/// owning stack's arena.
#[derive(Clone, Copy, Debug, PartialEq, Eq, Structural)]
pub enum StackEntry {
    Num(i64),
    StrRef(usize),
}

/// The execution stack: `entries` ordered bottom to top, `buffers` the
/// arena that `StrRef` handles point into.
#[derive(Clone, Debug)]
pub struct Stack {
    entries: Vec<StackEntry>,
    buffers: Vec<Vec<u8>>,
}

/// The 4 little-endian bytes of a 32-bit value.
pub open spec fn u32_le(n: nat) -> Seq<u8> {
    seq![
        (n % 256) as u8,
        ((n / 256) % 256) as u8,
        ((n / 0x10000) % 256) as u8,
        ((n / 0x1000000) % 256) as u8,
    ]
}

/// `b` extended on the right with zero bytes to exactly 4 bytes.
pub open spec fn pad4(b: Seq<u8>) -> Seq<u8> {
    b + Seq::new((4 - b.len()) as nat, |i: int| 0u8)
}

/// The `i`-th 4-byte group of a serialized stack image.
pub open spec fn chunk4(b: Seq<u8>, i: int) -> Seq<u8> {
    b.subrange(4 * i, 4 * i + 4)
}

impl Stack {
    /// The entries, bottom to top.
    pub closed spec fn entry_seq(self) -> Seq<StackEntry> {
        self.entries@
    }

    /// The arena's buffer contents, by handle.
    pub closed spec fn buffer_seq(self) -> Seq<Seq<u8>> {
        self.buffers@.map_values(|b: Vec<u8>| b@)
    }

    /// The number of entries on the stack.
    pub open spec fn depth(self) -> nat {
        self.entry_seq().len()
    }

    /// Whether an entry's handle, if it has one, points into this stack's
    /// arena.
    pub open spec fn entry_in_arena(self, e: StackEntry) -> bool {
        e matches StackEntry::StrRef(h) ==> h < self.buffer_seq().len()
    }

    /// Every handle on the stack points into the arena.
    pub open spec fn wf(self) -> bool {
        forall|i: int|
            0 <= i < self.depth() ==> self.entry_in_arena(#[trigger] self.entry_seq()[i])
    }

    /// The byte view of an entry: a numeric entry reads as its canonical
    /// scriptnum encoding, a buffer entry as the buffer's current contents.
    pub open spec fn bytes_view(self, e: StackEntry) -> Seq<u8> {
        match e {
            StackEntry::Num(n) => scriptnum_enc(n as int),
            StackEntry::StrRef(h) => self.buffer_seq()[h as int],
        }
    }

    /// The byte view of the entry at absolute position `i` (0 = bottom).
    pub open spec fn bytes_at(self, i: int) -> Seq<u8> {
        self.bytes_view(self.entry_seq()[i])
    }

    /// The numeric view of an entry under the interpreter's read rules: a
    /// numeric entry is returned when it does not exceed the 32-bit signed
    /// window — only the upper bound is checked, mirroring the asymmetric
    /// check the interpreter applies — while a buffer entry goes through
    /// the scriptnum codec with a four-byte cap.
    pub open spec fn num_view(self, e: StackEntry, require_minimal: bool) -> Result<
        int,
        ExecError,
    > {
        match e {
            StackEntry::Num(n) => if n <= 0x7fffffff {
                Result::Ok(n as int)
            } else {
                Result::Err(ExecError::ScriptIntNumericOverflow)
            },
            StackEntry::StrRef(h) => scriptnum_read(
                self.buffer_seq()[h as int],
                4,
                require_minimal,
            ),
        }
    }

    /// The byte view exists for every entry except the one integer whose
    /// magnitude needs more bytes than the canonical encoder's eight-byte
    /// output can hold.
    pub open spec fn entry_encodable(e: StackEntry) -> bool {
        e matches StackEntry::Num(n) ==> n != i64::MIN
    }

    /// Whether an entry may reach the fixed-width serialization: a numeric
    /// entry must be an unsigned 32-bit magnitude, a buffer at most 4
    /// bytes.
    pub open spec fn entry_fits(self, e: StackEntry) -> bool {
        match e {
            StackEntry::Num(n) => 0 <= n <= u32::MAX,
            StackEntry::StrRef(h) => h < self.buffer_seq().len() && self.buffer_seq()[
                h as int
            ].len() <= 4,
        }
    }

    /// The fixed 4-byte serialized form of an entry: a numeric entry as the
    /// little-endian bytes of its 32-bit magnitude, a buffer right-padded
    /// with zero bytes.
    pub open spec fn ser_bytes(self, e: StackEntry) -> Seq<u8> {
        match e {
            StackEntry::Num(n) => u32_le(n as nat),
            StackEntry::StrRef(h) => pad4(self.buffer_seq()[h as int]),
        }
    }
}

/// Pushing an in-arena entry onto a well-formed stack keeps it well
/// formed, also when the arena has grown.
proof fn lemma_wf_push(pre: Stack, post: Stack, e: StackEntry)
    requires
        pre.wf(),
        post.entry_in_arena(e),
        post.entry_seq() == pre.entry_seq().push(e),
        pre.buffer_seq().len() <= post.buffer_seq().len(),
    ensures
        post.wf(),
{
    assert forall|i: int|
        0 <= i < post.depth() implies post.entry_in_arena(#[trigger] post.entry_seq()[i]) by {
        if i < pre.depth() {
            assert(pre.entry_in_arena(pre.entry_seq()[i]));
        } else {
            assert(post.entry_seq()[i] == e);
        }
    }
}

/// Copies a byte slice into a fresh vector.
fn slice_to_vec(v: &[u8]) -> (r: Vec<u8>)
    ensures
        r@ == v@,
{
    let mut r: Vec<u8> = Vec::with_capacity(v.len());
    let mut i: usize = 0;
    while i < v.len()
        invariant
            i <= v@.len(),
            r@ == v@.take(i as int),
        decreases v@.len() - i,
    {
        let b = v[i];
        r.push(b);
        proof {
            assert(v@.take(i + 1) =~= v@.take(i as int).push(v@[i as int]));
        }
        i = i + 1;
    }
    proof {
        assert(v@.take(v@.len() as int) =~= v@);
    }
    r
}

impl Stack {
    /// Creates an empty stack.
    pub fn new() -> (s: Stack)
        ensures
            s.wf(),
            s.depth() == 0,
            s.buffer_seq().len() == 0,
    {
        Stack { entries: Vec::with_capacity(1000), buffers: Vec::new() }
    }

    /// Whether the stack holds no entries.
    pub fn is_empty(&self) -> (r: bool)
        ensures
            r == (self.depth() == 0),
    {
        self.entries.is_empty()
    }

    /// The number of entries on the stack.
    pub fn len(&self) -> (r: usize)
        ensures
            r == self.depth(),
    {
        self.entries.len()
    }

    /// Builds a stack from an ordered sequence of byte buffers, one buffer
    /// entry per input, the first buffer at the bottom.
    pub fn from_u8_vec(v: Vec<Vec<u8>>) -> (s: Stack)
        ensures
            s.wf(),
            s.depth() == v@.len(),
            s.buffer_seq().len() == v@.len(),
            forall|i: int|
                0 <= i < v@.len() ==> #[trigger] s.entry_seq()[i] == StackEntry::StrRef(
                    i as usize,
                ),
            forall|i: int| 0 <= i < v@.len() ==> #[trigger] s.bytes_at(i) == v@[i]@,
    {
        let n = v.len();
        let mut entries: Vec<StackEntry> = Vec::with_capacity(n);
        let mut i: usize = 0;
        while i < n
            invariant
                i <= n,
                entries@.len() == i,
                forall|j: int|
                    0 <= j < i ==> #[trigger] entries@[j] == StackEntry::StrRef(j as usize),
            decreases n - i,
        {
            entries.push(StackEntry::StrRef(i));
            i = i + 1;
        }
        let s = Stack { entries, buffers: v };
        proof {
            assert forall|k: int| 0 <= k < s.depth() implies s.entry_in_arena(
                #[trigger] s.entry_seq()[k],
            ) by {
                assert(s.entry_seq()[k] == StackEntry::StrRef(k as usize));
            }
            assert forall|k: int| 0 <= k < v@.len() implies #[trigger] s.bytes_at(k)
                == v@[k]@ by {
                assert(s.entry_seq()[k] == StackEntry::StrRef(k as usize));
                assert(s.buffer_seq()[k] == v@[k]@);
            }
        }
        s
    }

    /// Pushes a numeric entry on top of the stack.
    pub fn pushnum(&mut self, num: i64)
        requires
            old(self).wf(),
        ensures
            final(self).wf(),
            final(self).entry_seq() == old(self).entry_seq().push(StackEntry::Num(num)),
            final(self).buffer_seq() == old(self).buffer_seq(),
    {
        self.entries.push(StackEntry::Num(num));
        proof {
            lemma_wf_push(*old(self), *self, StackEntry::Num(num));
        }
    }

    /// Pushes a buffer entry holding a copy of `v` in a fresh buffer,
    /// aliased by no other slot.
    pub fn pushstr(&mut self, v: &[u8])
        requires
            old(self).wf(),
        ensures
            final(self).wf(),
            final(self).entry_seq() == old(self).entry_seq().push(
                StackEntry::StrRef(old(self).buffer_seq().len() as usize),
            ),
            final(self).buffer_seq() == old(self).buffer_seq().push(v@),
    {
        let h = self.buffers.len();
        let buf = slice_to_vec(v);
        self.buffers.push(buf);
        self.entries.push(StackEntry::StrRef(h));
        proof {
            assert(self.buffer_seq() =~= old(self).buffer_seq().push(v@));
            lemma_wf_push(*old(self), *self, StackEntry::StrRef(h));
        }
    }

    /// Pushes an existing entry. A buffer entry carries its handle with it,
    /// so the new slot aliases the same buffer as the entry it came from.
    pub fn push(&mut self, v: StackEntry)
        requires
            old(self).wf(),
            old(self).entry_in_arena(v),
        ensures
            final(self).wf(),
            final(self).entry_seq() == old(self).entry_seq().push(v),
            final(self).buffer_seq() == old(self).buffer_seq(),
    {
        self.entries.push(v);
        proof {
            lemma_wf_push(*old(self), *self, v);
        }
    }

    /// A borrow of the entry `offset` positions from the top: offset −1 is
    /// the top itself, −2 the one beneath it. Fails with a stack underflow
    /// when the offset reaches below the bottom entry.
    pub fn top(&self, offset: isize) -> (r: Result<&StackEntry, ExecError>)
        requires
            offset < 0,
        ensures
            r is Ok <==> -(offset as int) <= self.depth(),
            r matches Ok(e) ==> *e == self.entry_seq()[self.depth() as int + offset as int],
            r matches Err(e) ==> e == ExecError::InvalidStackOperation,
    {
        let len = self.entries.len();
        let off = ((-(offset + 1)) as usize) + 1;
        if off <= len {
            Ok(&self.entries[len - off])
        } else {
            Err(ExecError::InvalidStackOperation)
        }
    }

    /// A non-destructive byte view of the entry `offset` positions from the
    /// top: a numeric entry reads as its canonical scriptnum encoding, a
    /// buffer entry as a copy of the buffer's current contents.
    pub fn topstr(&self, offset: isize) -> (r: Result<Vec<u8>, ExecError>)
        requires
            offset < 0,
            self.wf(),
            -(offset as int) <= self.depth() ==> Stack::entry_encodable(
                self.entry_seq()[self.depth() as int + offset as int],
            ),
        ensures
            r is Ok <==> -(offset as int) <= self.depth(),
            r matches Ok(v) ==> v@ == self.bytes_at(self.depth() as int + offset as int),
            r matches Err(e) ==> e == ExecError::InvalidStackOperation,
    {
        let entry = match self.top(offset) {
            Ok(e) => *e,
            Err(e) => {
                return Err(e);
            },
        };
        match entry {
            StackEntry::Num(v) => Ok(scriptint_vec(v)),
            StackEntry::StrRef(h) => {
                let buf = &self.buffers[h];
                Ok(slice_to_vec(buf.as_slice()))
            },
        }
    }

    /// The byte view of the top entry.
    pub fn last(&self) -> (r: Result<Vec<u8>, ExecError>)
        requires
            self.wf(),
            self.depth() >= 1 ==> Stack::entry_encodable(
                self.entry_seq()[self.depth() - 1],
            ),
        ensures
            r is Ok <==> self.depth() >= 1,
            r matches Ok(v) ==> v@ == self.bytes_at(self.depth() - 1),
            r matches Err(e) ==> e == ExecError::InvalidStackOperation,
    {
        self.topstr(-1)
    }

    /// A non-destructive numeric view of the entry `offset` positions from
    /// the top, under the 32-bit window and — for buffer entries — the
    /// codec's four-byte cap and optional minimality rule.
    pub fn topnum(&self, offset: isize, require_minimal: bool) -> (r: Result<i64, ExecError>)
        requires
            offset < 0,
            self.wf(),
        ensures
            -(offset as int) > self.depth() ==> r == Result::<i64, ExecError>::Err(
                ExecError::InvalidStackOperation,
            ),
            -(offset as int) <= self.depth() ==> ({
                let view = self.num_view(
                    self.entry_seq()[self.depth() as int + offset as int],
                    require_minimal,
                );
                match r {
                    Ok(n) => view == Result::<int, ExecError>::Ok(n as int),
                    Err(e) => view == Result::<int, ExecError>::Err(e),
                }
            }),
    {
        let entry = match self.top(offset) {
            Ok(e) => *e,
            Err(e) => {
                return Err(e);
            },
        };
        match entry {
            StackEntry::Num(v) => {
                if v <= 0x7fffffff {
                    Ok(v)
                } else {
                    Err(ExecError::ScriptIntNumericOverflow)
                }
            },
            StackEntry::StrRef(h) => {
                let buf = &self.buffers[h];
                read_scriptint(buf.as_slice(), 4, require_minimal)
            },
        }
    }

    /// Checks that the stack holds at least `min_nb_items` entries; never
    /// mutates.
    pub fn needn(&self, min_nb_items: usize) -> (r: Result<(), ExecError>)
        ensures
            r is Ok <==> self.depth() >= min_nb_items,
            r matches Err(e) ==> e == ExecError::InvalidStackOperation,
    {
        if self.entries.len() < min_nb_items {
            Err(ExecError::InvalidStackOperation)
        } else {
            Ok(())
        }
    }

    /// Removes the top `n` entries, discarding them. When fewer than `n`
    /// are present, every entry is removed before the underflow is
    /// reported: a failed call leaves the stack empty, not restored.
    pub fn popn(&mut self, n: usize) -> (r: Result<(), ExecError>)
        requires
            old(self).wf(),
        ensures
            final(self).wf(),
            final(self).buffer_seq() == old(self).buffer_seq(),
            r is Ok <==> n <= old(self).depth(),
            r is Ok ==> final(self).entry_seq() == old(self).entry_seq().take(
                old(self).depth() - n,
            ),
            r matches Err(e) ==> e == ExecError::InvalidStackOperation && final(self).depth()
                == 0,
    {
        proof {
            assert(self.entry_seq().take(old(self).depth() as int) =~= old(self).entry_seq());
        }
        let mut i: usize = 0;
        while i < n
            invariant
                old(self).wf(),
                i <= n,
                i <= old(self).depth(),
                self.entry_seq() == old(self).entry_seq().take(old(self).depth() - i),
                self.buffer_seq() == old(self).buffer_seq(),
            decreases n - i,
        {
            match self.entries.pop() {
                Some(_) => {},
                None => {
                    return Err(ExecError::InvalidStackOperation);
                },
            }
            proof {
                assert(self.entry_seq() =~= old(self).entry_seq().take(
                    old(self).depth() - i - 1,
                ));
            }
            i = i + 1;
        }
        proof {
            lemma_wf_take(*old(self), *self, old(self).depth() - n);
        }
        Ok(())
    }

    /// Removes and returns the top entry, or `None` on an empty stack. A
    /// returned buffer entry keeps its handle: the buffer stays in the
    /// arena, so the entry can be pushed back and still alias it.
    pub fn pop(&mut self) -> (r: Option<StackEntry>)
        requires
            old(self).wf(),
        ensures
            final(self).wf(),
            final(self).buffer_seq() == old(self).buffer_seq(),
            old(self).depth() == 0 ==> r is None && final(self).entry_seq() == old(self).entry_seq(),
            old(self).depth() > 0 ==> r == Some(old(self).entry_seq().last()) && final(self).entry_seq() == old(self).entry_seq().drop_last() && final(self).entry_in_arena(
                old(self).entry_seq().last(),
            ),
    {
        let r = self.entries.pop();
        proof {
            if old(self).depth() > 0 {
                assert(old(self).entry_seq().drop_last() =~= old(self).entry_seq().subrange(
                    0,
                    old(self).depth() - 1,
                ));
                assert(old(self).entry_seq().take(old(self).depth() - 1) =~= old(self).entry_seq().subrange(0, old(self).depth() - 1));
                lemma_wf_take(*old(self), *self, old(self).depth() - 1);
                assert(old(self).entry_in_arena(
                    old(self).entry_seq()[old(self).depth() - 1],
                ));
            }
        }
        r
    }

    /// Removes the top entry and returns its byte view: a numeric entry as
    /// its canonical scriptnum encoding, a buffer entry as a copy of the
    /// buffer's contents. The buffer itself stays in the arena.
    pub fn popstr(&mut self) -> (r: Result<Vec<u8>, ExecError>)
        requires
            old(self).wf(),
            old(self).depth() >= 1 ==> Stack::entry_encodable(old(self).entry_seq().last()),
        ensures
            final(self).wf(),
            final(self).buffer_seq() == old(self).buffer_seq(),
            r is Ok <==> old(self).depth() >= 1,
            r matches Ok(v) ==> v@ == old(self).bytes_at(old(self).depth() - 1) && final(self).entry_seq() == old(self).entry_seq().drop_last(),
            r matches Err(e) ==> e == ExecError::InvalidStackOperation && final(self).entry_seq()
                == old(self).entry_seq(),
    {
        let entry = match self.pop() {
            Some(e) => e,
            None => {
                return Err(ExecError::InvalidStackOperation);
            },
        };
        match entry {
            StackEntry::Num(v) => Ok(scriptint_vec(v)),
            StackEntry::StrRef(h) => {
                let buf = &self.buffers[h];
                Ok(slice_to_vec(buf.as_slice()))
            },
        }
    }

    /// Removes the top entry and returns its numeric view, under the same
    /// rules as `topnum`. The entry is removed even when the view fails
    /// its overflow or minimality check.
    pub fn popnum(&mut self, require_minimal: bool) -> (r: Result<i64, ExecError>)
        requires
            old(self).wf(),
        ensures
            final(self).wf(),
            final(self).buffer_seq() == old(self).buffer_seq(),
            old(self).depth() == 0 ==> r == Result::<i64, ExecError>::Err(
                ExecError::InvalidStackOperation,
            ) && final(self).entry_seq() == old(self).entry_seq(),
            old(self).depth() >= 1 ==> final(self).entry_seq() == old(self).entry_seq().drop_last() && ({
                let view = old(self).num_view(old(self).entry_seq().last(), require_minimal);
                match r {
                    Ok(n) => view == Result::<int, ExecError>::Ok(n as int),
                    Err(e) => view == Result::<int, ExecError>::Err(e),
                }
            }),
    {
        let entry = match self.pop() {
            Some(e) => e,
            None => {
                return Err(ExecError::InvalidStackOperation);
            },
        };
        match entry {
            StackEntry::Num(v) => {
                if v <= 0x7fffffff {
                    Ok(v)
                } else {
                    Err(ExecError::ScriptIntNumericOverflow)
                }
            },
            StackEntry::StrRef(h) => {
                let buf = &self.buffers[h];
                read_scriptint(buf.as_slice(), 4, require_minimal)
            },
        }
    }

    /// Erases the entry at absolute index `v` (0 = bottom); the entries
    /// above it shift down by one.
    pub fn remove(&mut self, v: usize)
        requires
            old(self).wf(),
            v < old(self).depth(),
        ensures
            final(self).wf(),
            final(self).buffer_seq() == old(self).buffer_seq(),
            final(self).entry_seq() == old(self).entry_seq().remove(v as int),
    {
        self.entries.remove(v);
        proof {
            assert forall|i: int|
                0 <= i < self.depth() implies self.entry_in_arena(
                #[trigger] self.entry_seq()[i],
            ) by {
                if i < v {
                    assert(self.entry_seq()[i] == old(self).entry_seq()[i]);
                    assert(old(self).entry_in_arena(old(self).entry_seq()[i]));
                } else {
                    assert(self.entry_seq()[i] == old(self).entry_seq()[i + 1]);
                    assert(old(self).entry_in_arena(old(self).entry_seq()[i + 1]));
                }
            }
        }
    }

    /// The byte view of the entry at absolute index `index` (0 = bottom),
    /// under the same conversion rules as `topstr`.
    pub fn get(&self, index: usize) -> (r: Vec<u8>)
        requires
            self.wf(),
            index < self.depth(),
            Stack::entry_encodable(self.entry_seq()[index as int]),
        ensures
            r@ == self.bytes_at(index as int),
    {
        match self.entries[index] {
            StackEntry::Num(v) => scriptint_vec(v),
            StackEntry::StrRef(h) => {
                let buf = &self.buffers[h];
                slice_to_vec(buf.as_slice())
            },
        }
    }

    /// The byte views of every entry, bottom to top, materialized in
    /// order; a caller may walk the result from either end.
    pub fn iter_str(&self) -> (r: Vec<Vec<u8>>)
        requires
            self.wf(),
            forall|i: int|
                0 <= i < self.depth() ==> Stack::entry_encodable(
                    #[trigger] self.entry_seq()[i],
                ),
        ensures
            r@.len() == self.depth(),
            forall|i: int| 0 <= i < self.depth() ==> #[trigger] r@[i]@ == self.bytes_at(i),
    {
        let mut r: Vec<Vec<u8>> = Vec::with_capacity(self.entries.len());
        let mut i: usize = 0;
        while i < self.entries.len()
            invariant
                self.wf(),
                forall|j: int|
                    0 <= j < self.depth() ==> Stack::entry_encodable(
                        #[trigger] self.entry_seq()[j],
                    ),
                i <= self.depth(),
                r@.len() == i,
                forall|j: int| 0 <= j < i ==> #[trigger] r@[j]@ == self.bytes_at(j),
            decreases self.depth() - i,
        {
            let piece = self.get(i);
            r.push(piece);
            i = i + 1;
        }
        r
    }

    /// Overwrites the buffer behind handle `h` with a copy of `v`. The
    /// change is visible through every entry whose slot aliases that
    /// handle.
    pub fn set_buffer(&mut self, h: usize, v: &[u8])
        requires
            old(self).wf(),
            h < old(self).buffer_seq().len(),
        ensures
            final(self).wf(),
            final(self).entry_seq() == old(self).entry_seq(),
            final(self).buffer_seq() == old(self).buffer_seq().update(h as int, v@),
    {
        let buf = slice_to_vec(v);
        self.buffers.set(h, buf);
        proof {
            assert(self.buffer_seq() =~= old(self).buffer_seq().update(h as int, v@));
            assert forall|i: int|
                0 <= i < self.depth() implies self.entry_in_arena(
                #[trigger] self.entry_seq()[i],
            ) by {
                assert(old(self).entry_in_arena(old(self).entry_seq()[i]));
            }
        }
    }

    /// Serializes the whole stack, bottom to top, into one byte string of
    /// exactly 4 bytes per entry, each entry in its fixed-width form.
    pub fn serialize_to_bytes(self) -> (r: Vec<u8>)
        requires
            self.wf(),
            forall|i: int|
                0 <= i < self.depth() ==> self.entry_fits(#[trigger] self.entry_seq()[i]),
        ensures
            r@.len() == 4 * self.depth(),
            forall|i: int|
                0 <= i < self.depth() ==> #[trigger] chunk4(r@, i) == self.ser_bytes(
                    self.entry_seq()[i],
                ),
    {
        let mut bytes: Vec<u8> = Vec::new();
        let mut i: usize = 0;
        while i < self.entries.len()
            invariant
                self.wf(),
                forall|j: int|
                    0 <= j < self.depth() ==> self.entry_fits(#[trigger] self.entry_seq()[j]),
                i <= self.depth(),
                bytes@.len() == 4 * i,
                forall|j: int|
                    0 <= j < i ==> #[trigger] chunk4(bytes@, j) == self.ser_bytes(
                        self.entry_seq()[j],
                    ),
            decreases self.depth() - i,
        {
            let ghost prev = bytes@;
            let e = self.entries[i];
            let mut piece = e.serialize_to_bytes(&self);
            bytes.append(&mut piece);
            proof {
                assert forall|j: int| 0 <= j <= i implies #[trigger] chunk4(bytes@, j)
                    == self.ser_bytes(self.entry_seq()[j]) by {
                    if j < i {
                        assert(chunk4(bytes@, j) =~= chunk4(prev, j));
                    } else {
                        assert(chunk4(bytes@, i as int) =~= self.ser_bytes(
                            self.entry_seq()[i as int],
                        ));
                    }
                }
            }
            i = i + 1;
        }
        bytes
    }
}

impl StackEntry {
    /// The fixed-width form of this entry, resolved against the stack that
    /// owns its buffer: a numeric entry becomes the 4 little-endian bytes
    /// of its unsigned 32-bit magnitude, a buffer entry its buffer
    /// right-padded with zero bytes to 4. Entries outside the 32-bit
    /// window are a caller contract violation and are excluded up front.
    pub fn serialize_to_bytes(self, stack: &Stack) -> (r: Vec<u8>)
        requires
            stack.entry_fits(self),
        ensures
            r@ == stack.ser_bytes(self),
            r@.len() == 4,
    {
        match self {
            StackEntry::Num(num) => {
                let num = num as u32;
                let mut r: Vec<u8> = Vec::with_capacity(4);
                r.push((num % 256) as u8);
                r.push(((num / 256) % 256) as u8);
                r.push(((num / 0x10000) % 256) as u8);
                r.push(((num / 0x1000000) % 256) as u8);
                proof {
                    assert(r@ =~= u32_le(num as nat));
                }
                r
            },
            StackEntry::StrRef(h) => {
                let ghost b = stack.buffer_seq()[h as int];
                let buf = &stack.buffers[h];
                let mut r = slice_to_vec(buf.as_slice());
                while r.len() < 4
                    invariant
                        b.len() <= 4,
                        b.len() <= r@.len() <= 4,
                        forall|j: int|
                            0 <= j < r@.len() ==> #[trigger] r@[j] == if j < b.len() {
                                b[j]
                            } else {
                                0u8
                            },
                    decreases 4 - r@.len(),
                {
                    r.push(0);
                }
                proof {
                    assert(r@ =~= pad4(b));
                }
                r
            },
        }
    }
}

impl Default for Stack {
    /// An empty stack.
    fn default() -> (s: Stack)
        ensures
            s.wf(),
            s.depth() == 0,
            s.buffer_seq().len() == 0,
    {
        Stack::new()
    }
}

/// A stack whose entries are a prefix of a well-formed stack's, over an
/// arena of the same size, is well formed.
proof fn lemma_wf_take(pre: Stack, post: Stack, k: int)
    requires
        pre.wf(),
        0 <= k <= pre.depth(),
        post.entry_seq() == pre.entry_seq().take(k),
        post.buffer_seq().len() == pre.buffer_seq().len(),
    ensures
        post.wf(),
{
    assert forall|i: int|
        0 <= i < post.depth() implies post.entry_in_arena(#[trigger] post.entry_seq()[i]) by {
        assert(post.entry_seq()[i] == pre.entry_seq()[i]);
        assert(pre.entry_in_arena(pre.entry_seq()[i]));
    }
}

/// Law: pushing a byte string and then taking the top entry's byte view
/// returns exactly the bytes pushed — no padding is applied on a plain
/// push/pop round trip. The hypotheses are what `pushstr` ensures; the
/// conclusion is what `popstr` and `topstr` return for the top slot.
pub proof fn lemma_bytes_round_trip(pre: Stack, post: Stack, b: Seq<u8>)
    requires
        pre.wf(),
        post.entry_seq() == pre.entry_seq().push(
            StackEntry::StrRef(pre.buffer_seq().len() as usize),
        ),
        post.buffer_seq() == pre.buffer_seq().push(b),
        pre.buffer_seq().len() <= usize::MAX,
    ensures
        post.depth() == pre.depth() + 1,
        post.bytes_at(post.depth() - 1) == b,
{
    assert(post.entry_seq().last() == StackEntry::StrRef(pre.buffer_seq().len() as usize));
}

/// Law: pushing a number inside the 32-bit signed window and reading the
/// top numerically returns that number. The hypotheses are what `pushnum`
/// ensures; the conclusion is the view `popnum` and `topnum` return for
/// the top slot.
pub proof fn lemma_num_round_trip(pre: Stack, post: Stack, n: i64, require_minimal: bool)
    requires
        pre.wf(),
        n <= 0x7fffffff,
        post.entry_seq() == pre.entry_seq().push(StackEntry::Num(n)),
        post.buffer_seq() == pre.buffer_seq(),
    ensures
        post.depth() == pre.depth() + 1,
        post.num_view(post.entry_seq().last(), require_minimal) == Result::<int, ExecError>::Ok(
            n as int,
        ),
{
    assert(post.entry_seq().last() == StackEntry::Num(n));
}

/// Law: after any push, the entry one offset below the top — what `top`
/// returns for offset −1 — is the entry just pushed.
pub proof fn lemma_top_is_last_pushed(pre: Stack, post: Stack, e: StackEntry)
    requires
        post.entry_seq() == pre.entry_seq().push(e),
    ensures
        post.depth() >= 1,
        post.entry_seq()[post.depth() - 1] == e,
{
}

/// Law: for a numeric entry inside the symmetric 32-bit window, the byte
/// view and the numeric view agree — decoding what `topstr` returns gives
/// what `topnum` returns, with or without the minimality requirement.
/// Outside that window the two can differ, because the numeric read
/// checks the window only from above.
pub proof fn lemma_views_agree(s: Stack, n: i64, require_minimal: bool)
    requires
        -0x7fffffff <= n <= 0x7fffffff,
    ensures
        scriptnum_read(s.bytes_view(StackEntry::Num(n)), 4, require_minimal) == s.num_view(
            StackEntry::Num(n),
            require_minimal,
        ),
{
    crate::scriptnum::lemma_scriptnum_read_enc(n as int, require_minimal);
}

/// Law: a write to a shared buffer is visible through every stack slot
/// whose entry aliases the buffer's handle. The hypotheses are what
/// `set_buffer` ensures for two slots that hold the same handle.
pub proof fn lemma_alias_visibility(pre: Stack, post: Stack, h: usize, v: Seq<u8>, i: int, j: int)
    requires
        pre.wf(),
        h < pre.buffer_seq().len(),
        post.entry_seq() == pre.entry_seq(),
        post.buffer_seq() == pre.buffer_seq().update(h as int, v),
        0 <= i < pre.depth(),
        0 <= j < pre.depth(),
        pre.entry_seq()[i] == StackEntry::StrRef(h),
        pre.entry_seq()[j] == StackEntry::StrRef(h),
    ensures
        post.bytes_at(i) == v,
        post.bytes_at(j) == v,
        post.bytes_at(i) == post.bytes_at(j),
{
}

} // verus!
