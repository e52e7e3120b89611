//! An in-memory byte source and sink with a position, for the containers to
//! read from and write to.

use vstd::prelude::*;

use crate::bytes::push_all;

verus! {

/// A buffer and a position in it. Reading takes bytes at the position and
/// moves past them; writing replaces bytes at the position, growing the buffer
/// as needed, and moves past them. The position may lie beyond the end.
#[derive(Debug, Clone, PartialEq, Eq)]
pub struct Cursor {
    bytes: Vec<u8>,
    position: u64,
}

/// What a [`Cursor`] holds.
#[verifier::ext_equal]
pub struct CursorModel {
    /// The buffer.
    pub bytes: Seq<u8>,
    /// The position, which may lie beyond the end of the buffer.
    pub position: nat,
}

impl View for Cursor {
    type V = CursorModel;

    closed spec fn view(&self) -> CursorModel {
        CursorModel { bytes: self.bytes@, position: self.position as nat }
    }
}

impl CursorModel {
    /// How many bytes lie at and after the position.
    pub open spec fn remaining(self) -> nat {
        if self.position < self.bytes.len() {
            (self.bytes.len() - self.position) as nat
        } else {
            0
        }
    }

    /// The next `n` bytes.
    pub open spec fn ahead(self, n: nat) -> Seq<u8>
        recommends
            self.position + n <= self.bytes.len(),
    {
        self.bytes.subrange(self.position as int, (self.position + n) as int)
    }

    /// The same buffer at another position.
    pub open spec fn at(self, position: nat) -> CursorModel {
        CursorModel { bytes: self.bytes, position }
    }

    /// The cursor after writing `data` at its position.
    pub open spec fn after_write(self, data: Seq<u8>) -> CursorModel {
        CursorModel {
            bytes: overwrite(self.bytes, self.position, data),
            position: self.position + data.len(),
        }
    }
}

/// `buffer` with `data` written at `at`: what lies before it is kept (and
/// filled up with zeros if the buffer is shorter than that), and so is what
/// lies past it.
pub open spec fn overwrite(buffer: Seq<u8>, at: nat, data: Seq<u8>) -> Seq<u8> {
    let before = if at <= buffer.len() {
        buffer.subrange(0, at as int)
    } else {
        buffer + Seq::new((at - buffer.len()) as nat, |i: int| 0u8)
    };
    let end = at + data.len();
    let after = if end < buffer.len() {
        buffer.subrange(end as int, buffer.len() as int)
    } else {
        Seq::empty()
    };
    before + data + after
}

impl Cursor {
    /// A cursor at the start of `bytes`.
    pub fn new(bytes: Vec<u8>) -> (c: Cursor)
        ensures
            c@ == (CursorModel { bytes: bytes@, position: 0 }),
    {
        Cursor { bytes, position: 0 }
    }

    /// The buffer.
    pub fn into_inner(self) -> (bytes: Vec<u8>)
        ensures
            bytes@ == self@.bytes,
    {
        self.bytes
    }

    /// The buffer.
    pub fn get_ref(&self) -> (bytes: &Vec<u8>)
        ensures
            bytes@ == self@.bytes,
    {
        &self.bytes
    }

    /// The position.
    pub fn position(&self) -> (position: u64)
        ensures
            position == self@.position,
    {
        self.position
    }

    /// Move to `position`, which may lie beyond the end.
    pub fn set_position(&mut self, position: u64)
        ensures
            final(self)@ == old(self)@.at(position as nat),
    {
        self.position = position;
    }

    /// How many bytes lie at and after the position.
    pub fn remaining(&self) -> (n: usize)
        ensures
            n == self@.remaining(),
            self@.bytes.len() <= usize::MAX,
            self@.position <= u64::MAX,
    {
        let len: usize = self.bytes.len();
        if self.position < len as u64 {
            len - self.position as usize
        } else {
            0
        }
    }

    /// Take the next `n` bytes.
    pub fn take(&mut self, n: usize) -> (data: Vec<u8>)
        requires
            old(self)@.position + n <= old(self)@.bytes.len(),
        ensures
            data@ == old(self)@.ahead(n as nat),
            final(self)@ == old(self)@.at(old(self)@.position + n as nat),
    {
        assert(self.position + n <= self.bytes.len());
        let from: usize = self.position as usize;
        let mut data: Vec<u8> = Vec::with_capacity(n);
        push_all(&mut data, &self.bytes[from..from + n]);
        self.position = (from + n) as u64;
        data
    }

    /// Move past the next `n` bytes, or to the end of the buffer when there are
    /// not that many.
    pub fn skip(&mut self, n: u64)
        ensures
            final(self)@ == old(self)@.at(
                if n <= old(self)@.remaining() {
                    old(self)@.position + n as nat
                } else if old(self)@.position < old(self)@.bytes.len() {
                    old(self)@.bytes.len()
                } else {
                    old(self)@.position
                },
            ),
    {
        let left: u64 = self.remaining() as u64;
        if n <= left {
            self.position = self.position + n;
        } else {
            self.position = self.position + left;
        }
    }

    /// Whether `n` bytes can be written at `at`.
    pub fn has_room(&self, at: u64, n: usize) -> (yes: bool)
        ensures
            yes == (at + n <= usize::MAX),
    {
        at <= usize::MAX as u64 && n <= usize::MAX - at as usize
    }

    /// Write `data` at the position.
    pub fn write_all(&mut self, data: &[u8])
        requires
            old(self)@.position + data@.len() <= usize::MAX,
        ensures
            final(self)@ == old(self)@.after_write(data@),
    {
        let at: usize = self.position as usize;
        let ghost old_bytes = self.bytes@;
        let ghost at0 = at as nat;
        if self.bytes.len() < at {
            self.bytes.resize(at, 0u8);
            assert(self.bytes@ =~= old_bytes + Seq::new(
                (at0 - old_bytes.len()) as nat,
                |i: int| 0u8,
            )) by {
                assert forall|i: int| 0 <= i < old_bytes.len() implies self.bytes@[i]
                    == old_bytes[i] by {
                    assert(self.bytes@.subrange(0, old_bytes.len() as int)[i] == old_bytes[i]);
                }
            }
        }
        let ghost padded = self.bytes@;
        let len: usize = self.bytes.len();
        let kept: usize = if data.len() <= len - at { data.len() } else { len - at };
        let mut i: usize = 0;
        while i < kept
            invariant
                i <= kept <= data@.len(),
                at + kept <= len,
                len == padded.len(),
                self.bytes@.len() == padded.len(),
                self.position == at,
                forall|k: int| 0 <= k < at ==> self.bytes@[k] == padded[k],
                forall|k: int| at <= k < at + i ==> self.bytes@[k] == data@[k - at],
                forall|k: int| at + i <= k < padded.len() ==> self.bytes@[k] == padded[k],
            decreases kept - i,
        {
            self.bytes[at + i] = data[i];
            i = i + 1;
        }
        push_all(&mut self.bytes, &data[kept..data.len()]);
        self.position = (at + data.len()) as u64;
        assert(self@.bytes =~= overwrite(old_bytes, at0, data@));
    }
}

/// A write lands where it was meant to, and nothing else changes; what lies between the
/// end and a write beyond it is zero.
pub proof fn law_writes_land(c: CursorModel, data: Seq<u8>, i: int)
    requires
        data.len() > 0,
        0 <= i,
    ensures
        ({
            let after = c.after_write(data);
            let at = c.position as int;
            let end = at + data.len();
            &&& after.position == end
            &&& after.bytes.len() == (if end > c.bytes.len() {
                end
            } else {
                c.bytes.len() as int
            })
            &&& at <= i < end ==> after.bytes[i] == data[i - at]
            &&& i < at && i < c.bytes.len() ==> after.bytes[i] == c.bytes[i]
            &&& c.bytes.len() <= i < at ==> after.bytes[i] == 0
            &&& end <= i < c.bytes.len() ==> after.bytes[i] == c.bytes[i]
        }),
{
}

/// What is ahead is what is left from the position on.
pub proof fn law_reads_are_ahead(c: CursorModel, n: nat, i: int)
    requires
        c.position + n <= c.bytes.len(),
        0 <= i < n,
    ensures
        c.remaining() + c.position == c.bytes.len(),
        c.ahead(n).len() == n,
        c.ahead(n)[i] == c.bytes[c.position + i],
        c.at(n).position == n && c.at(n).bytes == c.bytes,
{
}

} // verus!
