//! The byte source of the tokenizer: the bytes of a document held in memory,
//! and a cursor in them.
use vstd::prelude::*;

verus! {

/// A byte source as a mathematical value.
pub struct CursorModel {
    pub bytes: Seq<u8>,
    pub pos: nat,
}

/// A seekable byte source. The cursor stands inside the bytes or at their end.
pub struct ByteCursor {
    bytes: Vec<u8>,
    position: usize,
}

impl View for ByteCursor {
    type V = CursorModel;

    closed spec fn view(&self) -> CursorModel {
        CursorModel { bytes: self.bytes@, pos: self.position as nat }
    }
}

impl ByteCursor {
    #[verifier::type_invariant]
    spec fn cursor_in_bytes(self) -> bool {
        self.position <= self.bytes@.len()
    }

    /// A cursor at the start of `bytes`.
    pub fn new(bytes: Vec<u8>) -> (r: Self)
        ensures
            r@ == (CursorModel { bytes: bytes@, pos: 0 }),
    {
        ByteCursor { bytes, position: 0 }
    }

    /// Where the cursor stands.
    pub fn position(&self) -> (r: usize)
        ensures
            r == self@.pos,
            r <= self@.bytes.len(),
    {
        proof {
            use_type_invariant(self);
        }
        self.position
    }

    /// All the bytes of the source.
    pub fn bytes(&self) -> (r: &[u8])
        ensures
            r@ == self@.bytes,
            self@.pos <= r@.len(),
    {
        proof {
            use_type_invariant(self);
        }
        self.bytes.as_slice()
    }

    /// How many bytes the source holds.
    pub fn len(&self) -> (r: usize)
        ensures
            r == self@.bytes.len(),
            self@.pos <= r,
    {
        proof {
            use_type_invariant(self);
        }
        self.bytes.len()
    }

    /// Reads the byte at the cursor and moves behind it; `None` at the end.
    pub fn read_byte(&mut self) -> (r: Option<u8>)
        ensures
            final(self)@.bytes == old(self)@.bytes,
            old(self)@.pos < old(self)@.bytes.len() ==> r == Some(
                old(self)@.bytes[old(self)@.pos as int],
            ) && final(self)@.pos == old(self)@.pos + 1,
            old(self)@.pos >= old(self)@.bytes.len() ==> r is None && final(self)@ == old(self)@,
    {
        if self.position < self.bytes.len() {
            let b: u8 = self.bytes[self.position];
            self.position = self.position + 1;
            Some(b)
        } else {
            None
        }
    }

    /// Reads `count` bytes and moves behind them; `None`, with the cursor
    /// left where it was, where fewer are left.
    pub fn read_exact(&mut self, count: usize) -> (r: Option<Vec<u8>>)
        ensures
            final(self)@.bytes == old(self)@.bytes,
            old(self)@.pos + count <= old(self)@.bytes.len() ==> r is Some && r->0@ == old(
                self,
            )@.bytes.subrange(old(self)@.pos as int, old(self)@.pos + count) && final(self)@.pos
                == old(self)@.pos + count,
            old(self)@.pos + count > old(self)@.bytes.len() ==> r is None && final(self)@ == old(
                self,
            )@,
    {
        proof {
            use_type_invariant(&*self);
        }
        if count > self.bytes.len() - self.position {
            return None;
        }
        let end: usize = self.position + count;
        let out: Vec<u8> = crate::scan::copy_range(self.bytes.as_slice(), self.position, end);
        self.position = end;
        Some(out)
    }

    /// Moves the cursor to `target`; a target behind the end of the bytes
    /// leaves it where it was and gives `false`.
    pub fn seek(&mut self, target: usize) -> (r: bool)
        ensures
            final(self)@.bytes == old(self)@.bytes,
            r == (target <= old(self)@.bytes.len()),
            r ==> final(self)@.pos == target,
            !r ==> final(self)@.pos == old(self)@.pos,
    {
        if target <= self.bytes.len() {
            self.position = target;
            true
        } else {
            false
        }
    }

    /// Moves the cursor by `delta`; a move out of the bytes leaves it where
    /// it was and gives `false`.
    pub fn seek_rel(&mut self, delta: i64) -> (r: bool)
        ensures
            final(self)@.bytes == old(self)@.bytes,
            r == (0 <= old(self)@.pos + delta <= old(self)@.bytes.len()),
            r ==> final(self)@.pos == old(self)@.pos + delta,
            !r ==> final(self)@.pos == old(self)@.pos,
    {
        proof {
            use_type_invariant(&*self);
        }
        if delta >= 0 {
            let forward: u64 = delta as u64;
            if forward <= (self.bytes.len() - self.position) as u64 {
                self.position = self.position + forward as usize;
                true
            } else {
                false
            }
        } else {
            let back: u64 = (-(delta + 1)) as u64 + 1;
            if back <= self.position as u64 {
                self.position = self.position - back as usize;
                true
            } else {
                false
            }
        }
    }
}

} // verus!
