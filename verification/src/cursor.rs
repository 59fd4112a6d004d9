use crate::error::WdbError;
use vstd::prelude::*;
use vstd::utf8::*;

verus! {

/// A read position over a byte buffer held in memory.
pub struct ByteCursor {
    data: Vec<u8>,
    pos: usize,
}

impl ByteCursor {
    #[verifier::type_invariant]
    spec fn in_bounds(self) -> bool {
        self.pos <= self.data.len()
    }

    /// The whole buffer, read or not.
    pub closed spec fn bytes(&self) -> Seq<u8> {
        self.data@
    }

    /// The index of the next byte to read.
    pub closed spec fn pos(&self) -> int {
        self.pos as int
    }

    /// A cursor at the start of `data`.
    pub fn new(data: Vec<u8>) -> (cursor: ByteCursor)
        ensures
            cursor.bytes() == data@,
            cursor.pos() == 0,
    {
        ByteCursor { data, pos: 0 }
    }

    /// The index of the next byte to read; it never lies behind the end of
    /// the buffer.
    pub fn position(&self) -> (pos: usize)
        ensures
            pos == self.pos(),
            pos <= self.bytes().len(),
    {
        proof {
            use_type_invariant(self);
        }
        self.pos
    }

    /// The whole buffer.
    pub fn data(&self) -> (data: &[u8])
        ensures
            data@ == self.bytes(),
    {
        self.data.as_slice()
    }

    /// Moves the cursor to `pos`, forwards or backwards, and says whether it
    /// did: a position behind the end of the buffer leaves it where it was.
    pub fn seek(&mut self, pos: usize) -> (moved: bool)
        ensures
            final(self).bytes() == old(self).bytes(),
            moved == (pos <= old(self).bytes().len()),
            final(self).pos() == if moved {
                pos as int
            } else {
                old(self).pos()
            },
    {
        if pos <= self.data.len() {
            self.pos = pos;
            true
        } else {
            false
        }
    }

    /// Moves the cursor to a position within the buffer.
    pub(crate) fn jump(&mut self, pos: usize)
        requires
            pos <= old(self).bytes().len(),
        ensures
            final(self).bytes() == old(self).bytes(),
            final(self).pos() == pos,
    {
        self.pos = pos;
    }
}

/// The index of the first zero byte at or after `pos`, or the length of
/// `bytes` when there is none.
pub open spec fn terminator(bytes: Seq<u8>, pos: int) -> int
    decreases bytes.len() - pos,
{
    if pos < 0 || pos >= bytes.len() {
        bytes.len() as int
    } else if bytes[pos] == 0 {
        pos
    } else {
        terminator(bytes, pos + 1)
    }
}

/// `terminator` finds the first zero byte at or after `pos` and nothing else.
pub proof fn lemma_terminator(bytes: Seq<u8>, pos: int)
    requires
        0 <= pos <= bytes.len(),
    ensures
        pos <= terminator(bytes, pos) <= bytes.len(),
        terminator(bytes, pos) < bytes.len() ==> bytes[terminator(bytes, pos)] == 0,
        forall|k: int| pos <= k < terminator(bytes, pos) ==> bytes[k] != 0,
    decreases bytes.len() - pos,
{
    if pos < bytes.len() && bytes[pos] != 0 {
        lemma_terminator(bytes, pos + 1);
    }
}

/// A zero byte with none between `pos` and it is what `terminator` finds.
pub proof fn lemma_terminator_at(bytes: Seq<u8>, pos: int, at: int)
    requires
        0 <= pos <= at < bytes.len(),
        bytes[at] == 0,
        forall|k: int| pos <= k < at ==> bytes[k] != 0,
    ensures
        terminator(bytes, pos) == at,
    decreases at - pos,
{
    if pos < at {
        lemma_terminator_at(bytes, pos + 1, at);
    }
}

/// What a read of `size` bytes at `pos` yields: the bytes and the position
/// after them, or `Format` when fewer than `size` bytes are left.
pub open spec fn spec_part(bytes: Seq<u8>, pos: int, size: int) -> Result<
    (Seq<u8>, int),
    WdbError,
> {
    if pos + size <= bytes.len() {
        Ok((bytes.subrange(pos, pos + size), pos + size))
    } else {
        Err(WdbError::Format)
    }
}

/// What a read of a text of `size` bytes at `pos` yields: `Format` when fewer
/// than `size` bytes are left or they are not UTF-8.
pub open spec fn spec_string(bytes: Seq<u8>, pos: int, size: int) -> Result<
    (Seq<char>, int),
    WdbError,
> {
    if pos + size <= bytes.len() && valid_utf8(bytes.subrange(pos, pos + size)) {
        Ok((decode_utf8(bytes.subrange(pos, pos + size)), pos + size))
    } else {
        Err(WdbError::Format)
    }
}

/// What a read of a zero-terminated text at `pos` yields: the text with its
/// terminator, or `Format` when no zero byte follows or the bytes up to it
/// are not UTF-8.
pub open spec fn spec_string_eof(bytes: Seq<u8>, pos: int) -> Result<(Seq<char>, int), WdbError> {
    let end = terminator(bytes, pos) + 1;
    if end <= bytes.len() && valid_utf8(bytes.subrange(pos, end)) {
        Ok((decode_utf8(bytes.subrange(pos, end)), end))
    } else {
        Err(WdbError::Format)
    }
}

} // verus!
