//! Two streams one behind the other, the first of which has a fixed length.

use vstd::prelude::*;

verus! {

/// How much of the first stream has been read.
#[derive(Debug, Clone, Copy, PartialEq, Eq)]
pub struct ChainCursor {
    first_cursor: usize,
    first_total: usize,
}

/// What follows from reading of the first stream.
#[derive(Debug, Clone, Copy, PartialEq, Eq)]
pub struct FirstRead {
    /// How many bytes of the buffer are filled: what the first stream gave beyond its length is
    /// taken back.
    pub filled: usize,
    /// Whether the second stream is read now.
    pub go_on: bool,
}

/// How much of `n` is left behind `used`.
pub open spec fn rest_of(n: int, used: int) -> int {
    if used < n {
        n - used
    } else {
        0
    }
}

impl ChainCursor {
    /// How many bytes of the first stream have been read.
    pub closed spec fn cursor(self) -> int {
        self.first_cursor as int
    }

    /// The length of the first stream.
    pub closed spec fn total(self) -> int {
        self.first_total as int
    }

    /// The cursor of a chain of which nothing has been read.
    pub fn new(first_total: usize) -> (chain: ChainCursor)
        ensures
            chain.cursor() == 0,
            chain.total() == first_total,
    {
        ChainCursor { first_cursor: 0, first_total }
    }

    /// How many bytes of the first stream have been read.
    pub fn position(&self) -> (n: usize)
        ensures
            n == self.cursor(),
    {
        self.first_cursor
    }

    /// Whether the first stream is read.
    pub fn reads_first(&self) -> (r: bool)
        ensures
            r == (self.cursor() < self.total()),
    {
        self.first_cursor < self.first_total
    }

    /// How many more bytes the first stream may give.
    pub fn remaining(&self) -> (n: usize)
        ensures
            n == rest_of(self.total(), self.cursor()),
    {
        self.first_total.saturating_sub(self.first_cursor)
    }

    /// Takes in a read of the first stream, which left room for `after` bytes of the `before` that
    /// there had been, and `filled` bytes in the buffer.
    pub fn after_first_read(&mut self, filled: usize, before: usize, after: usize) -> (r: FirstRead)
        requires
            old(self).cursor() < old(self).total(),
            rest_of(before as int, after as int) <= filled,
            old(self).cursor() + rest_of(before as int, after as int) <= usize::MAX,
        ensures
            final(self).total() == old(self).total(),
            final(self).cursor() == old(self).cursor() + rest_of(before as int, after as int),
            r.filled == filled - rest_of(
                rest_of(before as int, after as int),
                old(self).total() - old(self).cursor(),
            ),
            r.go_on == (final(self).cursor() >= final(self).total()),
    {
        let max_new_bytes: usize = self.remaining();
        let new_bytes: usize = before.saturating_sub(after);
        let kept: usize = if new_bytes > max_new_bytes {
            filled - (new_bytes - max_new_bytes)
        } else {
            filled
        };
        self.first_cursor = self.first_cursor + new_bytes;
        FirstRead { filled: kept, go_on: self.first_cursor >= self.first_total }
    }

    /// How many of `len` bytes to write go to the first stream; the others go to the second.
    pub fn split_write(&self, len: usize) -> (first: usize)
        ensures
            first == (if rest_of(self.total(), self.cursor()) < len {
                rest_of(self.total(), self.cursor())
            } else {
                len as int
            }),
    {
        let remaining: usize = self.remaining();
        if remaining < len {
            remaining
        } else {
            len
        }
    }
}

/// However a first stream is read, no more of it is kept than its length: the bytes that a read
/// keeps are those by which the part of the cursor that counts has moved on.
pub proof fn law_first_stream_keeps_its_length(total: int, cursor: int, new_bytes: int)
    requires
        0 <= cursor < total,
        0 <= new_bytes,
    ensures
        new_bytes - rest_of(new_bytes, total - cursor) == rest_of(total, cursor) - rest_of(
            total,
            cursor + new_bytes,
        ),
        new_bytes - rest_of(new_bytes, total - cursor) <= total - cursor,
{
}

/// What is left of a length and what is used of it make up the length; of one that is used up
/// nothing is left.
pub proof fn law_rest_and_used_make_up_the_whole(n: int, used: int)
    ensures
        used <= n ==> rest_of(n, used) + used == n,
        used >= n ==> rest_of(n, used) == 0,
{
}

} // verus!
