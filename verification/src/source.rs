//! Byte sources that a dump reads from.

use vstd::prelude::*;

verus! {

/// A failed read or seek, with the cause as text.
#[derive(Debug)]
pub struct IoFailure {
    pub message: String,
}

/// A readable origin of bytes that may also be able to skip forward.
///
/// `read` moves up to sixteen bytes into the front of the buffer and
/// returns their number; 0 stands for the end of the stream, and a dump
/// takes fewer than sixteen for the last line of the stream. `skip` moves
/// the cursor of the source forward; a source without a cursor leaves
/// itself where it is and reports success.
///
/// Of a source in general nothing more is known. A source may state that
/// its stream is known: then `pending` is what it has yet to deliver, its
/// reads and skips never fail, and it delivers full lines until its bytes
/// run out.
pub trait DataSource {
    /// Whether the stream of the source is known.
    open spec fn known(&self) -> bool {
        false
    }

    /// The bytes that a source with a known stream has yet to deliver.
    open spec fn pending(&self) -> Seq<u8> {
        Seq::empty()
    }

    /// Whether a source with a known stream has a cursor that `skip` moves.
    open spec fn seekable(&self) -> bool {
        false
    }

    /// Moves up to one line of bytes into the front of `out` and returns
    /// their number.
    fn read(&mut self, out: &mut [u8; 16]) -> (res: Result<usize, IoFailure>)
        ensures
            old(self).known() ==> {
                &&& final(self).known()
                &&& final(self).seekable() == old(self).seekable()
                &&& old(self).pending().len() <= u64::MAX
                &&& res matches Ok(n)
                &&& n == if old(self).pending().len() < 16 {
                    old(self).pending().len()
                } else {
                    16
                }
                &&& final(out)@.take(n as int) == old(self).pending().take(n as int)
                &&& final(self).pending() == old(self).pending().skip(n as int)
            },
    ;

    /// Moves the cursor forward by `length` bytes, where the source has one.
    fn skip(&mut self, length: usize) -> (res: Result<(), IoFailure>)
        ensures
            old(self).known() ==> {
                &&& final(self).known()
                &&& final(self).seekable() == old(self).seekable()
                &&& res is Ok
                &&& final(self).pending() == skipped(
                    old(self).pending(),
                    old(self).seekable(),
                    length as nat,
                )
            },
    ;
}

/// What is left of `pending` after a skip of `length` bytes: all of it
/// where the source has no cursor, else what lies behind the skipped bytes,
/// which is nothing where the skip leads beyond the end.
pub open spec fn skipped(pending: Seq<u8>, seekable: bool, length: nat) -> Seq<u8> {
    if !seekable {
        pending
    } else if length <= pending.len() {
        pending.skip(length as int)
    } else {
        Seq::empty()
    }
}

/// A source over bytes held in memory. Its stream is known.
pub struct MemorySource {
    data: Vec<u8>,
    pos: usize,
    seekable: bool,
}

impl MemorySource {
    /// A source that delivers `data` from its first byte on. With `seekable`
    /// false it behaves like a pipe: `skip` leaves it where it is.
    pub fn new(data: Vec<u8>, seekable: bool) -> (s: Self)
        ensures
            s.known(),
            s.pending() == data@,
            s.seekable() == seekable,
    {
        MemorySource { data, pos: 0, seekable }
    }

    /// Number of bytes that the source has yet to deliver.
    pub fn remaining(&self) -> (n: usize)
        ensures
            n == self.pending().len(),
    {
        if self.pos <= self.data.len() {
            self.data.len() - self.pos
        } else {
            0
        }
    }
}

impl DataSource for MemorySource {
    open spec fn known(&self) -> bool {
        true
    }

    closed spec fn pending(&self) -> Seq<u8> {
        if self.pos <= self.data@.len() {
            self.data@.skip(self.pos as int)
        } else {
            Seq::empty()
        }
    }

    closed spec fn seekable(&self) -> bool {
        self.seekable
    }

    fn read(&mut self, out: &mut [u8; 16]) -> (res: Result<usize, IoFailure>) {
        let n = self.remaining();
        let size = self.data.len();
        if n == 0 {
            proof {
                assert(out@.take(0) =~= self.pending().take(0));
                assert(self.pending().skip(0) =~= self.pending());
            }
            return Ok(0);
        }
        let take: usize = if n < 16 { n } else { 16 };
        let mut i: usize = 0;
        while i < take
            invariant
                i <= take <= 16,
                take <= self.pending().len(),
                self.pos + take <= self.data@.len() == size,
                *self == *old(self),
                forall|j: int| 0 <= j < i ==> out@[j] == self.data@[self.pos + j],
            decreases take - i,
        {
            out[i] = self.data[self.pos + i];
            i += 1;
        }
        proof {
            assert(out@.take(take as int) =~= self.pending().take(take as int));
            assert(self.data@.skip(self.pos as int).skip(take as int) =~= self.data@.skip(
                self.pos + take,
            ));
        }
        self.pos = self.pos + take;
        Ok(take)
    }

    fn skip(&mut self, length: usize) -> (res: Result<(), IoFailure>) {
        if self.seekable {
            let n = self.remaining();
            let size = self.data.len();
            if length <= n {
                proof {
                    assert(self.data@.skip(self.pos as int).skip(length as int) =~= self.data@.skip(
                        self.pos + length,
                    ));
                }
                self.pos = self.pos + length;
            } else {
                self.pos = size;
                proof {
                    assert(self.data@.skip(self.pos as int) =~= Seq::<u8>::empty());
                }
            }
        }
        Ok(())
    }
}

} // verus!
