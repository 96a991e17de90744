//! Bridging between message streams and byte streams: messages go in, bytes
//! come out in as many pieces as the reader likes.

use bytes::BytesMut;
use vstd::prelude::*;

use super::frame::{buf_append, buf_len, buf_new, buf_slice, buf_split_to, buffered};
use crate::wire;

verus! {

/// What a reader with some room gets.
#[derive(Debug)]
pub enum ReadStep {
    /// These bytes, which fit the room.
    Bytes(Vec<u8>),
    /// The end: there is nothing more to come.
    Eof,
    /// Another message is needed first.
    NeedMore,
}

/// What a read with some room takes of the waiting bytes, and what it leaves.
pub open spec fn read_spec(pending: Seq<u8>, room: nat) -> (Seq<u8>, Seq<u8>) {
    if pending.len() < room {
        (pending, Seq::empty())
    } else {
        (pending.take(room as int), pending.skip(room as int))
    }
}

/// Messages that have arrived and have not been read yet. Frames may span
/// several messages, and messages may hold several or partial frames.
pub struct StreamAsRead {
    buf: BytesMut,
    done: bool,
}

impl StreamAsRead {
    /// The bytes that wait to be read.
    pub closed spec fn pending(self) -> Seq<u8> {
        buffered(self.buf)
    }

    /// The last message has arrived.
    pub closed spec fn ended(self) -> bool {
        self.done
    }

    pub fn new() -> (r: Self)
        ensures
            r.pending() == Seq::<u8>::empty(),
            !r.ended(),
    {
        StreamAsRead { buf: buf_new(), done: false }
    }

    /// A message has arrived.
    pub fn feed(&mut self, data: &[u8])
        ensures
            final(self).pending() == old(self).pending() + data@,
            final(self).ended() == old(self).ended(),
    {
        buf_append(&mut self.buf, data);
    }

    /// No message will arrive any more.
    pub fn end(&mut self)
        ensures
            final(self).pending() == old(self).pending(),
            final(self).ended(),
    {
        self.done = true;
    }

    /// Read up to `room` bytes. Waiting bytes come before the end.
    pub fn read(&mut self, room: usize) -> (r: ReadStep)
        ensures
            final(self).ended() == old(self).ended(),
            final(self).pending() == read_spec(old(self).pending(), room as nat).1,
            if old(self).pending().len() > 0 {
                r matches ReadStep::Bytes(b) && b@ == read_spec(
                    old(self).pending(),
                    room as nat,
                ).0
            } else {
                r == if old(self).ended() {
                    ReadStep::Eof
                } else {
                    ReadStep::NeedMore
                }
            },
    {
        let have = buf_len(&self.buf);
        if have > 0 {
            let n = if have < room {
                have
            } else {
                room
            };
            let given = buf_split_to(&mut self.buf, n);
            return ReadStep::Bytes(wire::copy_bytes(buf_slice(&given)));
        }
        assert(buffered(self.buf) =~= read_spec(old(self).pending(), room as nat).1);
        if self.done {
            ReadStep::Eof
        } else {
            ReadStep::NeedMore
        }
    }
}

/// Reading in two steps gives the bytes that one step with the room of both
/// would have given, and leaves the same rest.
pub proof fn law_reading_in_pieces(p: Seq<u8>, a: nat, b: nat)
    ensures
        ({
            let (first, left) = read_spec(p, a);
            let (second, rest) = read_spec(left, b);
            (first + second, rest) == read_spec(p, a + b)
        }),
{
    let (first, left) = read_spec(p, a);
    let (second, rest) = read_spec(left, b);
    assert(first + second =~= read_spec(p, a + b).0);
    assert(rest =~= read_spec(p, a + b).1);
}

/// A read hands out the front of what is pending, as much as there is room for,
/// and leaves the rest.
pub proof fn law_read_takes_the_front(pending: Seq<u8>, room: nat)
    ensures
        read_spec(pending, room).0 + read_spec(pending, room).1 == pending,
        read_spec(pending, room).0.len() == if room < pending.len() {
            room
        } else {
            pending.len()
        },
{
    let (a, b) = read_spec(pending, room);
    assert(a + b =~= pending);
}

} // verus!
