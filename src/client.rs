//! The client side of a session: sends the interleaved stream in chunks, then
//! the sentinel once, and collects what the server returns until its sentinel.
//!
//! The caller owns the socket: it writes what `next_outgoing` returns and hands
//! each read to `on_incoming`.

use vstd::prelude::*;

verus! {

/// One client session over an interleaved stream.
pub struct ClientSession {
    pub stream: Vec<u8>,
    pub sentinel: u8,
    pub chunk_size: usize,
    /// How much of `stream` has been handed out.
    pub offset: usize,
    /// Whether the sentinel has been handed out.
    pub all_sent: bool,
    /// Whether the server's sentinel has come back.
    pub done: bool,
}

impl ClientSession {
    /// The state every method keeps.
    pub open spec fn wf(&self) -> bool {
        &&& self.chunk_size > 0
        &&& self.offset <= self.stream@.len()
        &&& self.all_sent ==> self.offset == self.stream@.len()
    }

    /// Everything handed out for sending so far.
    pub open spec fn sent(&self) -> Seq<u8> {
        self.stream@.take(self.offset as int) + if self.all_sent {
            seq![self.sentinel]
        } else {
            Seq::<u8>::empty()
        }
    }

    /// A session that has sent nothing yet.
    pub fn new(stream: Vec<u8>, sentinel: u8, chunk_size: usize) -> (r: ClientSession)
        requires
            chunk_size > 0,
        ensures
            r.wf(),
            r.stream == stream,
            r.sentinel == sentinel,
            r.chunk_size == chunk_size,
            r.offset == 0,
            !r.all_sent,
            !r.done,
            r.sent() == Seq::<u8>::empty(),
    {
        let r = ClientSession { stream, sentinel, chunk_size, offset: 0, all_sent: false, done: false };
        assert(r.sent() =~= Seq::<u8>::empty());
        r
    }

    /// Whether the server's reply to the handshake is the one byte that was sent.
    pub fn handshake_accepted(&self, response: &[u8]) -> (r: bool)
        ensures
            r == (response@ == seq![self.sentinel]),
    {
        let ok = response.len() == 1 && response[0] == self.sentinel;
        assert(ok ==> response@ =~= seq![self.sentinel]);
        ok
    }

    /// The bytes to write next: the next chunk of the stream, if any is left,
    /// followed by the sentinel once the whole stream has been handed out (and
    /// only that once). Empty when everything has been sent.
    pub fn next_outgoing(&mut self) -> (r: Vec<u8>)
        requires
            old(self).wf(),
        ensures
            final(self).wf(),
            final(self).stream == old(self).stream,
            final(self).sentinel == old(self).sentinel,
            final(self).chunk_size == old(self).chunk_size,
            final(self).done == old(self).done,
            final(self).offset == (if old(self).offset + old(self).chunk_size < old(self).stream@.len() {
                old(self).offset + old(self).chunk_size
            } else {
                old(self).stream@.len() as int
            }),
            final(self).all_sent == (final(self).offset == old(self).stream@.len()),
            r@ == old(self).stream@.subrange(old(self).offset as int, final(self).offset as int) + if old(
                self,
            ).all_sent || final(self).offset < old(self).stream@.len() {
                Seq::<u8>::empty()
            } else {
                seq![old(self).sentinel]
            },
            final(self).sent() == old(self).sent() + r@,
    {
        let len = self.stream.len();
        let end: usize = if self.chunk_size < len - self.offset {
            self.offset + self.chunk_size
        } else {
            len
        };
        let mut r: Vec<u8> = Vec::new();
        let mut i: usize = self.offset;
        while i < end
            invariant
                self.offset <= i <= end <= self.stream@.len(),
                r@ == self.stream@.subrange(self.offset as int, i as int),
            decreases end - i,
        {
            r.push(self.stream[i]);
            i = i + 1;
            assert(r@ =~= self.stream@.subrange(self.offset as int, i as int));
        }
        let ghost before = self.sent();
        self.offset = end;
        if end == len && !self.all_sent {
            r.push(self.sentinel);
            self.all_sent = true;
        }
        assert(self.stream@.take(end as int) =~= self.stream@.take(old(self).offset as int)
            + self.stream@.subrange(old(self).offset as int, end as int));
        assert(self.sent() =~= before + r@);
        r
    }

    /// Takes one read from the server and returns the bytes to show: all of them,
    /// or, when they hold the sentinel, those before it, and the session is done.
    pub fn on_incoming(&mut self, received: &[u8]) -> (r: Vec<u8>)
        ensures
            final(self).stream == old(self).stream,
            final(self).sentinel == old(self).sentinel,
            final(self).chunk_size == old(self).chunk_size,
            final(self).offset == old(self).offset,
            final(self).all_sent == old(self).all_sent,
            received@.contains(old(self).sentinel) ==> final(self).done && r@.len() < received@.len()
                && r@ == received@.take(r@.len() as int) && received@[r@.len() as int]
                == old(self).sentinel && forall|j: int|
                0 <= j < r@.len() ==> received@[j] != old(self).sentinel,
            !received@.contains(old(self).sentinel) ==> final(self).done == old(self).done && r@
                == received@,
    {
        let mut r: Vec<u8> = Vec::new();
        let mut i: usize = 0;
        while i < received.len()
            invariant
                *self == *old(self),
                i <= received@.len(),
                r@ == received@.take(i as int),
                forall|j: int| 0 <= j < i ==> received@[j] != self.sentinel,
            decreases received@.len() - i,
        {
            if received[i] == self.sentinel {
                self.done = true;
                return r;
            }
            r.push(received[i]);
            i = i + 1;
            assert(r@ =~= received@.take(i as int));
        }
        assert(received@.take(i as int) =~= received@);
        r
    }
}

} // verus!
