//! The server side of one connection: handshake, then chunks until the sentinel.
//!
//! The caller owns the socket. It hands each byte or chunk it reads to the
//! connection and writes back what the connection returns.

use vstd::prelude::*;
use crate::cipher::Direction;
use crate::codec::{chunk_output, chunk_carry, chunk_terminates, chunk_ends_stream, transform_data};

verus! {

/// Where a connection stands.
#[derive(Clone, Copy, Debug, PartialEq, Eq, Structural)]
pub enum Phase {
    /// Waiting for the client's handshake byte.
    AwaitingHandshake,
    /// Handshake done: chunks are transformed.
    Active,
    /// Nothing more is read or written.
    Closed,
}

/// One server connection: the negotiated sentinels, the direction of the
/// cipher, and the data byte carried between chunks.
pub struct Connection {
    pub phase: Phase,
    pub shake_sig: char,
    pub term_sig: char,
    pub direction: Direction,
    pub carry: Option<char>,
}

impl Connection {
    /// A connection that waits for its handshake.
    pub fn new(shake_sig: char, term_sig: char, direction: Direction) -> (r: Connection)
        ensures
            r.phase == Phase::AwaitingHandshake,
            r.shake_sig == shake_sig,
            r.term_sig == term_sig,
            r.direction == direction,
            r.carry is None,
    {
        Connection { phase: Phase::AwaitingHandshake, shake_sig, term_sig, direction, carry: None }
    }

    /// Takes the client's handshake byte. On a match the connection becomes active and
    /// the byte to echo is returned; on a mismatch it closes and nothing is returned.
    /// Outside the handshake phase nothing changes and nothing is returned.
    pub fn on_handshake(&mut self, received: u8) -> (reply: Option<u8>)
        ensures
            old(self).phase != Phase::AwaitingHandshake ==> reply is None && *final(self) == *old(self),
            old(self).phase == Phase::AwaitingHandshake && received as char == old(self).shake_sig
                ==> reply == Some(old(self).shake_sig as u8) && final(self).phase == Phase::Active,
            old(self).phase == Phase::AwaitingHandshake && received as char != old(self).shake_sig
                ==> reply is None && final(self).phase == Phase::Closed,
            final(self).shake_sig == old(self).shake_sig,
            final(self).term_sig == old(self).term_sig,
            final(self).direction == old(self).direction,
            final(self).carry == old(self).carry,
    {
        match self.phase {
            Phase::AwaitingHandshake => {
                if received as char == self.shake_sig {
                    self.phase = Phase::Active;
                    Some(#[verifier::truncate] (self.shake_sig as u8))
                } else {
                    self.phase = Phase::Closed;
                    None
                }
            },
            _ => None,
        }
    }

    /// Takes one chunk read from the client and returns the bytes to write back:
    /// the transformed symbols, followed by the sentinel when the chunk ended the
    /// stream, in which case the connection closes. Outside the active phase
    /// nothing changes and nothing is returned.
    pub fn on_chunk(&mut self, data: &[u8]) -> (reply: Vec<u8>)
        ensures
            old(self).phase != Phase::Active ==> reply@.len() == 0 && *final(self) == *old(self),
            old(self).phase == Phase::Active && chunk_terminates(old(self).carry, data@, old(self).term_sig)
                ==> reply@ == chunk_output(
                old(self).carry,
                data@,
                old(self).term_sig,
                old(self).direction,
            ).push(old(self).term_sig as u8) && final(self).phase == Phase::Closed
                && final(self).carry is None,
            old(self).phase == Phase::Active && !chunk_terminates(old(self).carry, data@, old(self).term_sig)
                ==> reply@ == chunk_output(
                old(self).carry,
                data@,
                old(self).term_sig,
                old(self).direction,
            ) && final(self).phase == Phase::Active && final(self).carry == chunk_carry(
                old(self).carry,
                data@,
                old(self).term_sig,
            ),
            final(self).shake_sig == old(self).shake_sig,
            final(self).term_sig == old(self).term_sig,
            final(self).direction == old(self).direction,
    {
        if self.phase != Phase::Active {
            return Vec::new();
        }
        let mut buffer: Vec<u8> = vec![0u8; data.len() / 2 + 1];
        let (carry, written) = transform_data(
            data,
            buffer.as_mut_slice(),
            self.carry,
            self.term_sig,
            self.direction,
        );
        buffer.truncate(written);
        if chunk_ends_stream(data, self.carry, self.term_sig) {
            buffer.push(#[verifier::truncate] (self.term_sig as u8));
            self.phase = Phase::Closed;
            self.carry = None;
        } else {
            self.carry = carry;
        }
        buffer
    }

    /// Marks the connection closed: the client went away or the socket failed.
    pub fn close(&mut self)
        ensures
            final(self).phase == Phase::Closed,
            final(self).shake_sig == old(self).shake_sig,
            final(self).term_sig == old(self).term_sig,
            final(self).direction == old(self).direction,
            final(self).carry == old(self).carry,
    {
        self.phase = Phase::Closed;
    }
}

} // verus!
