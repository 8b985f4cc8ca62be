//! The encrypted event connection of a session.
//!
//! The sender connects to the event port after the first setup. Both directions are framed by the
//! encrypted transport.
use crate::crypto::chacha_transport::{
    block_count, frames, law_reading_resumes, open_frames, opened_after, EncryptedChannel, Opened,
    BLOCK_OVERHEAD,
};
use crate::error::CryptoError;
use crate::wire::append;
use vstd::prelude::*;

verus! {

/// The most encrypted bytes that wait for the rest of their block.
pub const MAX_ENCRYPTED_EVENT_BUFFER_LEN: usize = 1024 * 1024;

/// Why an event connection is closed.
#[derive(Debug)]
pub enum EventError {
    /// More bytes wait than are allowed.
    BufferFull(usize),
    /// A block is not authentic, or the counter is used up.
    Crypto(CryptoError),
}

/// An event connection: its keys, and the encrypted bytes of a block that is not complete yet.
pub struct EventChannel {
    /// The keys and counters.
    pub channel: EncryptedChannel,
    /// The bytes that wait.
    pub encrypted_buf: Vec<u8>,
}

impl EventChannel {
    /// A connection that nothing was received on.
    pub fn new(channel: EncryptedChannel) -> (r: Self)
        ensures
            r.channel == channel,
            r.encrypted_buf@ == Seq::<u8>::empty(),
    {
        EventChannel { channel, encrypted_buf: Vec::new() }
    }

    /// Takes received bytes in and returns the plaintext of the blocks that are complete. The
    /// connection is to be closed on an error; the limit is looked at before anything is opened.
    pub fn on_data(&mut self, data: &[u8]) -> (r: Result<Vec<u8>, EventError>)
        ensures
            final(self).channel.encrypt_ctx == old(self).channel.encrypt_ctx,
            final(self).channel.decrypt_ctx.key == old(self).channel.decrypt_ctx.key,
            ({
                let waiting = old(self).encrypted_buf@ + data@;
                let counter = old(self).channel.decrypt_ctx.counter as nat;
                let opened = open_frames(
                    old(self).channel.decrypt_ctx.key@,
                    counter,
                    waiting,
                );
                if waiting.len() > MAX_ENCRYPTED_EVENT_BUFFER_LEN {
                    &&& r matches Err(EventError::BufferFull(n)) && n == waiting.len()
                    &&& final(self).encrypted_buf@ == waiting
                    &&& final(self).channel.decrypt_ctx == old(self).channel.decrypt_ctx
                } else {
                    &&& final(self).channel.decrypt_ctx.counter == opened.counter
                    &&& match opened.error {
                        None => r matches Ok(plain) && plain@ == opened.plain
                            && final(self).encrypted_buf@ == waiting.skip(opened.consumed as int)
                            && plain@.len() + BLOCK_OVERHEAD * (opened.counter - counter)
                            == opened.consumed,
                        Some(text) => r matches Err(EventError::Crypto(e)) && e.text() == text
                            && final(self).encrypted_buf@ == waiting,
                    }
                }
            }),
    {
        append(&mut self.encrypted_buf, data);
        if self.encrypted_buf.len() > MAX_ENCRYPTED_EVENT_BUFFER_LEN {
            return Err(EventError::BufferFull(self.encrypted_buf.len()));
        }
        proof {
            law_reading_resumes(
                self.channel.decrypt_ctx.key@,
                self.channel.decrypt_ctx.counter as nat,
                self.encrypted_buf@,
                Seq::empty(),
            );
        }
        match self.channel.decrypt_ctx.decrypt(self.encrypted_buf.as_slice()) {
            Ok((plain, consumed)) => {
                let rest = self.encrypted_buf.split_off(consumed);
                self.encrypted_buf = rest;
                Ok(plain)
            },
            Err(e) => Err(EventError::Crypto(e)),
        }
    }

    /// The wire bytes of a message to send. The connection is to be closed on an error.
    pub fn on_send(&mut self, data: &[u8]) -> (r: Result<Vec<u8>, CryptoError>)
        ensures
            final(self).channel.decrypt_ctx == old(self).channel.decrypt_ctx,
            final(self).encrypted_buf == old(self).encrypted_buf,
            final(self).channel.encrypt_ctx.key == old(self).channel.encrypt_ctx.key,
            ({
                let key = old(self).channel.encrypt_ctx.key@;
                let counter = old(self).channel.encrypt_ctx.counter as nat;
                let after = counter + block_count(data@.len());
                if after <= u64::MAX {
                    &&& final(self).channel.encrypt_ctx.counter == after
                    &&& r matches Ok(wire) && wire@ == frames(key, counter, data@)
                        && open_frames(key, counter, wire@) == (Opened {
                        plain: data@,
                        consumed: wire@.len(),
                        counter: after,
                        error: None,
                    }) && wire@.len() == data@.len() + BLOCK_OVERHEAD * block_count(data@.len())
                } else {
                    &&& final(self).channel.encrypt_ctx.counter == u64::MAX
                    &&& r matches Err(e) && e.text()
                        == "nonce counter exhausted before encryption"@
                }
            }),
    {
        self.channel.encrypt_ctx.encrypt(data)
    }
}

/// Pieces of a stream, put together.
pub open spec fn joined(pieces: Seq<Seq<u8>>) -> Seq<u8>
    decreases pieces.len(),
{
    if pieces.len() == 0 {
        Seq::empty()
    } else {
        pieces[0] + joined(pieces.drop_first())
    }
}

/// What comes out of taking pieces in one by one, up to the first error.
pub open spec fn read_pieces(
    key: Seq<u8>,
    counter: nat,
    waiting: Seq<u8>,
    pieces: Seq<Seq<u8>>,
) -> Opened
    decreases pieces.len(),
{
    if pieces.len() == 0 {
        Opened { plain: Seq::empty(), consumed: 0, counter, error: None }
    } else {
        let wire = waiting + pieces[0];
        let opened = open_frames(key, counter, wire);
        match opened.error {
            Some(_) => opened,
            None => opened_after(
                opened.plain,
                opened.consumed,
                read_pieces(
                    key,
                    opened.counter,
                    wire.skip(opened.consumed as int),
                    pieces.drop_first(),
                ),
            ),
        }
    }
}

/// How the network cuts the stream into pieces does not show: taken in one by one they give the
/// plaintext, the counter and the outcome of the whole.
pub proof fn law_pieces_do_not_show(
    key: Seq<u8>,
    counter: nat,
    waiting: Seq<u8>,
    pieces: Seq<Seq<u8>>,
)
    requires
        pieces.len() > 0,
    ensures
        read_pieces(key, counter, waiting, pieces) == open_frames(
            key,
            counter,
            waiting + joined(pieces),
        ),
    decreases pieces.len(),
{
    let wire = waiting + pieces[0];
    let opened = open_frames(key, counter, wire);
    let rest = pieces.drop_first();
    let left = wire.skip(opened.consumed as int);
    law_reading_resumes(key, counter, wire, joined(rest));
    assert(waiting + joined(pieces) =~= wire + joined(rest));
    if opened.error is None {
        if rest.len() == 0 {
            law_reading_resumes(key, counter, wire, Seq::empty());
            assert(wire + Seq::<u8>::empty() =~= wire);
            assert(left + Seq::<u8>::empty() =~= left);
            let nothing = read_pieces(key, opened.counter, left, rest);
            assert(opened.plain + nothing.plain =~= opened.plain);
        } else {
            law_pieces_do_not_show(key, opened.counter, left, rest);
        }
    }
}

/// Pieces are put together in their order.
pub proof fn law_joined(piece: Seq<u8>, pieces: Seq<Seq<u8>>)
    ensures
        joined(Seq::empty()).len() == 0,
        joined(seq![piece] + pieces) == piece + joined(pieces),
{
    assert((seq![piece] + pieces).drop_first() =~= pieces);
}

/// At most a megabyte waits for the rest of its block.
pub proof fn law_event_buffer_limit()
    ensures
        MAX_ENCRYPTED_EVENT_BUFFER_LEN == 0x10_0000,
{
}

/// What is sent on one side of a connection arrives on the other: where nothing waits there, the
/// message comes out whole and nothing is left.
pub proof fn law_events_arrive(
    sender: &mut EventChannel,
    receiver: &mut EventChannel,
    message: &[u8],
    sent: Result<Vec<u8>, CryptoError>,
    wire: &[u8],
    received: Result<Vec<u8>, EventError>,
)
    requires
        old(sender).channel.encrypt_ctx.key == old(receiver).channel.decrypt_ctx.key,
        old(sender).channel.encrypt_ctx.counter == old(receiver).channel.decrypt_ctx.counter,
        old(sender).channel.encrypt_ctx.counter + (message@.len() + 1023) / 1024 <= u64::MAX,
        message@.len() + 18 * ((message@.len() + 1023) / 1024) <= 0x10_0000,
        old(receiver).encrypted_buf@.len() == 0,
        call_ensures(EventChannel::on_send, (sender, message), sent),
        sent matches Ok(bytes) ==> wire@ == bytes@,
        call_ensures(EventChannel::on_data, (receiver, wire), received),
    ensures
        sent is Ok,
        received matches Ok(plain) && plain@ == message@,
        final(receiver).encrypted_buf@.len() == 0,
        final(sender).channel.encrypt_ctx.counter == final(receiver).channel.decrypt_ctx.counter,
{
    assert(old(receiver).encrypted_buf@ + wire@ =~= wire@);
}

/// More than a megabyte that waits closes the connection, and nothing is opened.
pub proof fn law_full_buffer(
    receiver: &mut EventChannel,
    data: &[u8],
    received: Result<Vec<u8>, EventError>,
)
    requires
        call_ensures(EventChannel::on_data, (receiver, data), received),
    ensures
        received matches Err(EventError::BufferFull(_)) <==> old(receiver).encrypted_buf@.len()
            + data@.len() > 0x10_0000,
        received matches Err(EventError::BufferFull(n)) ==> n == old(
            receiver,
        ).encrypted_buf@.len() + data@.len() && final(receiver).channel.decrypt_ctx == old(
            receiver,
        ).channel.decrypt_ctx,
{
}

} // verus!
