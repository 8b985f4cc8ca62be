//! The encrypted transport of control and event connections.
//!
//! Plaintext travels in blocks, `[u16 LE: block_len] [ciphertext: block_len bytes] [tag: 16
//! bytes]`. The length field is the associated data, a block holds 1024 bytes at most, and the
//! nonce is `[0, 0, 0, 0, counter as u64 LE]` with a counter that grows by one for each block.
use crate::crypto::aead::{chacha_open, chacha_seal, open, seal, TAG_LEN};
use crate::crypto::kdf::{derive_key, hkdf_sha512};
use crate::error::CryptoError;
use crate::wire::{
    append, le_bytes, le_nat, le_u16_bytes, le_u64_bytes, lemma_byte_range_step,
    lemma_byte_range_u64, lemma_le_bytes_len, lemma_le_nat_of_bytes, read_le_u16,
};
use vstd::prelude::*;
use vstd::utf8::encode_utf8;

verus! {

/// Plaintext bytes in a block, at most.
pub const MAX_BLOCK_LEN: usize = 1024;

/// Bytes of the length field and the tag of a block.
pub const BLOCK_OVERHEAD: usize = 18;

/// The nonce of the block that `counter` counts.
pub open spec fn nonce_bytes(counter: nat) -> Seq<u8> {
    seq![0u8, 0u8, 0u8, 0u8] + le_bytes(counter, 8)
}

/// Blocks with different counters have different nonces.
pub proof fn law_nonces_differ(a: u64, b: u64)
    requires
        a != b,
    ensures
        nonce_bytes(a as nat) != nonce_bytes(b as nat),
{
    lemma_byte_range_u64();
    lemma_le_nat_of_bytes(a as nat, 8);
    lemma_le_nat_of_bytes(b as nat, 8);
    assert(nonce_bytes(a as nat).skip(4) =~= le_bytes(a as nat, 8));
    assert(nonce_bytes(b as nat).skip(4) =~= le_bytes(b as nat, 8));
}

/// One block on the wire.
pub open spec fn frame(key: Seq<u8>, counter: nat, chunk: Seq<u8>) -> Seq<u8> {
    let field = le_bytes(chunk.len(), 2);
    field + chacha_seal(key, nonce_bytes(counter), field, chunk)
}

/// Plaintext on the wire: blocks of 1024 bytes and one block for the rest.
pub open spec fn frames(key: Seq<u8>, counter: nat, plain: Seq<u8>) -> Seq<u8>
    decreases plain.len(),
{
    if plain.len() == 0 {
        Seq::empty()
    } else if plain.len() <= MAX_BLOCK_LEN {
        frame(key, counter, plain)
    } else {
        frame(key, counter, plain.take(MAX_BLOCK_LEN as int)) + frames(
            key,
            counter + 1,
            plain.skip(MAX_BLOCK_LEN as int),
        )
    }
}

/// How many blocks `len` bytes take.
pub open spec fn block_count(len: nat) -> nat {
    (len + MAX_BLOCK_LEN - 1) as nat / MAX_BLOCK_LEN as nat
}

/// What comes out of reading blocks.
#[verifier::ext_equal]
pub struct Opened {
    /// The plaintext of the blocks that were read.
    pub plain: Seq<u8>,
    /// The wire bytes of the blocks that were read.
    pub consumed: nat,
    /// The counter behind the last block that was read.
    pub counter: nat,
    /// Why reading stopped before the end of the complete blocks, where it did.
    pub error: Option<Seq<char>>,
}

/// `rest` behind one more block, or behind what `consumed` bytes gave.
pub open spec fn opened_after(plain: Seq<u8>, consumed: nat, rest: Opened) -> Opened {
    Opened {
        plain: plain + rest.plain,
        consumed: consumed + rest.consumed,
        counter: rest.counter,
        error: rest.error,
    }
}

/// The wire length of the block at the head of `wire`, where two bytes of it are there.
pub open spec fn head_frame_len(wire: Seq<u8>) -> nat {
    2 + le_nat(wire.take(2)) + TAG_LEN as nat
}

/// Reads all complete blocks of `wire`. An incomplete block at the end is left alone.
pub open spec fn open_frames(key: Seq<u8>, counter: nat, wire: Seq<u8>) -> Opened
    decreases wire.len(),
{
    let nothing = Opened { plain: Seq::empty(), consumed: 0, counter, error: None };
    if wire.len() < 2 || wire.len() < head_frame_len(wire) {
        nothing
    } else if counter == u64::MAX {
        Opened { error: Some("nonce counter exhausted before decryption"@), ..nothing }
    } else if le_nat(wire.take(2)) == 0 {
        Opened { error: Some("invalid framed block length: 0"@), ..nothing }
    } else {
        let len = head_frame_len(wire);
        match chacha_open(
            key,
            nonce_bytes(counter),
            wire.take(2),
            wire.subrange(2, len as int),
        ) {
            None => Opened { error: Some("ChaCha20 decrypt failed"@), ..nothing },
            Some(plain) => opened_after(
                plain,
                len,
                open_frames(key, counter + 1, wire.skip(len as int)),
            ),
        }
    }
}

/// Reading can be resumed: what a first part of the wire leaves unread is put in front of the
/// second part, and the plaintext, the counter and the outcome are those of one reading of both.
pub proof fn law_reading_resumes(key: Seq<u8>, counter: nat, first: Seq<u8>, second: Seq<u8>)
    ensures
        open_frames(key, counter, first).consumed <= first.len(),
        open_frames(key, counter, first).error is None ==> open_frames(
            key,
            counter,
            first + second,
        ) == ({
            let head = open_frames(key, counter, first);
            opened_after(
                head.plain,
                head.consumed,
                open_frames(key, head.counter, first.skip(head.consumed as int) + second),
            )
        }),
        open_frames(key, counter, first).error is Some ==> open_frames(
            key,
            counter,
            first + second,
        ) == open_frames(key, counter, first),
    decreases first.len(),
{
    let whole = first + second;
    let head = open_frames(key, counter, first);
    if first.len() < 2 || first.len() < head_frame_len(first) {
        assert(first.skip(0) =~= first);
        assert(head.plain + open_frames(key, counter, whole).plain =~= open_frames(
            key,
            counter,
            whole,
        ).plain);
    } else {
        let len = head_frame_len(first);
        assert(whole.take(2) =~= first.take(2));
        assert(whole.subrange(2, len as int) =~= first.subrange(2, len as int));
        assert(whole.skip(len as int) =~= first.skip(len as int) + second);
        if counter != u64::MAX && le_nat(first.take(2)) != 0 {
            match chacha_open(
                key,
                nonce_bytes(counter),
                first.take(2),
                first.subrange(2, len as int),
            ) {
                None => {},
                Some(plain) => {
                    law_reading_resumes(key, counter + 1, first.skip(len as int), second);
                    let tail = open_frames(key, counter + 1, first.skip(len as int));
                    assert(first.skip(len as int).skip(tail.consumed as int) =~= first.skip(
                        (len + tail.consumed) as int,
                    ));
                    if tail.error is None {
                        let last = open_frames(
                            key,
                            tail.counter,
                            first.skip((len + tail.consumed) as int) + second,
                        );
                        assert(plain + (tail.plain + last.plain) =~= (plain + tail.plain)
                            + last.plain);
                    }
                },
            }
        }
    }
}

/// Messages that are read back one by one are read back from one stream, in their order.
pub proof fn law_messages_in_order(
    key: Seq<u8>,
    counter: nat,
    first_wire: Seq<u8>,
    first: Opened,
    second_wire: Seq<u8>,
    second: Opened,
)
    requires
        open_frames(key, counter, first_wire) == first,
        first.consumed == first_wire.len(),
        first.error is None,
        open_frames(key, first.counter, second_wire) == second,
    ensures
        open_frames(key, counter, first_wire + second_wire) == opened_after(
            first.plain,
            first.consumed,
            second,
        ),
{
    law_reading_resumes(key, counter, first_wire, second_wire);
    assert(first_wire.skip(first.consumed as int) + second_wire =~= second_wire);
}

/// A sealed block is read back whole.
proof fn lemma_frame_opens(key: Seq<u8>, counter: nat, chunk: Seq<u8>)
    requires
        counter < u64::MAX,
        0 < chunk.len() <= u16::MAX,
        chacha_seal(key, nonce_bytes(counter), le_bytes(chunk.len(), 2), chunk).len()
            == chunk.len() + TAG_LEN,
        chacha_open(
            key,
            nonce_bytes(counter),
            le_bytes(chunk.len(), 2),
            chacha_seal(key, nonce_bytes(counter), le_bytes(chunk.len(), 2), chunk),
        ) == Some(chunk),
    ensures
        open_frames(key, counter, frame(key, counter, chunk)) == (Opened {
            plain: chunk,
            consumed: frame(key, counter, chunk).len(),
            counter: counter + 1,
            error: None,
        }),
{
    let wire = frame(key, counter, chunk);
    let field = le_bytes(chunk.len(), 2);
    lemma_le_bytes_len(chunk.len(), 2);
    lemma_byte_range_step(0);
    lemma_byte_range_step(1);
    lemma_le_nat_of_bytes(chunk.len(), 2);
    assert(wire.take(2) =~= field);
    let len = head_frame_len(wire);
    assert(wire.subrange(2, len as int) =~= chacha_seal(
        key,
        nonce_bytes(counter),
        field,
        chunk,
    ));
    assert(wire.skip(len as int) =~= Seq::empty());
    reveal_with_fuel(open_frames, 2);
    assert(open_frames(key, counter, wire).plain =~= chunk);
}

/// One direction of an encrypted connection.
pub struct CipherContext {
    /// The key of this direction.
    pub key: [u8; 32],
    /// How many blocks went through.
    pub counter: u64,
}

impl CipherContext {
    /// A direction that nothing went through yet.
    pub fn new(key: [u8; 32]) -> (r: Self)
        ensures
            r.key == key,
            r.counter == 0,
    {
        CipherContext { key, counter: 0 }
    }

    fn nonce(&self) -> (r: [u8; 12])
        ensures
            r@ == nonce_bytes(self.counter as nat),
    {
        let c: [u8; 8] = le_u64_bytes(self.counter);
        let r: [u8; 12] = [0, 0, 0, 0, c[0], c[1], c[2], c[3], c[4], c[5], c[6], c[7]];
        proof {
            lemma_le_bytes_len(self.counter as nat, 8);
            assert(r@ =~= nonce_bytes(self.counter as nat));
        }
        r
    }

    /// Seals `plaintext` into framed blocks and returns the wire bytes. The counter must have room
    /// for all blocks: where it has not, it is used up and nothing is returned.
    pub fn encrypt(&mut self, plaintext: &[u8]) -> (r: Result<Vec<u8>, CryptoError>)
        ensures
            final(self).key == old(self).key,
            old(self).counter + block_count(plaintext@.len()) <= u64::MAX ==> {
                &&& final(self).counter == old(self).counter + block_count(plaintext@.len())
                &&& r matches Ok(wire) && wire@ == frames(
                    old(self).key@,
                    old(self).counter as nat,
                    plaintext@,
                ) && open_frames(old(self).key@, old(self).counter as nat, wire@) == (Opened {
                    plain: plaintext@,
                    consumed: wire@.len(),
                    counter: final(self).counter as nat,
                    error: None,
                }) && wire@.len() == plaintext@.len() + BLOCK_OVERHEAD * block_count(
                    plaintext@.len(),
                )
            },
            old(self).counter + block_count(plaintext@.len()) > u64::MAX ==> {
                &&& final(self).counter == u64::MAX
                &&& r matches Err(e) && e.text() == "nonce counter exhausted before encryption"@
            },
    {
        let ghost key = self.key@;
        let ghost start = self.counter as nat;
        let len: usize = plaintext.len();
        let mut out: Vec<u8> = Vec::new();
        let mut pos: usize = 0;
        proof {
            assert(plaintext@.skip(0) =~= plaintext@);
            assert(plaintext@.take(0) =~= Seq::empty());
            assert(out@ + frames(key, start, plaintext@) =~= frames(key, start, plaintext@));
        }
        while pos < len
            invariant
                pos <= len == plaintext@.len(),
                self.key == old(self).key,
                key == self.key@,
                start == old(self).counter,
                start + block_count(plaintext@.len()) == self.counter + block_count(
                    (len - pos) as nat,
                ),
                out@ + frames(key, self.counter as nat, plaintext@.skip(pos as int)) == frames(
                    key,
                    start,
                    plaintext@,
                ),
                open_frames(key, start, out@) == (Opened {
                    plain: plaintext@.take(pos as int),
                    consumed: out@.len(),
                    counter: self.counter as nat,
                    error: None,
                }),
                out@.len() == pos + BLOCK_OVERHEAD * (self.counter - start),
            decreases len - pos,
        {
            if self.counter == u64::MAX {
                return Err(CryptoError::transport("nonce counter exhausted before encryption"));
            }
            let n: usize = if len - pos <= MAX_BLOCK_LEN {
                len - pos
            } else {
                MAX_BLOCK_LEN
            };
            let chunk: &[u8] = &plaintext[pos..pos + n];
            let field: [u8; 2] = le_u16_bytes(n as u16);
            let nonce: [u8; 12] = self.nonce();
            let sealed: Vec<u8> = match seal(&self.key, &nonce, &field, chunk) {
                Ok(sealed) => sealed,
                Err(_) => {
                    return Err(CryptoError::transport("ChaCha20 encrypt failed"));
                },
            };
            let ghost before = out@;
            append(&mut out, &field);
            append(&mut out, sealed.as_slice());
            proof {
                let counter = self.counter as nat;
                let block = frame(key, counter, chunk@);
                let rest = plaintext@.skip(pos as int);
                assert(out@ =~= before + block);
                lemma_frame_opens(key, counter, chunk@);
                law_reading_resumes(key, start, before, block);
                assert(before.skip(before.len() as int) + block =~= block);
                assert(plaintext@.take(pos as int) + chunk@ =~= plaintext@.take(pos + n));
                assert(rest.skip(n as int) =~= plaintext@.skip(pos + n));
                if len - pos <= MAX_BLOCK_LEN {
                    assert(rest =~= chunk@);
                    assert(out@ + frames(key, counter + 1, plaintext@.skip(pos + n)) =~= before
                        + block);
                } else {
                    assert(rest.take(MAX_BLOCK_LEN as int) =~= chunk@);
                    assert(out@ + frames(key, counter + 1, plaintext@.skip(pos + n)) =~= before
                        + frames(key, counter, rest));
                }
            }
            pos = pos + n;
            self.counter = self.counter + 1;
        }
        proof {
            assert(plaintext@.skip(pos as int) =~= Seq::empty());
            assert(plaintext@.take(pos as int) =~= plaintext@);
            assert(out@ + frames(key, self.counter as nat, Seq::empty()) =~= out@);
        }
        Ok(out)
    }

    /// Opens framed blocks and returns the plaintext with the number of wire bytes it took. An
    /// incomplete block at the end is not consumed.
    pub fn decrypt(&mut self, ciphertext: &[u8]) -> (r: Result<(Vec<u8>, usize), CryptoError>)
        ensures
            final(self).key == old(self).key,
            ({
                let opened = open_frames(old(self).key@, old(self).counter as nat, ciphertext@);
                &&& final(self).counter == opened.counter
                &&& match opened.error {
                    None => r matches Ok((plain, consumed)) && plain@ == opened.plain && consumed
                        == opened.consumed && plain@.len() + BLOCK_OVERHEAD * (final(self).counter
                        - old(self).counter) == consumed,
                    Some(text) => r matches Err(e) && e.text() == text,
                }
            }),
    {
        let ghost key = self.key@;
        let ghost whole = open_frames(key, self.counter as nat, ciphertext@);
        let len: usize = ciphertext.len();
        let mut plain: Vec<u8> = Vec::new();
        let mut pos: usize = 0;
        proof {
            assert(ciphertext@.skip(0) =~= ciphertext@);
            assert(whole.plain =~= plain@ + whole.plain);
        }
        while len - pos >= 2
            invariant
                pos <= len == ciphertext@.len(),
                self.key == old(self).key,
                key == self.key@,
                whole == opened_after(
                    plain@,
                    pos as nat,
                    open_frames(key, self.counter as nat, ciphertext@.skip(pos as int)),
                ),
                whole == open_frames(key, old(self).counter as nat, ciphertext@),
                plain@.len() + BLOCK_OVERHEAD * (self.counter - old(self).counter) == pos,
            ensures
                pos <= len,
                self.key == old(self).key,
                plain@.len() + BLOCK_OVERHEAD * (self.counter - old(self).counter) == pos,
                whole == (Opened {
                    plain: plain@,
                    consumed: pos as nat,
                    counter: self.counter as nat,
                    error: None,
                }),
            decreases len - pos,
        {
            let ghost rest = ciphertext@.skip(pos as int);
            let block_len: usize = read_le_u16(ciphertext, pos) as usize;
            assert(rest.take(2) =~= ciphertext@.subrange(pos as int, pos + 2));
            if block_len + 2 + TAG_LEN > len - pos {
                assert(plain@ + Seq::<u8>::empty() =~= plain@);
                break;
            }
            let frame_len: usize = 2 + block_len + TAG_LEN;
            if self.counter == u64::MAX {
                return Err(CryptoError::transport("nonce counter exhausted before decryption"));
            }
            if block_len == 0 {
                return Err(CryptoError::transport("invalid framed block length: 0"));
            }
            let field: &[u8] = &ciphertext[pos..pos + 2];
            let sealed: &[u8] = &ciphertext[pos + 2..pos + frame_len];
            let nonce: [u8; 12] = self.nonce();
            assert(sealed@ =~= rest.subrange(2, frame_len as int));
            let chunk: Vec<u8> = match open(&self.key, &nonce, field, sealed) {
                Ok(chunk) => chunk,
                Err(_) => {
                    return Err(CryptoError::transport("ChaCha20 decrypt failed"));
                },
            };
            proof {
                let tail = open_frames(
                    key,
                    (self.counter + 1) as nat,
                    ciphertext@.skip(pos + frame_len),
                );
                assert(rest.skip(frame_len as int) =~= ciphertext@.skip(pos + frame_len));
                assert(plain@ + (chunk@ + tail.plain) =~= (plain@ + chunk@) + tail.plain);
            }
            append(&mut plain, chunk.as_slice());
            pos = pos + frame_len;
            self.counter = self.counter + 1;
        }
        Ok((plain, pos))
    }
}

/// Both directions of an encrypted connection.
pub struct EncryptedChannel {
    /// Seals what goes out.
    pub encrypt_ctx: CipherContext,
    /// Opens what comes in.
    pub decrypt_ctx: CipherContext,
}

/// The key that `secret` gives under a salt and a purpose.
pub open spec fn channel_key(secret: Seq<u8>, salt: Seq<char>, info: Seq<char>) -> Seq<u8> {
    hkdf_sha512(encode_utf8(salt), secret, encode_utf8(info), 32)
}

impl EncryptedChannel {
    /// Whether this is a fresh channel with the keys of the given salts and purposes.
    pub open spec fn derived_from(
        self,
        secret: Seq<u8>,
        write_salt: Seq<char>,
        write_info: Seq<char>,
        read_salt: Seq<char>,
        read_info: Seq<char>,
    ) -> bool {
        &&& self.encrypt_ctx.key@ == channel_key(secret, write_salt, write_info)
        &&& self.encrypt_ctx.counter == 0
        &&& self.decrypt_ctx.key@ == channel_key(secret, read_salt, read_info)
        &&& self.decrypt_ctx.counter == 0
    }

    /// Derives both keys from a shared secret.
    pub fn new(
        shared_secret: &[u8],
        write_salt: &str,
        write_info: &str,
        read_salt: &str,
        read_info: &str,
    ) -> (r: Result<Self, CryptoError>)
        ensures
            r matches Ok(channel) && channel.derived_from(
                shared_secret@,
                write_salt@,
                write_info@,
                read_salt@,
                read_info@,
            ),
    {
        let write_key: [u8; 32] = match derive_key(
            write_salt.as_bytes(),
            shared_secret,
            write_info.as_bytes(),
        ) {
            Ok(key) => key,
            Err(_) => {
                return Err(CryptoError::transport("HKDF write key failed"));
            },
        };
        let read_key: [u8; 32] = match derive_key(
            read_salt.as_bytes(),
            shared_secret,
            read_info.as_bytes(),
        ) {
            Ok(key) => key,
            Err(_) => {
                return Err(CryptoError::transport("HKDF read key failed"));
            },
        };
        Ok(
            EncryptedChannel {
                encrypt_ctx: CipherContext::new(write_key),
                decrypt_ctx: CipherContext::new(read_key),
            },
        )
    }

    /// The server's side of a control connection.
    pub fn control(shared_secret: &[u8]) -> (r: Result<Self, CryptoError>)
        ensures
            r matches Ok(channel) && channel.derived_from(
                shared_secret@,
                "Control-Salt"@,
                "Control-Read-Encryption-Key"@,
                "Control-Salt"@,
                "Control-Write-Encryption-Key"@,
            ),
    {
        Self::new(
            shared_secret,
            "Control-Salt",
            "Control-Read-Encryption-Key",
            "Control-Salt",
            "Control-Write-Encryption-Key",
        )
    }

    /// The server's side of an event connection.
    pub fn events(shared_secret: &[u8]) -> (r: Result<Self, CryptoError>)
        ensures
            r matches Ok(channel) && channel.derived_from(
                shared_secret@,
                "Events-Salt"@,
                "Events-Write-Encryption-Key"@,
                "Events-Salt"@,
                "Events-Read-Encryption-Key"@,
            ),
    {
        Self::new(
            shared_secret,
            "Events-Salt",
            "Events-Write-Encryption-Key",
            "Events-Salt",
            "Events-Read-Encryption-Key",
        )
    }
}

/// Two channels of one secret whose write and read labels are exchanged are the two ends of one
/// connection: each one's reading direction has the key and the counter of the other's writing
/// direction.
pub proof fn law_mirrored_channels(
    one: EncryptedChannel,
    other: EncryptedChannel,
    secret: Seq<u8>,
    write_salt: Seq<char>,
    write_info: Seq<char>,
    read_salt: Seq<char>,
    read_info: Seq<char>,
)
    requires
        one.derived_from(secret, write_salt, write_info, read_salt, read_info),
        other.derived_from(secret, read_salt, read_info, write_salt, write_info),
    ensures
        one.encrypt_ctx.key@ == other.decrypt_ctx.key@,
        one.encrypt_ctx.counter == other.decrypt_ctx.counter,
        other.encrypt_ctx.key@ == one.decrypt_ctx.key@,
        other.encrypt_ctx.counter == one.decrypt_ctx.counter,
{
}

/// A nonce on its own: 12 bytes, the first four zero, the others the counter in little-endian.
pub proof fn law_nonce_layout(counter: u64)
    ensures
        ({
            let nonce = nonce_bytes(counter as nat);
            &&& nonce.len() == 12
            &&& nonce[0] == 0 && nonce[1] == 0 && nonce[2] == 0 && nonce[3] == 0
            &&& le_nat(nonce.subrange(4, 12)) == counter
        }),
{
    lemma_byte_range_u64();
    lemma_le_bytes_len(counter as nat, 8);
    lemma_le_nat_of_bytes(counter as nat, 8);
    assert(nonce_bytes(counter as nat).subrange(4, 12) =~= le_bytes(counter as nat, 8));
}

/// A block on the wire: two bytes that spell the length of the plaintext in little-endian, then
/// what the cipher makes of the plaintext under the counter's nonce, with those two bytes as
/// associated data.
pub proof fn law_block_layout(key: Seq<u8>, counter: nat, chunk: Seq<u8>)
    requires
        chunk.len() <= u16::MAX,
    ensures
        ({
            let wire = frame(key, counter, chunk);
            &&& wire.len() >= 2
            &&& le_nat(wire.take(2)) == chunk.len()
            &&& wire.skip(2) == chacha_seal(key, nonce_bytes(counter), wire.take(2), chunk)
        }),
{
    let field = le_bytes(chunk.len(), 2);
    lemma_le_bytes_len(chunk.len(), 2);
    lemma_byte_range_step(0);
    lemma_byte_range_step(1);
    lemma_le_nat_of_bytes(chunk.len(), 2);
    let wire = frame(key, counter, chunk);
    assert(wire.take(2) =~= field);
    assert(wire.skip(2) =~= chacha_seal(key, nonce_bytes(counter), field, chunk));
}

/// Plaintext is cut into blocks of 1024 bytes: nothing gives no block, up to 1024 bytes give one
/// block, and behind a full block the rest goes on with the next counter.
pub proof fn law_plaintext_is_cut_into_blocks(
    key: Seq<u8>,
    counter: nat,
    block: Seq<u8>,
    rest: Seq<u8>,
)
    ensures
        frames(key, counter, Seq::empty()) == Seq::<u8>::empty(),
        0 < block.len() <= 1024 ==> frames(key, counter, block) == frame(key, counter, block),
        block.len() == 1024 ==> frames(key, counter, block + rest) == frame(key, counter, block)
            + frames(key, counter + 1, rest),
{
    if block.len() == 1024 {
        if rest.len() == 0 {
            assert(block + rest =~= block);
            assert(frame(key, counter, block) + frames(key, counter + 1, rest) =~= frame(
                key,
                counter,
                block,
            ));
        } else {
            assert((block + rest).take(1024) =~= block);
            assert((block + rest).skip(1024) =~= rest);
        }
    }
}

/// `len` bytes take as many blocks of 1024 as are needed and no more.
pub proof fn law_block_count(len: nat)
    ensures
        len <= 1024 * block_count(len) < len + 1024,
{
}

/// Reading the block at the head of the wire, whatever its length: the plaintext is what the cipher
/// opens under the counter's nonce, the next block is read with the next counter, and a block that
/// the cipher refuses stops the reading with nothing consumed.
pub proof fn law_block_is_opened(
    key: Seq<u8>,
    counter: nat,
    field: Seq<u8>,
    sealed: Seq<u8>,
    rest: Seq<u8>,
)
    requires
        field.len() == 2,
        le_nat(field) > 0,
        sealed.len() == le_nat(field) + 16,
        counter < u64::MAX,
    ensures
        ({
            let opened = open_frames(key, counter, field + sealed + rest);
            match chacha_open(key, nonce_bytes(counter), field, sealed) {
                Some(plain) => {
                    let next = open_frames(key, counter + 1, rest);
                    &&& opened.plain == plain + next.plain
                    &&& opened.consumed == 2 + sealed.len() + next.consumed
                    &&& opened.counter == next.counter
                    &&& opened.error == next.error
                },
                None => {
                    &&& opened.plain.len() == 0
                    &&& opened.consumed == 0
                    &&& opened.counter == counter
                    &&& opened.error == Some("ChaCha20 decrypt failed"@)
                },
            }
        }),
{
    let wire = field + sealed + rest;
    assert(wire.take(2) =~= field);
    let len = head_frame_len(wire);
    assert(len == 2 + sealed.len());
    assert(wire.subrange(2, len as int) =~= sealed);
    assert(wire.skip(len as int) =~= rest);
}

/// What is not a block that can be read: bytes that are still to come are waited for, a length of
/// zero and a counter that is used up stop the reading.
pub proof fn law_other_blocks(key: Seq<u8>, counter: nat, wire: Seq<u8>)
    ensures
        ({
            let opened = open_frames(key, counter, wire);
            let complete = wire.len() >= 2 && wire.len() >= 18 + le_nat(wire.take(2));
            &&& !complete ==> opened.plain.len() == 0 && opened.consumed == 0 && opened.counter
                == counter && opened.error is None
            &&& complete && counter == u64::MAX ==> opened.consumed == 0 && opened.counter
                == counter && opened.error == Some("nonce counter exhausted before decryption"@)
            &&& complete && counter < u64::MAX && le_nat(wire.take(2)) == 0 ==> opened.consumed == 0
                && opened.counter == counter && opened.error == Some(
                "invalid framed block length: 0"@,
            )
        }),
{
}

/// The keys of a channel are what HKDF gives for its salts and purposes, and no block went through
/// yet.
pub proof fn law_derived_keys(
    channel: EncryptedChannel,
    secret: Seq<u8>,
    write_salt: Seq<char>,
    write_info: Seq<char>,
    read_salt: Seq<char>,
    read_info: Seq<char>,
)
    requires
        channel.derived_from(secret, write_salt, write_info, read_salt, read_info),
    ensures
        channel.encrypt_ctx.key@ == hkdf_sha512(
            encode_utf8(write_salt),
            secret,
            encode_utf8(write_info),
            32,
        ),
        channel.decrypt_ctx.key@ == hkdf_sha512(
            encode_utf8(read_salt),
            secret,
            encode_utf8(read_info),
            32,
        ),
        channel.encrypt_ctx.counter == 0,
        channel.decrypt_ctx.counter == 0,
{
}

/// What one end seals the other end opens: with the same key and counter the plaintext comes back
/// whole, all bytes are taken, and both ends count on alike. A message is refused only where the
/// counter has no room for its blocks.
pub proof fn law_sealed_messages_are_opened(
    sender: &mut CipherContext,
    receiver: &mut CipherContext,
    plaintext: &[u8],
    sealed: Result<Vec<u8>, CryptoError>,
    wire: &[u8],
    opened: Result<(Vec<u8>, usize), CryptoError>,
)
    requires
        old(sender).key == old(receiver).key,
        old(sender).counter == old(receiver).counter,
        old(sender).counter + (plaintext@.len() + 1023) / 1024 <= u64::MAX,
        call_ensures(CipherContext::encrypt, (sender, plaintext), sealed),
        sealed matches Ok(bytes) ==> wire@ == bytes@,
        call_ensures(CipherContext::decrypt, (receiver, wire), opened),
    ensures
        sealed is Ok,
        opened matches Ok((plain, consumed)) && plain@ == plaintext@ && consumed == wire@.len(),
        wire@.len() == plaintext@.len() + 18 * ((plaintext@.len() + 1023) / 1024),
        final(sender).counter == final(receiver).counter,
        final(sender).counter == old(sender).counter + (plaintext@.len() + 1023) / 1024,
        final(sender).key == old(sender).key,
        final(receiver).key == old(receiver).key,
{
}

/// A message that the counter has no room for is refused, and the counter is used up.
pub proof fn law_counter_runs_out(
    sender: &mut CipherContext,
    plaintext: &[u8],
    sealed: Result<Vec<u8>, CryptoError>,
)
    requires
        old(sender).counter + (plaintext@.len() + 1023) / 1024 > u64::MAX,
        call_ensures(CipherContext::encrypt, (sender, plaintext), sealed),
    ensures
        sealed matches Err(e) && e.text() == "nonce counter exhausted before encryption"@,
        final(sender).counter == u64::MAX,
{
}

/// Bytes that are no complete block yet are left where they are.
pub proof fn law_incomplete_block_waits(
    receiver: &mut CipherContext,
    wire: &[u8],
    opened: Result<(Vec<u8>, usize), CryptoError>,
)
    requires
        wire@.len() < 2 || wire@.len() < 18 + le_nat(wire@.take(2)),
        call_ensures(CipherContext::decrypt, (receiver, wire), opened),
    ensures
        opened matches Ok((plain, consumed)) && plain@.len() == 0 && consumed == 0,
        final(receiver).counter == old(receiver).counter,
{
    law_other_blocks(old(receiver).key@, old(receiver).counter as nat, wire@);
}

/// The server writes a control connection with the key that controllers read with, and events with
/// the key that events are written with. All keys come from the secret, and no block went through
/// yet.
pub proof fn law_server_channels(
    secret: &[u8],
    control: Result<EncryptedChannel, CryptoError>,
    events: Result<EncryptedChannel, CryptoError>,
)
    requires
        call_ensures(EncryptedChannel::control, (secret,), control),
        call_ensures(EncryptedChannel::events, (secret,), events),
    ensures
        control matches Ok(channel) && channel.encrypt_ctx.key@ == hkdf_sha512(
            encode_utf8("Control-Salt"@),
            secret@,
            encode_utf8("Control-Read-Encryption-Key"@),
            32,
        ) && channel.decrypt_ctx.key@ == hkdf_sha512(
            encode_utf8("Control-Salt"@),
            secret@,
            encode_utf8("Control-Write-Encryption-Key"@),
            32,
        ) && channel.encrypt_ctx.counter == 0 && channel.decrypt_ctx.counter == 0,
        events matches Ok(channel) && channel.encrypt_ctx.key@ == hkdf_sha512(
            encode_utf8("Events-Salt"@),
            secret@,
            encode_utf8("Events-Write-Encryption-Key"@),
            32,
        ) && channel.decrypt_ctx.key@ == hkdf_sha512(
            encode_utf8("Events-Salt"@),
            secret@,
            encode_utf8("Events-Read-Encryption-Key"@),
            32,
        ) && channel.encrypt_ctx.counter == 0 && channel.decrypt_ctx.counter == 0,
{
}

} // verus!
