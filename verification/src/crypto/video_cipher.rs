//! AES-128 in counter mode, for video payloads.
//!
//! The key comes from the session; a block that a payload uses only in part is carried over to the
//! next payload.
use crate::crypto::block::{
    aes128_encrypt, counter_add, counter_advance, ctr128be_apply, ctr_stream, law_keystream_blocks,
    law_stream_bytes, law_stream_involution, law_stream_split, lemma_ctr_skip_blocks,
    lemma_rest_of_used_block, lemma_skip_skip, rest_of_stream, skip_stream, xor_stream,
};
use vstd::prelude::*;

verus! {

/// Streaming AES-128-CTR cipher that keeps its place across packets.
pub struct VideoCipher {
    key: [u8; 16],
    /// The first counter block not used yet.
    counter: [u8; 16],
    /// The last keystream block that was used in part; its unused bytes stand at the end.
    leftover: [u8; 16],
    /// How many bytes of `leftover` are unused.
    leftover_count: usize,
}

impl VideoCipher {
    #[verifier::type_invariant]
    spec fn inv(self) -> bool {
        self.leftover_count < 16
    }

    /// The keystream that is still to be used.
    pub closed spec fn stream(self) -> spec_fn(nat) -> u8 {
        rest_of_stream(self.key@, self.counter@, self.leftover@, self.leftover_count as nat)
    }

    /// How many bytes of the last block are unused.
    pub closed spec fn unused(self) -> int {
        self.leftover_count as int
    }

    /// A cipher at the start of the keystream of `key` and `iv`.
    pub fn new(key: &[u8; 16], iv: &[u8; 16]) -> (r: Self)
        ensures
            r.stream() == ctr_stream(key@, iv@),
            r.unused() == 0,
    {
        let r = VideoCipher { key: *key, counter: *iv, leftover: [0u8; 16], leftover_count: 0 };
        assert(r.stream() =~= ctr_stream(key@, iv@));
        r
    }

    /// How many bytes of the last block are unused.
    pub fn leftover_count(&self) -> (r: usize)
        ensures
            r == self.unused(),
            r <= 15,
    {
        proof {
            use_type_invariant(self);
        }
        self.leftover_count
    }

    /// Decrypts `payload` in place.
    pub fn decrypt(&mut self, payload: &mut [u8])
        ensures
            final(payload)@ == xor_stream(old(payload)@, old(self).stream()),
            final(self).stream() == skip_stream(old(self).stream(), old(payload)@.len()),
            final(self).unused() == (old(self).unused() - old(payload)@.len()) % 16,
    {
        proof {
            use_type_invariant(&*self);
        }
        let ghost cipher = payload@;
        let ghost stream = self.stream();
        let len: usize = payload.len();
        let n: usize = self.leftover_count;
        let apply: usize = if n <= len {
            n
        } else {
            len
        };
        let (head, tail) = payload.split_at_mut(apply);
        let ghost tail0 = tail@;
        apply_leftover(&self.leftover, 16 - n, head);
        proof {
            lemma_rest_of_used_block(
                self.key@,
                self.counter@,
                self.leftover@,
                n as nat,
                apply as nat,
            );
            law_stream_split(stream, cipher.take(apply as int), cipher.skip(apply as int));
            assert(cipher.take(apply as int) + cipher.skip(apply as int) =~= cipher);
            assert(head@ =~= xor_stream(cipher.take(apply as int), stream));
            assert(tail@ =~= cipher.skip(apply as int));
        }
        self.leftover_count = n - apply;
        if apply < n {
            assert(xor_stream(tail0, skip_stream(stream, apply as nat)) =~= tail0);
            return;
        }
        self.decrypt_aligned(tail);
        proof {
            lemma_skip_skip(stream, apply as nat, (len - apply) as nat);
        }
    }

    /// Decrypts `payload` in place when no byte of an earlier block is left.
    fn decrypt_aligned(&mut self, payload: &mut [u8])
        requires
            old(self).unused() == 0,
        ensures
            final(payload)@ == xor_stream(old(payload)@, old(self).stream()),
            final(self).stream() == skip_stream(old(self).stream(), old(payload)@.len()),
            final(self).unused() == (-old(payload)@.len()) % 16,
    {
        let ghost cipher = payload@;
        let ghost stream = self.stream();
        let ghost counter0 = self.counter@;
        assert(stream =~= ctr_stream(self.key@, counter0));
        let len: usize = payload.len();
        let blocks: usize = len / 16;
        let full_len: usize = blocks * 16;
        let rest_len: usize = len % 16;
        assert((-cipher.len()) % 16 == (if rest_len == 0 {
            0
        } else {
            16 - rest_len
        }));
        let (full, last) = payload.split_at_mut(full_len);
        ctr128be_apply(&self.key, &self.counter, full);
        self.counter = counter_advance(&self.counter, blocks as u64);
        let ghost after = ctr_stream(self.key@, self.counter@);
        proof {
            lemma_ctr_skip_blocks(self.key@, counter0, blocks as nat);
            lemma_skip_skip(stream, full_len as nat, rest_len as nat);
            let a = cipher.subrange(0, full_len as int);
            let b = cipher.subrange(full_len as int, len as int);
            law_stream_split(stream, a, b);
            assert(a + b =~= cipher);
        }
        if rest_len > 0 {
            self.leftover = decrypt_partial_block(&self.key, &self.counter, last);
            self.counter = counter_advance(&self.counter, 1);
            self.leftover_count = 16 - rest_len;
        } else {
            assert(self.stream() =~= skip_stream(after, 0));
            assert(xor_stream(last@, after) =~= last@);
        }
    }
}

/// XORs the bytes of `leftover` from `start` on into `data`.
fn apply_leftover(leftover: &[u8; 16], start: usize, data: &mut [u8])
    requires
        start + old(data)@.len() <= 16,
    ensures
        final(data)@ == xor_stream(old(data)@, |i: nat| leftover@[start + i]),
{
    let ghost before = data@;
    let len: usize = data.len();
    let mut i: usize = 0;
    while i < len
        invariant
            i <= len == data@.len() == before.len(),
            start + len <= 16,
            forall|k: int|
                0 <= k < len ==> #[trigger] data@[k] == (if k < i {
                    before[k] ^ leftover@[start + k]
                } else {
                    before[k]
                }),
        decreases len - i,
    {
        data[i] = data[i] ^ leftover[start + i];
        i = i + 1;
    }
    assert(data@ =~= xor_stream(before, |i: nat| leftover@[start + i]));
}

/// Decrypts less than a block, from the start of the keystream of `counter`, and returns the block
/// of which the unused keystream bytes stand behind the data's length.
fn decrypt_partial_block(key: &[u8; 16], counter: &[u8; 16], data: &mut [u8]) -> (r: [u8; 16])
    requires
        old(data)@.len() < 16,
    ensures
        final(data)@ == xor_stream(old(data)@, ctr_stream(key@, counter@)),
        rest_of_stream(
            key@,
            counter_add(counter@, 1),
            r@,
            (16 - old(data)@.len()) as nat,
        ) == skip_stream(ctr_stream(key@, counter@), old(data)@.len()),
{
    let ghost before = data@;
    let ghost stream = ctr_stream(key@, counter@);
    let len: usize = data.len();
    let mut block: [u8; 16] = [0u8; 16];
    let mut j: usize = 0;
    while j < len
        invariant
            j <= len < 16,
            len == data@.len(),
            data@ == before,
            forall|k: int|
                0 <= k < 16 ==> #[trigger] block@[k] == (if k < j {
                    before[k]
                } else {
                    0u8
                }),
        decreases len - j,
    {
        block[j] = data[j];
        j = j + 1;
    }
    let ghost block0 = block@;
    ctr128be_apply(key, counter, &mut block);
    let mut j: usize = 0;
    while j < len
        invariant
            j <= len < 16,
            len == data@.len(),
            before.len() == len,
            forall|k: int|
                0 <= k < len ==> #[trigger] data@[k] == (if k < j {
                    block@[k]
                } else {
                    before[k]
                }),
        decreases len - j,
    {
        data[j] = block[j];
        j = j + 1;
    }
    proof {
        assert(data@ =~= xor_stream(before, stream));
        assert forall|k: int| len <= k < 16 implies #[trigger] block@[k] == stream(k as nat) by {
            let z = stream(k as nat);
            assert(0u8 ^ z == z) by (bit_vector);
        }
        lemma_ctr_skip_blocks(key@, counter@, 1);
        lemma_rest_after_partial(key@, counter_add(counter@, 1), block@, len as nat, stream);
    }
    block
}

/// What is left of a stream when part of its first block was used and kept.
proof fn lemma_rest_after_partial(
    key: Seq<u8>,
    next: Seq<u8>,
    block: Seq<u8>,
    used: nat,
    stream: spec_fn(nat) -> u8,
)
    requires
        used < 16,
        ctr_stream(key, next) == skip_stream(stream, 16),
        forall|k: int| used <= k < 16 ==> #[trigger] block[k] == stream(k as nat),
    ensures
        rest_of_stream(key, next, block, (16 - used) as nat) == skip_stream(stream, used),
{
    let left = (16 - used) as nat;
    let rest = rest_of_stream(key, next, block, left);
    assert forall|k: nat| #[trigger] rest(k) == skip_stream(stream, used)(k) by {
        if k < left {
            assert(rest(k) == block[(used + k) as int]);
            assert(block[(used + k) as int] == stream((used + k) as nat));
        } else {
            let m = (k - left) as nat;
            assert(rest(k) == ctr_stream(key, next)(m));
            assert(ctr_stream(key, next)(m) == skip_stream(stream, 16)(m));
            assert(m + 16 == k + used);
        }
    }
    assert(rest =~= skip_stream(stream, used));
}

/// Two ciphers at the same place of a keystream undo each other, and go on together.
pub proof fn law_video_cipher_undoes_itself(
    one: &mut VideoCipher,
    other: &mut VideoCipher,
    payload: &mut [u8],
    sealed: &mut [u8],
)
    requires
        old(one).stream() == old(other).stream(),
        call_ensures(VideoCipher::decrypt, (one, payload), ()),
        old(sealed)@ == final(payload)@,
        call_ensures(VideoCipher::decrypt, (other, sealed), ()),
    ensures
        final(sealed)@ == old(payload)@,
        final(one).stream() == final(other).stream(),
{
    law_stream_involution(old(one).stream(), old(payload)@);
}

/// How a stream is cut into payloads does not show: one behind the other they come out as the whole
/// would, and the cipher is at the same place.
pub proof fn law_payloads_do_not_show(
    one: &mut VideoCipher,
    next: &mut VideoCipher,
    whole: &mut VideoCipher,
    a: &mut [u8],
    b: &mut [u8],
    both: &mut [u8],
)
    requires
        *old(whole) == *old(one),
        old(both)@ == old(a)@ + old(b)@,
        call_ensures(VideoCipher::decrypt, (one, a), ()),
        *old(next) == *final(one),
        call_ensures(VideoCipher::decrypt, (next, b), ()),
        call_ensures(VideoCipher::decrypt, (whole, both), ()),
    ensures
        final(both)@ == final(a)@ + final(b)@,
        final(whole).stream() == final(next).stream(),
{
    law_stream_split(old(one).stream(), old(a)@, old(b)@);
}

/// A new cipher starts with the encryption of its first counter block: byte `16 * block + k` of the
/// first payload is XORed with byte `k` of the encryption of the counter counted on by `block`.
pub proof fn law_new_video_cipher(
    key: &[u8; 16],
    iv: &[u8; 16],
    fresh: VideoCipher,
    cipher: &mut VideoCipher,
    payload: &mut [u8],
    block: nat,
    k: nat,
)
    requires
        call_ensures(VideoCipher::new, (key, iv), fresh),
        *old(cipher) == fresh,
        call_ensures(VideoCipher::decrypt, (cipher, payload), ()),
        k < 16,
        16 * block + k < old(payload)@.len(),
    ensures
        final(payload)@.len() == old(payload)@.len(),
        final(payload)@[(16 * block + k) as int] == old(payload)@[(16 * block + k) as int]
            ^ aes128_encrypt(key@, counter_add(iv@, block))[k as int],
{
    law_keystream_blocks(key@, iv@, block, k);
    law_stream_bytes(fresh.stream(), old(payload)@, 0);
}

/// How much of the last block is unused follows from how much was decrypted.
pub proof fn law_leftover_bytes(cipher: &mut VideoCipher, payload: &mut [u8])
    requires
        call_ensures(VideoCipher::decrypt, (cipher, payload), ()),
    ensures
        0 <= final(cipher).unused() < 16,
        (final(cipher).unused() + old(payload)@.len() - old(cipher).unused()) % 16 == 0,
{
}

} // verus!
