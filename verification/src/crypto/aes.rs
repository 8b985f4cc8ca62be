//! AES-128 in counter mode, for audio streams.
use crate::crypto::block::{
    aes128_block, aes128_encrypt, counter_add, counter_advance, ctr_stream, law_keystream_blocks,
    law_stream_bytes, law_stream_involution, lemma_rest_of_fresh_block, lemma_rest_of_used_block,
    lemma_skip_skip, rest_of_stream, skip_stream, xor_stream, BLOCK_SIZE,
};
use vstd::prelude::*;

verus! {

/// Streaming AES-128-CTR cipher: the position in the keystream carries over from one call to the
/// next, inside a block too.
pub struct AesCtr {
    key: [u8; 16],
    counter: [u8; 16],
    state: [u8; 16],
    available: usize,
}

impl AesCtr {
    #[verifier::type_invariant]
    spec fn inv(self) -> bool {
        self.available < 16
    }

    /// The keystream that is still to be used.
    pub closed spec fn stream(self) -> spec_fn(nat) -> u8 {
        rest_of_stream(self.key@, self.counter@, self.state@, self.available as nat)
    }

    /// How many bytes of the current block are unused.
    pub closed spec fn unused(self) -> int {
        self.available as int
    }

    /// A cipher at the start of the keystream of `key` and `nonce`.
    pub fn new(key: &[u8; 16], nonce: &[u8; 16]) -> (r: Self)
        ensures
            r.stream() == ctr_stream(key@, nonce@),
            r.unused() == 0,
    {
        let r = AesCtr { key: *key, counter: *nonce, state: [0u8; 16], available: 0 };
        assert(r.stream() =~= ctr_stream(key@, nonce@));
        r
    }

    /// How many bytes of the current block are unused.
    pub fn available(&self) -> (r: usize)
        ensures
            r == self.unused(),
            r < BLOCK_SIZE,
    {
        proof {
            use_type_invariant(self);
        }
        self.available
    }

    /// Encrypts or decrypts `data` in place.
    pub fn encrypt(&mut self, data: &mut [u8])
        ensures
            final(data)@ == xor_stream(old(data)@, old(self).stream()),
            final(self).stream() == skip_stream(old(self).stream(), old(data)@.len()),
            final(self).unused() == (old(self).unused() - old(data)@.len()) % 16,
    {
        proof {
            use_type_invariant(&*self);
        }
        let ghost plain = data@;
        let ghost stream = self.stream();
        let ghost avail0 = self.available as int;
        let key: [u8; 16] = self.key;
        let mut counter: [u8; 16] = self.counter;
        let mut state: [u8; 16] = self.state;
        let mut available: usize = self.available;
        let mut idx: usize = 0;
        let len: usize = data.len();
        assert(rest_of_stream(key@, counter@, state@, available as nat) =~= skip_stream(stream, 0));
        while idx < len
            invariant
                len == plain.len() == data@.len(),
                idx <= len,
                available < 16,
                available == (avail0 - idx) % 16,
                rest_of_stream(key@, counter@, state@, available as nat) == skip_stream(
                    stream,
                    idx as nat,
                ),
                forall|k: int|
                    0 <= k < len ==> #[trigger] data@[k] == (if k < idx {
                        plain[k] ^ stream(k as nat)
                    } else {
                        plain[k]
                    }),
            decreases len - idx,
        {
            if available == 0 {
                let ghost first = counter@;
                let ghost old_state = state@;
                state = aes128_block(&key, &counter);
                available = BLOCK_SIZE;
                counter = counter_advance(&counter, 1);
                proof {
                    lemma_rest_of_fresh_block(key@, first, state@);
                    assert(rest_of_stream(key@, first, old_state, 0) =~= ctr_stream(key@, first));
                }
            }
            let offset: usize = BLOCK_SIZE - available;
            let n: usize = if available <= len - idx {
                available
            } else {
                len - idx
            };
            let start: usize = idx;
            let ghost rest = rest_of_stream(key@, counter@, state@, available as nat);
            let mut i: usize = 0;
            while i < n
                invariant
                    len == plain.len() == data@.len(),
                    start + n <= len,
                    i <= n <= available <= 16,
                    offset == 16 - available,
                    rest == rest_of_stream(key@, counter@, state@, available as nat),
                    rest == skip_stream(stream, start as nat),
                    forall|k: int|
                        0 <= k < len ==> #[trigger] data@[k] == (if k < start + i {
                            plain[k] ^ stream(k as nat)
                        } else {
                            plain[k]
                        }),
                decreases n - i,
            {
                assert(rest(i as nat) == state@[offset + i]);
                assert(rest(i as nat) == stream((start + i) as nat));
                data[start + i] = data[start + i] ^ state[offset + i];
                i = i + 1;
            }
            idx = start + n;
            proof {
                lemma_rest_of_used_block(key@, counter@, state@, available as nat, n as nat);
                lemma_skip_skip(stream, start as nat, n as nat);
            }
            available = available - n;
        }
        self.counter = counter;
        self.state = state;
        self.available = available;
        assert(data@ =~= xor_stream(plain, stream));
    }
}

/// Two ciphers at the same place of a keystream undo each other, however the data is cut, and go on
/// together.
pub proof fn law_cipher_undoes_itself(
    one: &mut AesCtr,
    other: &mut AesCtr,
    data: &mut [u8],
    sealed: &mut [u8],
)
    requires
        old(one).stream() == old(other).stream(),
        call_ensures(AesCtr::encrypt, (one, data), ()),
        old(sealed)@ == final(data)@,
        call_ensures(AesCtr::encrypt, (other, sealed), ()),
    ensures
        final(sealed)@ == old(data)@,
        final(one).stream() == final(other).stream(),
{
    law_stream_involution(old(one).stream(), old(data)@);
}

/// A new cipher starts with the encryption of its nonce: byte `k` of the first data is XORed with
/// byte `k` of that block, and byte `16 * block + k` with that of the nonce counted on by `block`.
pub proof fn law_new_cipher(
    key: &[u8; 16],
    nonce: &[u8; 16],
    fresh: AesCtr,
    cipher: &mut AesCtr,
    data: &mut [u8],
    block: nat,
    k: nat,
)
    requires
        call_ensures(AesCtr::new, (key, nonce), fresh),
        *old(cipher) == fresh,
        call_ensures(AesCtr::encrypt, (cipher, data), ()),
        k < 16,
        16 * block + k < old(data)@.len(),
    ensures
        final(data)@.len() == old(data)@.len(),
        final(data)@[(16 * block + k) as int] == old(data)@[(16 * block + k) as int]
            ^ aes128_encrypt(key@, counter_add(nonce@, block))[k as int],
{
    law_keystream_blocks(key@, nonce@, block, k);
    law_stream_bytes(fresh.stream(), old(data)@, 0);
}

/// How much of the current block is unused follows from how much was encrypted.
pub proof fn law_unused_bytes(cipher: &mut AesCtr, data: &mut [u8])
    requires
        call_ensures(AesCtr::encrypt, (cipher, data), ()),
    ensures
        0 <= final(cipher).unused() < 16,
        (final(cipher).unused() + old(data)@.len() - old(cipher).unused()) % 16 == 0,
{
}

} // verus!
