//! AES-128 on one block, and the counter-mode keystream made of it.
use crate::wire::{
    be_bytes, be_nat, byte_range, lemma_be_bytes_len, lemma_be_bytes_of_nat, lemma_be_nat_bound,
    lemma_be_nat_first, lemma_be_nat_of_bytes, lemma_byte_range_step,
};
use aes::cipher::{Array, BlockCipherEncrypt, KeyInit};
use aes::Aes128;
use ctr::cipher::{KeyIvInit, StreamCipher};
use ctr::Ctr128BE;
use vstd::arithmetic::div_mod::*;
use vstd::prelude::*;

verus! {

/// Bytes in an AES block.
pub const BLOCK_SIZE: usize = 16;

/// The block that AES-128 under `key` makes of `block`.
pub uninterp spec fn aes128_encrypt(key: Seq<u8>, block: Seq<u8>) -> Seq<u8>;

/// Calls `Aes128::new` and `encrypt_block` of the `aes` crate: the result is a function of the
/// key and the block alone, named `aes128_encrypt`.
#[verifier::external_body]
pub(crate) fn aes128_block(key: &[u8; 16], block: &[u8; 16]) -> (r: [u8; 16])
    ensures
        r@ == aes128_encrypt(key@, block@),
{
    let cipher = Aes128::new(key.into());
    let mut out = Array::from(*block);
    cipher.encrypt_block(&mut out);
    out.into()
}

/// The counter block `n` steps after `iv`: a 128-bit big-endian number that wraps.
pub open spec fn counter_add(iv: Seq<u8>, n: nat) -> Seq<u8> {
    be_bytes((be_nat(iv) + n) % byte_range(16), 16)
}

/// Byte `i` of the AES-128 counter-mode keystream that starts at counter block `iv`.
pub open spec fn ctr_keystream(key: Seq<u8>, iv: Seq<u8>, i: nat) -> u8 {
    aes128_encrypt(key, counter_add(iv, i / 16))[(i % 16) as int]
}

/// The whole keystream, as a function of the position.
pub open spec fn ctr_stream(key: Seq<u8>, iv: Seq<u8>) -> spec_fn(nat) -> u8 {
    |i: nat| ctr_keystream(key, iv, i)
}

/// `data` with each byte XORed with the stream's byte at the same position.
pub open spec fn xor_stream(data: Seq<u8>, stream: spec_fn(nat) -> u8) -> Seq<u8> {
    Seq::new(data.len(), |i: int| data[i] ^ stream(i as nat))
}

/// The stream from position `n` on.
pub open spec fn skip_stream(stream: spec_fn(nat) -> u8, n: nat) -> spec_fn(nat) -> u8 {
    |i: nat| stream(i + n)
}

/// Calls `Ctr128BE::<Aes128>::new` and `apply_keystream` of the `ctr` crate: a fresh cipher XORs
/// block `j` of the data with the AES-128 encryption of the big-endian 128-bit counter `iv + j`.
#[verifier::external_body]
pub(crate) fn ctr128be_apply(key: &[u8; 16], iv: &[u8; 16], data: &mut [u8])
    ensures
        final(data)@ == xor_stream(old(data)@, ctr_stream(key@, iv@)),
{
    Ctr128BE::<Aes128>::new(key.into(), iv.into()).apply_keystream(data);
}

/// Skipping twice is skipping the sum.
pub proof fn lemma_skip_skip(stream: spec_fn(nat) -> u8, m: nat, n: nat)
    ensures
        skip_stream(skip_stream(stream, m), n) == skip_stream(stream, m + n),
{
    assert forall|i: nat| #[trigger]
        skip_stream(skip_stream(stream, m), n)(i) == skip_stream(stream, m + n)(i) by {
        assert(i + n + m == i + (m + n));
    }
    assert(skip_stream(skip_stream(stream, m), n) =~= skip_stream(stream, m + n));
}

/// A cipher that keeps its place can be given data piece by piece: the pieces come out as from one
/// pass over all of it, and the stream goes on at the same place.
pub proof fn law_stream_split(stream: spec_fn(nat) -> u8, a: Seq<u8>, b: Seq<u8>)
    ensures
        xor_stream(a + b, stream) == xor_stream(a, stream) + xor_stream(
            b,
            skip_stream(stream, a.len()),
        ),
        skip_stream(skip_stream(stream, a.len()), b.len()) == skip_stream(stream, (a + b).len()),
{
    lemma_skip_skip(stream, a.len(), b.len());
    assert(xor_stream(a + b, stream) =~= xor_stream(a, stream) + xor_stream(
        b,
        skip_stream(stream, a.len()),
    ));
}

/// A stream cipher undoes itself: XORing twice with one stream gives the data back.
pub proof fn law_stream_involution(stream: spec_fn(nat) -> u8, data: Seq<u8>)
    ensures
        xor_stream(xor_stream(data, stream), stream) == data,
{
    assert forall|i: int| 0 <= i < data.len() implies xor_stream(
        xor_stream(data, stream),
        stream,
    )[i] == data[i] by {
        let d = data[i];
        let k = stream(i as nat);
        assert(d ^ k ^ k == d) by (bit_vector);
    }
    assert(xor_stream(xor_stream(data, stream), stream) =~= data);
}

pub proof fn lemma_counter_add_len(iv: Seq<u8>, n: nat)
    ensures
        counter_add(iv, n).len() == 16,
        be_nat(counter_add(iv, n)) == (be_nat(iv) + n) % byte_range(16),
{
    lemma_byte_range_step(16);
    lemma_be_bytes_len((be_nat(iv) + n) % byte_range(16), 16);
    lemma_mod_bound((be_nat(iv) + n) as int, byte_range(16) as int);
    lemma_be_nat_of_bytes((be_nat(iv) + n) % byte_range(16), 16);
}

pub proof fn lemma_counter_add_zero(iv: Seq<u8>)
    requires
        iv.len() == 16,
    ensures
        counter_add(iv, 0) == iv,
{
    lemma_be_nat_bound(iv);
    lemma_small_mod(be_nat(iv), byte_range(16));
    lemma_be_bytes_of_nat(iv);
}

pub proof fn lemma_counter_add_add(iv: Seq<u8>, m: nat, n: nat)
    ensures
        counter_add(counter_add(iv, m), n) == counter_add(iv, m + n),
{
    lemma_counter_add_len(iv, m);
    lemma_byte_range_step(16);
    lemma_add_mod_noop(be_nat(iv) + m as int, n as int, byte_range(16) as int);
    lemma_mod_twice(be_nat(iv) + m as int, byte_range(16) as int);
    lemma_add_mod_noop(
        (be_nat(iv) + m as int) % byte_range(16) as int,
        n as int,
        byte_range(16) as int,
    );
}

/// Skipping whole blocks of a keystream is starting it at a later counter.
pub proof fn lemma_ctr_skip_blocks(key: Seq<u8>, iv: Seq<u8>, blocks: nat)
    ensures
        skip_stream(ctr_stream(key, iv), 16 * blocks) == ctr_stream(
            key,
            counter_add(iv, blocks),
        ),
{
    let later = counter_add(iv, blocks);
    assert forall|i: nat| #[trigger]
        skip_stream(ctr_stream(key, iv), 16 * blocks)(i) == ctr_stream(key, later)(i) by {
        assert((i + 16 * blocks) / 16 == i / 16 + blocks);
        assert((i + 16 * blocks) % 16 == i % 16);
        lemma_counter_add_add(iv, blocks, i / 16);
    }
    assert(skip_stream(ctr_stream(key, iv), 16 * blocks) =~= ctr_stream(key, later));
}

/// The keystream left when `available` bytes of `state` are unused and `counter` comes next.
pub open spec fn rest_of_stream(
    key: Seq<u8>,
    counter: Seq<u8>,
    state: Seq<u8>,
    available: nat,
) -> spec_fn(nat) -> u8 {
    |i: nat|
        if i < available {
            state[16 - available + i]
        } else {
            ctr_keystream(key, counter, (i - available) as nat)
        }
}

/// A block encrypted and not yet used is the start of the keystream.
pub proof fn lemma_rest_of_fresh_block(key: Seq<u8>, counter: Seq<u8>, state: Seq<u8>)
    requires
        counter.len() == 16,
        state == aes128_encrypt(key, counter),
    ensures
        rest_of_stream(key, counter_add(counter, 1), state, 16) == ctr_stream(key, counter),
{
    lemma_counter_add_zero(counter);
    let next = counter_add(counter, 1);
    assert forall|i: nat| #[trigger]
        rest_of_stream(key, next, state, 16)(i) == ctr_stream(key, counter)(i) by {
        if i < 16 {
            assert(i / 16 == 0);
        } else {
            assert(1 + (i - 16) as nat / 16 == i / 16);
            assert((i - 16) as nat % 16 == i % 16);
            lemma_counter_add_add(counter, 1, (i - 16) as nat / 16);
        }
    }
    assert(rest_of_stream(key, next, state, 16) =~= ctr_stream(key, counter));
}

/// Using up `n` of the unused bytes of a block skips `n` bytes of the stream.
pub proof fn lemma_rest_of_used_block(
    key: Seq<u8>,
    counter: Seq<u8>,
    state: Seq<u8>,
    available: nat,
    n: nat,
)
    requires
        n <= available,
    ensures
        rest_of_stream(key, counter, state, (available - n) as nat) == skip_stream(
            rest_of_stream(key, counter, state, available),
            n,
        ),
{
    assert(rest_of_stream(key, counter, state, (available - n) as nat) =~= skip_stream(
        rest_of_stream(key, counter, state, available),
        n,
    ));
}

/// The counter block `n` steps after `counter`.
pub fn counter_advance(counter: &[u8; 16], n: u64) -> (r: [u8; 16])
    ensures
        r@ == counter_add(counter@, n as nat),
{
    let mut r: [u8; 16] = *counter;
    let mut carry: u128 = n as u128;
    let mut i: usize = 16;
    proof {
        lemma_byte_range_step(0);
        assert(counter@.skip(16) =~= Seq::empty());
        assert(r@.skip(16) =~= Seq::empty());
        assert(carry * byte_range(0) == carry) by (nonlinear_arith)
            requires
                byte_range(0) == 1,
        ;
    }
    while i > 0
        invariant
            i <= 16,
            carry <= u64::MAX,
            r@.take(i as int) == counter@.take(i as int),
            carry * byte_range((16 - i) as nat) + be_nat(r@.skip(i as int)) == n + be_nat(
                counter@.skip(i as int),
            ),
        decreases i,
    {
        let ghost before = r@;
        let ghost held = carry;
        i = i - 1;
        assert(before[i as int] == before.take(i + 1)[i as int]);
        assert(counter@[i as int] == counter@.take(i + 1)[i as int]);
        carry = carry + r[i] as u128;
        let ghost sum = carry;
        r[i] = (carry % 256) as u8;
        carry = carry / 256;
        proof {
            let p = byte_range((15 - i) as nat);
            lemma_byte_range_step((15 - i) as nat);
            assert(r@.take(i as int) =~= counter@.take(i as int)) by {
                assert(before.take(i + 1).take(i as int) =~= before.take(i as int));
                assert(counter@.take(i + 1).take(i as int) =~= counter@.take(i as int));
            }
            lemma_be_nat_first(r@.skip(i as int));
            lemma_be_nat_first(counter@.skip(i as int));
            assert(r@.skip(i as int).drop_first() =~= before.skip(i + 1));
            assert(counter@.skip(i as int).drop_first() =~= counter@.skip(i + 1));
            assert((sum / 256) * (256 * p) + (sum % 256) * p == held * p + counter@[i as int] * p)
                by (nonlinear_arith)
                requires
                    sum == held + counter@[i as int],
                    sum / 256 * 256 + sum % 256 == sum,
            ;
        }
    }
    proof {
        lemma_byte_range_step(16);
        lemma_be_nat_bound(r@);
        assert(r@.skip(0) =~= r@);
        assert(counter@.skip(0) =~= counter@);
        lemma_fundamental_div_mod_converse(
            be_nat(counter@) + n,
            byte_range(16) as int,
            carry as int,
            be_nat(r@) as int,
        );
        lemma_be_bytes_of_nat(r@);
    }
    r
}

/// Each byte is XORed with the stream's byte at its own place, and skipping moves the places.
pub proof fn law_stream_bytes(stream: spec_fn(nat) -> u8, data: Seq<u8>, n: nat)
    ensures
        xor_stream(data, stream).len() == data.len(),
        forall|i: int|
            0 <= i < data.len() ==> #[trigger] xor_stream(data, stream)[i] == data[i] ^ stream(
                i as nat,
            ),
        forall|i: nat| #[trigger] skip_stream(stream, n)(i) == stream(n + i),
{
    assert forall|i: nat| #[trigger] skip_stream(stream, n)(i) == stream(n + i) by {
        assert(i + n == n + i);
    }
}

/// The counter is one big-endian number of 128 bits: it counts all its bytes up, and wraps.
pub proof fn law_counter(iv: Seq<u8>, n: nat)
    requires
        iv.len() == 16,
    ensures
        counter_add(iv, n).len() == 16,
        be_nat(counter_add(iv, n)) == (be_nat(iv) + n)
            % 0x1_0000_0000_0000_0000_0000_0000_0000_0000nat,
        counter_add(iv, 0) == iv,
{
    lemma_counter_add_len(iv, n);
    lemma_counter_add_zero(iv);
    lemma_byte_range_step(0);
    lemma_byte_range_step(1);
    lemma_byte_range_step(2);
    lemma_byte_range_step(3);
    lemma_byte_range_step(4);
    lemma_byte_range_step(5);
    lemma_byte_range_step(6);
    lemma_byte_range_step(7);
    lemma_byte_range_step(8);
    lemma_byte_range_step(9);
    lemma_byte_range_step(10);
    lemma_byte_range_step(11);
    lemma_byte_range_step(12);
    lemma_byte_range_step(13);
    lemma_byte_range_step(14);
    lemma_byte_range_step(15);
}

/// The keystream is the encrypted counter blocks one behind the other.
pub proof fn law_keystream_blocks(key: Seq<u8>, iv: Seq<u8>, block: nat, k: nat)
    requires
        k < 16,
    ensures
        ctr_stream(key, iv)(16 * block + k) == aes128_encrypt(
            key,
            counter_add(iv, block),
        )[k as int],
{
    assert((16 * block + k) / 16 == block);
    assert((16 * block + k) % 16 == k);
}

/// What is left of a block comes first, from its unused end, and the blocks of the counter follow.
pub proof fn law_rest_of_stream(
    key: Seq<u8>,
    counter: Seq<u8>,
    state: Seq<u8>,
    available: nat,
    k: nat,
)
    requires
        available <= 16,
        state.len() == 16,
    ensures
        k < available ==> rest_of_stream(key, counter, state, available)(k) == state.skip(
            16 - available,
        )[k as int],
        rest_of_stream(key, counter, state, available)(available + k) == ctr_stream(
            key,
            counter,
        )(k),
{
}

/// A counter is taken on as one number of 128 bits.
pub proof fn law_counter_advances(counter: &[u8; 16], n: u64, r: [u8; 16])
    requires
        call_ensures(counter_advance, (counter, n), r),
    ensures
        be_nat(r@) == (be_nat(counter@) + n)
            % 0x1_0000_0000_0000_0000_0000_0000_0000_0000int,
{
    law_counter(counter@, n as nat);
}

} // verus!
