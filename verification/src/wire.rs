//! Fixed-width integers as byte sequences, in both byte orders.
use vstd::arithmetic::div_mod::*;
use vstd::arithmetic::mul::*;
use vstd::arithmetic::power::*;
use vstd::prelude::*;

verus! {

/// The number that `s` spells in base 256, most significant byte first.
pub open spec fn be_nat(s: Seq<u8>) -> nat
    decreases s.len(),
{
    if s.len() == 0 {
        0
    } else {
        be_nat(s.drop_last()) * 256 + s.last() as nat
    }
}

/// The `n` low base-256 digits of `v`, most significant first.
pub open spec fn be_bytes(v: nat, n: nat) -> Seq<u8>
    decreases n,
{
    if n == 0 {
        Seq::empty()
    } else {
        be_bytes(v / 256, (n - 1) as nat).push((v % 256) as u8)
    }
}

/// The number that `s` spells in base 256, least significant byte first.
pub open spec fn le_nat(s: Seq<u8>) -> nat {
    be_nat(s.reverse())
}

/// The `n` low base-256 digits of `v`, least significant first.
pub open spec fn le_bytes(v: nat, n: nat) -> Seq<u8> {
    be_bytes(v, n).reverse()
}

/// How many values `n` bytes can spell.
pub open spec fn byte_range(n: nat) -> nat {
    pow(256, n) as nat
}

pub proof fn lemma_byte_range_step(n: nat)
    ensures
        byte_range(0) == 1,
        byte_range(n + 1) == 256 * byte_range(n),
        byte_range(n) > 0,
{
    lemma_pow0(256);
    lemma_pow_positive(256, n);
    lemma_pow_positive(256, n + 1);
    reveal(pow);
    assert(pow(256, n + 1) == 256 * pow(256, n));
}

pub proof fn lemma_byte_range_mono(m: nat, n: nat)
    requires
        m <= n,
    ensures
        byte_range(m) <= byte_range(n),
    decreases n - m,
{
    if m < n {
        lemma_byte_range_step((n - 1) as nat);
        lemma_byte_range_mono(m, (n - 1) as nat);
    }
}

pub proof fn lemma_byte_range_u64()
    ensures
        byte_range(8) == 0x1_0000_0000_0000_0000,
{
    lemma_byte_range_step(0);
    lemma_byte_range_step(1);
    lemma_byte_range_step(2);
    lemma_byte_range_step(3);
    lemma_byte_range_step(4);
    lemma_byte_range_step(5);
    lemma_byte_range_step(6);
    lemma_byte_range_step(7);
}

pub proof fn lemma_be_nat_bound(s: Seq<u8>)
    ensures
        be_nat(s) < byte_range(s.len()),
    decreases s.len(),
{
    if s.len() == 0 {
        lemma_byte_range_step(0);
    } else {
        lemma_be_nat_bound(s.drop_last());
        lemma_byte_range_step((s.len() - 1) as nat);
    }
}

pub proof fn lemma_be_bytes_len(v: nat, n: nat)
    ensures
        be_bytes(v, n).len() == n,
    decreases n,
{
    if n > 0 {
        lemma_be_bytes_len(v / 256, (n - 1) as nat);
    }
}

/// Reading back the digits of a number gives the number, as far as they hold it.
pub proof fn lemma_be_nat_of_bytes(v: nat, n: nat)
    requires
        v < byte_range(n),
    ensures
        be_nat(be_bytes(v, n)) == v,
    decreases n,
{
    lemma_byte_range_step((n - 1) as nat);
    if n > 0 {
        lemma_be_nat_of_bytes(v / 256, (n - 1) as nat);
        assert(be_bytes(v, n).drop_last() =~= be_bytes(v / 256, (n - 1) as nat));
    }
}

/// Writing the number that a byte sequence spells gives the sequence back.
pub proof fn lemma_be_bytes_of_nat(s: Seq<u8>)
    ensures
        be_bytes(be_nat(s), s.len()) == s,
    decreases s.len(),
{
    if s.len() > 0 {
        lemma_be_bytes_of_nat(s.drop_last());
        let hi = be_nat(s.drop_last());
        assert((hi * 256 + s.last() as nat) / 256 == hi);
        assert(be_bytes(be_nat(s), s.len()) =~= s);
    } else {
        assert(be_bytes(be_nat(s), s.len()) =~= s);
    }
}

/// The first byte of a big-endian number counts the highest power.
pub proof fn lemma_be_nat_first(s: Seq<u8>)
    requires
        s.len() > 0,
    ensures
        be_nat(s) == s[0] * byte_range((s.len() - 1) as nat) + be_nat(s.drop_first()),
    decreases s.len(),
{
    lemma_byte_range_step(0);
    if s.len() == 1 {
        assert(s.drop_last() =~= Seq::empty());
        assert(s.drop_first() =~= Seq::empty());
        assert(be_nat(s.drop_last()) == 0);
        assert(s[0] * byte_range(0) == s[0]) by (nonlinear_arith)
            requires
                byte_range(0) == 1,
        ;
    } else {
        let init = s.drop_last();
        lemma_be_nat_first(init);
        lemma_byte_range_step((s.len() - 2) as nat);
        let r = byte_range((s.len() - 2) as nat);
        assert((s.len() - 2) as nat + 1 == (s.len() - 1) as nat);
        assert(init.drop_first() =~= s.drop_first().drop_last());
        assert(s.drop_first().last() == s.last());
        assert((s[0] * r + be_nat(init.drop_first())) * 256 == s[0] * (256 * r)
            + be_nat(init.drop_first()) * 256) by (nonlinear_arith);
    }
}

pub proof fn lemma_le_bytes_len(v: nat, n: nat)
    ensures
        le_bytes(v, n).len() == n,
{
    lemma_be_bytes_len(v, n);
}

/// Reading back the digits of a number gives the number, as far as they hold it.
pub proof fn lemma_le_nat_of_bytes(v: nat, n: nat)
    requires
        v < byte_range(n),
    ensures
        le_nat(le_bytes(v, n)) == v,
{
    lemma_be_nat_of_bytes(v, n);
    assert(be_bytes(v, n).reverse().reverse() =~= be_bytes(v, n));
}

/// A big-endian 16-bit field of `s`.
pub fn read_be_u16(s: &[u8], at: usize) -> (r: u16)
    requires
        at + 2 <= s@.len(),
    ensures
        r == be_nat(s@.subrange(at as int, at + 2)),
{
    proof {
        let f = s@.subrange(at as int, at + 2);
        reveal_with_fuel(be_nat, 3);
        assert(f.drop_last().drop_last() =~= Seq::empty());
    }
    s[at] as u16 * 256 + s[at + 1] as u16
}

/// A big-endian 32-bit field of `s`.
pub fn read_be_u32(s: &[u8], at: usize) -> (r: u32)
    requires
        at + 4 <= s@.len(),
    ensures
        r == be_nat(s@.subrange(at as int, at + 4)),
{
    proof {
        let f = s@.subrange(at as int, at + 4);
        reveal_with_fuel(be_nat, 5);
        assert(f.drop_last().drop_last().drop_last().drop_last() =~= Seq::empty());
    }
    s[at] as u32 * 0x100_0000 + s[at + 1] as u32 * 0x1_0000 + s[at + 2] as u32 * 0x100 + s[at
        + 3] as u32
}

/// A little-endian 16-bit field of `s`.
pub fn read_le_u16(s: &[u8], at: usize) -> (r: u16)
    requires
        at + 2 <= s@.len(),
    ensures
        r == le_nat(s@.subrange(at as int, at + 2)),
{
    proof {
        let f = s@.subrange(at as int, at + 2).reverse();
        reveal_with_fuel(be_nat, 3);
        assert(f.drop_last().drop_last() =~= Seq::empty());
    }
    s[at] as u16 + s[at + 1] as u16 * 256
}

/// A little-endian 32-bit field of `s`.
pub fn read_le_u32(s: &[u8], at: usize) -> (r: u32)
    requires
        at + 4 <= s@.len(),
    ensures
        r == le_nat(s@.subrange(at as int, at + 4)),
{
    proof {
        let f = s@.subrange(at as int, at + 4).reverse();
        reveal_with_fuel(be_nat, 5);
        assert(f.drop_last().drop_last().drop_last().drop_last() =~= Seq::empty());
    }
    s[at] as u32 + s[at + 1] as u32 * 0x100 + s[at + 2] as u32 * 0x1_0000 + s[at
        + 3] as u32 * 0x100_0000
}

/// A little-endian 64-bit field of `s`.
pub fn read_le_u64(s: &[u8], at: usize) -> (r: u64)
    requires
        at + 8 <= s@.len(),
    ensures
        r == le_nat(s@.subrange(at as int, at + 8)),
{
    let ghost f = s@.subrange(at as int, at + 8).reverse();
    let len: usize = s.len();
    let mut r: u64 = 0;
    let mut i: usize = 0;
    proof {
        assert(f.take(0) =~= Seq::empty());
        lemma_byte_range_u64();
        lemma_byte_range_step(0);
    }
    while i < 8
        invariant
            at + 8 <= len == s@.len(),
            f == s@.subrange(at as int, at + 8).reverse(),
            i <= 8,
            r == be_nat(f.take(i as int)),
            r < byte_range(i as nat),
            byte_range(8) == 0x1_0000_0000_0000_0000,
        decreases 8 - i,
    {
        proof {
            lemma_byte_range_step(i as nat);
            lemma_byte_range_mono(i as nat + 1, 8);
            assert(f.take(i + 1).drop_last() =~= f.take(i as int));
            assert(f.take(i + 1).last() == s@[at + (7 - i)]);
        }
        r = r * 256 + s[at + (7 - i)] as u64;
        i = i + 1;
    }
    assert(f.take(8) =~= f);
    r
}

/// `v` as four bytes, most significant first.
pub fn be_u32_bytes(v: u32) -> (r: [u8; 4])
    ensures
        r@ == be_bytes(v as nat, 4),
{
    let w: u32 = v / 256;
    let x: u32 = w / 256;
    let y: u32 = x / 256;
    let r: [u8; 4] = [y as u8, (x % 256) as u8, (w % 256) as u8, (v % 256) as u8];
    proof {
        reveal_with_fuel(be_bytes, 5);
        assert(r@ =~= be_bytes(v as nat, 4));
    }
    r
}

/// `v` as two bytes, least significant first.
pub fn le_u16_bytes(v: u16) -> (r: [u8; 2])
    ensures
        r@ == le_bytes(v as nat, 2),
{
    let r: [u8; 2] = [(v % 256) as u8, (v / 256) as u8];
    proof {
        reveal_with_fuel(be_bytes, 3);
        assert(r@ =~= le_bytes(v as nat, 2));
    }
    r
}

/// `v` as eight bytes, least significant first.
pub fn le_u64_bytes(v: u64) -> (r: [u8; 8])
    ensures
        r@ == le_bytes(v as nat, 8),
{
    let mut r: [u8; 8] = [0u8; 8];
    let mut rest: u64 = v;
    let mut i: usize = 0;
    assert(r@.take(0) + le_bytes(rest as nat, 8) =~= le_bytes(v as nat, 8));
    while i < 8
        invariant
            i <= 8,
            r@.take(i as int) + le_bytes(rest as nat, (8 - i) as nat) == le_bytes(v as nat, 8),
        decreases 8 - i,
    {
        let ghost before = r@;
        r[i] = (rest % 256) as u8;
        proof {
            let n = (8 - i) as nat;
            lemma_be_bytes_len(rest as nat, n);
            lemma_be_bytes_len(rest as nat / 256, (n - 1) as nat);
            assert(r@.take(i + 1) + le_bytes(rest as nat / 256, (n - 1) as nat) =~= before.take(
                i as int,
            ) + le_bytes(rest as nat, n));
        }
        rest = rest / 256;
        i = i + 1;
    }
    assert(r@.take(8) + le_bytes(rest as nat, 0) =~= r@);
    r
}

/// Whether two byte slices hold the same bytes.
pub fn bytes_eq(a: &[u8], b: &[u8]) -> (r: bool)
    ensures
        r == (a@ == b@),
{
    if a.len() != b.len() {
        return false;
    }
    let mut i: usize = 0;
    while i < a.len()
        invariant
            a@.len() == b@.len(),
            i <= a@.len(),
            forall|k: int| 0 <= k < i ==> a@[k] == b@[k],
        decreases a@.len() - i,
    {
        if a[i] != b[i] {
            return false;
        }
        i = i + 1;
    }
    assert(a@ =~= b@);
    true
}

/// Overwrites the bytes of `buf` from `at` on with `src`.
pub fn put(buf: &mut [u8], at: usize, src: &[u8])
    requires
        at + src@.len() <= old(buf)@.len(),
    ensures
        final(buf)@ == old(buf)@.take(at as int) + src@ + old(buf)@.skip(at + src@.len()),
{
    let ghost before = buf@;
    let len: usize = buf.len();
    let mut i: usize = 0;
    while i < src.len()
        invariant
            at + src@.len() <= len == before.len(),
            buf@.len() == before.len(),
            i <= src@.len(),
            forall|k: int|
                0 <= k < before.len() ==> #[trigger] buf@[k] == (if at <= k < at + i {
                    src@[k - at]
                } else {
                    before[k]
                }),
        decreases src@.len() - i,
    {
        buf[at + i] = src[i];
        i = i + 1;
    }
    assert(buf@ =~= before.take(at as int) + src@ + before.skip(at + src@.len()));
}

/// Appends `src` to `v`.
pub fn append(v: &mut Vec<u8>, src: &[u8])
    ensures
        final(v)@ == old(v)@ + src@,
{
    let ghost before = v@;
    v.extend_from_slice(src);
    assert(v@ =~= before + src@);
}

/// A big-endian number is read digit by digit: one byte counts itself, and what stands in front of
/// `n` bytes counts 256 to the power of `n`.
pub proof fn law_big_endian(head: Seq<u8>, tail: Seq<u8>, b: u8)
    ensures
        be_nat(Seq::<u8>::empty()) == 0,
        be_nat(seq![b]) == b,
        be_nat(head.push(b)) == 256 * be_nat(head) + b,
        be_nat(head + tail) == be_nat(head) * byte_range(tail.len()) + be_nat(tail),
        byte_range(0) == 1,
        byte_range(tail.len() + 1) == 256 * byte_range(tail.len()),
    decreases tail.len(),
{
    lemma_byte_range_step(tail.len());
    assert(seq![b].drop_last() =~= Seq::empty());
    assert(head.push(b).drop_last() =~= head);
    if tail.len() == 0 {
        assert(head + tail =~= head);
        assert(be_nat(head) * 1 == be_nat(head));
    } else {
        let t = tail.drop_last();
        law_big_endian(head, t, b);
        lemma_byte_range_step(t.len());
        assert((head + tail).drop_last() =~= head + t);
        let h = be_nat(head);
        let p = byte_range(t.len());
        assert((h * p) * 256 == h * (256 * p)) by (nonlinear_arith);
    }
}

/// A little-endian number is read digit by digit: its first byte counts itself, and what follows
/// counts 256 times as much.
pub proof fn law_little_endian(first: u8, rest: Seq<u8>)
    ensures
        le_nat(Seq::<u8>::empty()) == 0,
        le_nat(seq![first] + rest) == first + 256 * le_nat(rest),
{
    assert(Seq::<u8>::empty().reverse() =~= Seq::empty());
    assert((seq![first] + rest).reverse() =~= rest.reverse().push(first));
    assert(rest.reverse().push(first).drop_last() =~= rest.reverse());
}

/// Numbers come back from their bytes in both orders, and the little-endian bytes are the
/// big-endian ones from behind.
pub proof fn law_written_numbers_come_back(v: nat, n: nat)
    requires
        v < byte_range(n),
    ensures
        be_bytes(v, n).len() == n,
        le_bytes(v, n).len() == n,
        be_nat(be_bytes(v, n)) == v,
        le_nat(le_bytes(v, n)) == v,
        forall|i: int| 0 <= i < n ==> le_bytes(v, n)[i] == be_bytes(v, n)[n - 1 - i],
{
    lemma_be_bytes_len(v, n);
    lemma_le_bytes_len(v, n);
    lemma_be_nat_of_bytes(v, n);
    lemma_le_nat_of_bytes(v, n);
}

/// Fields are read at their place with the high byte first or the low byte first, and nothing else
/// in the bytes counts.
pub proof fn law_fields_are_read(
    s: &[u8],
    at: usize,
    be16: u16,
    be32: u32,
    le16: u16,
    le32: u32,
)
    requires
        at + 4 <= s@.len(),
        call_ensures(read_be_u16, (s, at), be16),
        call_ensures(read_be_u32, (s, at), be32),
        call_ensures(read_le_u16, (s, at), le16),
        call_ensures(read_le_u32, (s, at), le32),
    ensures
        ({
            let (a, b, c, d) = (s@[at as int], s@[at + 1], s@[at + 2], s@[at + 3]);
            &&& be16 == 0x100 * a + b
            &&& be32 == 0x100_0000 * a + 0x1_0000 * b + 0x100 * c + d
            &&& le16 == a + 0x100 * b
            &&& le32 == a + 0x100 * b + 0x1_0000 * c + 0x100_0000 * d
        }),
{
    let two = s@.subrange(at as int, at + 2);
    let four = s@.subrange(at as int, at + 4);
    reveal_with_fuel(be_nat, 5);
    assert(two.drop_last().drop_last() =~= Seq::empty());
    assert(four.drop_last().drop_last().drop_last().drop_last() =~= Seq::empty());
    assert(two.reverse().drop_last().drop_last() =~= Seq::empty());
    assert(four.reverse().drop_last().drop_last().drop_last().drop_last() =~= Seq::empty());
}

/// Writing puts the bytes at their place and leaves all others as they are.
pub proof fn law_put(buf: &mut [u8], at: usize, src: &[u8])
    requires
        at + src@.len() <= old(buf)@.len(),
        call_ensures(put, (buf, at, src), ()),
    ensures
        final(buf)@.len() == old(buf)@.len(),
        forall|i: int|
            0 <= i < final(buf)@.len() ==> #[trigger] final(buf)@[i] == (if at <= i < at
                + src@.len() {
                src@[i - at]
            } else {
                old(buf)@[i]
            }),
{
}

} // verus!
