//! What the realtime and the buffered audio receivers share: the decryption of audio packets, the
//! decoder's configuration block, and the format that sessions are given.
use crate::crypto::aead::{chacha_open, max_sealed_len, open};
use crate::wire::{
    be_bytes, be_nat, be_u32_bytes, lemma_be_bytes_len, lemma_be_nat_of_bytes,
    lemma_byte_range_step,
};
use vstd::prelude::*;

verus! {

/// Bytes of the fixed RTP header.
pub const RTP_HEADER_LEN: usize = 12;

/// Bytes of the authentication tag.
pub const CHACHA_TAG_LEN: usize = 16;

/// Bytes of the nonce at the end of a packet.
pub const NONCE_TRAIL_LEN: usize = 8;

/// The coding of audio samples.
#[derive(Clone, Copy, Debug, PartialEq, Eq, Structural)]
pub enum AudioCodec {
    /// Samples as they are.
    Pcm,
}

/// The format of the samples that a session receives.
#[derive(Clone, Copy, Debug, PartialEq, Eq, Structural)]
pub struct AudioFormat {
    /// How samples are coded.
    pub codec: AudioCodec,
    /// Bits in a sample.
    pub bits: u8,
    /// Channels in a frame.
    pub channels: u8,
    /// Frames in a second.
    pub sample_rate: u32,
}

/// The plaintext of an encrypted audio packet: header, ciphertext with tag, nonce tail. The nonce
/// is four zero bytes and the tail, the associated data the last 8 bytes of the header.
pub open spec fn rtp_plaintext(key: Seq<u8>, packet: Seq<u8>) -> Option<Seq<u8>> {
    let n = packet.len() as int;
    if n < RTP_HEADER_LEN + CHACHA_TAG_LEN + NONCE_TRAIL_LEN {
        None
    } else {
        chacha_open(
            key,
            seq![0u8, 0u8, 0u8, 0u8] + packet.skip(n - NONCE_TRAIL_LEN),
            packet.subrange(4, 12),
            packet.subrange(RTP_HEADER_LEN as int, n - NONCE_TRAIL_LEN),
        )
    }
}

/// Decrypts an audio packet. Nothing comes back where it is too short for a header, a tag and a
/// nonce, or where the tag is wrong.
pub fn decrypt_rtp_chacha(key: &[u8; 32], packet: &[u8]) -> (r: Option<Vec<u8>>)
    requires
        packet@.len() <= max_sealed_len(),
    ensures
        match r {
            None => rtp_plaintext(key@, packet@) is None,
            Some(plain) => rtp_plaintext(key@, packet@) == Some(plain@) && plain@.len()
                + RTP_HEADER_LEN + CHACHA_TAG_LEN + NONCE_TRAIL_LEN == packet@.len(),
        },
{
    let n: usize = packet.len();
    if n < RTP_HEADER_LEN + CHACHA_TAG_LEN + NONCE_TRAIL_LEN {
        return None;
    }
    let t: usize = n - NONCE_TRAIL_LEN;
    let nonce: [u8; 12] = [
        0,
        0,
        0,
        0,
        packet[t],
        packet[t + 1],
        packet[t + 2],
        packet[t + 3],
        packet[t + 4],
        packet[t + 5],
        packet[t + 6],
        packet[t + 7],
    ];
    assert(nonce@ =~= seq![0u8, 0u8, 0u8, 0u8] + packet@.skip(t as int));
    match open(key, &nonce, &packet[4..12], &packet[RTP_HEADER_LEN..t]) {
        Ok(plain) => Some(plain),
        Err(_) => None,
    }
}

/// The configuration block of an ALAC decoder.
pub open spec fn alac_info(
    samples_per_frame: u32,
    bit_depth: u8,
    channels: u8,
    sample_rate: u32,
) -> Seq<u8> {
    Seq::new(24, |i: int| 0u8) + be_bytes(samples_per_frame as nat, 4) + seq![
        0u8,
        bit_depth,
        40u8,
        10u8,
        14u8,
        channels,
        0u8,
        255u8,
    ] + Seq::new(8, |i: int| 0u8) + be_bytes(sample_rate as nat, 4)
}

/// Writes the configuration block of an ALAC decoder.
pub fn alac_info_block(samples_per_frame: u32, bit_depth: u8, channels: u8, sample_rate: u32) -> (r:
    [u8; 48])
    ensures
        r@ == alac_info(samples_per_frame, bit_depth, channels, sample_rate),
{
    let f: [u8; 4] = be_u32_bytes(samples_per_frame);
    let s: [u8; 4] = be_u32_bytes(sample_rate);
    let mut info: [u8; 48] = [0u8; 48];
    info[24] = f[0];
    info[25] = f[1];
    info[26] = f[2];
    info[27] = f[3];
    info[29] = bit_depth;
    info[30] = 40;
    info[31] = 10;
    info[32] = 14;
    info[33] = channels;
    info[35] = 255;
    info[44] = s[0];
    info[45] = s[1];
    info[46] = s[2];
    info[47] = s[3];
    proof {
        lemma_be_bytes_len(samples_per_frame as nat, 4);
        lemma_be_bytes_len(sample_rate as nat, 4);
        assert(info@ =~= alac_info(samples_per_frame, bit_depth, channels, sample_rate));
    }
    info
}

/// The rate that samples are delivered at.
pub open spec fn target_rate(source: u32, wanted: Option<u32>) -> u32 {
    match wanted {
        Some(rate) => rate,
        None => source,
    }
}

/// The channels that samples are delivered with.
pub open spec fn target_channels(source: u8, most: Option<u8>) -> u8 {
    match most {
        Some(max) => if max < source {
            max
        } else {
            source
        },
        None => source,
    }
}

/// The rate and the channels that samples are delivered with.
pub fn output_target(rate: u32, channels: u8, wanted: Option<u32>, most: Option<u8>) -> (r: (
    u32,
    u8,
))
    ensures
        r.0 == target_rate(rate, wanted),
        r.1 == target_channels(channels, most),
{
    let target: u32 = match wanted {
        Some(w) => w,
        None => rate,
    };
    let out: u8 = match most {
        Some(max) => if max < channels {
            max
        } else {
            channels
        },
        None => channels,
    };
    (target, out)
}

/// The configuration block of an ALAC decoder, byte by byte: numbers are big-endian, and what is
/// not said is zero.
pub proof fn law_alac_info_layout(
    samples_per_frame: u32,
    bit_depth: u8,
    channels: u8,
    sample_rate: u32,
)
    ensures
        ({
            let info = alac_info(samples_per_frame, bit_depth, channels, sample_rate);
            &&& info.len() == 48
            &&& forall|i: int| 0 <= i < 24 || 36 <= i < 44 ==> info[i] == 0
            &&& be_nat(info.subrange(24, 28)) == samples_per_frame
            &&& info[28] == 0 && info[29] == bit_depth
            &&& info[30] == 40 && info[31] == 10 && info[32] == 14
            &&& info[33] == channels
            &&& info[34] == 0 && info[35] == 255
            &&& be_nat(info.subrange(44, 48)) == sample_rate
        }),
{
    let info = alac_info(samples_per_frame, bit_depth, channels, sample_rate);
    lemma_byte_range_step(0);
    lemma_byte_range_step(1);
    lemma_byte_range_step(2);
    lemma_byte_range_step(3);
    lemma_be_bytes_len(samples_per_frame as nat, 4);
    lemma_be_bytes_len(sample_rate as nat, 4);
    lemma_be_nat_of_bytes(samples_per_frame as nat, 4);
    lemma_be_nat_of_bytes(sample_rate as nat, 4);
    assert(info.subrange(24, 28) =~= be_bytes(samples_per_frame as nat, 4));
    assert(info.subrange(44, 48) =~= be_bytes(sample_rate as nat, 4));
}

/// An audio packet in its parts: a 12-byte header, the ciphertext with its 16-byte tag, and 8 bytes
/// of nonce at the end. It is opened with four zeros and the end as nonce, and with bytes 4 to 11
/// of the header as associated data.
pub proof fn law_packet_is_opened(key: Seq<u8>, header: Seq<u8>, sealed: Seq<u8>, tail: Seq<u8>)
    requires
        header.len() == 12,
        tail.len() == 8,
    ensures
        sealed.len() < 16 ==> rtp_plaintext(key, header + sealed + tail) is None,
        sealed.len() >= 16 ==> rtp_plaintext(key, header + sealed + tail) == chacha_open(
            key,
            seq![0u8, 0u8, 0u8, 0u8] + tail,
            header.skip(4),
            sealed,
        ),
{
    let packet = header + sealed + tail;
    let n = packet.len() as int;
    if sealed.len() >= 16 {
        assert(packet.skip(n - 8) =~= tail);
        assert(packet.subrange(4, 12) =~= header.skip(4));
        assert(packet.subrange(12, n - 8) =~= sealed);
    }
}

/// A packet that is shorter than its header, a tag and a nonce is not opened.
pub proof fn law_short_packet(key: Seq<u8>, packet: Seq<u8>)
    requires
        packet.len() < 36,
    ensures
        rtp_plaintext(key, packet) is None,
{
}

/// Samples are delivered at the rate that was wanted, or at the source's, and with the source's
/// channels as far as they are allowed.
pub proof fn law_output_target(source_rate: u32, source_channels: u8, rate: u32, most: u8)
    ensures
        target_rate(source_rate, None) == source_rate,
        target_rate(source_rate, Some(rate)) == rate,
        target_channels(source_channels, None) == source_channels,
        target_channels(source_channels, Some(most)) <= source_channels,
        target_channels(source_channels, Some(most)) <= most,
        target_channels(source_channels, Some(most)) == source_channels || target_channels(
            source_channels,
            Some(most),
        ) == most,
{
}

/// A packet is decrypted exactly where it is long enough and the cipher opens it, to the plaintext
/// that the cipher gives.
pub proof fn law_decrypted_packets(
    key: &[u8; 32],
    packet: &[u8],
    header: Seq<u8>,
    sealed: Seq<u8>,
    tail: Seq<u8>,
    r: Option<Vec<u8>>,
)
    requires
        packet@.len() <= max_sealed_len(),
        call_ensures(decrypt_rtp_chacha, (key, packet), r),
        header.len() == 12,
        tail.len() == 8,
        packet@ == header + sealed + tail,
    ensures
        sealed.len() < 16 ==> r is None,
        sealed.len() >= 16 ==> match chacha_open(
            key@,
            seq![0u8, 0u8, 0u8, 0u8] + tail,
            header.skip(4),
            sealed,
        ) {
            Some(plain) => r matches Some(bytes) && bytes@ == plain && plain.len() + 16
                == sealed.len(),
            None => r is None,
        },
{
    law_packet_is_opened(key@, header, sealed, tail);
}

/// What is delivered: the rate that is wanted or the source's, and the source's channels or fewer.
pub proof fn law_target_of_call(
    rate: u32,
    channels: u8,
    wanted: Option<u32>,
    most: Option<u8>,
    r: (u32, u8),
)
    requires
        call_ensures(output_target, (rate, channels, wanted, most), r),
    ensures
        wanted matches Some(w) ==> r.0 == w,
        wanted is None ==> r.0 == rate,
        most matches Some(m) ==> r.1 == (if m < channels {
            m
        } else {
            channels
        }),
        most is None ==> r.1 == channels,
{
}

/// The decoder's configuration block holds what it is made of at its places.
pub proof fn law_written_info(
    samples_per_frame: u32,
    bit_depth: u8,
    channels: u8,
    sample_rate: u32,
    r: [u8; 48],
)
    requires
        call_ensures(alac_info_block, (samples_per_frame, bit_depth, channels, sample_rate), r),
    ensures
        be_nat(r@.subrange(24, 28)) == samples_per_frame,
        r@[29] == bit_depth,
        r@[30] == 40,
        r@[31] == 10,
        r@[32] == 14,
        r@[33] == channels,
        r@[35] == 255,
        be_nat(r@.subrange(44, 48)) == sample_rate,
{
    law_alac_info_layout(samples_per_frame, bit_depth, channels, sample_rate);
}

} // verus!
