//! The receiving side of screen mirroring: 128-byte headers with payloads behind them.
use crate::crypto::block::{law_stream_bytes, skip_stream, xor_stream};
use crate::crypto::video_cipher::VideoCipher;
use crate::net::{IpAddress, SocketAddress};
use crate::raop::video::{bytes_content, frozen, PacketKind, VideoPacket};
use crate::wire::{law_little_endian, le_nat, read_le_u16, read_le_u32, read_le_u64};
use vstd::prelude::*;

verus! {

/// Bytes of a header.
pub const VIDEO_HEADER_LEN: usize = 128;

/// The longest payload that is received.
pub const MAX_VIDEO_PAYLOAD_LEN: usize = 32 * 1024 * 1024;

/// What a header says of its packet.
#[derive(Clone, Copy, Debug)]
pub struct VideoHeader {
    /// Bytes of the payload.
    pub payload_len: usize,
    /// The type.
    pub packet_type: u16,
    /// When it is to be presented.
    pub timestamp: u64,
}

/// Whether a connection comes from the expected address.
pub fn peer_ip_matches(expected: &IpAddress, actual: &SocketAddress) -> (r: bool)
    ensures
        r == (expected.parts() == actual.ip.parts()),
{
    expected.same(&actual.ip)
}

/// Reads a header.
pub fn parse_header(header: &[u8; 128]) -> (r: VideoHeader)
    ensures
        r.payload_len == le_nat(header@.subrange(0, 4)),
        r.packet_type == le_nat(header@.subrange(4, 6)),
        r.timestamp == le_nat(header@.subrange(8, 16)),
{
    VideoHeader {
        payload_len: read_le_u32(header, 0) as usize,
        packet_type: read_le_u16(header, 4),
        timestamp: read_le_u64(header, 8),
    }
}

/// The H.265 configuration record has `hvc1` behind its first four bytes.
pub open spec fn is_hevc_config(payload: Seq<u8>) -> bool {
    payload.len() >= 8 && payload.subrange(4, 8) == seq![0x68u8, 0x76u8, 0x63u8, 0x31u8]
}

/// What a packet of a type holds.
pub open spec fn packet_kind(packet_type: u16, payload: Seq<u8>) -> PacketKind {
    if packet_type == 1 {
        if is_hevc_config(payload) {
            PacketKind::HvcC
        } else {
            PacketKind::AvcC
        }
    } else if packet_type == 0 || packet_type == 4096 {
        PacketKind::Payload
    } else if packet_type == 5 {
        PacketKind::Plist
    } else {
        PacketKind::Other(packet_type)
    }
}

/// What a packet of a type holds.
pub fn classify_packet(packet_type: u16, payload: &[u8]) -> (r: PacketKind)
    ensures
        r == packet_kind(packet_type, payload@),
{
    if packet_type == 1 {
        if payload.len() >= 8 {
            let ghost mark = payload@.subrange(4, 8);
            let ghost hvc1 = seq![0x68u8, 0x76u8, 0x63u8, 0x31u8];
            if payload[4] == 0x68 && payload[5] == 0x76 && payload[6] == 0x63 && payload[7]
                == 0x31 {
                assert(mark =~= hvc1);
                return PacketKind::HvcC;
            }
            assert(mark != hvc1) by {
                assert(mark[0] == payload@[4] && mark[1] == payload@[5] && mark[2] == payload@[6]
                    && mark[3] == payload@[7]);
                assert(hvc1[0] == 0x68 && hvc1[1] == 0x76 && hvc1[2] == 0x63 && hvc1[3] == 0x31);
            }
        }
        PacketKind::AvcC
    } else if packet_type == 0 || packet_type == 4096 {
        PacketKind::Payload
    } else if packet_type == 5 {
        PacketKind::Plist
    } else {
        PacketKind::Other(packet_type)
    }
}

/// What to do after a header.
#[derive(Clone, Copy, Debug)]
pub enum HeaderAction {
    /// There is no payload: read the next header.
    Skip,
    /// Read the payload, `payload_len` bytes.
    ReadPayload(VideoHeader),
    /// The payload is too long: end the stream.
    End,
}

/// The receiving side of a video stream.
pub struct VideoReceiver {
    /// The cipher of the stream.
    pub cipher: VideoCipher,
}

impl VideoReceiver {
    /// A receiver at the start of a stream.
    pub fn new(cipher: VideoCipher) -> (r: Self)
        ensures
            r.cipher == cipher,
    {
        VideoReceiver { cipher }
    }

    /// Looks at a header.
    pub fn on_header(&self, header: &[u8; 128]) -> (r: HeaderAction)
        ensures
            ({
                let len = le_nat(header@.subrange(0, 4));
                match r {
                    HeaderAction::Skip => len == 0,
                    HeaderAction::End => len > MAX_VIDEO_PAYLOAD_LEN,
                    HeaderAction::ReadPayload(h) => {
                        &&& 0 < len <= MAX_VIDEO_PAYLOAD_LEN
                        &&& h.payload_len == len
                        &&& h.packet_type == le_nat(header@.subrange(4, 6))
                        &&& h.timestamp == le_nat(header@.subrange(8, 16))
                    },
                }
            }),
    {
        let h = parse_header(header);
        if h.payload_len == 0 {
            HeaderAction::Skip
        } else if h.payload_len > MAX_VIDEO_PAYLOAD_LEN {
            HeaderAction::End
        } else {
            HeaderAction::ReadPayload(h)
        }
    }

    /// Makes a packet of a header and its payload. Encoded video is decrypted, and only that moves
    /// the cipher on.
    pub fn on_payload(&mut self, header: &VideoHeader, payload: Vec<u8>) -> (r: VideoPacket)
        ensures
            r.kind == packet_kind(header.packet_type, payload@),
            r.timestamp == header.timestamp,
            r.kind is Payload ==> {
                &&& bytes_content(r.payload) == xor_stream(payload@, old(self).cipher.stream())
                &&& final(self).cipher.stream() == skip_stream(
                    old(self).cipher.stream(),
                    payload@.len(),
                )
                &&& final(self).cipher.unused() == (old(self).cipher.unused() - payload@.len())
                    % 16
            },
            !(r.kind is Payload) ==> {
                &&& bytes_content(r.payload) == payload@
                &&& final(self).cipher == old(self).cipher
            },
    {
        let kind: PacketKind = classify_packet(header.packet_type, payload.as_slice());
        let mut data = payload;
        if matches!(kind, PacketKind::Payload) {
            self.cipher.decrypt(data.as_mut_slice());
        }
        VideoPacket { kind, timestamp: header.timestamp, payload: frozen(data) }
    }
}

/// The kind of a packet, from its type and its bytes: 0 and 4096 are video, 5 is a property list, 1
/// is a configuration, and any other type is named as it is. A configuration is that of H.265
/// exactly where bytes 4 to 7 are there and spell `hvc1`.
pub proof fn law_packet_kinds(packet_type: u16, payload: Seq<u8>)
    ensures
        ({
            let kind = packet_kind(packet_type, payload);
            &&& kind is Payload <==> packet_type == 0 || packet_type == 4096
            &&& kind is Plist <==> packet_type == 5
            &&& kind is HvcC <==> packet_type == 1 && payload.len() >= 8 && payload[4] == 0x68
                && payload[5] == 0x76 && payload[6] == 0x63 && payload[7] == 0x31
            &&& kind is AvcC <==> packet_type == 1 && !(payload.len() >= 8 && payload[4] == 0x68
                && payload[5] == 0x76 && payload[6] == 0x63 && payload[7] == 0x31)
            &&& kind matches PacketKind::Other(t) ==> t == packet_type
        }),
{
    if payload.len() >= 8 {
        let mark = payload.subrange(4, 8);
        let hvc1 = seq![0x68u8, 0x76u8, 0x63u8, 0x31u8];
        assert(mark[0] == payload[4] && mark[1] == payload[5] && mark[2] == payload[6] && mark[3]
            == payload[7]);
        assert(hvc1[0] == 0x68 && hvc1[1] == 0x76 && hvc1[2] == 0x63 && hvc1[3] == 0x31);
        if payload[4] == 0x68 && payload[5] == 0x76 && payload[6] == 0x63 && payload[7] == 0x31 {
            assert(mark =~= hvc1);
        }
    }
}

/// Nothing but the type and bytes 4 to 7 tells packets apart.
pub proof fn law_other_bytes_do_not_count(packet_type: u16, one: Seq<u8>, other: Seq<u8>)
    requires
        one.len() >= 8 <==> other.len() >= 8,
        one.len() >= 8 ==> one[4] == other[4] && one[5] == other[5] && one[6] == other[6] && one[7]
            == other[7],
    ensures
        packet_kind(packet_type, one) == packet_kind(packet_type, other),
{
    law_packet_kinds(packet_type, one);
    law_packet_kinds(packet_type, other);
}

/// A header has 128 bytes and announces a payload of at most 32 megabytes.
pub proof fn law_video_limits()
    ensures
        VIDEO_HEADER_LEN == 128,
        MAX_VIDEO_PAYLOAD_LEN == 0x200_0000,
{
}

/// The number that bytes spell, the first one counting least.
proof fn lemma_little_endian(s: Seq<u8>)
    ensures
        s.len() == 2 ==> le_nat(s) == s[0] + 0x100 * s[1],
        s.len() == 4 ==> le_nat(s) == s[0] + 0x100 * s[1] + 0x1_0000 * s[2] + 0x100_0000 * s[3],
{
    if s.len() > 0 {
        law_little_endian(s[0], s.skip(1));
        assert(s =~= seq![s[0]] + s.skip(1));
    }
    if s.len() > 1 {
        law_little_endian(s[1], s.skip(2));
        assert(s.skip(1) =~= seq![s[1]] + s.skip(2));
    }
    if s.len() == 2 {
        assert(s.skip(2) =~= Seq::empty());
        assert(s.skip(2).reverse() =~= Seq::empty());
    }
    if s.len() == 4 {
        law_little_endian(s[2], s.skip(3));
        assert(s.skip(2) =~= seq![s[2]] + s.skip(3));
        law_little_endian(s[3], s.skip(4));
        assert(s.skip(3) =~= seq![s[3]] + s.skip(4));
        assert(s.skip(4) =~= Seq::empty());
        assert(s.skip(4).reverse() =~= Seq::empty());
    }
}

/// A header holds the payload's length in its first four bytes, the type in the next two and, from
/// the ninth byte on, the time in eight, all with the lowest byte first. Nothing else in it counts.
pub proof fn law_header_layout(header: &[u8; 128], r: VideoHeader)
    requires
        call_ensures(parse_header, (header,), r),
    ensures
        r.payload_len == header@[0] + 0x100 * header@[1] + 0x1_0000 * header@[2] + 0x100_0000
            * header@[3],
        r.packet_type == header@[4] + 0x100 * header@[5],
        r.timestamp == le_nat(header@.subrange(8, 16)),
{
    lemma_little_endian(header@.subrange(0, 4));
    lemma_little_endian(header@.subrange(4, 6));
}

/// A header without a payload is passed over, one with a payload of more than 32 megabytes ends the
/// stream, and for any other the payload is read.
pub proof fn law_header_actions(receiver: &VideoReceiver, header: &[u8; 128], r: HeaderAction)
    requires
        call_ensures(VideoReceiver::on_header, (receiver, header), r),
    ensures
        ({
            let len = header@[0] + 0x100 * header@[1] + 0x1_0000 * header@[2] + 0x100_0000
                * header@[3];
            &&& r is Skip <==> len == 0
            &&& r is End <==> len > 32 * 1024 * 1024
            &&& r matches HeaderAction::ReadPayload(h) ==> h.payload_len == len && h.packet_type
                == header@[4] + 0x100 * header@[5] && h.timestamp == le_nat(
                header@.subrange(8, 16),
            )
        }),
{
    lemma_little_endian(header@.subrange(0, 4));
    lemma_little_endian(header@.subrange(4, 6));
}

/// A packet is classified by its type and, for configurations, by the mark of H.265 behind its
/// first four bytes.
pub proof fn law_classified(packet_type: u16, payload: &[u8], r: PacketKind)
    requires
        call_ensures(classify_packet, (packet_type, payload), r),
    ensures
        r is HvcC <==> packet_type == 1 && payload@.len() >= 8 && payload@[4] == 0x68 && payload@[5]
            == 0x76 && payload@[6] == 0x63 && payload@[7] == 0x31,
        r is AvcC <==> packet_type == 1 && !(r is HvcC),
        r is Payload <==> packet_type == 0 || packet_type == 4096,
        r is Plist <==> packet_type == 5,
        r matches PacketKind::Other(t) ==> t == packet_type,
{
    law_packet_kinds(packet_type, payload@);
}

/// A connection is expected from one address alone, on any port.
pub proof fn law_peer(expected: &IpAddress, actual: &SocketAddress, r: bool)
    requires
        call_ensures(peer_ip_matches, (expected, actual), r),
    ensures
        r <==> expected.parts() == actual.ip.parts(),
{
}

/// Encoded video is decrypted, each byte with the cipher's next one, and moves the cipher on by as
/// many bytes. Everything else is handed on as it came and leaves the cipher where it is.
pub proof fn law_packets_made(
    receiver: &mut VideoReceiver,
    header: &VideoHeader,
    payload: Vec<u8>,
    r: VideoPacket,
)
    requires
        call_ensures(VideoReceiver::on_payload, (receiver, header, payload), r),
    ensures
        r.timestamp == header.timestamp,
        bytes_content(r.payload).len() == payload@.len(),
        header.packet_type == 0 || header.packet_type == 4096 ==> r.kind is Payload && (forall|
            i: int,
        |
            0 <= i < payload@.len() ==> #[trigger] bytes_content(r.payload)[i] == payload@[i] ^ old(
                receiver,
            ).cipher.stream()(i as nat)) && (forall|i: nat| #[trigger]
            final(receiver).cipher.stream()(i) == old(receiver).cipher.stream()(
                payload@.len() + i,
            )),
        header.packet_type != 0 && header.packet_type != 4096 ==> !(r.kind is Payload)
            && bytes_content(r.payload) == payload@ && final(receiver).cipher == old(
            receiver,
        ).cipher,
{
    law_packet_kinds(header.packet_type, payload@);
    law_stream_bytes(old(receiver).cipher.stream(), payload@, payload@.len());
}

} // verus!
