//! Timing for senders that synchronise by NTP packets.
//!
//! The receiver asks for the time at the start and whenever it heard nothing for a while, and
//! answers requests.
use crate::net::SocketAddress;
use crate::wire::{
    be_bytes, be_nat, be_u32_bytes, law_written_numbers_come_back, lemma_be_bytes_len,
    lemma_byte_range_step, put,
};
use vstd::prelude::*;

verus! {

/// Seconds between the NTP epoch (1900-01-01) and the UNIX epoch (1970-01-01).
pub const NTP_UNIX_EPOCH_OFFSET_SECS: u64 = 0x83AA_7E80;

/// Requests that are sent at the start.
pub const INITIAL_REQUESTS: usize = 3;

/// An NTP timestamp on the wire: seconds and their fraction.
pub open spec fn ntp_bytes(secs: u32, frac: u32) -> Seq<u8> {
    be_bytes(secs as nat, 4) + be_bytes(frac as nat, 4)
}

/// A timing packet has 32 bytes or more, and its type is a request, marked or not.
pub open spec fn timing_request(packet: Seq<u8>) -> bool {
    packet.len() >= 32 && packet[1] % 128 == 0x52
}

/// The request with a transmit timestamp.
pub open spec fn request_bytes(secs: u32, frac: u32) -> Seq<u8> {
    seq![0x80u8, 0xd2u8, 0x00u8, 0x07u8] + Seq::new(20, |i: int| 0u8) + ntp_bytes(secs, frac)
}

/// The response to a request: its transmit timestamp comes back as the originate timestamp, and
/// both the receive and the transmit timestamp are now.
pub open spec fn response_bytes(request: Seq<u8>, secs: u32, frac: u32) -> Seq<u8> {
    request.take(1) + seq![0xd3u8] + request.subrange(2, 8) + request.subrange(24, 32) + ntp_bytes(
        secs,
        frac,
    ) + ntp_bytes(secs, frac)
}

fn put_ntp(buf: &mut [u8], off: usize, secs: u32, frac: u32)
    requires
        off + 8 <= old(buf)@.len(),
    ensures
        final(buf)@ == old(buf)@.take(off as int) + ntp_bytes(secs, frac) + old(buf)@.skip(off + 8),
{
    let ghost before = buf@;
    let len: usize = buf.len();
    let s: [u8; 4] = be_u32_bytes(secs);
    let f: [u8; 4] = be_u32_bytes(frac);
    put(buf, off, &s);
    put(buf, off + 4, &f);
    assert(buf@ =~= before.take(off as int) + ntp_bytes(secs, frac) + before.skip(off + 8));
}

/// Whether a packet asks for the time.
pub fn is_timing_request(buf: &[u8]) -> (r: bool)
    ensures
        r == timing_request(buf@),
{
    buf.len() >= 32 && buf[1] % 128 == 0x52
}

/// A request with the time it is sent at.
pub fn build_timing_request(secs: u32, frac: u32) -> (r: [u8; 32])
    ensures
        r@ == request_bytes(secs, frac),
{
    let mut req: [u8; 32] = [0u8; 32];
    req[0] = 0x80;
    req[1] = 0xd2;
    req[2] = 0x00;
    req[3] = 0x07;
    put_ntp(&mut req, 24, secs, frac);
    proof {
        lemma_be_bytes_len(secs as nat, 4);
        lemma_be_bytes_len(frac as nat, 4);
        assert(req@ =~= request_bytes(secs, frac));
    }
    req
}

/// The answer to a request, with the time now. Other packets have none.
pub fn build_timing_response(request: &[u8], secs: u32, frac: u32) -> (r: Option<[u8; 32]>)
    ensures
        match r {
            Some(response) => timing_request(request@) && response@ == response_bytes(
                request@,
                secs,
                frac,
            ),
            None => !timing_request(request@),
        },
{
    if !is_timing_request(request) {
        return None;
    }
    let mut resp: [u8; 32] = [0u8; 32];
    put(&mut resp, 0, &request[0..32]);
    resp[1] = 0xd3;
    put(&mut resp, 8, &request[24..32]);
    put_ntp(&mut resp, 16, secs, frac);
    put_ntp(&mut resp, 24, secs, frac);
    proof {
        lemma_be_bytes_len(secs as nat, 4);
        lemma_be_bytes_len(frac as nat, 4);
        assert(resp@ =~= response_bytes(request@, secs, frac));
    }
    Some(resp)
}

/// Whether a request may come from `sender`: from the address of the remote side, or from any
/// where the remote side's port is not known.
pub fn sender_allowed(remote_timing: &SocketAddress, sender: &SocketAddress) -> (r: bool)
    ensures
        r == (remote_timing.port == 0 || sender.ip.parts() == remote_timing.ip.parts()),
{
    remote_timing.port == 0 || sender.ip.same(&remote_timing.ip)
}

/// The NTP timestamp of a UNIX time: the seconds wrap, the fraction is in units of 2^-32 seconds.
pub fn ntp_timestamp(unix_secs: u64, nanos: u32) -> (r: (u32, u32))
    requires
        nanos < 1_000_000_000,
        unix_secs + NTP_UNIX_EPOCH_OFFSET_SECS <= u64::MAX,
    ensures
        r.0 == (unix_secs + NTP_UNIX_EPOCH_OFFSET_SECS) % 0x1_0000_0000,
        r.1 == nanos * 0x1_0000_0000 / 1_000_000_000,
{
    let secs: u64 = (unix_secs + NTP_UNIX_EPOCH_OFFSET_SECS) % 0x1_0000_0000;
    let frac: u64 = nanos as u64 * 0x1_0000_0000 / 1_000_000_000;
    (secs as u32, frac as u32)
}

/// How many requests are sent at the start: none where the remote side's port is not known.
pub fn initial_requests(remote_timing: &SocketAddress) -> (r: usize)
    ensures
        r == (if remote_timing.port > 0 {
            INITIAL_REQUESTS as int
        } else {
            0
        }),
{
    if remote_timing.port > 0 {
        INITIAL_REQUESTS
    } else {
        0
    }
}

/// What to send back to `sender` for a datagram that came at `now`, where anything is to be sent.
pub fn on_datagram(
    remote_timing: &SocketAddress,
    sender: &SocketAddress,
    datagram: &[u8],
    now: (u32, u32),
) -> (r: Option<[u8; 32]>)
    ensures
        match r {
            Some(response) => timing_request(datagram@) && (remote_timing.port == 0
                || sender.ip.parts() == remote_timing.ip.parts()) && response@ == response_bytes(
                datagram@,
                now.0,
                now.1,
            ),
            None => !timing_request(datagram@) || (remote_timing.port != 0 && sender.ip.parts()
                != remote_timing.ip.parts()),
        },
{
    if !is_timing_request(datagram) || !sender_allowed(remote_timing, sender) {
        return None;
    }
    build_timing_response(datagram, now.0, now.1)
}

/// What to send to the remote side when nothing was heard for a while.
pub fn on_timeout(remote_timing: &SocketAddress, now: (u32, u32)) -> (r: Option<[u8; 32]>)
    ensures
        match r {
            Some(request) => remote_timing.port > 0 && request@ == request_bytes(now.0, now.1),
            None => remote_timing.port == 0,
        },
{
    if remote_timing.port > 0 {
        Some(build_timing_request(now.0, now.1))
    } else {
        None
    }
}

/// A request that is marked or not is answered with the originate timestamp that it carried, and
/// the answer is no request itself.
pub proof fn law_response_echoes(request: Seq<u8>, secs: u32, frac: u32)
    requires
        timing_request(request),
    ensures
        response_bytes(request, secs, frac).len() == 32,
        response_bytes(request, secs, frac).subrange(8, 16) == request.subrange(24, 32),
        response_bytes(request, secs, frac).subrange(16, 24) == ntp_bytes(secs, frac),
        response_bytes(request, secs, frac).subrange(24, 32) == ntp_bytes(secs, frac),
        !timing_request(response_bytes(request, secs, frac)),
        timing_request(request_bytes(secs, frac)),
{
    lemma_be_bytes_len(secs as nat, 4);
    lemma_be_bytes_len(frac as nat, 4);
    let r = response_bytes(request, secs, frac);
    assert(r.subrange(8, 16) =~= request.subrange(24, 32));
    assert(r.subrange(16, 24) =~= ntp_bytes(secs, frac));
    assert(r.subrange(24, 32) =~= ntp_bytes(secs, frac));
}

/// A timestamp is two big-endian numbers of four bytes: the seconds, then their fraction.
pub proof fn law_timestamp_layout(secs: u32, frac: u32)
    ensures
        ntp_bytes(secs, frac).len() == 8,
        be_nat(ntp_bytes(secs, frac).take(4)) == secs,
        be_nat(ntp_bytes(secs, frac).skip(4)) == frac,
{
    lemma_be_bytes_len(secs as nat, 4);
    lemma_be_bytes_len(frac as nat, 4);
    lemma_byte_range_step(0);
    lemma_byte_range_step(1);
    lemma_byte_range_step(2);
    lemma_byte_range_step(3);
    law_written_numbers_come_back(secs as nat, 4);
    law_written_numbers_come_back(frac as nat, 4);
    assert(ntp_bytes(secs, frac).take(4) =~= be_bytes(secs as nat, 4));
    assert(ntp_bytes(secs, frac).skip(4) =~= be_bytes(frac as nat, 4));
}

/// A packet asks for the time where it has at least 32 bytes and its second byte is that of a
/// request, with the mark in its highest bit or without.
pub proof fn law_timing_requests(packet: Seq<u8>)
    ensures
        timing_request(packet) <==> packet.len() >= 32 && (packet[1] == 82 || packet[1] == 210),
{
}

/// A request is a header, zeros where nothing is known yet, and the time in its last eight bytes.
pub proof fn law_request_layout(secs: u32, frac: u32)
    ensures
        request_bytes(secs, frac).len() == 32,
        request_bytes(secs, frac)[0] == 128,
        request_bytes(secs, frac)[1] == 210,
        request_bytes(secs, frac)[2] == 0,
        request_bytes(secs, frac)[3] == 7,
        forall|i: int| 4 <= i < 24 ==> #[trigger] request_bytes(secs, frac)[i] == 0,
        be_nat(request_bytes(secs, frac).subrange(24, 28)) == secs,
        be_nat(request_bytes(secs, frac).subrange(28, 32)) == frac,
{
    law_timestamp_layout(secs, frac);
    let r = request_bytes(secs, frac);
    let time = ntp_bytes(secs, frac);
    assert(r.subrange(24, 28) =~= time.take(4));
    assert(r.subrange(28, 32) =~= time.skip(4));
}

/// A response keeps the request's header but for its type, gives the request's last eight bytes
/// back behind it, and then has the time twice.
pub proof fn law_response_layout(request: Seq<u8>, secs: u32, frac: u32)
    requires
        request.len() >= 32,
    ensures
        response_bytes(request, secs, frac).len() == 32,
        response_bytes(request, secs, frac)[0] == request[0],
        response_bytes(request, secs, frac)[1] == 211,
        forall|i: int|
            2 <= i < 8 ==> #[trigger] response_bytes(request, secs, frac)[i] == request[i],
        forall|i: int|
            8 <= i < 16 ==> #[trigger] response_bytes(request, secs, frac)[i] == request[i + 16],
        be_nat(response_bytes(request, secs, frac).subrange(16, 20)) == secs,
        be_nat(response_bytes(request, secs, frac).subrange(20, 24)) == frac,
        be_nat(response_bytes(request, secs, frac).subrange(24, 28)) == secs,
        be_nat(response_bytes(request, secs, frac).subrange(28, 32)) == frac,
{
    law_timestamp_layout(secs, frac);
    let r = response_bytes(request, secs, frac);
    let time = ntp_bytes(secs, frac);
    assert(r.subrange(16, 20) =~= time.take(4));
    assert(r.subrange(20, 24) =~= time.skip(4));
    assert(r.subrange(24, 28) =~= time.take(4));
    assert(r.subrange(28, 32) =~= time.skip(4));
}

/// Between 1900 and 1970 lie seventy years with seventeen leap days, and three requests are sent at
/// the start.
pub proof fn law_ntp_constants()
    ensures
        NTP_UNIX_EPOCH_OFFSET_SECS == (70 * 365 + 17) * 86400,
        INITIAL_REQUESTS == 3,
{
}

/// The timestamp of a UNIX time counts the seconds from 1900 on, as far as four bytes hold them,
/// and its fraction is the greatest that the nanoseconds reach.
pub proof fn law_timestamp_of_time(unix_secs: u64, nanos: u32, r: (u32, u32))
    requires
        nanos < 1_000_000_000,
        unix_secs + 2208988800 <= u64::MAX,
        call_ensures(ntp_timestamp, (unix_secs, nanos), r),
    ensures
        (unix_secs + 2208988800 - r.0) % 0x1_0000_0000 == 0,
        r.1 * 1_000_000_000 <= nanos * 0x1_0000_0000 < (r.1 + 1) * 1_000_000_000,
{
}

/// A datagram is answered where it asks for the time and comes from the remote side's address, or
/// from anywhere where the remote side's port is not known. The answer is the response to it.
pub proof fn law_datagrams(
    remote_timing: &SocketAddress,
    sender: &SocketAddress,
    datagram: &[u8],
    now: (u32, u32),
    r: Option<[u8; 32]>,
)
    requires
        call_ensures(on_datagram, (remote_timing, sender, datagram, now), r),
    ensures
        r is Some <==> datagram@.len() >= 32 && (datagram@[1] == 82 || datagram@[1] == 210) && (
        remote_timing.port == 0 || sender.ip.parts() == remote_timing.ip.parts()),
        r matches Some(response) ==> response@ == response_bytes(datagram@, now.0, now.1),
{
    law_timing_requests(datagram@);
}

/// Requests go out only where the remote side's port is known, three at the start and one whenever
/// nothing was heard.
pub proof fn law_requests(
    remote_timing: &SocketAddress,
    now: (u32, u32),
    count: usize,
    r: Option<[u8; 32]>,
)
    requires
        call_ensures(initial_requests, (remote_timing,), count),
        call_ensures(on_timeout, (remote_timing, now), r),
    ensures
        remote_timing.port == 0 ==> count == 0 && r is None,
        remote_timing.port != 0 ==> count == 3 && r is Some,
        r matches Some(request) ==> request@ == request_bytes(now.0, now.1),
{
}

} // verus!
