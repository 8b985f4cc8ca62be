//! Screen mirroring: what applications implement to receive video.
use vstd::prelude::*;

verus! {

/// A buffer of the `bytes` crate.
#[verifier::external_type_specification]
#[verifier::external_body]
pub struct ExBytes(bytes::Bytes);

/// The bytes that a buffer holds.
pub uninterp spec fn bytes_content(buffer: bytes::Bytes) -> Seq<u8>;

/// Calls `bytes::Bytes::from` on a vector: the buffer holds the vector's bytes.
#[verifier::external_body]
pub(crate) fn frozen(data: Vec<u8>) -> (r: bytes::Bytes)
    ensures
        bytes_content(r) == data@,
{
    bytes::Bytes::from(data)
}

/// What a video packet holds.
#[derive(Debug, Clone, Copy, PartialEq, Eq, Structural)]
pub enum PacketKind {
    /// The decoder configuration of H.264.
    AvcC,
    /// The decoder configuration of H.265.
    HvcC,
    /// Encoded video, decrypted.
    Payload,
    /// A binary property list.
    Plist,
    /// Anything else.
    Other(u16),
}

/// A video packet for the application.
#[derive(Debug)]
pub struct VideoPacket {
    /// What the packet holds.
    pub kind: PacketKind,
    /// When it is to be presented, in the stream's time units.
    pub timestamp: u64,
    /// The data.
    pub payload: bytes::Bytes,
}

/// Makes video sessions.
pub trait VideoHandler: Send + Sync + 'static {
    /// The sessions that are made.
    type Session: VideoSession;

    /// A video stream starts.
    fn video_init(&self) -> Self::Session;
}

/// A video stream.
pub trait VideoSession: Send {
    /// A packet came.
    fn on_video(&mut self, packet: VideoPacket);

    /// The stream ended.
    fn on_video_end(&mut self) {
    }
}

} // verus!
