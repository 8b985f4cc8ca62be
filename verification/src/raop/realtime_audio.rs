//! Realtime audio: packets are decrypted, decoded and delivered as they arrive.
use crate::crypto::aead::max_sealed_len;
use crate::raop::audio_pipeline::{
    alac_info, alac_info_block, decrypt_rtp_chacha, output_target, rtp_plaintext, target_channels,
    target_rate, AudioCodec, AudioFormat, CHACHA_TAG_LEN, NONCE_TRAIL_LEN, RTP_HEADER_LEN,
};
use vstd::prelude::*;

verus! {

/// The source of a stream and what its samples are turned into.
#[derive(Clone, Copy, Debug, PartialEq, Eq, Structural)]
pub struct OutputConfig {
    /// The source's frames in a second.
    pub source_sample_rate: u32,
    /// Samples in an ALAC frame of the source.
    pub samples_per_frame: u32,
    /// The source's channels.
    pub channels: u8,
    /// The source's bits in a sample.
    pub bit_depth: u8,
    /// The sample rate to deliver, the source's own where there is none.
    pub sample_rate: Option<u32>,
    /// The greatest number of channels to deliver.
    pub max_channels: Option<u8>,
}

/// `value`, or `default` in place of zero.
pub open spec fn or_default(value: int, default: int) -> int {
    if value == 0 {
        default
    } else {
        value
    }
}

impl OutputConfig {
    /// No zero stands in the configuration.
    pub open spec fn normal(self) -> bool {
        &&& self.source_sample_rate != 0
        &&& self.samples_per_frame != 0
        &&& self.channels != 0
        &&& self.bit_depth != 0
        &&& self.sample_rate != Some(0u32)
        &&& self.max_channels != Some(0u8)
    }

    /// The configuration with safe values in place of zeros.
    pub open spec fn normalized(self) -> OutputConfig {
        OutputConfig {
            source_sample_rate: or_default(self.source_sample_rate as int, 44_100) as u32,
            samples_per_frame: or_default(self.samples_per_frame as int, 352) as u32,
            channels: or_default(self.channels as int, 2) as u8,
            bit_depth: or_default(self.bit_depth as int, 16) as u8,
            sample_rate: if self.sample_rate == Some(0u32) {
                None
            } else {
                self.sample_rate
            },
            max_channels: if self.max_channels == Some(0u8) {
                None
            } else {
                self.max_channels
            },
        }
    }

    /// The format of the samples that a session receives.
    pub open spec fn session_format(self) -> AudioFormat {
        AudioFormat {
            codec: AudioCodec::Pcm,
            bits: 32,
            channels: target_channels(self.channels, self.max_channels),
            sample_rate: target_rate(self.source_sample_rate, self.sample_rate),
        }
    }
}

/// Puts safe values in place of zeros.
pub fn normalize_output_config(config: &OutputConfig) -> (r: OutputConfig)
    ensures
        r == config.normalized(),
{
    OutputConfig {
        source_sample_rate: if config.source_sample_rate == 0 {
            44_100
        } else {
            config.source_sample_rate
        },
        samples_per_frame: if config.samples_per_frame == 0 {
            352
        } else {
            config.samples_per_frame
        },
        channels: if config.channels == 0 {
            2
        } else {
            config.channels
        },
        bit_depth: if config.bit_depth == 0 {
            16
        } else {
            config.bit_depth
        },
        sample_rate: match config.sample_rate {
            Some(0) => None,
            other => other,
        },
        max_channels: match config.max_channels {
            Some(0) => None,
            other => other,
        },
    }
}

/// A normalized configuration holds no zero, and one without zeros is left as it is.
pub proof fn law_normalized(config: OutputConfig)
    ensures
        config.normalized().normal(),
        config.normal() ==> config.normalized() == config,
{
}

/// The configuration block of the decoder.
pub fn alac_decoder_info(config: &OutputConfig) -> (r: [u8; 48])
    ensures
        r@ == alac_info(
            config.samples_per_frame,
            config.bit_depth,
            config.channels,
            config.source_sample_rate,
        ),
{
    alac_info_block(
        config.samples_per_frame,
        config.bit_depth,
        config.channels,
        config.source_sample_rate,
    )
}

/// What the first packet calls for.
#[derive(Debug)]
pub struct SessionSetup {
    /// The decoder's bits in a sample.
    pub bit_depth: u8,
    /// The decoder's channels.
    pub channels: u8,
    /// The decoder's configuration block.
    pub decoder_info: [u8; 48],
    /// The rates to resample between, where they differ.
    pub resample: Option<(u32, u32)>,
    /// The format of the session.
    pub format: AudioFormat,
}

impl SessionSetup {
    /// Whether this is what a configuration calls for.
    pub open spec fn fits(self, config: OutputConfig) -> bool {
        let rate = target_rate(config.source_sample_rate, config.sample_rate);
        &&& self.bit_depth == config.bit_depth
        &&& self.channels == config.channels
        &&& self.decoder_info@ == alac_info(
            config.samples_per_frame,
            config.bit_depth,
            config.channels,
            config.source_sample_rate,
        )
        &&& self.resample == (if rate != config.source_sample_rate {
            Some((config.source_sample_rate, rate))
        } else {
            None
        })
        &&& self.format == config.session_format()
    }
}

/// What the receiver makes of a packet.
#[derive(Debug)]
pub struct RealtimePacket {
    /// The session to make first.
    pub setup: Option<SessionSetup>,
    /// The decrypted payload, where the packet is authentic.
    pub plaintext: Option<Vec<u8>>,
}

/// The receiving side of a realtime stream.
pub struct RealtimeReceiver {
    /// The key of the stream.
    pub key: [u8; 32],
    /// The stream's configuration, without zeros.
    pub config: OutputConfig,
    /// A session was made.
    pub started: bool,
}

impl RealtimeReceiver {
    /// A receiver that saw no packet yet. Zeros in the configuration are replaced.
    pub fn new(key: [u8; 32], config: &OutputConfig) -> (r: Self)
        ensures
            r.key == key,
            r.config == config.normalized(),
            !r.started,
    {
        RealtimeReceiver { key, config: normalize_output_config(config), started: false }
    }

    /// Takes a packet in. One that has no room for a payload is ignored; any other makes the
    /// session, even if it turns out not to be authentic.
    pub fn on_packet(&mut self, packet: &[u8]) -> (r: Option<RealtimePacket>)
        requires
            packet@.len() <= max_sealed_len(),
        ensures
            final(self).key == old(self).key,
            final(self).config == old(self).config,
            match r {
                None => packet@.len() <= RTP_HEADER_LEN + NONCE_TRAIL_LEN && final(self).started
                    == old(self).started,
                Some(p) => {
                    &&& packet@.len() > RTP_HEADER_LEN + NONCE_TRAIL_LEN
                    &&& final(self).started
                    &&& match p.setup {
                        None => old(self).started,
                        Some(setup) => !old(self).started && setup.fits(old(self).config),
                    }
                    &&& match p.plaintext {
                        None => rtp_plaintext(old(self).key@, packet@) is None,
                        Some(plain) => rtp_plaintext(old(self).key@, packet@) == Some(plain@)
                            && plain@.len() + RTP_HEADER_LEN + CHACHA_TAG_LEN + NONCE_TRAIL_LEN
                            == packet@.len(),
                    }
                },
            },
    {
        if packet.len() <= RTP_HEADER_LEN + NONCE_TRAIL_LEN {
            return None;
        }
        let mut setup: Option<SessionSetup> = None;
        if !self.started {
            self.started = true;
            let (rate, channels): (u32, u8) = output_target(
                self.config.source_sample_rate,
                self.config.channels,
                self.config.sample_rate,
                self.config.max_channels,
            );
            setup =
            Some(
                SessionSetup {
                    bit_depth: self.config.bit_depth,
                    channels: self.config.channels,
                    decoder_info: alac_decoder_info(&self.config),
                    resample: if rate != self.config.source_sample_rate {
                        Some((self.config.source_sample_rate, rate))
                    } else {
                        None
                    },
                    format: AudioFormat {
                        codec: AudioCodec::Pcm,
                        bits: 32,
                        channels,
                        sample_rate: rate,
                    },
                },
            );
        }
        Some(RealtimePacket { setup, plaintext: decrypt_rtp_chacha(&self.key, packet) })
    }
}

/// A zero is replaced by its safe value, CD audio in frames of 352 samples or no limit, and every
/// other value stays as it is, field by field.
pub proof fn law_normalized_fields(config: OutputConfig)
    ensures
        config.source_sample_rate == 0 ==> config.normalized().source_sample_rate == 44100,
        config.source_sample_rate != 0 ==> config.normalized().source_sample_rate
            == config.source_sample_rate,
        config.samples_per_frame == 0 ==> config.normalized().samples_per_frame == 352,
        config.samples_per_frame != 0 ==> config.normalized().samples_per_frame
            == config.samples_per_frame,
        config.channels == 0 ==> config.normalized().channels == 2,
        config.channels != 0 ==> config.normalized().channels == config.channels,
        config.bit_depth == 0 ==> config.normalized().bit_depth == 16,
        config.bit_depth != 0 ==> config.normalized().bit_depth == config.bit_depth,
        config.sample_rate matches Some(rate) && rate != 0 ==> config.normalized().sample_rate
            == config.sample_rate,
        config.sample_rate is None || config.sample_rate == Some(0u32)
            ==> config.normalized().sample_rate is None,
        config.max_channels matches Some(n) && n != 0 ==> config.normalized().max_channels
            == config.max_channels,
        config.max_channels is None || config.max_channels == Some(0u8)
            ==> config.normalized().max_channels is None,
{
}

/// A session receives samples of 32 bits, at the rate that is asked for or the source's own, and
/// with the source's channels or as many as are allowed.
pub proof fn law_session_format(config: OutputConfig)
    requires
        config.normal(),
    ensures
        config.session_format().codec is Pcm,
        config.session_format().bits == 32,
        config.sample_rate is None ==> config.session_format().sample_rate
            == config.source_sample_rate,
        config.sample_rate matches Some(rate) ==> config.session_format().sample_rate == rate,
        config.max_channels is None ==> config.session_format().channels == config.channels,
        config.max_channels matches Some(n) ==> config.session_format().channels <= n
            && config.session_format().channels <= config.channels && (
        config.session_format().channels == n || config.session_format().channels
            == config.channels),
{
}

/// What a configuration calls for: a decoder for the source, samples in the session's format, and
/// resampling from the source's rate to the session's where they differ and only there.
pub proof fn law_setup_fits(setup: SessionSetup, config: OutputConfig)
    requires
        setup.fits(config),
    ensures
        setup.bit_depth == config.bit_depth,
        setup.channels == config.channels,
        setup.decoder_info@ == alac_info(
            config.samples_per_frame,
            config.bit_depth,
            config.channels,
            config.source_sample_rate,
        ),
        setup.format == config.session_format(),
        setup.format.sample_rate != config.source_sample_rate ==> setup.resample == Some(
            (config.source_sample_rate, setup.format.sample_rate),
        ),
        setup.format.sample_rate == config.source_sample_rate ==> setup.resample is None,
{
}

/// The first packet that has room for a payload makes the session, and no other does; a packet
/// without room is ignored. Payloads are opened with the receiver's key.
pub proof fn law_first_packet_makes_the_session(
    receiver: &mut RealtimeReceiver,
    packet: &[u8],
    r: Option<RealtimePacket>,
)
    requires
        packet@.len() <= max_sealed_len(),
        call_ensures(RealtimeReceiver::on_packet, (receiver, packet), r),
    ensures
        r is Some <==> packet@.len() > 20,
        r matches Some(p) ==> (p.setup is Some <==> !old(receiver).started),
        r matches Some(p) ==> (p.setup matches Some(setup) ==> setup.fits(old(receiver).config)),
        final(receiver).started <==> old(receiver).started || packet@.len() > 20,
        final(receiver).key == old(receiver).key,
        final(receiver).config == old(receiver).config,
        r matches Some(p) ==> match p.plaintext {
            Some(plain) => rtp_plaintext(old(receiver).key@, packet@) == Some(plain@),
            None => rtp_plaintext(old(receiver).key@, packet@) is None,
        },
{
}

/// A receiver starts without a session and with a configuration without zeros, which is the one
/// that was given where that has none.
pub proof fn law_new_receiver(key: [u8; 32], config: &OutputConfig, r: RealtimeReceiver)
    requires
        call_ensures(RealtimeReceiver::new, (key, config), r),
    ensures
        r.key == key,
        !r.started,
        r.config.normal(),
        config.normal() ==> r.config == *config,
        config.source_sample_rate == 0 ==> r.config.source_sample_rate == 44100,
        config.samples_per_frame == 0 ==> r.config.samples_per_frame == 352,
        config.channels == 0 ==> r.config.channels == 2,
        config.bit_depth == 0 ==> r.config.bit_depth == 16,
{
}

} // verus!
