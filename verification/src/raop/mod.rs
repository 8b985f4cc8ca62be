//! The audio, video and control services of a receiver.
pub mod aac_payload;
pub mod audio_pipeline;
pub mod buffered_audio;
pub mod event_channel;
pub mod handlers_hls;
pub mod hls;
pub mod ntp;
pub mod plist_ascii;
pub mod plist_binary;
pub mod plist_limits;
pub mod plist_tree;
pub mod plist_xml;
pub mod realtime_audio;
pub mod remote;
pub mod video;
pub mod video_stream;
