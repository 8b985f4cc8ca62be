//! Ciphers and key derivation of the streaming protocols.
pub mod aead;
pub mod aes;
pub mod block;
pub mod chacha_transport;
pub mod kdf;
pub mod video_cipher;
