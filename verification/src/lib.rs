//! The core of a voice bot that records its users on request and plays
//! sounds into voice channels.
//!
//! - `wav`: the one audio format, mono 16-bit PCM at 48 kHz.
//! - `audio`: stereo to mono.
//! - `ring`, `recorder`, `whitelist`: what is kept of whom, and the
//!   whitelist as it is stored.
//! - `soundboard`, `store`, `cache`: the catalog of sounds, its stored form,
//!   and the sound files held in memory.
//! - `commands`, `presence`, `download`, `layout`, `ids`, `text`: what
//!   users ask for and what they are answered.
//! - `seqs`: facts about sequences that the proofs share.
//!
//! But for the making of sound ids, nothing here reads a clock, a file or
//! the network: times and bytes come in as arguments, and what is to be
//! written goes out as a value.

pub mod audio;
pub mod cache;
pub mod commands;
pub mod download;
pub mod ids;
pub mod layout;
pub mod presence;
pub mod recorder;
pub mod ring;
pub mod seqs;
pub mod soundboard;
pub mod store;
pub mod text;
pub mod wav;
pub mod whitelist;
