//! Verified core of the receipt printer: transcript parsing, phrase timing,
//! playback scheduling and the ESC/POS byte stream for the thermal printer.

pub mod escpos;
pub mod text;
pub mod transcript;
pub mod alignment;
pub mod scheduler;
pub mod printer;
pub mod settings;
pub mod session;
pub mod whisper_cache;
pub mod audio_processing;
