//! ZillaNote's logic: when a call starts and ends, how recognizer output is cleaned and
//! cut, how minutes are prepared and mailed, and the small rules around models and speakers.

pub mod text;

pub mod calls;
pub mod asr_text;
pub mod email;
pub mod minutes;
pub mod templates;
pub mod model;
pub mod speakers;
pub mod store;
pub mod server;
pub mod download;
pub mod voices;
pub mod chunker;
pub mod diarize;
pub mod turns;
pub mod asr;
pub mod pipeline;
pub mod transcript;
