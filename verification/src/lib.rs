//! Turns recorded speech into reviewed training data.

pub mod audio;
pub mod clock;
pub mod corpus;
pub mod craig;
pub mod daemon;
pub mod jsonl;
pub mod layout;
pub mod number;
pub mod order;
pub mod path;
pub mod pieces;
pub mod text;
pub mod track;
pub mod utf8;
pub mod vad;
pub mod whisper;
