//! The computing core of `vlscii`, a true-color ANSI terminal video player.

pub mod ascii;
pub mod band;
pub mod binary64;
pub mod braille;
pub mod cli;
pub mod decoder;
pub mod half_block;
pub mod layout;
pub mod mapper;
pub mod renderer;
pub mod screen;
pub mod srt;
pub mod subtitles;
pub mod term;
pub mod text;
