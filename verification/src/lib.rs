pub mod channel;
pub mod chunk;
pub mod ebml;
pub mod error;
pub mod fixers;
pub mod stream_parser;
pub mod webm;
