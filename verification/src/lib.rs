//! TarLens: tar archive analysis (V7, USTAR, PAX and GNU formats) with
//! hand-written, verified parsing of the 512-byte header format.

pub mod calendar;
pub mod diff;
pub mod filter;
pub mod header;
pub mod inspect;
pub mod output;
pub mod reader;
pub mod stats;
pub mod text;
pub mod verify;
