//! Splitting a stream of bytes or of text into a run of bounded output
//! files, and naming those files.
//!
//! The library opens and writes nothing. A run is fed its input piece by
//! piece and answers each piece with operations on files, which the caller
//! carries out in order; what the files then hold is stated for every input.
//!
//! - `options`: the options of a run, and how they are read from arguments.
//! - `decimal`: numbers in decimal text.
//! - `suffix`: the suffixes `aa`, `ab`, ... and `0`, `1`, ... of the files.
//! - `segment`: cutting a stream of characters into lines.
//! - `rolling`: how items fall into files of bounded size.
//! - `allocator`: what the open file can still take, and when the next one
//!   begins.
//! - `output`: operations on files, and files held in memory.
//! - `binary`: splitting bytes by size.
//! - `lines`: splitting characters by lines, and lines by length.
//! - `codec`: decoding and encoding, by the `encoding_rs` crate.
//! - `text`: splitting encoded text.
//! - `error`: what can go wrong.
//! - `chars`: strings and vectors of characters.

pub mod allocator;
pub mod binary;
pub mod chars;
pub mod codec;
pub mod decimal;
pub mod error;
pub mod lines;
pub mod options;
pub mod output;
pub mod rolling;
pub mod segment;
pub mod suffix;
pub mod text;
