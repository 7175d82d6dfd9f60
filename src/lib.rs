//! A queue of URLs to download, kept as a text file with one URL per line, and
//! the logic that drives an external video downloader over it: splitting the
//! downloader's output into lines, reading its progress lines, and rendering a
//! fixed-width progress bar.
//!
//! - `lines`: splits a byte stream on `\n`, `\r` or `\r\n`.
//! - `progress`: renders `[<bar>] (ETA <eta>)`.
//! - `status`: reads the downloader's destination and progress lines.
//! - `queue`: URL normalization and the text of the queue file.
//! - `driver`: the next step of the download loop.
//! - `text`: character-level helpers shared by the others.
use vstd::prelude::*;

pub mod driver;
pub mod lines;
pub mod progress;
pub mod queue;
pub mod status;
pub mod text;

verus! {

} // verus!
