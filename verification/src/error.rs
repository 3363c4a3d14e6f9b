//! The failure kinds the library surfaces: malformed text, a malformed
//! theme file, an empty or inverted numeric range, and I/O reported by the
//! caller that owns the files.

use vstd::prelude::*;

verus! {

/// A typed failure. Every failing operation reports one of these; nothing
/// is silently defaulted and nothing retries.
#[derive(Clone, Copy, Debug, PartialEq, Eq, Structural)]
pub enum Error {
    /// Malformed textual input: geometry, path tokens, seed, theme
    /// reference, or latitude/longitude.
    Parse,
    /// A malformed theme file: size not a multiple of the record size.
    Format,
    /// An empty or inverted numeric range, an out-of-bounds theme index, or
    /// a crop larger than the source canvas.
    Range,
    /// A file could not be opened, read or written. The library itself does
    /// no I/O; the caller doing it reports failures with this kind.
    Io,
}

} // verus!
