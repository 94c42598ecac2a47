//! The errors of the library.
use vstd::prelude::*;

verus! {

/// What went wrong. The variants that wrap an error of std or of an outside crate where that
/// error arises (I/O, integer parsing, HTTP, UTF-8, JSON, bincode) carry no payload here.
#[derive(Debug, Clone, Copy, PartialEq, Eq, Structural)]
pub enum SkkError {
    Io,
    Parse,
    Reqwest,
    String,
    Json,
    Bincode,
    JisyoRead,
    BrokenCache,
    CacheOpen,
    BrokenDictionary,
    CommandLine,
    Encoding,
    Request,
}

} // verus!
