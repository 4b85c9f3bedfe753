//! Filters applied when choosing which manifest files to sign. The checks
//! themselves open and read files, so they run with the caller; the library
//! holds the filter's identity and its scheduling rank.

use vstd::prelude::*;

verus! {

/// Sign only manifests that already carry an authors field, or only those
/// whose authors field already lists someone.
pub enum SignableFilter {
    IfSignable,
    IfHasSignatures,
}

impl SignableFilter {
    /// Filters that must open files sort after those that need none; this
    /// filter reads the manifest, so it carries the highest rank.
    pub fn get_ord(&self) -> (r: u8)
        ensures
            r == 255,
    {
        255u8
    }
}

} // verus!
