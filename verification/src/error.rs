//! Errors surfaced at the crate boundary.

use vstd::prelude::*;

verus! {

/// Configuration and open-time failures.  Per-query soft failures are
/// returned as empty lists or absent options, never as these.
#[derive(Clone, Copy, PartialEq, Eq, Structural, Debug)]
pub enum Error {
    BadPath,
    BadExtension,
    BadFileMagic,
    BadMetadata,
    BadSidecar,
    Io,
}

} // verus!
