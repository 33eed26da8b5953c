//! Small verified computations backing the platform glue.
//!
//! The firmware calls themselves (revision query, file loading, display-mode
//! enumeration) stay outside the library; the decisions they feed are
//! verified here on plain values.

use vstd::prelude::*;

verus! {

/// Whether a firmware revision is supported: major version at least 2 and,
/// within it, minor revision at least 30.  An unsupported revision is fatal
/// at startup, before anything is loaded.
pub fn revision_supported(major: u16, minor: u16) -> (r: bool)
    ensures
        r == (major >= 2 && minor >= 30),
{
    major >= 2 && minor >= 30
}

/// How many whole pages to request for a file of `file_size` bytes: enough
/// to hold the file, with one page of slack so a read that reports a size
/// rounded up still fits.
pub fn pages_needed(file_size: u64) -> (r: u64)
    ensures
        r == file_size / 4096 + 1,
        r * 4096 > file_size,
{
    proof {
        assert((file_size / 4096 + 1) * 4096 > file_size) by (nonlinear_arith);
    }
    file_size / 4096 + 1
}

/// How large a buffer to hand the firmware for a memory-map snapshot:
/// the platform's own size hint, doubled as a safety margin — querying the
/// map can itself consume memory and shift the required size, and a margin
/// avoids a second failed attempt.
pub fn snapshot_buffer_size(hint: usize) -> (r: usize)
    requires
        hint <= usize::MAX / 2,
    ensures
        r == 2 * hint,
{
    2 * hint
}

/// One display mode the firmware offers, by its resolution.
#[derive(Clone, Copy, PartialEq, Eq, Structural, Debug)]
pub struct ModeResolution {
    pub width: u64,
    pub height: u64,
}

/// Pick the first offered mode whose resolution matches the requested one,
/// or report that none does.  The caller then asks the firmware to switch to
/// the returned mode; with no request, the current mode is kept.
pub fn select_mode(modes: &Vec<ModeResolution>, want: ModeResolution) -> (r: Option<usize>)
    ensures
        match r {
            Some(i) => {
                &&& i < modes@.len()
                &&& modes@[i as int] == want
                &&& forall|k: int| 0 <= k < i ==> modes@[k] != want
            },
            None => forall|k: int| 0 <= k < modes@.len() ==> modes@[k] != want,
        },
{
    let mut i: usize = 0;
    while i < modes.len()
        invariant
            0 <= i <= modes@.len(),
            forall|k: int| 0 <= k < i ==> modes@[k] != want,
        decreases modes@.len() - i,
    {
        let m = modes[i];
        if m.width == want.width && m.height == want.height {
            return Some(i);
        }
        i = i + 1;
    }
    None
}

} // verus!
