//! The file picker's answer source when no native dialog is used.
//!
//! The native dialog (an `NSOpenPanel`) is shown by the application. In its
//! place, a slot holds the file that the next `pick_file` call returns; the
//! value is consumed by that call.

use vstd::prelude::*;

verus! {

/// Returns the file held in `slot` and empties it; `None` when the slot is
/// empty (no file chosen).
pub fn pick_file(slot: &mut Option<String>) -> (r: Option<String>)
    ensures
        r == *old(slot),
        *final(slot) is None,
{
    slot.take()
}

/// Sets the file that the next `pick_file` call returns.
pub fn mock_set_next_file(slot: &mut Option<String>, file: Option<String>)
    ensures
        *final(slot) == file,
{
    *slot = file;
}

} // verus!
