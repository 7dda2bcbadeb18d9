//! The flag by which a background task is told to stop.

use std::sync::atomic::{AtomicBool, Ordering};
use std::sync::Arc;
use vstd::prelude::*;

verus! {

/// A flag that several tasks share.
pub(crate) fn new_flag(value: bool) -> Arc<AtomicBool> {
    Arc::new(AtomicBool::new(value))
}

/// Reads the flag. Another task may change it at any time.
pub(crate) fn read_flag(flag: &Arc<AtomicBool>) -> bool {
    flag.load(Ordering::SeqCst)
}

/// Sets the flag.
pub(crate) fn write_flag(flag: &Arc<AtomicBool>, value: bool) {
    flag.store(value, Ordering::SeqCst)
}

/// `Arc::clone` of the standard library: another pointer to the same
/// allocation, so that the handle returned stands for the very flag that
/// was given and for no other.
#[verifier::external_body]
pub(crate) fn share_flag(flag: &Arc<AtomicBool>) -> (shared: Arc<AtomicBool>)
    ensures
        shared == *flag,
{
    flag.clone()
}

} // verus!
