use vstd::prelude::*;

verus! {

/// The result type used throughout the kernel: errors are short static messages.
pub type Result<T> = core::result::Result<T, &'static str>;

} // verus!
