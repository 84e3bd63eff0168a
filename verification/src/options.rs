//! Compilation limits handed to the surrounding matching engine.

use vstd::prelude::*;

verus! {

/// Size limits applied when the surrounding engine compiles a pattern.
///
/// The limits are plain byte counts; this crate only carries them, the
/// engine enforces them.
pub struct Options {
    /// Approximate limit, in bytes, on the size of a compiled pattern.
    pub size_limit: usize,
    /// Approximate limit, in bytes, on the cache used by the lazy DFA.
    pub dfa_size_limit: usize,
}

impl Default for Options {
    /// Ten mebibytes for the compiled pattern, two for the DFA cache.
    fn default() -> (r: Options)
        ensures
            r.size_limit == 10485760usize,
            r.dfa_size_limit == 2097152usize,
    {
        Options { size_limit: 10485760, dfa_size_limit: 2097152 }
    }
}

} // verus!
