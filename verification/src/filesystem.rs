//! Settings for file operations.
use vstd::prelude::*;

verus! {

/// How a file may be deleted.
#[derive(Clone, Copy, Debug, PartialEq, Eq, Structural)]
pub struct DeleteOptions {
    /// Whether a relative path may be deleted; by default only absolute
    /// paths are.
    pub allow_relative_path: bool,
}

impl Default for DeleteOptions {
    fn default() -> (r: Self)
        ensures
            !r.allow_relative_path,
    {
        DeleteOptions { allow_relative_path: false }
    }
}

impl DeleteOptions {
    /// Whether a path may be deleted under these options.
    pub fn permits(self, path_is_relative: bool) -> (r: bool)
        ensures
            r == (self.allow_relative_path || !path_is_relative),
    {
        self.allow_relative_path || !path_is_relative
    }
}

} // verus!
