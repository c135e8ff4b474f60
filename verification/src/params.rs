//! Parameters of the rename command. The command-line front end keeps its
//! own argument-parsing copy and converts to this type.

use vstd::prelude::*;

verus! {

/// What the rename command needs: the directory (or single file) whose
/// EPUB archives are to be examined.
pub struct RenameParams {
    pub target_dir: String,
}

} // verus!
