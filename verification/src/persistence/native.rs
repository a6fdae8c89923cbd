//! Native filesystem backend: save files in a base directory.
use vstd::prelude::*;

verus! {

/// Native filesystem backend scoped to a base directory.
pub struct NativeFs {
    base_dir: String,
}

impl NativeFs {
    /// The directory the backend's files live in.
    pub closed spec fn base_dir_view(&self) -> Seq<char> {
        self.base_dir@
    }

    /// Creates a native filesystem backend rooted at `base_dir`, which the
    /// caller has created.
    pub fn new(base_dir: String) -> (fs: Self)
        ensures
            fs.base_dir_view() == base_dir@,
    {
        NativeFs { base_dir }
    }

    /// The directory the backend's files live in.
    pub fn base_dir(&self) -> (d: &str)
        ensures
            d@ == self.base_dir_view(),
    {
        self.base_dir.as_str()
    }
}

} // verus!
