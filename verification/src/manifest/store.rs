//! Where the engine manifest lives.
use vstd::prelude::*;

verus! {

/// The path of the engine manifest; reading and writing it is the
/// caller's.
#[derive(Clone, Debug)]
pub struct ManifestStore {
    path: String,
}

impl ManifestStore {
    pub closed spec fn spec_path(&self) -> Seq<char> {
        self.path@
    }

    pub fn new(path: &str) -> (s: ManifestStore)
        ensures
            s.spec_path() == path@,
    {
        ManifestStore { path: String::from_str(path) }
    }

    pub fn path(&self) -> (p: &str)
        ensures
            p@ == self.spec_path(),
    {
        self.path.as_str()
    }
}

} // verus!
