//! The detector for JavaScript projects.

use vstd::prelude::*;
use vstd::string::StringExecFns;

use super::Detector;

verus! {

/// Recognises a JavaScript project by its `package.json` or its installed
/// dependencies, and nominates what its tooling generates.
pub struct Javascript {}

impl Javascript {
    /// The detector for JavaScript projects.
    pub fn new() -> (javascript: Javascript)
        ensures
            javascript == (Javascript {  }),
    {
        Javascript {  }
    }
}

impl Detector for Javascript {
    open spec fn marker_set(&self) -> Seq<Seq<char>> {
        seq!["package.json"@, "node_modules"@]
    }

    open spec fn candidate_set(&self) -> Seq<Seq<char>> {
        seq!["node_modules"@, "dist"@, "public"@, ".cache"@]
    }

    fn markers(&self) -> (markers: Vec<String>) {
        let mut markers: Vec<String> = Vec::new();
        markers.push(String::from_str("package.json"));
        markers.push(String::from_str("node_modules"));
        assert(markers.deep_view() =~= self.marker_set());
        markers
    }

    fn deletables(&self) -> (candidates: Vec<String>) {
        let mut candidates: Vec<String> = Vec::new();
        candidates.push(String::from_str("node_modules"));
        candidates.push(String::from_str("dist"));
        candidates.push(String::from_str("public"));
        candidates.push(String::from_str(".cache"));
        assert(candidates.deep_view() =~= self.candidate_set());
        candidates
    }
}

} // verus!
