//! Diagnostics of the Objective-C compiler.
use vstd::prelude::*;

verus! {

/// A diagnostic in a common form. No diagnostic is collected yet.
#[derive(Debug, Clone, Copy, PartialEq, Eq, Structural)]
pub struct NormalizedDiagnostic {}

/// Collects the diagnostics of a translation unit below `repo_root`: none.
pub fn collect(repo_root: &str) -> (r: Vec<NormalizedDiagnostic>)
    ensures
        r@ == Seq::<NormalizedDiagnostic>::empty(),
{
    Vec::new()
}

} // verus!
