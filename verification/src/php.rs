//! What lies where `scip-php` writes its index: it can only write to one name
//! in the user's own checkout, so what is there is saved and put back.
use vstd::prelude::*;
use vstd::string::*;
use crate::graph::{diagnostic_views, DiagnosticView, PluginDiagnostic};
use crate::text::copy_text;

verus! {

/// What is found under a name, a link not being followed.
#[derive(Debug, Clone, Copy, PartialEq, Eq, Structural)]
pub enum AtPath {
    Nothing,
    /// A plain file of so many bytes.
    File(u64),
    /// A link or a directory.
    Other,
}

/// The warning about a name that cannot be written to.
pub open spec fn blocked(produced: Seq<char>) -> DiagnosticView {
    DiagnosticView {
        code: "php.index-path-blocked"@,
        message: "PHP was not indexed: "@ + produced
            + " is a link or a folder, and the indexer has to write its output to that name. Move or delete it, then index again."@,
    }
}

/// The reason why nothing is run.
pub open spec fn refusal(produced: Seq<char>) -> Seq<char> {
    "refusing to run scip-php: "@ + produced + " is a link or a directory"@
}

/// Whether what is found is the user's: an empty file is only there so that
/// it can be written to.
pub open spec fn is_owed(at: AtPath) -> bool {
    at matches AtPath::File(len) && len > 0
}

/// Whether what is found under the name `produced` has to be saved before the
/// run and put back after it. A link or a directory may lead out of the
/// checkout, so nothing is run then, and the user is told.
pub fn preserve_existing_artifact(
    produced: &str,
    at: AtPath,
    diagnostics: &mut Vec<PluginDiagnostic>,
) -> (r: Result<bool, String>)
    ensures
        match r {
            Ok(owed) => at != AtPath::Other && owed == is_owed(at) && final(diagnostics)@ == old(
                diagnostics,
            )@,
            Err(e) => at == AtPath::Other && e@ == refusal(produced@) && diagnostic_views(
                final(diagnostics)@,
            ) == diagnostic_views(old(diagnostics)@).push(blocked(produced@)),
        },
{
    match at {
        AtPath::Nothing => Ok(false),
        AtPath::File(len) => Ok(len > 0),
        AtPath::Other => {
            let mut m = copy_text("PHP was not indexed: ");
            m.append(produced);
            m.append(
                " is a link or a folder, and the indexer has to write its output to that name. Move or delete it, then index again.",
            );
            let d = PluginDiagnostic { code: copy_text("php.index-path-blocked"), message: m };
            diagnostics.push(d);
            let mut e = copy_text("refusing to run scip-php: ");
            e.append(produced);
            e.append(" is a link or a directory");
            Err(e)
        },
    }
}

/// A step that leaves the checkout as it was found.
#[derive(Debug, Clone, Copy, PartialEq, Eq, Structural)]
pub enum Cleanup {
    /// Take the file away.
    Remove,
    /// Leave the file and take its contents away.
    Empty,
    /// Leave the file, or make it anew, and write back what was saved.
    Overwrite,
    Done,
}

/// The first step: where something is owed the file is never taken away,
/// since it could be impossible to make it again.
pub open spec fn cleanup_start(owed: bool) -> Cleanup {
    if owed {
        Cleanup::Overwrite
    } else {
        Cleanup::Remove
    }
}

/// The step that follows, given whether something is still found under the
/// name.
pub open spec fn cleanup_next(step: Cleanup, still_there: bool) -> Cleanup {
    if step == Cleanup::Remove && still_there {
        Cleanup::Empty
    } else {
        Cleanup::Done
    }
}

/// The first step after a run.
pub fn first_cleanup(owed: bool) -> (r: Cleanup)
    ensures
        r == cleanup_start(owed),
{
    if owed {
        Cleanup::Overwrite
    } else {
        Cleanup::Remove
    }
}

/// The step that follows `step`.
pub fn next_cleanup(step: Cleanup, still_there: bool) -> (r: Cleanup)
    ensures
        r == cleanup_next(step, still_there),
{
    match step {
        Cleanup::Remove => if still_there {
            Cleanup::Empty
        } else {
            Cleanup::Done
        },
        _ => Cleanup::Done,
    }
}

/// What a file holds after a step, where there is one. Whether it can be taken
/// away depends on its directory.
pub open spec fn after_step(
    step: Cleanup,
    file: Option<Seq<u8>>,
    saved: Seq<u8>,
    removable: bool,
) -> Option<Seq<u8>> {
    match step {
        Cleanup::Remove => if removable {
            None
        } else {
            file
        },
        Cleanup::Empty => match file {
            Some(_) => Some(Seq::empty()),
            None => None,
        },
        Cleanup::Overwrite => Some(saved),
        Cleanup::Done => file,
    }
}

/// What a file holds after all steps.
pub open spec fn after_cleanup(
    owed: bool,
    file: Option<Seq<u8>>,
    saved: Seq<u8>,
    removable: bool,
) -> Option<Seq<u8>> {
    let one = after_step(cleanup_start(owed), file, saved, removable);
    after_step(cleanup_next(cleanup_start(owed), one is Some), one, saved, removable)
}

/// What is found under a name, told by what a plain file there holds.
pub open spec fn found(file: Option<Seq<u8>>) -> AtPath {
    match file {
        None => AtPath::Nothing,
        Some(bytes) => AtPath::File(bytes.len() as u64),
    }
}

/// A run leaves a checkout as it was found, whatever it wrote: the user's
/// bytes are back, a name that was free is free again where files can be taken
/// away, and else an empty file is left.
pub proof fn law_checkout_is_left_as_found(
    before: Option<Seq<u8>>,
    written: Option<Seq<u8>>,
    removable: bool,
)
    requires
        before is Some ==> before->0.len() <= u64::MAX,
    ensures
        is_owed(found(before)) ==> after_cleanup(true, written, before->0, removable) == before,
        !is_owed(found(before)) && removable ==> after_cleanup(
            false,
            written,
            Seq::empty(),
            removable,
        ) is None,
        !is_owed(found(before)) && !removable && written is Some ==> after_cleanup(
            false,
            written,
            Seq::empty(),
            removable,
        ) == Some(Seq::<u8>::empty()),
{
}

/// A file that is owed is never taken away on the way.
pub proof fn law_owed_file_is_never_removed(still_there: bool)
    ensures
        cleanup_start(true) != Cleanup::Remove,
        cleanup_next(cleanup_start(true), still_there) != Cleanup::Remove,
{
}

/// What is saved before a run is a plain file that holds something, and
/// nothing else.
pub proof fn law_only_a_full_file_is_owed(file: Option<Seq<u8>>)
    requires
        file is Some ==> file->0.len() <= u64::MAX,
    ensures
        is_owed(found(file)) <==> file is Some && file->0.len() > 0,
        !is_owed(AtPath::Other),
        !is_owed(AtPath::Nothing),
{
}

/// A name is freed or its file emptied after a run, and never both without
/// need: a file that is gone is left alone.
pub proof fn law_cleanup_ends(owed: bool, still_there: bool)
    ensures
        cleanup_start(true) == Cleanup::Overwrite,
        cleanup_start(false) == Cleanup::Remove,
        cleanup_next(cleanup_start(owed), still_there) == Cleanup::Empty <==> !owed && still_there,
        cleanup_next(Cleanup::Empty, still_there) == Cleanup::Done,
{
}

} // verus!
