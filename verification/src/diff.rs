//! The report of what changed between two snapshots.

use vstd::prelude::*;

verus! {

/// The unified diff that leads from the text `before` to the text `after`,
/// line by line, as `diffy` computes it and writes it with colours: the two
/// header lines in bold, then each hunk with its range line in cyan, the
/// removed lines behind a minus sign in red, the added lines behind a plus
/// sign in green and up to three unchanged lines around them.
pub uninterp spec fn colored_unified_diff(before: Seq<char>, after: Seq<char>) -> Seq<char>;

/// Reports what changed from the old snapshot to the new one. The report is
/// meant for a terminal; it decides nothing.
pub fn diff_liked_songs(new_liked_songs: &String, old_liked_songs: &String) -> (report: String)
    ensures
        report@ == colored_unified_diff(old_liked_songs@, new_liked_songs@),
{
    colored_patch(old_liked_songs.as_str(), new_liked_songs.as_str())
}

/// `diffy::create_patch` from `before` to `after`, written out by a
/// `diffy::PatchFormatter` with colours switched on. The patch and its text
/// depend on the two texts alone; the contract gives the text its name.
#[verifier::external_body]
fn colored_patch(before: &str, after: &str) -> (text: String)
    ensures
        text@ == colored_unified_diff(before@, after@),
{
    let patch = diffy::create_patch(before, after);
    let formatter = diffy::PatchFormatter::new().with_color();
    format!("{}", formatter.fmt_patch(&patch))
}

} // verus!
