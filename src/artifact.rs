//! Writing the generated artifact only when its text changes.
use vstd::prelude::*;

use crate::compile::{is_sorted_table, lemma_compile_deterministic, records_of, AssetRecordView, SourceFile};
use crate::respond::text_of;
use crate::text::same_text;

verus! {

/// The target must be written unless it already holds exactly `content`.
pub open spec fn must_write(existing: Option<Seq<char>>, content: Seq<char>) -> bool {
    existing != Some(content)
}

/// Whether the artifact must be written, given the text that the target
/// holds now (`None` where there is no such file).
pub fn needs_write(existing: Option<&str>, content: &str) -> (r: bool)
    ensures
        r == must_write(text_of(existing), content@),
{
    match existing {
        Some(old) => !same_text(old, content),
        None => true,
    }
}

/// Compiling unchanged files again and rendering the table in the same way
/// leaves the artifact that the first run wrote as it is.
pub proof fn lemma_rebuild_keeps_artifact(
    root: Seq<char>,
    files: Seq<SourceFile>,
    first: Seq<AssetRecordView>,
    second: Seq<AssetRecordView>,
    render: spec_fn(Seq<AssetRecordView>) -> Seq<char>,
)
    requires
        is_sorted_table(records_of(root, files), first),
        is_sorted_table(records_of(root, files), second),
    ensures
        !must_write(Some(render(first)), render(second)),
{
    lemma_compile_deterministic(root, files, first, second);
}

} // verus!
