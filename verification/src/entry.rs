//! The entries of a package archive: which group each belongs to and what it
//! records.

use crate::paths::{final_component, parent_of, split_last};
use vstd::prelude::*;

verus! {

/// What an archive entry records, told by the name of its final path component.
#[derive(Clone, Copy, Debug, PartialEq, Eq, Structural)]
pub enum EntryKind {
    /// `pathname`: the asset's project-relative destination, as text.
    PathRecord,
    /// `asset`: the asset's raw bytes.
    ContentRecord,
    /// `asset.meta`: skipped entirely.
    MetaRecord,
    /// Anything else: ignored.
    Other,
}

/// The kind of the entry whose final path component is `name`. The name must
/// match exactly.
pub open spec fn kind_of_name(name: Seq<char>) -> EntryKind {
    if name == "asset.meta"@ {
        EntryKind::MetaRecord
    } else if name == "pathname"@ {
        EntryKind::PathRecord
    } else if name == "asset"@ {
        EntryKind::ContentRecord
    } else {
        EntryKind::Other
    }
}

/// The kind of the entry stored at `path` in the archive.
pub open spec fn kind_of(path: Seq<char>) -> EntryKind {
    kind_of_name(final_component(path))
}

/// The identifier of the group that the entry stored at `path` belongs to:
/// `path` without its final component.
pub open spec fn group_of(path: Seq<char>) -> Seq<char> {
    parent_of(path)
}

/// The three record names differ from one another.
pub proof fn lemma_record_names_differ()
    ensures
        kind_of_name("asset.meta"@) == EntryKind::MetaRecord,
        kind_of_name("pathname"@) == EntryKind::PathRecord,
        kind_of_name("asset"@) == EntryKind::ContentRecord,
{
    reveal_strlit("asset.meta");
    reveal_strlit("pathname");
    reveal_strlit("asset");
    assert("asset.meta"@.len() == 10);
    assert("pathname"@.len() == 8);
    assert("asset"@.len() == 5);
}

/// Tells the kind of an entry from the name of its final path component.
pub fn classify_name(name: &str) -> (kind: EntryKind)
    ensures
        kind == kind_of_name(name@),
{
    let name = name.to_owned();
    if name == "asset.meta".to_owned() {
        EntryKind::MetaRecord
    } else if name == "pathname".to_owned() {
        EntryKind::PathRecord
    } else if name == "asset".to_owned() {
        EntryKind::ContentRecord
    } else {
        EntryKind::Other
    }
}

/// Derives the group identifier and the kind of the entry stored at `path`.
pub fn classify(path: &str) -> (r: (String, EntryKind))
    ensures
        r.0@ == group_of(path@),
        r.1 == kind_of(path@),
{
    let (group_id, name) = split_last(path);
    let kind = classify_name(name.as_str());
    (group_id, kind)
}

} // verus!
