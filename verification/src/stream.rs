//! The entry stream of a run, and what the run knows of each group once it
//! was shown a stream.

use crate::entry::{group_of, kind_of, EntryKind};
use crate::group::{
    distinct_ids, found_or_fresh, ids, lemma_ensured, lemma_lookup_id, lemma_position,
    lemma_with_content_location, lemma_with_relative_path, lookup, GroupView,
};
use crate::restorer::{DirectiveView, RunState};
use crate::text::trimmed;
use vstd::prelude::*;

verus! {

/// One entry of the archive as a run meets it: the path it is stored at, its
/// payload, and the text that the payload reads back as once it is staged.
/// The text matters for path records only.
pub struct StreamEntry {
    pub path: Seq<char>,
    pub payload: Seq<u8>,
    pub text: Seq<char>,
}

impl StreamEntry {
    /// Whether this is the path record of the group `id`.
    pub open spec fn is_path_record_of(self, id: Seq<char>) -> bool {
        kind_of(self.path) == EntryKind::PathRecord && group_of(self.path) == id
    }

    /// Whether this is the content record of the group `id`.
    pub open spec fn is_content_record_of(self, id: Seq<char>) -> bool {
        kind_of(self.path) == EntryKind::ContentRecord && group_of(self.path) == id
    }

    /// Whether this is an entry of the group `id` that is no meta record.
    pub open spec fn counts_for(self, id: Seq<char>) -> bool {
        kind_of(self.path) != EntryKind::MetaRecord && group_of(self.path) == id
    }
}

/// The state after the run was shown `entry` and, for a path record, was
/// handed its text.
pub open spec fn after_entry(state: RunState, entry: StreamEntry) -> RunState {
    state.observe(entry.path).record_path_text(entry.path, entry.text)
}

/// The state after the run was shown `entries`, first to last.
pub open spec fn after_stream(state: RunState, entries: Seq<StreamEntry>) -> RunState
    decreases entries.len(),
{
    if entries.len() == 0 {
        state
    } else {
        after_entry(after_stream(state, entries.drop_last()), entries.last())
    }
}

/// `entries` without its meta records.
pub open spec fn without_meta_records(entries: Seq<StreamEntry>) -> Seq<StreamEntry>
    decreases entries.len(),
{
    if entries.len() == 0 {
        entries
    } else if kind_of(entries.last().path) == EntryKind::MetaRecord {
        without_meta_records(entries.drop_last())
    } else {
        without_meta_records(entries.drop_last()).push(entries.last())
    }
}

/// The relative path that the last path record of the group `id` in
/// `entries` gives, if the group has a path record there.
pub open spec fn last_relative_path(entries: Seq<StreamEntry>, id: Seq<char>) -> Option<Seq<char>>
    decreases entries.len(),
{
    if entries.len() == 0 {
        None
    } else if entries.last().is_path_record_of(id) {
        Some(trimmed(entries.last().text))
    } else {
        last_relative_path(entries.drop_last(), id)
    }
}

/// The scratch location of the last content record of the group `id` in
/// `entries`, if the group has a content record there.
pub open spec fn last_content_location(
    state: RunState,
    entries: Seq<StreamEntry>,
    id: Seq<char>,
) -> Option<Seq<char>>
    decreases entries.len(),
{
    if entries.len() == 0 {
        None
    } else if entries.last().is_content_record_of(id) {
        Some(state.scratch_location(entries.last().path))
    } else {
        last_content_location(state, entries.drop_last(), id)
    }
}

/// The payload of the last content record of the group `id` in `entries`, if
/// the group has a content record there.
pub open spec fn last_content_payload(entries: Seq<StreamEntry>, id: Seq<char>) -> Option<
    Seq<u8>,
>
    decreases entries.len(),
{
    if entries.len() == 0 {
        None
    } else if entries.last().is_content_record_of(id) {
        Some(entries.last().payload)
    } else {
        last_content_payload(entries.drop_last(), id)
    }
}

/// Whether `entries` holds an entry of the group `id` that is no meta record.
pub open spec fn mentions(entries: Seq<StreamEntry>, id: Seq<char>) -> bool {
    exists|i: int| 0 <= i < entries.len() && (#[trigger] entries[i]).counts_for(id)
}

/// What a run that started without groups knows of the group `id` once it
/// was shown `entries`.
pub open spec fn group_after(state: RunState, entries: Seq<StreamEntry>, id: Seq<char>) -> Option<
    GroupView,
> {
    if mentions(entries, id) {
        Some(
            GroupView {
                group_id: id,
                relative_path: last_relative_path(entries, id),
                content_location: last_content_location(state, entries, id),
            },
        )
    } else {
        None
    }
}

/// A meta record is a pure no-op: the run's state is the same after it as
/// before it, whatever its payload holds, and nothing is to be done for it.
pub proof fn lemma_meta_record_is_ignored(state: RunState, entry: StreamEntry)
    requires
        kind_of(entry.path) == EntryKind::MetaRecord,
    ensures
        after_entry(state, entry) == state,
        state.directive(entry.path) == DirectiveView::Skip,
{
}

/// What one entry does to what the run knows of the group `id`. An entry of
/// another group, or a meta record, leaves it as it was. An entry of the
/// group makes the group known; a path record sets its relative path to the
/// trimmed text, a content record sets its content location to the entry's
/// scratch location, and the field that the entry does not speak of stays.
pub proof fn lemma_entry_effect(state: RunState, entry: StreamEntry, id: Seq<char>)
    requires
        distinct_ids(state.groups),
    ensures
        after_entry(state, entry).base_dir == state.base_dir,
        distinct_ids(after_entry(state, entry).groups),
        !entry.counts_for(id) ==> lookup(after_entry(state, entry).groups, id) == lookup(
            state.groups,
            id,
        ),
        entry.counts_for(id) ==> lookup(after_entry(state, entry).groups, id) == Some(
            GroupView {
                group_id: id,
                relative_path: if entry.is_path_record_of(id) {
                    Some(trimmed(entry.text))
                } else {
                    found_or_fresh(state.groups, id).relative_path
                },
                content_location: if entry.is_content_record_of(id) {
                    Some(state.scratch_location(entry.path))
                } else {
                    found_or_fresh(state.groups, id).content_location
                },
            },
        ),
{
    let group = group_of(entry.path);
    lemma_lookup_id(state.groups, id);
    lemma_ensured(state.groups, group);
    match kind_of(entry.path) {
        EntryKind::MetaRecord => {},
        EntryKind::Other => {},
        EntryKind::ContentRecord => {
            lemma_with_content_location(
                state.groups,
                group,
                state.scratch_location(entry.path),
            );
        },
        EntryKind::PathRecord => {
            let seen = state.observe(entry.path);
            lemma_with_relative_path(seen.groups, group, trimmed(entry.text));
        },
    }
}

/// What a run knows of a group depends on three things only: whether the
/// stream held an entry of the group other than a meta record, what the last
/// path record of the group said, and where the last content record of the
/// group was staged. In particular it does not depend on the order in which
/// the path record and the content record of the group arrived, nor on what
/// stood between them.
pub proof fn lemma_groups_reflect_the_stream(
    state: RunState,
    entries: Seq<StreamEntry>,
    id: Seq<char>,
)
    requires
        state.groups.len() == 0,
    ensures
        after_stream(state, entries).base_dir == state.base_dir,
        distinct_ids(after_stream(state, entries).groups),
        lookup(after_stream(state, entries).groups, id) == group_after(state, entries, id),
    decreases entries.len(),
{
    if entries.len() == 0 {
        lemma_position(state.groups, id);
        assert(ids(state.groups) =~= Seq::<Seq<char>>::empty());
    } else {
        let front = entries.drop_last();
        let last = entries.last();
        let before = after_stream(state, front);
        lemma_groups_reflect_the_stream(state, front, id);
        lemma_entry_effect(before, last, id);
        assert(before.scratch_location(last.path) == state.scratch_location(last.path));
        if last.counts_for(id) {
            assert(entries[entries.len() - 1].counts_for(id));
        } else {
            if mentions(entries, id) {
                let i = choose|i: int| 0 <= i < entries.len() && (#[trigger] entries[i]).counts_for(id);
                assert(front[i].counts_for(id));
            }
            if mentions(front, id) {
                let i = choose|i: int| 0 <= i < front.len() && (#[trigger] front[i]).counts_for(id);
                assert(entries[i].counts_for(id));
            }
        }
        if !mentions(front, id) {
            lemma_no_records_before_mention(state, front, id);
        }
    }
}

/// A group that no entry counts for has neither a path record nor a content
/// record.
pub proof fn lemma_no_records_before_mention(
    state: RunState,
    entries: Seq<StreamEntry>,
    id: Seq<char>,
)
    requires
        !mentions(entries, id),
    ensures
        last_relative_path(entries, id) is None,
        last_content_location(state, entries, id) is None,
    decreases entries.len(),
{
    if entries.len() > 0 {
        let front = entries.drop_last();
        assert(!entries[entries.len() - 1].counts_for(id));
        assert forall|i: int| 0 <= i < front.len() implies !(#[trigger] front[i]).counts_for(id) by {
            assert(!entries[i].counts_for(id));
        }
        lemma_no_records_before_mention(state, front, id);
    }
}

/// What the last path record of a group gives is the trimmed text of a path
/// record of the group that no other path record of the group follows; it
/// gives nothing exactly where the group has no path record.
pub proof fn lemma_last_relative_path(entries: Seq<StreamEntry>, id: Seq<char>)
    ensures
        match last_relative_path(entries, id) {
            Some(path) => exists|i: int|
                {
                    &&& 0 <= i < entries.len()
                    &&& (#[trigger] entries[i]).is_path_record_of(id)
                    &&& path == trimmed(entries[i].text)
                    &&& forall|j: int|
                        i < j < entries.len() ==> !(#[trigger] entries[j]).is_path_record_of(id)
                },
            None => forall|i: int|
                0 <= i < entries.len() ==> !(#[trigger] entries[i]).is_path_record_of(id),
        },
    decreases entries.len(),
{
    if entries.len() > 0 {
        let front = entries.drop_last();
        let n = entries.len() - 1;
        if entries.last().is_path_record_of(id) {
            assert(entries[n].is_path_record_of(id));
        } else {
            lemma_last_relative_path(front, id);
            match last_relative_path(front, id) {
                Some(path) => {
                    let i = choose|i: int|
                        {
                            &&& 0 <= i < front.len()
                            &&& (#[trigger] front[i]).is_path_record_of(id)
                            &&& path == trimmed(front[i].text)
                            &&& forall|j: int|
                                i < j < front.len() ==> !(#[trigger] front[j]).is_path_record_of(
                                    id,
                                )
                        };
                    assert(entries[i].is_path_record_of(id));
                    assert forall|j: int| i < j < entries.len() implies
                        !(#[trigger] entries[j]).is_path_record_of(id) by {
                        if j < n {
                            assert(!front[j].is_path_record_of(id));
                        }
                    }
                },
                None => {
                    assert forall|i: int| 0 <= i < entries.len() implies
                        !(#[trigger] entries[i]).is_path_record_of(id) by {
                        if i < n {
                            assert(!front[i].is_path_record_of(id));
                        }
                    }
                },
            }
        }
    }
}

/// Where the last content record of a group was staged is the scratch
/// location of a content record of the group that no other content record of
/// the group follows; there is no such place exactly where the group has no
/// content record.
pub proof fn lemma_last_content_location(
    state: RunState,
    entries: Seq<StreamEntry>,
    id: Seq<char>,
)
    ensures
        match last_content_location(state, entries, id) {
            Some(location) => exists|i: int|
                {
                    &&& 0 <= i < entries.len()
                    &&& (#[trigger] entries[i]).is_content_record_of(id)
                    &&& location == state.scratch_location(entries[i].path)
                    &&& forall|j: int|
                        i < j < entries.len() ==> !(#[trigger] entries[j]).is_content_record_of(id)
                },
            None => forall|i: int|
                0 <= i < entries.len() ==> !(#[trigger] entries[i]).is_content_record_of(id),
        },
    decreases entries.len(),
{
    if entries.len() > 0 {
        let front = entries.drop_last();
        let n = entries.len() - 1;
        if entries.last().is_content_record_of(id) {
            assert(entries[n].is_content_record_of(id));
        } else {
            lemma_last_content_location(state, front, id);
            match last_content_location(state, front, id) {
                Some(location) => {
                    let i = choose|i: int|
                        {
                            &&& 0 <= i < front.len()
                            &&& (#[trigger] front[i]).is_content_record_of(id)
                            &&& location == state.scratch_location(front[i].path)
                            &&& forall|j: int|
                                i < j < front.len() ==> !(
                                #[trigger] front[j]).is_content_record_of(id)
                        };
                    assert(entries[i].is_content_record_of(id));
                    assert forall|j: int| i < j < entries.len() implies
                        !(#[trigger] entries[j]).is_content_record_of(id) by {
                        if j < n {
                            assert(!front[j].is_content_record_of(id));
                        }
                    }
                },
                None => {
                    assert forall|i: int| 0 <= i < entries.len() implies
                        !(#[trigger] entries[i]).is_content_record_of(id) by {
                        if i < n {
                            assert(!front[i].is_content_record_of(id));
                        }
                    }
                },
            }
        }
    }
}

} // verus!
