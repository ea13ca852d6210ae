//! What holds of every restoration run, from the stream of entries that the
//! run is shown to the files that its plan puts in place.

use crate::entry::{kind_of, EntryKind};
use crate::group::{
    distinct_ids, ensured, ids, lemma_ensured, lemma_position, lemma_position_is,
    lemma_position_is_none, lemma_update_keeps_positions, lookup, position, GroupView,
};
use crate::paths::{destination_of, parent_of};
use crate::restorer::{job_for, planned, CopyJobView, RunState};
use crate::stream::{
    after_entry, after_stream, last_content_location, last_content_payload,
    last_relative_path, lemma_groups_reflect_the_stream, lemma_last_content_location,
    lemma_last_relative_path, without_meta_records, StreamEntry,
};
use crate::text::trimmed;
use crate::tree::{
    after_copies, last_source_for, lemma_copies_at, lemma_copying_twice_is_copying_once,
    lemma_last_source_for, lemma_staged_content, staged_after,
};
use vstd::prelude::*;

verus! {

/// Meta records do not affect a run: a stream leaves the run in the state,
/// with the plan and with the scratch area, that the same stream without its
/// meta records leaves. So neither the presence nor the payload of a meta
/// record bears on what is materialized.
pub proof fn lemma_meta_records_do_not_matter(state: RunState, entries: Seq<StreamEntry>)
    ensures
        after_stream(state, entries) == after_stream(state, without_meta_records(entries)),
        after_stream(state, entries).plan() == after_stream(
            state,
            without_meta_records(entries),
        ).plan(),
        staged_after(state, entries) == staged_after(state, without_meta_records(entries)),
    decreases entries.len(),
{
    if entries.len() > 0 {
        let front = entries.drop_last();
        lemma_meta_records_do_not_matter(state, front);
        if kind_of(entries.last().path) != EntryKind::MetaRecord {
            let kept = without_meta_records(front).push(entries.last());
            assert(kept.drop_last() =~= without_meta_records(front));
            assert(kept.last() == entries.last());
        }
    }
}

/// The path record and the content record of a group may arrive in either
/// order: the run ends in the same state.
pub proof fn lemma_record_order_is_immaterial(
    state: RunState,
    path_record: StreamEntry,
    content_record: StreamEntry,
    id: Seq<char>,
)
    requires
        path_record.is_path_record_of(id),
        content_record.is_content_record_of(id),
    ensures
        after_entry(after_entry(state, path_record), content_record) == after_entry(
            after_entry(state, content_record),
            path_record,
        ),
{
    let path = trimmed(path_record.text);
    let location = state.scratch_location(content_record.path);
    let present = ensured(state.groups, id);
    lemma_ensured(state.groups, id);
    lemma_position(present, id);
    let i = position(present, id)->0;

    let with_path = present.update(i, GroupView { relative_path: Some(path), ..present[i] });
    lemma_update_keeps_positions(
        present,
        i,
        GroupView { relative_path: Some(path), ..present[i] },
    );
    let with_location = present.update(
        i,
        GroupView { content_location: Some(location), ..present[i] },
    );
    lemma_update_keeps_positions(
        present,
        i,
        GroupView { content_location: Some(location), ..present[i] },
    );
    lemma_ensured(present, id);

    let first = after_entry(after_entry(state, path_record), content_record);
    let second = after_entry(after_entry(state, content_record), path_record);
    assert(after_entry(state, path_record).groups == with_path);
    assert(after_entry(state, content_record).groups == with_location);
    assert(first.groups =~= second.groups);
}

/// Exactly one of `jobs` is for the group `id`, and it is `job`.
pub open spec fn sole_job_of(jobs: Seq<CopyJobView>, id: Seq<char>, job: CopyJobView) -> bool {
    exists|j: int|
        {
            &&& 0 <= j < jobs.len()
            &&& #[trigger] jobs[j] == job
            &&& job.group_id == id
            &&& forall|k: int| 0 <= k < jobs.len() && (#[trigger] jobs[k]).group_id == id ==> k == j
        }
}

/// None of `jobs` is for the group `id`.
pub open spec fn no_job_of(jobs: Seq<CopyJobView>, id: Seq<char>) -> bool {
    forall|k: int| 0 <= k < jobs.len() ==> (#[trigger] jobs[k]).group_id != id
}

/// The plan holds exactly one job for each complete group, the job that
/// copies the group's content to the group's destination, and no job for any
/// other identifier.
pub proof fn lemma_plan_by_group(base: Seq<char>, groups: Seq<GroupView>, id: Seq<char>)
    requires
        distinct_ids(groups),
    ensures
        match lookup(groups, id) {
            Some(g) => if g.is_complete() {
                sole_job_of(planned(base, groups), id, job_for(base, g))
            } else {
                no_job_of(planned(base, groups), id)
            },
            None => no_job_of(planned(base, groups), id),
        },
    decreases groups.len(),
{
    if groups.len() > 0 {
        let n = groups.len() - 1;
        let front = groups.drop_last();
        let last = groups.last();
        let before = planned(base, front);
        assert(distinct_ids(front)) by {
            assert forall|i: int, j: int|
                0 <= i < front.len() && 0 <= j < front.len() && i != j implies ids(front)[i]
                != ids(front)[j] by {
                assert(ids(groups)[i] != ids(groups)[j]);
            }
        }
        lemma_plan_by_group(base, front, id);
        lemma_position(groups, id);
        lemma_position(front, id);
        if last.group_id == id {
            assert(position(front, id) is None) by {
                if position(front, id) is Some {
                    let i = position(front, id)->0;
                    assert(ids(groups)[i] == id);
                    assert(ids(groups)[n] == id);
                }
            }
            assert forall|j: int| 0 <= j < n implies (#[trigger] groups[j]).group_id != id by {
                assert(front[j].group_id != id);
            }
            lemma_position_is(groups, id, n);
            if last.is_complete() {
                let jobs = planned(base, groups);
                assert(jobs[before.len() as int] == job_for(base, last));
                assert forall|k: int| 0 <= k < jobs.len() && (#[trigger] jobs[k]).group_id
                    == id implies k == before.len() by {
                    if k < before.len() {
                        assert(before[k].group_id != id);
                    }
                }
            }
        } else {
            match position(front, id) {
                Some(i) => {
                    assert(groups[i] == front[i]);
                    assert forall|j: int| 0 <= j < i implies (#[trigger] groups[j]).group_id
                        != id by {
                        assert(front[j].group_id != id);
                    }
                    lemma_position_is(groups, id, i);
                },
                None => {
                    assert forall|j: int| 0 <= j < groups.len() implies
                        (#[trigger] groups[j]).group_id != id by {
                        if j < n {
                            assert(front[j].group_id != id);
                        }
                    }
                    lemma_position_is_none(groups, id);
                },
            }
            let jobs = planned(base, groups);
            match lookup(front, id) {
                Some(g) => {
                    if g.is_complete() {
                        let j = choose|j: int|
                            {
                                &&& 0 <= j < before.len()
                                &&& #[trigger] before[j] == job_for(base, g)
                                &&& job_for(base, g).group_id == id
                                &&& forall|k: int|
                                    0 <= k < before.len() && (#[trigger] before[k]).group_id == id
                                        ==> k == j
                            };
                        assert(jobs[j] == job_for(base, g));
                        assert forall|k: int| 0 <= k < jobs.len() && (#[trigger] jobs[k]).group_id
                            == id implies k == j by {
                            if k < before.len() {
                                assert(before[k].group_id == id);
                            }
                        }
                    } else {
                        assert forall|k: int| 0 <= k < jobs.len() implies
                            (#[trigger] jobs[k]).group_id != id by {
                            if k < before.len() {
                                assert(before[k].group_id != id);
                            }
                        }
                    }
                },
                None => {
                    assert forall|k: int| 0 <= k < jobs.len() implies (#[trigger] jobs[k]).group_id
                        != id by {
                        if k < before.len() {
                            assert(before[k].group_id != id);
                        }
                    }
                },
            }
        }
    } else {
        lemma_position(groups, id);
    }
}

/// A group that has both a path record and a content record in the stream is
/// materialized exactly once. Its content is copied from where its last
/// content record was staged to the base directory joined with the relative
/// path that its last path record gave, less one leading asset root. The
/// order in which the two records arrived plays no part.
pub proof fn lemma_complete_group_is_materialized(
    name: Seq<char>,
    entries: Seq<StreamEntry>,
    id: Seq<char>,
)
    requires
        exists|i: int| 0 <= i < entries.len() && (#[trigger] entries[i]).is_path_record_of(id),
        exists|i: int| 0 <= i < entries.len() && (#[trigger] entries[i]).is_content_record_of(id),
    ensures
        last_relative_path(entries, id) is Some,
        last_content_location(RunState::initial(name), entries, id) is Some,
        ({
            let start = RunState::initial(name);
            let destination = destination_of(
                start.base_dir,
                last_relative_path(entries, id)->0,
            );
            sole_job_of(
                after_stream(start, entries).plan(),
                id,
                CopyJobView {
                    group_id: id,
                    source: last_content_location(start, entries, id)->0,
                    destination,
                    parent: parent_of(destination),
                },
            )
        }),
{
    let start = RunState::initial(name);
    lemma_last_relative_path(entries, id);
    lemma_last_content_location(start, entries, id);
    let i = choose|i: int| 0 <= i < entries.len() && (#[trigger] entries[i]).is_path_record_of(id);
    assert(entries[i].counts_for(id));
    lemma_groups_reflect_the_stream(start, entries, id);
    lemma_plan_by_group(start.base_dir, after_stream(start, entries).groups, id);
}

/// A group that lacks a path record or a content record in the stream is not
/// materialized: the plan holds no job for it. Nothing else comes of it; the
/// plan is made all the same.
pub proof fn lemma_incomplete_group_is_skipped(
    name: Seq<char>,
    entries: Seq<StreamEntry>,
    id: Seq<char>,
)
    requires
        (forall|i: int| 0 <= i < entries.len() ==> !(#[trigger] entries[i]).is_path_record_of(id))
            || (forall|i: int|
            0 <= i < entries.len() ==> !(#[trigger] entries[i]).is_content_record_of(id)),
    ensures
        no_job_of(after_stream(RunState::initial(name), entries).plan(), id),
{
    let start = RunState::initial(name);
    lemma_last_relative_path(entries, id);
    lemma_last_content_location(start, entries, id);
    lemma_groups_reflect_the_stream(start, entries, id);
    lemma_plan_by_group(start.base_dir, after_stream(start, entries).groups, id);
}

/// A group that has both a path record and a content record in the stream
/// ends up as a file at its destination that holds, byte for byte, the payload
/// of its last content record. This is so where the caller followed every
/// directive and carried out the plan, and where no other group was given the
/// same destination.
pub proof fn lemma_materialized_file_holds_the_payload(
    name: Seq<char>,
    entries: Seq<StreamEntry>,
    id: Seq<char>,
    tree: Map<Seq<char>, Seq<u8>>,
)
    requires
        exists|i: int| 0 <= i < entries.len() && (#[trigger] entries[i]).is_path_record_of(id),
        exists|i: int| 0 <= i < entries.len() && (#[trigger] entries[i]).is_content_record_of(id),
        ({
            let start = RunState::initial(name);
            let plan = after_stream(start, entries).plan();
            let destination = destination_of(start.base_dir, last_relative_path(entries, id)->0);
            forall|k: int|
                0 <= k < plan.len() && (#[trigger] plan[k]).destination == destination
                    ==> plan[k].group_id == id
        }),
    ensures
        last_content_payload(entries, id) is Some,
        ({
            let start = RunState::initial(name);
            let plan = after_stream(start, entries).plan();
            let destination = destination_of(start.base_dir, last_relative_path(entries, id)->0);
            let restored = after_copies(tree, staged_after(start, entries), plan);
            &&& restored.contains_key(destination)
            &&& restored[destination] == last_content_payload(entries, id)->0
        }),
{
    let start = RunState::initial(name);
    let plan = after_stream(start, entries).plan();
    let destination = destination_of(start.base_dir, last_relative_path(entries, id)->0);
    let staged = staged_after(start, entries);
    lemma_complete_group_is_materialized(name, entries, id);
    lemma_staged_content(start, entries, id);
    let job = CopyJobView {
        group_id: id,
        source: last_content_location(start, entries, id)->0,
        destination,
        parent: parent_of(destination),
    };
    let j = choose|j: int|
        {
            &&& 0 <= j < plan.len()
            &&& #[trigger] plan[j] == job
            &&& job.group_id == id
            &&& forall|k: int| 0 <= k < plan.len() && (#[trigger] plan[k]).group_id == id ==> k == j
        };
    lemma_last_source_for(plan, destination);
    assert(plan[j].destination == destination);
    assert(last_source_for(plan, destination) == Some(job.source));
    lemma_copies_at(tree, staged, plan, destination);
}

/// Restoring a package twice into a directory that was empty at first leaves
/// the tree that restoring it once leaves: the second run plans the same jobs
/// from the same stream, and they write the same files again.
pub proof fn lemma_restoring_twice_is_restoring_once(
    name: Seq<char>,
    entries: Seq<StreamEntry>,
    staged: Map<Seq<char>, Seq<u8>>,
)
    ensures
        ({
            let plan = after_stream(RunState::initial(name), entries).plan();
            let once = after_copies(Map::empty(), staged, plan);
            after_copies(once, staged, plan) == once
        }),
{
    let plan = after_stream(RunState::initial(name), entries).plan();
    lemma_copying_twice_is_copying_once(Map::empty(), staged, plan);
}

} // verus!
