//! File trees as maps from path to bytes: what the scratch area holds while
//! a run goes on, and what the output tree holds once a plan is carried out.

use crate::paths::lemma_joined_tells_paths_apart;
use crate::restorer::{CopyJobView, DirectiveView, RunState};
use crate::stream::{
    last_content_location, last_content_payload, lemma_last_content_location, StreamEntry,
};
use vstd::prelude::*;

verus! {

/// The tree after `job` was carried out: the file at the job's destination
/// holds what is staged at the job's source, whether or not a file was there
/// before. A tree maps the path of each file to the file's bytes, and so does
/// `staged`, the scratch area.
pub open spec fn after_copy(
    tree: Map<Seq<char>, Seq<u8>>,
    staged: Map<Seq<char>, Seq<u8>>,
    job: CopyJobView,
) -> Map<Seq<char>, Seq<u8>> {
    tree.insert(job.destination, staged[job.source])
}

/// The tree after `jobs` were carried out, first to last.
pub open spec fn after_copies(
    tree: Map<Seq<char>, Seq<u8>>,
    staged: Map<Seq<char>, Seq<u8>>,
    jobs: Seq<CopyJobView>,
) -> Map<Seq<char>, Seq<u8>>
    decreases jobs.len(),
{
    if jobs.len() == 0 {
        tree
    } else {
        after_copy(after_copies(tree, staged, jobs.drop_last()), staged, jobs.last())
    }
}

/// The source of the last of `jobs` that writes to `path`, if one does.
pub open spec fn last_source_for(jobs: Seq<CopyJobView>, path: Seq<char>) -> Option<Seq<char>>
    decreases jobs.len(),
{
    if jobs.len() == 0 {
        None
    } else if jobs.last().destination == path {
        Some(jobs.last().source)
    } else {
        last_source_for(jobs.drop_last(), path)
    }
}

/// After the jobs were carried out, a path that some job writes to holds what
/// the last such job copied, and every other path is as it was.
pub proof fn lemma_copies_at(
    tree: Map<Seq<char>, Seq<u8>>,
    staged: Map<Seq<char>, Seq<u8>>,
    jobs: Seq<CopyJobView>,
    path: Seq<char>,
)
    ensures
        match last_source_for(jobs, path) {
            Some(source) => {
                &&& after_copies(tree, staged, jobs).contains_key(path)
                &&& after_copies(tree, staged, jobs)[path] == staged[source]
            },
            None => {
                &&& after_copies(tree, staged, jobs).contains_key(path) == tree.contains_key(path)
                &&& after_copies(tree, staged, jobs)[path] == tree[path]
            },
        },
    decreases jobs.len(),
{
    if jobs.len() > 0 {
        lemma_copies_at(tree, staged, jobs.drop_last(), path);
    }
}

/// The source of the job that writes to a path last is the source of a job
/// that writes to the path and that no other such job follows; there is no
/// such source exactly where no job writes to the path.
pub proof fn lemma_last_source_for(jobs: Seq<CopyJobView>, path: Seq<char>)
    ensures
        match last_source_for(jobs, path) {
            Some(source) => exists|j: int|
                {
                    &&& 0 <= j < jobs.len()
                    &&& (#[trigger] jobs[j]).destination == path
                    &&& jobs[j].source == source
                },
            None => forall|j: int| 0 <= j < jobs.len() ==> (#[trigger] jobs[j]).destination != path,
        },
    decreases jobs.len(),
{
    if jobs.len() > 0 {
        let front = jobs.drop_last();
        let n = jobs.len() - 1;
        if jobs.last().destination == path {
            assert(jobs[n].destination == path);
        } else {
            lemma_last_source_for(front, path);
            match last_source_for(front, path) {
                Some(source) => {
                    let j = choose|j: int|
                        {
                            &&& 0 <= j < front.len()
                            &&& (#[trigger] front[j]).destination == path
                            &&& front[j].source == source
                        };
                    assert(jobs[j].destination == path);
                },
                None => {
                    assert forall|j: int| 0 <= j < jobs.len() implies
                        (#[trigger] jobs[j]).destination != path by {
                        if j < n {
                            assert(front[j].destination != path);
                        }
                    }
                },
            }
        }
    }
}

/// Carrying out the same jobs a second time, over what the first time left,
/// changes nothing.
pub proof fn lemma_copying_twice_is_copying_once(
    tree: Map<Seq<char>, Seq<u8>>,
    staged: Map<Seq<char>, Seq<u8>>,
    jobs: Seq<CopyJobView>,
)
    ensures
        after_copies(after_copies(tree, staged, jobs), staged, jobs) == after_copies(
            tree,
            staged,
            jobs,
        ),
{
    let once = after_copies(tree, staged, jobs);
    let twice = after_copies(once, staged, jobs);
    assert forall|path: Seq<char>| #[trigger]
        twice.dom().contains(path) == once.dom().contains(path) by {
        lemma_copies_at(tree, staged, jobs, path);
        lemma_copies_at(once, staged, jobs, path);
    }
    assert forall|path: Seq<char>| twice.dom().contains(path) implies #[trigger] twice[path]
        == once[path] by {
        lemma_copies_at(tree, staged, jobs, path);
        lemma_copies_at(once, staged, jobs, path);
    }
    assert(twice =~= once);
}

/// The scratch area after the caller did for `entry` what the run directs:
/// an entry that is staged has its payload at its scratch location, whatever
/// was there before; for any other entry the scratch area is untouched.
pub open spec fn staged_with(
    state: RunState,
    scratch: Map<Seq<char>, Seq<u8>>,
    entry: StreamEntry,
) -> Map<Seq<char>, Seq<u8>> {
    match state.directive(entry.path) {
        DirectiveView::Skip => scratch,
        DirectiveView::Stage { location, .. } => scratch.insert(location, entry.payload),
        DirectiveView::StageAndRead { location, .. } => scratch.insert(location, entry.payload),
    }
}

/// The scratch area after the caller followed the run's directives for
/// `entries`, first to last, from an empty scratch area. `state` is the state
/// in which the run started: where an entry is staged does not change while
/// the run goes on.
pub open spec fn staged_after(state: RunState, entries: Seq<StreamEntry>) -> Map<
    Seq<char>,
    Seq<u8>,
>
    decreases entries.len(),
{
    if entries.len() == 0 {
        Map::empty()
    } else {
        staged_with(state, staged_after(state, entries.drop_last()), entries.last())
    }
}

/// Where the caller followed every directive, the scratch location of the
/// last content record of a group holds that record's payload: no entry that
/// came later was staged over it.
pub proof fn lemma_staged_content(state: RunState, entries: Seq<StreamEntry>, id: Seq<char>)
    ensures
        last_content_location(state, entries, id) is Some <==> last_content_payload(entries, id)
            is Some,
        last_content_location(state, entries, id) matches Some(location) ==> {
            &&& staged_after(state, entries).contains_key(location)
            &&& staged_after(state, entries)[location] == last_content_payload(entries, id)->0
        },
    decreases entries.len(),
{
    if entries.len() > 0 {
        let front = entries.drop_last();
        let last = entries.last();
        lemma_staged_content(state, front, id);
        if !last.is_content_record_of(id) {
            if let Some(location) = last_content_location(state, front, id) {
                lemma_last_content_location(state, front, id);
                let i = choose|i: int|
                    {
                        &&& 0 <= i < front.len()
                        &&& (#[trigger] front[i]).is_content_record_of(id)
                        &&& location == state.scratch_location(front[i].path)
                        &&& forall|j: int|
                            i < j < front.len() ==> !(#[trigger] front[j]).is_content_record_of(id)
                    };
                if state.scratch_location(last.path) == location {
                    lemma_joined_tells_paths_apart(state.scratch_dir(), last.path, front[i].path);
                }
            }
        }
    }
}

} // verus!
