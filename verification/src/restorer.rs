//! One restoration run, as a state machine. The caller walks the archive and
//! owns the file system; the run decides what each entry means, where it is
//! staged, and which files are copied where once the archive is read.

use crate::entry::{classify, group_of, kind_of, EntryKind};
use crate::group::{
    distinct_ids, ensured, with_content_location, with_relative_path, AssetGroup, GroupTable,
    GroupView,
};
use crate::paths::{
    base_dir_name, base_dir_of, destination, destination_of, is_package_name, join, joined,
    parent, parent_of, scratch_dir_name, scratch_dir_of,
};
use crate::text::{trim, trimmed};
use vstd::prelude::*;

verus! {

/// The source does not carry the package suffix. Nothing is to be done for it.
#[derive(Clone, Copy, Debug, PartialEq, Eq)]
pub struct InvalidPackage;

impl InvalidPackage {
    /// The diagnostic for this condition.
    pub fn message(&self) -> (text: String)
        ensures
            text@ == "Invalid package"@,
    {
        "Invalid package".to_owned()
    }
}

/// What the caller does with the entry it has just shown to the run.
#[derive(Debug, PartialEq, Eq)]
pub enum Directive {
    /// Nothing: go on to the next entry.
    Skip,
    /// Create the directory `parent` and all above it, then unpack the entry's
    /// payload to `location`.
    Stage { location: String, parent: String },
    /// As `Stage`; then read the file at `location` as text and hand the text
    /// to [`Restorer::record_path_text`], with the entry's path.
    StageAndRead { location: String, parent: String },
}

/// The mathematical value of a [`Directive`].
pub enum DirectiveView {
    Skip,
    Stage { location: Seq<char>, parent: Seq<char> },
    StageAndRead { location: Seq<char>, parent: Seq<char> },
}

impl View for Directive {
    type V = DirectiveView;

    open spec fn view(&self) -> DirectiveView {
        match self {
            Directive::Skip => DirectiveView::Skip,
            Directive::Stage { location, parent } => DirectiveView::Stage {
                location: location@,
                parent: parent@,
            },
            Directive::StageAndRead { location, parent } => DirectiveView::StageAndRead {
                location: location@,
                parent: parent@,
            },
        }
    }
}

/// One file of the restored tree: the staged content at `source` is copied to
/// `destination`, after the directory `parent` and all above it were created.
#[derive(Debug, PartialEq, Eq)]
pub struct CopyJob {
    /// The group that the asset came from.
    pub group_id: String,
    /// The scratch location of the asset's content.
    pub source: String,
    /// Where the asset goes in the output tree.
    pub destination: String,
    /// The directory that holds `destination`.
    pub parent: String,
}

/// The mathematical value of a [`CopyJob`].
pub struct CopyJobView {
    pub group_id: Seq<char>,
    pub source: Seq<char>,
    pub destination: Seq<char>,
    pub parent: Seq<char>,
}

impl View for CopyJob {
    type V = CopyJobView;

    open spec fn view(&self) -> CopyJobView {
        CopyJobView {
            group_id: self.group_id@,
            source: self.source@,
            destination: self.destination@,
            parent: self.parent@,
        }
    }
}

/// The copy job that materializes the complete group `g` under `base`.
pub open spec fn job_for(base: Seq<char>, g: GroupView) -> CopyJobView
    recommends
        g.is_complete(),
{
    let destination = destination_of(base, g.relative_path->0);
    CopyJobView {
        group_id: g.group_id,
        source: g.content_location->0,
        destination,
        parent: parent_of(destination),
    }
}

/// The copy jobs for `groups` under `base`: one for each complete group, in
/// the order of the groups. Incomplete groups contribute nothing.
pub open spec fn planned(base: Seq<char>, groups: Seq<GroupView>) -> Seq<CopyJobView>
    decreases groups.len(),
{
    if groups.len() == 0 {
        Seq::empty()
    } else {
        let before = planned(base, groups.drop_last());
        if groups.last().is_complete() {
            before.push(job_for(base, groups.last()))
        } else {
            before
        }
    }
}

/// The state of a restoration run: where it restores to, and what it has
/// learnt of each group so far.
pub struct RunState {
    pub base_dir: Seq<char>,
    pub groups: Seq<GroupView>,
}

impl RunState {
    /// The state in which the run for the package `name` starts.
    pub open spec fn initial(name: Seq<char>) -> RunState
        recommends
            is_package_name(name),
    {
        RunState { base_dir: base_dir_of(name), groups: Seq::empty() }
    }

    /// The scratch directory of the run.
    pub open spec fn scratch_dir(self) -> Seq<char> {
        scratch_dir_of(self.base_dir)
    }

    /// Where the entry stored at `path` in the archive is staged: the scratch
    /// directory mirrors the archive's own paths.
    pub open spec fn scratch_location(self, path: Seq<char>) -> Seq<char> {
        joined(self.scratch_dir(), path)
    }

    /// What the caller is to do with the entry stored at `path`.
    pub open spec fn directive(self, path: Seq<char>) -> DirectiveView {
        let location = self.scratch_location(path);
        match kind_of(path) {
            EntryKind::PathRecord => DirectiveView::StageAndRead {
                location,
                parent: parent_of(location),
            },
            EntryKind::ContentRecord => DirectiveView::Stage {
                location,
                parent: parent_of(location),
            },
            EntryKind::MetaRecord => DirectiveView::Skip,
            EntryKind::Other => DirectiveView::Skip,
        }
    }

    /// The state after the entry stored at `path` was seen. A meta record
    /// changes nothing. Any other entry has its group looked up or created,
    /// and a content record stores its scratch location in the group.
    pub open spec fn observe(self, path: Seq<char>) -> RunState {
        match kind_of(path) {
            EntryKind::MetaRecord => self,
            EntryKind::ContentRecord => RunState {
                groups: with_content_location(
                    self.groups,
                    group_of(path),
                    self.scratch_location(path),
                ),
                ..self
            },
            EntryKind::PathRecord => RunState {
                groups: ensured(self.groups, group_of(path)),
                ..self
            },
            EntryKind::Other => RunState { groups: ensured(self.groups, group_of(path)), ..self },
        }
    }

    /// The state after `text` was read back from the staged path record that
    /// is stored at `path`: its group holds the trimmed text as relative path.
    /// For an entry that is no path record nothing changes.
    pub open spec fn record_path_text(self, path: Seq<char>, text: Seq<char>) -> RunState {
        if kind_of(path) == EntryKind::PathRecord {
            RunState {
                groups: with_relative_path(self.groups, group_of(path), trimmed(text)),
                ..self
            }
        } else {
            self
        }
    }

    /// The copy jobs of the materialization pass.
    pub open spec fn plan(self) -> Seq<CopyJobView> {
        planned(self.base_dir, self.groups)
    }
}

/// A restoration run.
#[derive(Debug)]
pub struct Restorer {
    base_dir: String,
    table: GroupTable,
}

impl View for Restorer {
    type V = RunState;

    closed spec fn view(&self) -> RunState {
        RunState { base_dir: self.base_dir@, groups: self.table@ }
    }
}

impl Restorer {
    /// Starts the run for the package named `source_name`. A name without the
    /// package suffix is refused.
    pub fn begin(source_name: &str) -> (r: Result<Restorer, InvalidPackage>)
        ensures
            r is Ok <==> is_package_name(source_name@),
            r matches Ok(run) ==> run@ == RunState::initial(source_name@),
    {
        match base_dir_name(source_name) {
            Some(base_dir) => Ok(Restorer { base_dir, table: GroupTable::new() }),
            None => Err(InvalidPackage),
        }
    }

    /// The base output directory.
    pub fn base_dir(&self) -> (dir: &str)
        ensures
            dir@ == self@.base_dir,
    {
        self.base_dir.as_str()
    }

    /// The scratch directory.
    pub fn scratch_dir(&self) -> (dir: String)
        ensures
            dir@ == self@.scratch_dir(),
    {
        scratch_dir_name(self.base_dir.as_str())
    }

    /// The groups seen so far, in the order in which they were first seen.
    pub fn groups(&self) -> (groups: &Vec<AssetGroup>)
        ensures
            groups@.map_values(|g: AssetGroup| g@) == self@.groups,
            distinct_ids(self@.groups),
    {
        self.table.groups()
    }

    /// Takes note of the entry stored at `entry_path` in the archive and says
    /// what is to be done with it.
    pub fn observe(&mut self, entry_path: &str) -> (directive: Directive)
        ensures
            final(self)@ == old(self)@.observe(entry_path@),
            directive@ == old(self)@.directive(entry_path@),
            distinct_ids(final(self)@.groups),
    {
        proof {
            use_type_invariant(&self.table);
        }
        let (group_id, kind) = classify(entry_path);
        match kind {
            EntryKind::MetaRecord => Directive::Skip,
            EntryKind::Other => {
                self.table.ensure(group_id);
                Directive::Skip
            },
            EntryKind::PathRecord => {
                self.table.ensure(group_id);
                let location = join(self.scratch_dir().as_str(), entry_path);
                let parent = parent(location.as_str());
                Directive::StageAndRead { location, parent }
            },
            EntryKind::ContentRecord => {
                let location = join(self.scratch_dir().as_str(), entry_path);
                let parent = parent(location.as_str());
                self.table.set_content_location(group_id, location.clone());
                Directive::Stage { location, parent }
            },
        }
    }

    /// Takes note of `text`, read back from the staged path record that is
    /// stored at `entry_path` in the archive.
    pub fn record_path_text(&mut self, entry_path: &str, text: &str)
        ensures
            final(self)@ == old(self)@.record_path_text(entry_path@, text@),
            distinct_ids(final(self)@.groups),
    {
        proof {
            use_type_invariant(&self.table);
        }
        let (group_id, kind) = classify(entry_path);
        if kind == EntryKind::PathRecord {
            self.table.set_relative_path(group_id, trim(text));
        }
    }

    /// The copy jobs of the materialization pass: one for each complete
    /// group, in the order in which the groups were first seen.
    pub fn plan(&self) -> (jobs: Vec<CopyJob>)
        ensures
            jobs@.map_values(|j: CopyJob| j@) == self@.plan(),
            distinct_ids(self@.groups),
    {
        let groups = self.table.groups();
        let mut jobs: Vec<CopyJob> = Vec::new();
        let mut i: usize = 0;
        while i < groups.len()
            invariant
                i <= groups.len(),
                groups@.map_values(|g: AssetGroup| g@) == self@.groups,
                jobs@.map_values(|j: CopyJob| j@) == planned(
                    self@.base_dir,
                    self@.groups.take(i as int),
                ),
            decreases groups.len() - i,
        {
            let group = &groups[i];
            let ghost seen = self@.groups.take(i + 1);
            assert(seen.drop_last() =~= self@.groups.take(i as int));
            assert(seen.last() == group@);
            match (&group.relative_path, &group.content_location) {
                (Some(relative_path), Some(source)) => {
                    let target = destination(self.base_dir.as_str(), relative_path.as_str());
                    let parent = parent(target.as_str());
                    let ghost before = jobs@.map_values(|j: CopyJob| j@);
                    let job = CopyJob {
                        group_id: group.group_id.clone(),
                        source: source.clone(),
                        destination: target,
                        parent,
                    };
                    assert(job@ == job_for(self@.base_dir, group@));
                    jobs.push(job);
                    assert(jobs@.map_values(|j: CopyJob| j@) =~= before.push(
                        job_for(self@.base_dir, group@),
                    ));
                },
                _ => {},
            }
            i += 1;
        }
        assert(self@.groups.take(i as int) =~= self@.groups);
        jobs
    }
}

} // verus!
