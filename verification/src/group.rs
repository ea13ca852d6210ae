//! Asset groups and the table that holds them, keyed by group identifier.

use vstd::prelude::*;

verus! {

/// What is known of one logical asset: the records seen so far under its
/// group identifier.
#[derive(Debug, PartialEq, Eq)]
pub struct AssetGroup {
    /// The identifier shared by the group's records.
    pub group_id: String,
    /// The project-relative destination, once a path record was read.
    pub relative_path: Option<String>,
    /// Where the content was staged, once a content record was seen.
    pub content_location: Option<String>,
}

/// The mathematical value of an [`AssetGroup`].
pub struct GroupView {
    pub group_id: Seq<char>,
    pub relative_path: Option<Seq<char>>,
    pub content_location: Option<Seq<char>>,
}

impl GroupView {
    /// The group `id` before any of its records was seen.
    pub open spec fn fresh(id: Seq<char>) -> GroupView {
        GroupView { group_id: id, relative_path: None, content_location: None }
    }

    /// A group is complete exactly when both its path and its content are known.
    pub open spec fn is_complete(self) -> bool {
        self.relative_path is Some && self.content_location is Some
    }
}

impl View for AssetGroup {
    type V = GroupView;

    open spec fn view(&self) -> GroupView {
        GroupView {
            group_id: self.group_id@,
            relative_path: match self.relative_path {
                Some(path) => Some(path@),
                None => None,
            },
            content_location: match self.content_location {
                Some(location) => Some(location@),
                None => None,
            },
        }
    }
}

impl AssetGroup {
    /// Whether both the path and the content of this group are known.
    pub fn is_complete(&self) -> (b: bool)
        ensures
            b == self@.is_complete(),
    {
        self.relative_path.is_some() && self.content_location.is_some()
    }
}

/// The identifiers of `groups`, in order.
pub open spec fn ids(groups: Seq<GroupView>) -> Seq<Seq<char>> {
    groups.map_values(|g: GroupView| g.group_id)
}

/// No identifier occurs twice in `groups`.
pub open spec fn distinct_ids(groups: Seq<GroupView>) -> bool {
    ids(groups).no_duplicates()
}

/// Where the group `id` stands in `groups`, if it is there.
pub open spec fn position(groups: Seq<GroupView>, id: Seq<char>) -> Option<int> {
    ids(groups).index_of_first(id)
}

/// The group `id` of `groups`, if it is there.
pub open spec fn lookup(groups: Seq<GroupView>, id: Seq<char>) -> Option<GroupView> {
    match position(groups, id) {
        Some(i) => Some(groups[i]),
        None => None,
    }
}

/// `groups` with the group `id` looked up or created: a group that is missing
/// is added at the end, fresh.
pub open spec fn ensured(groups: Seq<GroupView>, id: Seq<char>) -> Seq<GroupView> {
    if position(groups, id) is Some {
        groups
    } else {
        groups.push(GroupView::fresh(id))
    }
}

/// `groups` after the relative path of the group `id` was set to `path`.
pub open spec fn with_relative_path(
    groups: Seq<GroupView>,
    id: Seq<char>,
    path: Seq<char>,
) -> Seq<GroupView> {
    let present = ensured(groups, id);
    let i = position(present, id)->0;
    present.update(i, GroupView { relative_path: Some(path), ..present[i] })
}

/// `groups` after the content location of the group `id` was set to `location`.
pub open spec fn with_content_location(
    groups: Seq<GroupView>,
    id: Seq<char>,
    location: Seq<char>,
) -> Seq<GroupView> {
    let present = ensured(groups, id);
    let i = position(present, id)->0;
    present.update(i, GroupView { content_location: Some(location), ..present[i] })
}

/// `position` finds the first group with the identifier, and finds none only
/// where no group has it.
pub proof fn lemma_position(groups: Seq<GroupView>, id: Seq<char>)
    ensures
        match position(groups, id) {
            Some(i) => {
                &&& 0 <= i < groups.len()
                &&& groups[i].group_id == id
                &&& forall|j: int| 0 <= j < i ==> (#[trigger] groups[j]).group_id != id
            },
            None => forall|j: int| 0 <= j < groups.len() ==> (#[trigger] groups[j]).group_id != id,
        },
{
    let names = ids(groups);
    names.index_of_first_ensures(id);
    match position(groups, id) {
        Some(i) => {
            assert(names[i] == groups[i].group_id);
            assert forall|j: int| 0 <= j < i implies (#[trigger] groups[j]).group_id != id by {
                assert(names[j] == groups[j].group_id);
            }
        },
        None => {
            assert forall|j: int| 0 <= j < groups.len() implies (#[trigger] groups[j]).group_id
                != id by {
                assert(names[j] == groups[j].group_id);
            }
        },
    }
}

/// A group with the identifier at `i`, and none before it, is where
/// `position` points.
pub proof fn lemma_position_is(groups: Seq<GroupView>, id: Seq<char>, i: int)
    requires
        0 <= i < groups.len(),
        groups[i].group_id == id,
        forall|j: int| 0 <= j < i ==> (#[trigger] groups[j]).group_id != id,
    ensures
        position(groups, id) == Some(i),
{
    lemma_position(groups, id);
}

/// Among distinct identifiers, a group with the identifier is where
/// `position` points, wherever it stands.
pub proof fn lemma_sole_position(groups: Seq<GroupView>, id: Seq<char>, i: int)
    requires
        distinct_ids(groups),
        0 <= i < groups.len(),
        groups[i].group_id == id,
    ensures
        position(groups, id) == Some(i),
{
    assert forall|j: int| 0 <= j < i implies (#[trigger] groups[j]).group_id != id by {
        assert(ids(groups)[j] != ids(groups)[i]);
    }
    lemma_position_is(groups, id, i);
}

/// No group has the identifier: `position` finds none.
pub proof fn lemma_position_is_none(groups: Seq<GroupView>, id: Seq<char>)
    requires
        forall|j: int| 0 <= j < groups.len() ==> (#[trigger] groups[j]).group_id != id,
    ensures
        position(groups, id) is None,
{
    lemma_position(groups, id);
}

/// Looking a group up or creating it keeps every group that was there, in
/// place, keeps identifiers distinct, and leaves the group present.
pub proof fn lemma_ensured(groups: Seq<GroupView>, id: Seq<char>)
    ensures
        groups.is_prefix_of(ensured(groups, id)),
        position(ensured(groups, id), id) is Some,
        position(groups, id) is Some ==> position(ensured(groups, id), id) == position(groups, id),
        position(groups, id) is None ==> position(ensured(groups, id), id) == Some(
            groups.len() as int,
        ),
        lookup(ensured(groups, id), id) == Some(
            match lookup(groups, id) {
                Some(g) => g,
                None => GroupView::fresh(id),
            },
        ),
        forall|other: Seq<char>|
            other != id ==> lookup(ensured(groups, id), other) == lookup(groups, other),
        distinct_ids(groups) ==> distinct_ids(ensured(groups, id)),
{
    let after = ensured(groups, id);
    lemma_position(groups, id);
    if position(groups, id) is None {
        lemma_position_is(after, id, groups.len() as int);
        assert forall|other: Seq<char>| other != id implies lookup(after, other) == lookup(
            groups,
            other,
        ) by {
            lemma_position(groups, other);
            match position(groups, other) {
                Some(i) => {
                    lemma_position_is(after, other, i);
                },
                None => {
                    lemma_position_is_none(after, other);
                },
            }
        }
        if distinct_ids(groups) {
            assert forall|i: int, j: int|
                0 <= i < after.len() && 0 <= j < after.len() && i != j implies ids(after)[i]
                != ids(after)[j] by {
                if i < groups.len() && j < groups.len() {
                    assert(ids(groups)[i] != ids(groups)[j]);
                }
            }
        }
    }
}

/// Changing the fields of one group, and not its identifier, moves no group.
pub proof fn lemma_update_keeps_positions(groups: Seq<GroupView>, i: int, g: GroupView)
    requires
        0 <= i < groups.len(),
        g.group_id == groups[i].group_id,
    ensures
        ids(groups.update(i, g)) == ids(groups),
        forall|id: Seq<char>| position(groups.update(i, g), id) == position(groups, id),
        distinct_ids(groups) ==> distinct_ids(groups.update(i, g)),
{
    assert(ids(groups.update(i, g)) =~= ids(groups));
}

/// The group `id` as `groups` holds it, or fresh where `groups` does not.
pub open spec fn found_or_fresh(groups: Seq<GroupView>, id: Seq<char>) -> GroupView {
    match lookup(groups, id) {
        Some(g) => g,
        None => GroupView::fresh(id),
    }
}

/// A group that is found carries the identifier it was looked up by.
pub proof fn lemma_lookup_id(groups: Seq<GroupView>, id: Seq<char>)
    ensures
        found_or_fresh(groups, id).group_id == id,
{
    lemma_position(groups, id);
}

/// Setting the relative path of a group changes that field of that group and
/// nothing else: every other group reads as before, and identifiers stay
/// distinct.
pub proof fn lemma_with_relative_path(groups: Seq<GroupView>, id: Seq<char>, path: Seq<char>)
    ensures
        lookup(with_relative_path(groups, id, path), id) == Some(
            GroupView { relative_path: Some(path), ..found_or_fresh(groups, id) },
        ),
        forall|other: Seq<char>|
            other != id ==> lookup(with_relative_path(groups, id, path), other) == lookup(
                groups,
                other,
            ),
        ids(with_relative_path(groups, id, path)) == ids(ensured(groups, id)),
        distinct_ids(groups) ==> distinct_ids(with_relative_path(groups, id, path)),
{
    let present = ensured(groups, id);
    lemma_ensured(groups, id);
    lemma_position(present, id);
    let i = position(present, id)->0;
    let g = GroupView { relative_path: Some(path), ..present[i] };
    lemma_update_keeps_positions(present, i, g);
    let after = present.update(i, g);
    assert forall|other: Seq<char>| other != id implies lookup(after, other) == lookup(
        groups,
        other,
    ) by {
        lemma_position(present, other);
    }
}

/// Setting the content location of a group changes that field of that group
/// and nothing else: every other group reads as before, and identifiers stay
/// distinct.
pub proof fn lemma_with_content_location(
    groups: Seq<GroupView>,
    id: Seq<char>,
    location: Seq<char>,
)
    ensures
        lookup(with_content_location(groups, id, location), id) == Some(
            GroupView { content_location: Some(location), ..found_or_fresh(groups, id) },
        ),
        forall|other: Seq<char>|
            other != id ==> lookup(with_content_location(groups, id, location), other) == lookup(
                groups,
                other,
            ),
        ids(with_content_location(groups, id, location)) == ids(ensured(groups, id)),
        distinct_ids(groups) ==> distinct_ids(with_content_location(groups, id, location)),
{
    let present = ensured(groups, id);
    lemma_ensured(groups, id);
    lemma_position(present, id);
    let i = position(present, id)->0;
    let g = GroupView { content_location: Some(location), ..present[i] };
    lemma_update_keeps_positions(present, i, g);
    let after = present.update(i, g);
    assert forall|other: Seq<char>| other != id implies lookup(after, other) == lookup(
        groups,
        other,
    ) by {
        lemma_position(present, other);
    }
}

/// The groups of one restoration run, in the order in which they were first
/// seen. No identifier occurs twice.
#[derive(Debug)]
pub struct GroupTable {
    groups: Vec<AssetGroup>,
}

impl View for GroupTable {
    type V = Seq<GroupView>;

    closed spec fn view(&self) -> Seq<GroupView> {
        self.groups@.map_values(|g: AssetGroup| g@)
    }
}

impl GroupTable {
    /// No identifier occurs twice.
    #[verifier::type_invariant]
    pub open spec fn well_formed(self) -> bool {
        distinct_ids(self@)
    }

    /// An empty table.
    pub fn new() -> (table: GroupTable)
        ensures
            table@ == Seq::<GroupView>::empty(),
    {
        let table = GroupTable { groups: Vec::new() };
        assert(table@ =~= Seq::<GroupView>::empty());
        assert(ids(table@) =~= Seq::<Seq<char>>::empty());
        table
    }

    /// The groups, in the order in which they were first seen.
    pub fn groups(&self) -> (groups: &Vec<AssetGroup>)
        ensures
            groups@.map_values(|g: AssetGroup| g@) == self@,
            distinct_ids(self@),
    {
        proof {
            use_type_invariant(self);
        }
        &self.groups
    }

    /// Where the group `id` stands, if it is in the table. The search starts
    /// with the group that was added last: the records of one group mostly
    /// follow one another in an archive.
    pub fn find(&self, id: &String) -> (r: Option<usize>)
        ensures
            match r {
                Some(i) => position(self@, id@) == Some(i as int),
                None => position(self@, id@) is None,
            },
            distinct_ids(self@),
    {
        proof {
            use_type_invariant(self);
        }
        let mut i: usize = self.groups.len();
        while i > 0
            invariant
                i <= self.groups.len(),
                distinct_ids(self@),
                forall|j: int| i <= j < self@.len() ==> (#[trigger] self@[j]).group_id != id@,
            decreases i,
        {
            i -= 1;
            if self.groups[i].group_id == *id {
                proof {
                    lemma_sole_position(self@, id@, i as int);
                }
                return Some(i);
            }
        }
        proof {
            lemma_position_is_none(self@, id@);
        }
        None
    }

    /// Looks the group `id` up or creates it, and says where it stands.
    pub fn ensure(&mut self, id: String) -> (i: usize)
        ensures
            final(self)@ == ensured(old(self)@, id@),
            position(final(self)@, id@) == Some(i as int),
            distinct_ids(final(self)@),
    {
        proof {
            use_type_invariant(&*self);
            lemma_ensured(self@, id@);
        }
        match self.find(&id) {
            Some(i) => i,
            None => {
                let mut groups = self.take_groups();
                let i: usize = groups.len();
                groups.push(
                    AssetGroup { group_id: id, relative_path: None, content_location: None },
                );
                assert(groups@.map_values(|g: AssetGroup| g@) =~= old(self)@.push(
                    GroupView::fresh(id@),
                ));
                self.groups = groups;
                i
            },
        }
    }

    /// Sets the relative path of the group `id`, which is created if missing.
    pub fn set_relative_path(&mut self, id: String, path: String)
        ensures
            final(self)@ == with_relative_path(old(self)@, id@, path@),
            distinct_ids(final(self)@),
    {
        let ghost id_view = id@;
        let i = self.ensure(id);
        proof {
            lemma_position(self@, id_view);
        }
        let mut groups = self.take_groups();
        let ghost present = groups@.map_values(|g: AssetGroup| g@);
        groups[i].relative_path = Some(path);
        proof {
            let g = GroupView { relative_path: Some(path@), ..present[i as int] };
            assert(groups@.map_values(|g: AssetGroup| g@) =~= present.update(i as int, g));
            lemma_update_keeps_positions(present, i as int, g);
        }
        self.groups = groups;
    }

    /// Sets the content location of the group `id`, which is created if missing.
    pub fn set_content_location(&mut self, id: String, location: String)
        ensures
            final(self)@ == with_content_location(old(self)@, id@, location@),
            distinct_ids(final(self)@),
    {
        let ghost id_view = id@;
        let i = self.ensure(id);
        proof {
            lemma_position(self@, id_view);
        }
        let mut groups = self.take_groups();
        let ghost present = groups@.map_values(|g: AssetGroup| g@);
        groups[i].content_location = Some(location);
        proof {
            let g = GroupView { content_location: Some(location@), ..present[i as int] };
            assert(groups@.map_values(|g: AssetGroup| g@) =~= present.update(i as int, g));
            lemma_update_keeps_positions(present, i as int, g);
        }
        self.groups = groups;
    }

    /// Moves the groups out, leaving the table empty until they are put back.
    fn take_groups(&mut self) -> (groups: Vec<AssetGroup>)
        ensures
            groups@.map_values(|g: AssetGroup| g@) == old(self)@,
            distinct_ids(old(self)@),
            final(self)@ == Seq::<GroupView>::empty(),
    {
        proof {
            use_type_invariant(&*self);
        }
        let mut groups: Vec<AssetGroup> = Vec::new();
        assert(ids(groups@.map_values(|g: AssetGroup| g@)) =~= Seq::<Seq<char>>::empty());
        std::mem::swap(&mut self.groups, &mut groups);
        assert(self@ =~= Seq::<GroupView>::empty());
        groups
    }
}

} // verus!
