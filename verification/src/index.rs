//! The duplicate index: discovered records, grouped by fingerprint.

use vstd::prelude::*;
use crate::record::{FileIndex, FileIndexView, views};

verus! {

/// What a [`DuplicateGroup`] stands for in contracts.
pub struct GroupView {
    pub fingerprint: Seq<char>,
    pub members: Seq<FileIndexView>,
}

/// The records that share one fingerprint, in the order of their discovery.
pub struct DuplicateGroup {
    fingerprint: String,
    members: Vec<FileIndex>,
}

impl View for DuplicateGroup {
    type V = GroupView;

    closed spec fn view(&self) -> GroupView {
        GroupView { fingerprint: self.fingerprint@, members: views(self.members@) }
    }
}

/// Whether every member of a group carries the group's fingerprint.
pub open spec fn uniform(group: GroupView) -> bool {
    forall|i: int| 0 <= i < group.members.len() ==> (#[trigger] group.members[i]).hash
        == group.fingerprint
}

impl DuplicateGroup {
    /// Every member of a group carries the group's fingerprint.
    #[verifier::type_invariant]
    pub open spec fn well_formed(self) -> bool {
        uniform(self@)
    }

    /// A group of one: `first` alone, under its own fingerprint.
    pub fn new(first: FileIndex) -> (group: Self)
        ensures
            group@.fingerprint == first@.hash,
            group@.members == seq![first@],
    {
        let fingerprint = first.hash.clone();
        let mut members: Vec<FileIndex> = Vec::new();
        members.push(first);
        assert(views(members@) =~= seq![first@]);
        DuplicateGroup { fingerprint, members }
    }

    /// The fingerprint that the members share.
    pub fn fingerprint(&self) -> (fingerprint: &String)
        ensures
            fingerprint@ == self@.fingerprint,
            uniform(self@),
    {
        proof {
            use_type_invariant(self);
        }
        &self.fingerprint
    }

    /// How many members the group has.
    pub fn len(&self) -> (count: usize)
        ensures
            count == self@.members.len(),
    {
        self.members.len()
    }

    /// Whether the group is shown to the operator: it is when it holds two
    /// records or more.
    pub fn is_surfaced(&self) -> (shown: bool)
        ensures
            shown == (self@.members.len() > 1),
    {
        self.members.len() > 1
    }

    /// The member at `position`, if there is one.
    pub fn member(&self, position: usize) -> (found: Option<&FileIndex>)
        ensures
            match found {
                Some(record) => position < self@.members.len() && record@
                    == self@.members[position as int],
                None => position >= self@.members.len(),
            },
    {
        if position < self.members.len() {
            Some(&self.members[position])
        } else {
            None
        }
    }
}

/// The records among `records` whose fingerprint is `fingerprint`, in order.
pub open spec fn members_with(records: Seq<FileIndexView>, fingerprint: Seq<char>) -> Seq<
    FileIndexView,
> {
    records.filter(|r: FileIndexView| r.hash == fingerprint)
}

/// The fingerprints of `records`, each once, in the order in which they first
/// occur.
pub open spec fn first_seen(records: Seq<FileIndexView>) -> Seq<Seq<char>>
    decreases records.len(),
{
    if records.len() == 0 {
        Seq::empty()
    } else {
        let earlier = first_seen(records.drop_last());
        if earlier.contains(records.last().hash) {
            earlier
        } else {
            earlier.push(records.last().hash)
        }
    }
}

/// The grouping of `records`: one group for each fingerprint, in the order of
/// [`first_seen`], holding all the records with that fingerprint.
pub open spec fn grouped(records: Seq<FileIndexView>) -> Seq<GroupView> {
    first_seen(records).map_values(
        |fingerprint: Seq<char>|
            GroupView { fingerprint, members: members_with(records, fingerprint) },
    )
}

/// Whether no two groups have the same fingerprint.
pub open spec fn distinct(groups: Seq<GroupView>) -> bool {
    forall|i: int, j: int|
        0 <= i < j < groups.len() ==> (#[trigger] groups[i]).fingerprint != (
        #[trigger] groups[j]).fingerprint
}

/// Whether some group has the fingerprint `fingerprint`.
pub open spec fn has_group(groups: Seq<GroupView>, fingerprint: Seq<char>) -> bool {
    exists|i: int| 0 <= i < groups.len() && (#[trigger] groups[i]).fingerprint == fingerprint
}

/// The position of a group with the fingerprint `fingerprint`.
pub open spec fn position_of(groups: Seq<GroupView>, fingerprint: Seq<char>) -> int {
    choose|i: int| 0 <= i < groups.len() && (#[trigger] groups[i]).fingerprint == fingerprint
}

/// `group` with `record` as its new last member.
pub open spec fn joined(group: GroupView, record: FileIndexView) -> GroupView {
    GroupView { fingerprint: group.fingerprint, members: group.members.push(record) }
}

/// `groups` after `record` has arrived: it joins the group of its fingerprint
/// as the last member, or opens a new last group where there is none.
pub open spec fn with_record(groups: Seq<GroupView>, record: FileIndexView) -> Seq<GroupView> {
    if has_group(groups, record.hash) {
        let at = position_of(groups, record.hash);
        groups.update(at, joined(groups[at], record))
    } else {
        groups.push(GroupView { fingerprint: record.hash, members: seq![record] })
    }
}

impl DuplicateGroup {
    /// Adds `record` as the last member.
    fn push(&mut self, record: FileIndex)
        requires
            record@.hash == old(self)@.fingerprint,
        ensures
            final(self)@ == joined(old(self)@, record@),
    {
        proof {
            use_type_invariant(&*self);
        }
        let mut members: Vec<FileIndex> = Vec::new();
        core::mem::swap(&mut self.members, &mut members);
        let ghost before = members@;
        members.push(record);
        assert(views(members@) =~= views(before).push(record@));
        self.members = members;
    }
}

/// The index of a run: every discovered record, filed under its fingerprint.
pub struct Index {
    groups: Vec<DuplicateGroup>,
}

/// The views of a sequence of groups, in the same order.
pub open spec fn group_views(groups: Seq<DuplicateGroup>) -> Seq<GroupView> {
    groups.map_values(|g: DuplicateGroup| g@)
}

impl View for Index {
    type V = Seq<GroupView>;

    closed spec fn view(&self) -> Seq<GroupView> {
        group_views(self.groups@)
    }
}

impl Index {
    /// No two groups of an index have the same fingerprint.
    #[verifier::type_invariant]
    pub open spec fn well_formed(self) -> bool {
        distinct(self@)
    }

    /// An index without records.
    pub fn new() -> (index: Self)
        ensures
            index@ == Seq::<GroupView>::empty(),
    {
        let index = Index { groups: Vec::new() };
        assert(index@ =~= Seq::<GroupView>::empty());
        index
    }

    /// How many groups the index holds.
    pub fn len(&self) -> (count: usize)
        ensures
            count == self@.len(),
            distinct(self@),
    {
        proof {
            use_type_invariant(self);
        }
        self.groups.len()
    }

    /// The group at `position`, if there is one.
    pub fn group(&self, position: usize) -> (found: Option<&DuplicateGroup>)
        ensures
            match found {
                Some(group) => position < self@.len() && group@ == self@[position as int],
                None => position >= self@.len(),
            },
    {
        if position < self.groups.len() {
            Some(&self.groups[position])
        } else {
            None
        }
    }

    /// Where the group with the fingerprint `fingerprint` stands, if there is
    /// one.
    pub fn find(&self, fingerprint: &String) -> (found: Option<usize>)
        ensures
            match found {
                Some(at) => at < self@.len() && self@[at as int].fingerprint == fingerprint@
                    && at == position_of(self@, fingerprint@),
                None => !has_group(self@, fingerprint@),
            },
    {
        proof {
            use_type_invariant(self);
        }
        let mut i: usize = 0;
        while i < self.groups.len()
            invariant
                i <= self.groups@.len(),
                distinct(self@),
                forall|j: int| 0 <= j < i ==> (#[trigger] self@[j]).fingerprint != fingerprint@,
            decreases self.groups@.len() - i,
        {
            assert(self@[i as int] == self.groups@[i as int]@);
            if *self.groups[i].fingerprint() == *fingerprint {
                return Some(i);
            }
            i = i + 1;
        }
        None
    }

    /// Files `record` under its fingerprint: as the last member of the group
    /// that has it, or in a new last group.
    pub fn insert(&mut self, record: FileIndex)
        ensures
            final(self)@ == with_record(old(self)@, record@),
    {
        proof {
            use_type_invariant(&*self);
        }
        let ghost before = self@;
        match self.find(&record.hash) {
            Some(at) => {
                let mut groups: Vec<DuplicateGroup> = Vec::new();
                core::mem::swap(&mut self.groups, &mut groups);
                let mut group = groups.remove(at);
                group.push(record);
                groups.insert(at, group);
                assert(group_views(groups@) =~= before.update(
                    at as int,
                    joined(before[at as int], record@),
                ));
                self.groups = groups;
            },
            None => {
                let mut groups: Vec<DuplicateGroup> = Vec::new();
                core::mem::swap(&mut self.groups, &mut groups);
                let group = DuplicateGroup::new(record);
                groups.push(group);
                assert(group_views(groups@) =~= before.push(group@));
                self.groups = groups;
            },
        }
    }
}

/// A record that arrives joins the records of its own fingerprint and no
/// others.
pub proof fn lemma_members_push(
    records: Seq<FileIndexView>,
    record: FileIndexView,
    fingerprint: Seq<char>,
)
    ensures
        members_with(records.push(record), fingerprint) == if record.hash == fingerprint {
            members_with(records, fingerprint).push(record)
        } else {
            members_with(records, fingerprint)
        },
{
    reveal(Seq::filter);
    assert(records.push(record).drop_last() =~= records);
}

/// A fingerprint that no record carries has no members.
pub proof fn lemma_members_none(records: Seq<FileIndexView>, fingerprint: Seq<char>)
    requires
        forall|i: int| 0 <= i < records.len() ==> (#[trigger] records[i]).hash != fingerprint,
    ensures
        members_with(records, fingerprint) == Seq::<FileIndexView>::empty(),
    decreases records.len(),
{
    reveal(Seq::filter);
    if records.len() > 0 {
        lemma_members_none(records.drop_last(), fingerprint);
    }
}

/// Whether some record among `records` carries `fingerprint`.
pub open spec fn occurs(records: Seq<FileIndexView>, fingerprint: Seq<char>) -> bool {
    exists|i: int| 0 <= i < records.len() && (#[trigger] records[i]).hash == fingerprint
}

/// [`first_seen`] lists exactly the fingerprints that occur, each once.
pub proof fn lemma_first_seen(records: Seq<FileIndexView>)
    ensures
        first_seen(records).no_duplicates(),
        forall|fingerprint: Seq<char>|
            first_seen(records).contains(fingerprint) <==> occurs(records, fingerprint),
    decreases records.len(),
{
    if records.len() > 0 {
        let front = records.drop_last();
        let earlier = first_seen(front);
        lemma_first_seen(front);
        assert forall|fingerprint: Seq<char>|
            first_seen(records).contains(fingerprint) <==> occurs(records, fingerprint) by {
            if occurs(records, fingerprint) {
                let i = choose|i: int|
                    0 <= i < records.len() && (#[trigger] records[i]).hash == fingerprint;
                if i < front.len() {
                    assert(front[i].hash == fingerprint);
                    assert(occurs(front, fingerprint));
                    let k = choose|k: int| 0 <= k < earlier.len() && earlier[k] == fingerprint;
                    assert(first_seen(records)[k] == fingerprint);
                } else if !earlier.contains(fingerprint) {
                    assert(first_seen(records)[earlier.len() as int] == fingerprint);
                }
            }
            if first_seen(records).contains(fingerprint) {
                if earlier.contains(fingerprint) {
                    assert(occurs(front, fingerprint));
                    let i = choose|i: int|
                        0 <= i < front.len() && (#[trigger] front[i]).hash == fingerprint;
                    assert(records[i].hash == fingerprint);
                } else {
                    assert(records[records.len() - 1].hash == fingerprint);
                }
            }
        }
    }
}

/// Grouping is a fold: the grouping of `records` and one more record is the
/// grouping of `records` with that record filed into it.
pub proof fn lemma_grouped_push(records: Seq<FileIndexView>, record: FileIndexView)
    ensures
        grouped(records.push(record)) == with_record(grouped(records), record),
{
    let longer = records.push(record);
    let earlier = first_seen(records);
    let before = grouped(records);
    assert(longer.drop_last() =~= records);
    lemma_first_seen(records);
    assert forall|i: int| 0 <= i < earlier.len() implies members_with(longer, earlier[i]) == if i
        == earlier.index_of(record.hash) && earlier.contains(record.hash) {
        members_with(records, earlier[i]).push(record)
    } else {
        members_with(records, earlier[i])
    } by {
        lemma_members_push(records, record, earlier[i]);
    }
    if earlier.contains(record.hash) {
        let at = earlier.index_of(record.hash);
        assert(before[at].fingerprint == record.hash);
        assert(has_group(before, record.hash));
        let found = position_of(before, record.hash);
        assert(earlier[found] == before[found].fingerprint);
        assert(found == at);
        assert(grouped(longer) =~= before.update(at, joined(before[at], record)));
    } else {
        assert(!has_group(before, record.hash)) by {
            if has_group(before, record.hash) {
                let k = position_of(before, record.hash);
                assert(earlier[k] == record.hash);
            }
        }
        assert(!occurs(records, record.hash));
        lemma_members_none(records, record.hash);
        lemma_members_push(records, record, record.hash);
        assert(members_with(longer, record.hash) =~= seq![record]);
        assert(grouped(longer) =~= before.push(
            GroupView { fingerprint: record.hash, members: seq![record] },
        ));
    }
}

impl Index {
    /// The index of `records`: they are filed one by one, in order.
    pub fn build(records: &Vec<FileIndex>) -> (index: Self)
        ensures
            index@ == grouped(views(records@)),
    {
        let mut index = Index::new();
        assert(grouped(views(records@.take(0))) =~= Seq::<GroupView>::empty());
        let mut i: usize = 0;
        while i < records.len()
            invariant
                i <= records@.len(),
                index@ == grouped(views(records@.take(i as int))),
            decreases records@.len() - i,
        {
            index.insert(records[i].clone());
            proof {
                let done = views(records@.take(i as int));
                lemma_grouped_push(done, records@[i as int]@);
                assert(views(records@.take(i + 1)) =~= done.push(records@[i as int]@));
            }
            i = i + 1;
        }
        assert(records@.take(i as int) =~= records@);
        index
    }
}

/// Whether a group is shown to the operator: it is when it holds two records
/// or more.
pub open spec fn is_surfaced(group: GroupView) -> bool {
    group.members.len() > 1
}

/// The groups that are shown to the operator, in order.
pub open spec fn surfaced(groups: Seq<GroupView>) -> Seq<GroupView> {
    groups.filter(|g: GroupView| is_surfaced(g))
}

/// `group` without the member at `position`.
pub open spec fn without(group: GroupView, position: int) -> GroupView {
    GroupView { fingerprint: group.fingerprint, members: group.members.remove(position) }
}

impl Clone for DuplicateGroup {
    fn clone(&self) -> (copy: Self)
        ensures
            copy@ == self@,
    {
        proof {
            use_type_invariant(self);
        }
        let mut members: Vec<FileIndex> = Vec::new();
        let mut i: usize = 0;
        while i < self.members.len()
            invariant
                i <= self.members@.len(),
                members@ == self.members@.take(i as int),
            decreases self.members@.len() - i,
        {
            members.push(self.members[i].clone());
            assert(members@ =~= self.members@.take(i + 1));
            i = i + 1;
        }
        assert(members@ =~= self.members@);
        DuplicateGroup { fingerprint: self.fingerprint.clone(), members }
    }
}

impl DuplicateGroup {
    /// Takes the member at `position` out of the group.
    fn remove(&mut self, position: usize) -> (record: FileIndex)
        requires
            position < old(self)@.members.len(),
        ensures
            record@ == old(self)@.members[position as int],
            final(self)@ == without(old(self)@, position as int),
    {
        proof {
            use_type_invariant(&*self);
        }
        let mut members: Vec<FileIndex> = Vec::new();
        core::mem::swap(&mut self.members, &mut members);
        let ghost before = members@;
        let record = members.remove(position);
        assert(views(members@) =~= views(before).remove(position as int));
        self.members = members;
        record
    }
}

impl Index {
    /// Copies of the groups that are shown to the operator, in order.
    pub fn duplicates(&self) -> (shown: Vec<DuplicateGroup>)
        ensures
            group_views(shown@) == surfaced(self@),
    {
        let mut shown: Vec<DuplicateGroup> = Vec::new();
        let mut i: usize = 0;
        proof {
            reveal(Seq::filter);
            assert(group_views(shown@) =~= surfaced(self@.take(0)));
        }
        while i < self.groups.len()
            invariant
                i <= self.groups@.len(),
                group_views(shown@) == surfaced(self@.take(i as int)),
            decreases self.groups@.len() - i,
        {
            let ghost so_far = group_views(shown@);
            proof {
                reveal(Seq::filter);
                assert(self@.take(i + 1).drop_last() =~= self@.take(i as int));
                assert(self@.take(i + 1).last() == self.groups@[i as int]@);
            }
            if self.groups[i].is_surfaced() {
                shown.push(self.groups[i].clone());
                assert(group_views(shown@) =~= so_far.push(self.groups@[i as int]@));
            }
            i = i + 1;
        }
        assert(self@.take(i as int) =~= self@);
        shown
    }

    /// Strikes one record from the index: the member at `member` of the group
    /// at `group`. Where there is no such member, nothing changes.
    pub fn remove_member(&mut self, group: usize, member: usize) -> (struck: Option<FileIndex>)
        ensures
            match struck {
                Some(record) => {
                    &&& group < old(self)@.len()
                    &&& member < old(self)@[group as int].members.len()
                    &&& record@ == old(self)@[group as int].members[member as int]
                    &&& final(self)@ == old(self)@.update(
                        group as int,
                        without(old(self)@[group as int], member as int),
                    )
                },
                None => {
                    &&& !(group < old(self)@.len() && member < old(
                        self,
                    )@[group as int].members.len())
                    &&& final(self)@ == old(self)@
                },
            },
    {
        proof {
            use_type_invariant(&*self);
        }
        let ghost before = self@;
        if group >= self.groups.len() {
            return None;
        }
        if member >= self.groups[group].len() {
            return None;
        }
        let mut groups: Vec<DuplicateGroup> = Vec::new();
        core::mem::swap(&mut self.groups, &mut groups);
        let mut changed = groups.remove(group);
        let record = changed.remove(member);
        groups.insert(group, changed);
        assert(group_views(groups@) =~= before.update(
            group as int,
            without(before[group as int], member as int),
        ));
        self.groups = groups;
        Some(record)
    }
}

/// Whether two or more records among `records` carry `fingerprint`.
pub open spec fn shared(records: Seq<FileIndexView>, fingerprint: Seq<char>) -> bool {
    exists|i: int, j: int|
        0 <= i < j < records.len() && (#[trigger] records[i]).hash == fingerprint && (
        #[trigger] records[j]).hash == fingerprint
}

/// A fingerprint has a member exactly when it occurs, and two members or
/// more exactly when it is shared.
pub proof fn lemma_members_count(records: Seq<FileIndexView>, fingerprint: Seq<char>)
    ensures
        members_with(records, fingerprint).len() >= 1 <==> occurs(records, fingerprint),
        members_with(records, fingerprint).len() >= 2 <==> shared(records, fingerprint),
    decreases records.len(),
{
    if records.len() == 0 {
        lemma_members_none(records, fingerprint);
    } else {
        let front = records.drop_last();
        let last = records.last();
        lemma_members_count(front, fingerprint);
        lemma_members_push(front, last, fingerprint);
        assert(front.push(last) =~= records);
        if occurs(front, fingerprint) {
            let i = choose|i: int|
                0 <= i < front.len() && (#[trigger] front[i]).hash == fingerprint;
            assert(records[i].hash == fingerprint);
            if last.hash == fingerprint {
                assert(records[records.len() - 1].hash == fingerprint);
                assert(shared(records, fingerprint));
            }
        }
        if shared(front, fingerprint) {
            let (i, j) = choose|i: int, j: int|
                0 <= i < j < front.len() && (#[trigger] front[i]).hash == fingerprint && (
                #[trigger] front[j]).hash == fingerprint;
            assert(records[i].hash == fingerprint && records[j].hash == fingerprint);
        }
        if last.hash == fingerprint {
            assert(records[records.len() - 1].hash == fingerprint);
        }
        if occurs(records, fingerprint) && last.hash != fingerprint {
            let i = choose|i: int|
                0 <= i < records.len() && (#[trigger] records[i]).hash == fingerprint;
            assert(front[i].hash == fingerprint);
        }
        if shared(records, fingerprint) {
            let (i, j) = choose|i: int, j: int|
                0 <= i < j < records.len() && (#[trigger] records[i]).hash == fingerprint && (
                #[trigger] records[j]).hash == fingerprint;
            assert(front[i].hash == fingerprint);
            if j < front.len() {
                assert(front[j].hash == fingerprint);
            }
        }
    }
}

/// What is shown is what is kept and is surfaced.
proof fn lemma_surfaced_members(groups: Seq<GroupView>, group: GroupView)
    ensures
        surfaced(groups).contains(group) <==> groups.contains(group) && is_surfaced(group),
    decreases groups.len(),
{
    reveal(Seq::filter);
    if groups.len() > 0 {
        let front = groups.drop_last();
        lemma_surfaced_members(front, group);
        if groups.contains(group) {
            let i = choose|i: int| 0 <= i < groups.len() && groups[i] == group;
            if i < front.len() {
                assert(front[i] == group);
            }
        }
        if front.contains(group) {
            let i = choose|i: int| 0 <= i < front.len() && front[i] == group;
            assert(groups[i] == group);
        }
        if is_surfaced(groups.last()) {
            let shown = surfaced(front);
            assert(surfaced(groups) == shown.push(groups.last()));
            assert(shown.push(groups.last())[shown.len() as int] == groups.last());
            if shown.contains(group) {
                let i = choose|i: int| 0 <= i < shown.len() && shown[i] == group;
                assert(shown.push(groups.last())[i] == group);
            }
            if groups.last() == group {
                assert(groups[groups.len() - 1] == group);
            }
        }
    }
}

/// A group is shown to the operator if and only if two or more discovered
/// files share its fingerprint; every group that is shown holds all the
/// files with its fingerprint, two at least.
pub proof fn lemma_surfaced_iff_shared(records: Seq<FileIndexView>, fingerprint: Seq<char>)
    ensures
        has_group(surfaced(grouped(records)), fingerprint) <==> shared(records, fingerprint),
        forall|k: int|
            0 <= k < surfaced(grouped(records)).len() ==> {
                let group = #[trigger] surfaced(grouped(records))[k];
                group.members.len() >= 2 && group.members == members_with(
                    records,
                    group.fingerprint,
                )
            },
{
    let groups = grouped(records);
    let shown = surfaced(groups);
    lemma_first_seen(records);
    lemma_members_count(records, fingerprint);
    assert forall|k: int| 0 <= k < shown.len() implies {
        let group = #[trigger] shown[k];
        group.members.len() >= 2 && group.members == members_with(records, group.fingerprint)
    } by {
        let group = shown[k];
        assert(shown.contains(group));
        lemma_surfaced_members(groups, group);
        let i = choose|i: int| 0 <= i < groups.len() && groups[i] == group;
        assert(groups[i].fingerprint == first_seen(records)[i]);
    }
    if has_group(shown, fingerprint) {
        let k = position_of(shown, fingerprint);
        assert(shown[k].members.len() >= 2);
    }
    if shared(records, fingerprint) {
        assert(occurs(records, fingerprint));
        assert(first_seen(records).contains(fingerprint));
        let i = first_seen(records).index_of(fingerprint);
        let group = groups[i];
        assert(groups.contains(group));
        lemma_surfaced_members(groups, group);
        let k = choose|k: int| 0 <= k < shown.len() && shown[k] == group;
        assert(shown[k].fingerprint == fingerprint);
    }
}

/// The members of a fingerprint, as a multiset, are the records with that
/// fingerprint among all the records as a multiset.
proof fn lemma_members_multiset(
    records: Seq<FileIndexView>,
    fingerprint: Seq<char>,
    record: FileIndexView,
)
    ensures
        members_with(records, fingerprint).to_multiset().count(record) == if record.hash
            == fingerprint {
            records.to_multiset().count(record)
        } else {
            0
        },
    decreases records.len(),
{
    broadcast use vstd::seq_lib::group_to_multiset_ensures;

    if records.len() == 0 {
        lemma_members_none(records, fingerprint);
    } else {
        let front = records.drop_last();
        let last = records.last();
        lemma_members_multiset(front, fingerprint, record);
        lemma_members_push(front, last, fingerprint);
        assert(front.push(last) =~= records);
    }
}

/// Grouping does not depend on the order in which the records arrive: two
/// arrangements of the same records give every fingerprint the same members,
/// and the same fingerprints have a group.
pub proof fn lemma_grouping_ignores_order(
    a: Seq<FileIndexView>,
    b: Seq<FileIndexView>,
    fingerprint: Seq<char>,
)
    requires
        a.to_multiset() == b.to_multiset(),
    ensures
        members_with(a, fingerprint).to_multiset() == members_with(b, fingerprint).to_multiset(),
        has_group(grouped(a), fingerprint) <==> has_group(grouped(b), fingerprint),
{
    assert forall|record: FileIndexView|
        members_with(a, fingerprint).to_multiset().count(record) == members_with(
            b,
            fingerprint,
        ).to_multiset().count(record) by {
        lemma_members_multiset(a, fingerprint, record);
        lemma_members_multiset(b, fingerprint, record);
    }
    assert(members_with(a, fingerprint).to_multiset() =~= members_with(
        b,
        fingerprint,
    ).to_multiset());
    members_with(a, fingerprint).to_multiset_ensures();
    members_with(b, fingerprint).to_multiset_ensures();
    lemma_members_count(a, fingerprint);
    lemma_members_count(b, fingerprint);
    lemma_group_iff_occurs(a, fingerprint);
    lemma_group_iff_occurs(b, fingerprint);
}

/// A fingerprint has a group exactly when a record carries it.
pub proof fn lemma_group_iff_occurs(records: Seq<FileIndexView>, fingerprint: Seq<char>)
    ensures
        has_group(grouped(records), fingerprint) <==> occurs(records, fingerprint),
{
    lemma_first_seen(records);
    let listed = first_seen(records);
    let groups = grouped(records);
    if has_group(groups, fingerprint) {
        let k = position_of(groups, fingerprint);
        assert(listed[k] == fingerprint);
    }
    if listed.contains(fingerprint) {
        let k = listed.index_of(fingerprint);
        assert(groups[k].fingerprint == fingerprint);
    }
}

} // verus!
