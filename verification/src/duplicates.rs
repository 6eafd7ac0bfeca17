//! Exact-duplicate detection over name-similar groups, with duplicate and
//! wasted-space accounting.
//!
//! The detector receives the groups produced by the grouper together with
//! the files' content and sizes as plain values; within each group of two or
//! more members it buckets the readable members by their SHA-256 digest and
//! reports every bucket with two or more members as a set of exact
//! duplicates.  Statistics never count the first member of a set: it stands
//! for "the original", an explicit tie-break by arrival order.

use vstd::prelude::*;

use crate::grouping::{total_members, FileGroup, GroupModel};
use crate::hashing::sha256_of;
use crate::sums::{
    lemma_seq_sum_nonneg, lemma_seq_sum_prefix_le, lemma_seq_sum_push, lemma_seq_sum_split,
    lemma_seq_sum_take_succ, lemma_seq_sum_update, seq_sum,
};
use crate::text::{bytes_eq, copy_bytes};

verus! {

/// A file handed to the analysis: its path, its on-disk size, and its
/// content where it could be read.  `None` stands for a file that vanished
/// or could not be read; such a file is skipped, never fatal.
#[derive(Clone, Debug, PartialEq, Eq)]
pub struct FileEntry {
    pub path: Vec<u8>,
    pub size: u64,
    pub content: Option<Vec<u8>>,
}

/// The mathematical model of a [`FileEntry`].
pub struct EntryModel {
    pub path: Seq<u8>,
    pub size: u64,
    pub content: Option<Seq<u8>>,
}

impl View for FileEntry {
    type V = EntryModel;

    open spec fn view(&self) -> EntryModel {
        EntryModel { path: self.path@, size: self.size, content: self.content.deep_view() }
    }
}

impl DeepView for FileEntry {
    type V = EntryModel;

    open spec fn deep_view(&self) -> EntryModel {
        self@
    }
}

/// One member of a duplicate set: a path and the size that was reported
/// for it when it was hashed.
#[derive(Clone, Debug, PartialEq, Eq)]
pub struct FileRecord {
    pub path: Vec<u8>,
    pub size: u64,
}

/// The mathematical model of a [`FileRecord`].
pub struct RecordModel {
    pub path: Seq<u8>,
    pub size: u64,
}

impl View for FileRecord {
    type V = RecordModel;

    open spec fn view(&self) -> RecordModel {
        RecordModel { path: self.path@, size: self.size }
    }
}

impl DeepView for FileRecord {
    type V = RecordModel;

    open spec fn deep_view(&self) -> RecordModel {
        self@
    }
}

/// The duplicate sets found within one name-similarity group.
#[derive(Clone, Debug, PartialEq, Eq)]
pub struct DuplicateGroup {
    /// The canonical name of the group the sets came from.
    pub base_name: Vec<u8>,
    /// Each inner list holds files with identical content, in discovery
    /// order.
    pub duplicate_sets: Vec<Vec<FileRecord>>,
}

/// The mathematical model of a [`DuplicateGroup`].
pub struct DupGroupModel {
    pub base_name: Seq<u8>,
    pub duplicate_sets: Seq<Seq<RecordModel>>,
}

impl View for DuplicateGroup {
    type V = DupGroupModel;

    open spec fn view(&self) -> DupGroupModel {
        DupGroupModel {
            base_name: self.base_name@,
            duplicate_sets: self.duplicate_sets.deep_view(),
        }
    }
}

impl DeepView for DuplicateGroup {
    type V = DupGroupModel;

    open spec fn deep_view(&self) -> DupGroupModel {
        self@
    }
}

/// Duplicates a set of `n` identical files contributes: all but the first.
pub open spec fn set_excess(s: Seq<RecordModel>) -> int {
    if s.len() > 1 {
        s.len() - 1
    } else {
        0
    }
}

/// The size of a record, as a summand.
pub open spec fn size_fn() -> spec_fn(RecordModel) -> int {
    |r: RecordModel| r.size as int
}

/// The excess of a set, as a summand.
pub open spec fn excess_fn() -> spec_fn(Seq<RecordModel>) -> int {
    |s: Seq<RecordModel>| set_excess(s)
}

/// The waste of a set, as a summand.
pub open spec fn waste_fn() -> spec_fn(Seq<RecordModel>) -> int {
    |s: Seq<RecordModel>| set_waste(s)
}

/// The excess of a group, as a summand.
pub open spec fn group_excess_fn() -> spec_fn(DupGroupModel) -> int {
    |g: DupGroupModel| sets_excess(g.duplicate_sets)
}

/// The waste of a group, as a summand.
pub open spec fn group_waste_fn() -> spec_fn(DupGroupModel) -> int {
    |g: DupGroupModel| sets_waste(g.duplicate_sets)
}

/// Bytes a duplicate set wastes: the sizes of all members but the first.
pub open spec fn set_waste(s: Seq<RecordModel>) -> int {
    if s.len() <= 1 {
        0
    } else {
        seq_sum(s.skip(1), size_fn())
    }
}

/// Duplicates contributed by a list of sets.
pub open spec fn sets_excess(ss: Seq<Seq<RecordModel>>) -> int {
    seq_sum(ss, excess_fn())
}

/// Wasted bytes contributed by a list of sets.
pub open spec fn sets_waste(ss: Seq<Seq<RecordModel>>) -> int {
    seq_sum(ss, waste_fn())
}

/// Duplicates contributed by a list of groups.
pub open spec fn groups_excess(gs: Seq<DupGroupModel>) -> int {
    seq_sum(gs, group_excess_fn())
}

/// Wasted bytes contributed by a list of groups.
pub open spec fn groups_waste(gs: Seq<DupGroupModel>) -> int {
    seq_sum(gs, group_waste_fn())
}

pub proof fn lemma_set_waste_nonneg(s: Seq<RecordModel>)
    ensures
        set_waste(s) >= 0,
{
    if s.len() > 1 {
        lemma_seq_sum_nonneg(s.skip(1), size_fn());
    }
}

pub proof fn lemma_sets_excess_nonneg(ss: Seq<Seq<RecordModel>>)
    ensures
        sets_excess(ss) >= 0,
{
    lemma_seq_sum_nonneg(ss, excess_fn());
}

pub proof fn lemma_sets_waste_nonneg(ss: Seq<Seq<RecordModel>>)
    ensures
        sets_waste(ss) >= 0,
{
    assert forall|k: int| 0 <= k < ss.len() implies set_waste(#[trigger] ss[k]) >= 0 by {
        lemma_set_waste_nonneg(ss[k]);
    }
    lemma_seq_sum_nonneg(ss, waste_fn());
}

/// The duplicate and wasted-space statistics together with the groups they
/// were computed from.
#[derive(Clone, Debug, PartialEq, Eq)]
pub struct DuplicateResults {
    /// Number of duplicate files found; the first member of each set is
    /// never counted.
    pub total_duplicates: usize,
    /// Bytes occupied by every member but the first of each set.
    pub space_wasted: u64,
    /// The groups that contributed, in the order they were added.
    pub duplicate_groups: Vec<DuplicateGroup>,
}

impl DuplicateResults {
    /// The statistics agree with the stored groups.  [`DuplicateResults::new`]
    /// establishes this and [`DuplicateResults::add_duplicate_group`]
    /// preserves it.
    pub open spec fn consistent(&self) -> bool {
        &&& self.total_duplicates == groups_excess(self.duplicate_groups.deep_view())
        &&& self.space_wasted == groups_waste(self.duplicate_groups.deep_view())
    }

    /// Empty results.
    pub fn new() -> (r: Self)
        ensures
            r.total_duplicates == 0,
            r.space_wasted == 0,
            r.duplicate_groups.deep_view() == Seq::<DupGroupModel>::empty(),
            r.consistent(),
    {
        let r = DuplicateResults {
            total_duplicates: 0,
            space_wasted: 0,
            duplicate_groups: Vec::new(),
        };
        proof {
            assert(r.duplicate_groups.deep_view() =~= Seq::<DupGroupModel>::empty());
        }
        r
    }

    /// Adds a group and updates the statistics incrementally: the group
    /// contributes `sum(set.len() - 1)` duplicates and the sizes of all
    /// members but the first of each set as wasted space.
    pub fn add_duplicate_group(&mut self, group: DuplicateGroup)
        requires
            old(self).total_duplicates + sets_excess(group@.duplicate_sets) <= usize::MAX,
            old(self).space_wasted + sets_waste(group@.duplicate_sets) <= u64::MAX,
        ensures
            final(self).total_duplicates == old(self).total_duplicates + sets_excess(
                group@.duplicate_sets,
            ),
            final(self).space_wasted == old(self).space_wasted + sets_waste(
                group@.duplicate_sets,
            ),
            final(self).duplicate_groups.deep_view() == old(
                self,
            ).duplicate_groups.deep_view().push(group@),
            old(self).consistent() ==> final(self).consistent(),
    {
        let ghost ss = group@.duplicate_sets;
        let ghost t0 = self.total_duplicates;
        let ghost w0 = self.space_wasted;
        let ghost gs0 = self.duplicate_groups.deep_view();

        let mut i: usize = 0;
        while i < group.duplicate_sets.len()
            invariant
                i <= group.duplicate_sets.len(),
                group@.duplicate_sets == ss,
                self.total_duplicates == t0 + sets_excess(ss.take(i as int)),
                self.space_wasted == w0 + sets_waste(ss.take(i as int)),
                self.duplicate_groups.deep_view() == gs0,
                t0 + sets_excess(ss) <= usize::MAX,
                w0 + sets_waste(ss) <= u64::MAX,
            decreases group.duplicate_sets.len() - i,
        {
            let ghost setv = ss[i as int];
            proof {
                assert(setv == group.duplicate_sets@[i as int].deep_view());
                assert(setv.len() == group.duplicate_sets@[i as int]@.len());
                // The next step's totals stay within the final totals.
                lemma_seq_sum_take_succ(ss, i as int, excess_fn());
                lemma_seq_sum_take_succ(ss, i as int, waste_fn());
                assert forall|k: int| 0 <= k < ss.len() implies excess_fn()(#[trigger] ss[k]) >= 0 by {}
                assert forall|k: int| 0 <= k < ss.len() implies waste_fn()(#[trigger] ss[k]) >= 0 by {
                    lemma_set_waste_nonneg(ss[k]);
                }
                lemma_seq_sum_prefix_le(ss, i + 1, excess_fn());
                lemma_seq_sum_prefix_le(ss, i + 1, waste_fn());
            }
            let set_len = group.duplicate_sets[i].len();
            if set_len > 1 {
                proof {
                    assert(set_excess(setv) == set_len - 1);
                    lemma_set_waste_nonneg(setv);
                }
                self.total_duplicates = self.total_duplicates + (set_len - 1);

                let mut j: usize = 1;
                while j < set_len
                    invariant
                        1 <= j <= set_len,
                        set_len == setv.len(),
                        1 < setv.len(),
                        setv == group.duplicate_sets@[i as int].deep_view(),
                        i < group.duplicate_sets@.len(),
                        self.space_wasted == w0 + sets_waste(ss.take(i as int)) + seq_sum(
                            setv.subrange(1, j as int),
                            size_fn(),
                        ),
                        self.total_duplicates == t0 + sets_excess(ss.take(i as int)) + setv.len()
                            - 1,
                        self.duplicate_groups.deep_view() == gs0,
                        w0 + sets_waste(ss.take(i as int)) + set_waste(setv) <= u64::MAX,
                        0 <= w0 + sets_waste(ss.take(i as int)),
                    decreases set_len - j,
                {
                    proof {
                        assert(setv.subrange(1, j + 1) =~= setv.subrange(1, j as int).push(
                            setv[j as int],
                        ));
                        lemma_seq_sum_push(setv.subrange(1, j as int), setv[j as int], size_fn());
                        assert(setv.subrange(1, j + 1) =~= setv.skip(1).take(j as int));
                        assert(set_waste(setv) == seq_sum(setv.skip(1), size_fn()));
                        lemma_seq_sum_prefix_le(setv.skip(1), j as int, size_fn());
                        lemma_seq_sum_nonneg(setv.subrange(1, j as int), size_fn());
                        assert(setv[j as int] == group.duplicate_sets@[i as int]@[j as int]@);
                    }
                    let sz = group.duplicate_sets[i][j].size;
                    self.space_wasted = self.space_wasted + sz;
                    j += 1;
                }
                proof {
                    assert(setv.subrange(1, setv.len() as int) =~= setv.skip(1));
                    assert(sets_waste(ss.take(i + 1)) == sets_waste(ss.take(i as int))
                        + set_waste(setv));
                    assert(sets_excess(ss.take(i + 1)) == sets_excess(ss.take(i as int))
                        + set_excess(setv));
                }
            } else {
                proof {
                    assert(set_excess(setv) == 0);
                    assert(set_waste(setv) == 0);
                }
            }
            i += 1;
        }
        proof {
            assert(ss.take(ss.len() as int) =~= ss);
        }
        self.duplicate_groups.push(group);
        proof {
            assert(self.duplicate_groups.deep_view() =~= gs0.push(
                self.duplicate_groups@.last()@,
            ));
            lemma_seq_sum_push(gs0, self.duplicate_groups@.last()@, group_excess_fn());
            lemma_seq_sum_push(gs0, self.duplicate_groups@.last()@, group_waste_fn());
        }
    }
}

/// Index of the first entry for `path`, or -1.
pub open spec fn find_entry(files: Seq<EntryModel>, path: Seq<u8>) -> int
    decreases files.len(),
{
    if files.len() == 0 {
        -1
    } else if files[0].path == path {
        0
    } else {
        let r = find_entry(files.drop_first(), path);
        if r == -1 {
            -1
        } else {
            r + 1
        }
    }
}

/// The size recorded for `path`, 0 when no entry carries it.
pub open spec fn entry_size(files: Seq<EntryModel>, path: Seq<u8>) -> int {
    let i = find_entry(files, path);
    if 0 <= i < files.len() {
        files[i].size as int
    } else {
        0
    }
}

proof fn lemma_find_entry_none(files: Seq<EntryModel>, path: Seq<u8>)
    requires
        forall|k: int| 0 <= k < files.len() ==> files[k].path != path,
    ensures
        find_entry(files, path) == -1,
    decreases files.len(),
{
    if files.len() > 0 {
        lemma_find_entry_none(files.drop_first(), path);
    }
}

proof fn lemma_find_entry_at(files: Seq<EntryModel>, path: Seq<u8>, i: int)
    requires
        0 <= i < files.len(),
        forall|k: int| 0 <= k < i ==> files[k].path != path,
        files[i].path == path,
    ensures
        find_entry(files, path) == i,
    decreases files.len(),
{
    if i > 0 {
        lemma_find_entry_at(files.drop_first(), path, i - 1);
    }
}

/// A digest and the records of the group members that hashed to it.
pub struct DigestGroupModel {
    pub digest: Seq<u8>,
    pub recs: Seq<RecordModel>,
}

/// A digest and the group members that hashed to it.
struct DigestGroup {
    digest: Vec<u8>,
    recs: Vec<FileRecord>,
}

impl View for DigestGroup {
    type V = DigestGroupModel;

    closed spec fn view(&self) -> DigestGroupModel {
        DigestGroupModel { digest: self.digest@, recs: self.recs.deep_view() }
    }
}

impl DeepView for DigestGroup {
    type V = DigestGroupModel;

    closed spec fn deep_view(&self) -> DigestGroupModel {
        self@
    }
}

/// Index of the digest group holding `digest`, or -1.
pub open spec fn find_digest(bs: Seq<DigestGroupModel>, digest: Seq<u8>) -> int
    decreases bs.len(),
{
    if bs.len() == 0 {
        -1
    } else if bs[0].digest == digest {
        0
    } else {
        let r = find_digest(bs.drop_first(), digest);
        if r == -1 {
            -1
        } else {
            r + 1
        }
    }
}

/// One hashing step: `rec` joins the group of `digest`, or a new group is
/// appended.
pub open spec fn digest_insert(
    bs: Seq<DigestGroupModel>,
    digest: Seq<u8>,
    rec: RecordModel,
) -> Seq<DigestGroupModel> {
    let i = find_digest(bs, digest);
    if 0 <= i < bs.len() {
        bs.update(i, DigestGroupModel { digest: bs[i].digest, recs: bs[i].recs.push(rec) })
    } else {
        bs.push(DigestGroupModel { digest: digest, recs: seq![rec] })
    }
}

proof fn lemma_find_digest_none(bs: Seq<DigestGroupModel>, digest: Seq<u8>)
    requires
        forall|k: int| 0 <= k < bs.len() ==> bs[k].digest != digest,
    ensures
        find_digest(bs, digest) == -1,
    decreases bs.len(),
{
    if bs.len() > 0 {
        lemma_find_digest_none(bs.drop_first(), digest);
    }
}

proof fn lemma_find_digest_at(bs: Seq<DigestGroupModel>, digest: Seq<u8>, i: int)
    requires
        0 <= i < bs.len(),
        forall|k: int| 0 <= k < i ==> bs[k].digest != digest,
        bs[i].digest == digest,
    ensures
        find_digest(bs, digest) == i,
    decreases bs.len(),
{
    if i > 0 {
        lemma_find_digest_at(bs.drop_first(), digest, i - 1);
    }
}

/// The record count of a digest group, as a summand.
pub open spec fn rec_len_fn() -> spec_fn(DigestGroupModel) -> int {
    |b: DigestGroupModel| b.recs.len() as int
}

/// The record sizes of a digest group, as a summand.
pub open spec fn rec_size_fn() -> spec_fn(DigestGroupModel) -> int {
    |b: DigestGroupModel| seq_sum(b.recs, size_fn())
}

/// The recorded size of a member path, as a summand.
pub open spec fn member_size_fn(files: Seq<EntryModel>) -> spec_fn(Seq<u8>) -> int {
    |p: Seq<u8>| entry_size(files, p)
}

/// The digest groups of one name group's readable members, in member order.
pub open spec fn group_digests(members: Seq<Seq<u8>>, files: Seq<EntryModel>) -> Seq<
    DigestGroupModel,
>
    decreases members.len(),
{
    if members.len() == 0 {
        Seq::empty()
    } else {
        let bs = group_digests(members.drop_last(), files);
        let p = members.last();
        let i = find_entry(files, p);
        if 0 <= i < files.len() && files[i].content is Some {
            digest_insert(
                bs,
                sha256_of(files[i].content->0),
                RecordModel { path: p, size: files[i].size },
            )
        } else {
            bs
        }
    }
}

/// The record lists of the digest groups with two or more members.
pub open spec fn dup_sets_of_digests(bs: Seq<DigestGroupModel>) -> Seq<Seq<RecordModel>>
    decreases bs.len(),
{
    if bs.len() == 0 {
        Seq::empty()
    } else {
        dup_sets_of_digests(bs.drop_last()) + if bs.last().recs.len() > 1 {
            seq![bs.last().recs]
        } else {
            Seq::<Seq<RecordModel>>::empty()
        }
    }
}

/// What one name group contributes: its duplicate sets under its canonical
/// name, or nothing where it has at most one member or no set.
pub open spec fn group_result(g: GroupModel, files: Seq<EntryModel>) -> Option<DupGroupModel> {
    if g.members.len() > 1 {
        let sets = dup_sets_of_digests(group_digests(g.members, files));
        if sets.len() > 0 {
            Option::Some(DupGroupModel { base_name: g.canonical_name, duplicate_sets: sets })
        } else {
            Option::None
        }
    } else {
        Option::None
    }
}

/// The duplicate groups found across all name groups, in group order.
pub open spec fn detect_groups(groups: Seq<GroupModel>, files: Seq<EntryModel>) -> Seq<
    DupGroupModel,
>
    decreases groups.len(),
{
    if groups.len() == 0 {
        Seq::empty()
    } else {
        detect_groups(groups.drop_last(), files) + match group_result(groups.last(), files) {
            Option::Some(dg) => seq![dg],
            Option::None => Seq::<DupGroupModel>::empty(),
        }
    }
}

/// The member count of a name group, as a summand.
pub open spec fn members_len_fn() -> spec_fn(GroupModel) -> int {
    |g: GroupModel| g.members.len() as int
}

/// The recorded member sizes of a name group, as a summand.
pub open spec fn group_sizes_fn(files: Seq<EntryModel>) -> spec_fn(GroupModel) -> int {
    |g: GroupModel| seq_sum(g.members, member_size_fn(files))
}

/// Sum of the recorded sizes of every member of every group.
pub open spec fn member_sizes_sum(groups: Seq<GroupModel>, files: Seq<EntryModel>) -> int {
    seq_sum(groups, group_sizes_fn(files))
}

proof fn lemma_total_members_is_sum(gs: Seq<GroupModel>)
    ensures
        total_members(gs) == seq_sum(gs, members_len_fn()),
    decreases gs.len(),
{
    if gs.len() > 0 {
        lemma_total_members_is_sum(gs.drop_last());
    }
}

proof fn lemma_digest_insert_sums(bs: Seq<DigestGroupModel>, digest: Seq<u8>, rec: RecordModel)
    ensures
        seq_sum(digest_insert(bs, digest, rec), rec_len_fn()) == seq_sum(bs, rec_len_fn()) + 1,
        seq_sum(digest_insert(bs, digest, rec), rec_size_fn()) == seq_sum(bs, rec_size_fn())
            + rec.size,
{
    let i = find_digest(bs, digest);
    if 0 <= i < bs.len() {
        let g = DigestGroupModel { digest: bs[i].digest, recs: bs[i].recs.push(rec) };
        lemma_seq_sum_update(bs, i, g, rec_len_fn());
        lemma_seq_sum_update(bs, i, g, rec_size_fn());
        lemma_seq_sum_push(bs[i].recs, rec, size_fn());
    } else {
        let g = DigestGroupModel { digest: digest, recs: seq![rec] };
        lemma_seq_sum_push(bs, g, rec_len_fn());
        lemma_seq_sum_push(bs, g, rec_size_fn());
        assert(seq![rec].drop_last() =~= Seq::<RecordModel>::empty());
        assert(seq_sum(Seq::<RecordModel>::empty(), size_fn()) == 0);
        assert(seq_sum(seq![rec], size_fn()) == rec.size);
    }
}

proof fn lemma_group_digests_sums(members: Seq<Seq<u8>>, files: Seq<EntryModel>)
    ensures
        seq_sum(group_digests(members, files), rec_len_fn()) <= members.len(),
        seq_sum(group_digests(members, files), rec_size_fn()) <= seq_sum(
            members,
            member_size_fn(files),
        ),
    decreases members.len(),
{
    if members.len() > 0 {
        lemma_group_digests_sums(members.drop_last(), files);
        let p = members.last();
        let i = find_entry(files, p);
        if 0 <= i < files.len() && files[i].content is Some {
            lemma_digest_insert_sums(
                group_digests(members.drop_last(), files),
                sha256_of(files[i].content->0),
                RecordModel { path: p, size: files[i].size },
            );
            assert(member_size_fn(files)(p) == files[i].size as int);
        } else {
            assert(member_size_fn(files)(p) >= 0);
        }
    }
}

proof fn lemma_dup_sets_sums(bs: Seq<DigestGroupModel>)
    ensures
        sets_excess(dup_sets_of_digests(bs)) <= seq_sum(bs, rec_len_fn()),
        sets_waste(dup_sets_of_digests(bs)) <= seq_sum(bs, rec_size_fn()),
        sets_excess(dup_sets_of_digests(bs)) >= 0,
        sets_waste(dup_sets_of_digests(bs)) >= 0,
    decreases bs.len(),
{
    lemma_sets_excess_nonneg(dup_sets_of_digests(bs));
    lemma_sets_waste_nonneg(dup_sets_of_digests(bs));
    if bs.len() > 0 {
        lemma_dup_sets_sums(bs.drop_last());
        let recs = bs.last().recs;
        let prev = dup_sets_of_digests(bs.drop_last());
        assert forall|k: int| 0 <= k < recs.len() implies size_fn()(#[trigger] recs[k]) >= 0 by {}
        lemma_seq_sum_nonneg(recs, size_fn());
        if recs.len() > 1 {
            assert(dup_sets_of_digests(bs) =~= prev.push(recs));
            lemma_seq_sum_push(prev, recs, excess_fn());
            lemma_seq_sum_push(prev, recs, waste_fn());
            // The waste of a set is at most the sum of all its sizes.
            lemma_seq_sum_split(recs, 1, size_fn());
            lemma_seq_sum_nonneg(recs.take(1), size_fn());
        } else {
            assert(dup_sets_of_digests(bs) =~= prev);
        }
    }
}

proof fn lemma_detect_groups_bounds(groups: Seq<GroupModel>, files: Seq<EntryModel>)
    ensures
        groups_excess(detect_groups(groups, files)) <= total_members(groups),
        groups_waste(detect_groups(groups, files)) <= member_sizes_sum(groups, files),
        groups_excess(detect_groups(groups, files)) >= 0,
        groups_waste(detect_groups(groups, files)) >= 0,
    decreases groups.len(),
{
    lemma_groups_excess_nonneg(detect_groups(groups, files));
    lemma_groups_waste_nonneg(detect_groups(groups, files));
    if groups.len() > 0 {
        lemma_detect_groups_bounds(groups.drop_last(), files);
        let g = groups.last();
        let prev = detect_groups(groups.drop_last(), files);
        lemma_group_digests_sums(g.members, files);
        lemma_dup_sets_sums(group_digests(g.members, files));
        assert forall|k: int|
            0 <= k < g.members.len() implies member_size_fn(files)(#[trigger] g.members[k])
            >= 0 by {}
        lemma_seq_sum_nonneg(g.members, member_size_fn(files));
        match group_result(g, files) {
            Option::Some(dg) => {
                assert(detect_groups(groups, files) =~= prev.push(dg));
                lemma_seq_sum_push(prev, dg, group_excess_fn());
                lemma_seq_sum_push(prev, dg, group_waste_fn());
            },
            Option::None => {
                assert(detect_groups(groups, files) =~= prev);
            },
        }
    }
}

pub proof fn lemma_groups_excess_nonneg(gs: Seq<DupGroupModel>)
    ensures
        groups_excess(gs) >= 0,
{
    assert forall|k: int|
        0 <= k < gs.len() implies group_excess_fn()(#[trigger] gs[k]) >= 0 by {
        lemma_sets_excess_nonneg(gs[k].duplicate_sets);
    }
    lemma_seq_sum_nonneg(gs, group_excess_fn());
}

pub proof fn lemma_groups_waste_nonneg(gs: Seq<DupGroupModel>)
    ensures
        groups_waste(gs) >= 0,
{
    assert forall|k: int|
        0 <= k < gs.len() implies group_waste_fn()(#[trigger] gs[k]) >= 0 by {
        lemma_sets_waste_nonneg(gs[k].duplicate_sets);
    }
    lemma_seq_sum_nonneg(gs, group_waste_fn());
}

pub proof fn lemma_total_members_prefix(gs: Seq<GroupModel>, i: int)
    requires
        0 <= i <= gs.len(),
    ensures
        total_members(gs.take(i)) <= total_members(gs),
{
    lemma_total_members_is_sum(gs);
    lemma_total_members_is_sum(gs.take(i));
    assert forall|k: int|
        0 <= k < gs.len() implies members_len_fn()(#[trigger] gs[k]) >= 0 by {}
    lemma_seq_sum_prefix_le(gs, i, members_len_fn());
}

proof fn lemma_member_sizes_prefix(gs: Seq<GroupModel>, files: Seq<EntryModel>, i: int)
    requires
        0 <= i <= gs.len(),
    ensures
        member_sizes_sum(gs.take(i), files) <= member_sizes_sum(gs, files),
{
    assert forall|k: int|
        0 <= k < gs.len() implies group_sizes_fn(files)(#[trigger] gs[k]) >= 0 by {
        let g = gs[k];
        assert forall|m: int|
            0 <= m < g.members.len() implies member_size_fn(files)(#[trigger] g.members[m])
            >= 0 by {}
        lemma_seq_sum_nonneg(g.members, member_size_fn(files));
    }
    lemma_seq_sum_prefix_le(gs, i, group_sizes_fn(files));
}

/// A fresh copy of a list of records.
fn copy_records(v: &Vec<FileRecord>) -> (r: Vec<FileRecord>)
    ensures
        r.deep_view() == v.deep_view(),
{
    let mut r: Vec<FileRecord> = Vec::new();
    let mut i: usize = 0;
    while i < v.len()
        invariant
            i <= v.len(),
            r@.len() == i,
            forall|k: int| 0 <= k < i ==> r@[k]@ == v@[k]@,
        decreases v.len() - i,
    {
        let rec = FileRecord { path: copy_bytes(&v[i].path), size: v[i].size };
        r.push(rec);
        i += 1;
    }
    proof {
        assert forall|k: int| 0 <= k < r@.len() implies r.deep_view()[k] == v.deep_view()[k] by {
            assert(r.deep_view()[k] == r@[k]@);
            assert(v.deep_view()[k] == v@[k]@);
        }
        assert(r.deep_view() =~= v.deep_view());
    }
    r
}

/// Index of the first entry whose path is `path`.
fn lookup_entry(files: &Vec<FileEntry>, path: &Vec<u8>) -> (r: Option<usize>)
    ensures
        match r {
            Option::Some(i) => i < files@.len() && find_entry(files.deep_view(), path@)
                == i as int,
            Option::None => find_entry(files.deep_view(), path@) == -1,
        },
{
    let ghost fsv = files.deep_view();
    let mut i: usize = 0;
    while i < files.len()
        invariant
            i <= files.len(),
            files.deep_view() == fsv,
            forall|k: int| 0 <= k < i ==> fsv[k].path != path@,
        decreases files.len() - i,
    {
        proof {
            assert(fsv[i as int] == files@[i as int]@);
        }
        if bytes_eq(&files[i].path, path) {
            proof {
                lemma_find_entry_at(fsv, path@, i as int);
            }
            return Option::Some(i);
        }
        i += 1;
    }
    proof {
        lemma_find_entry_none(fsv, path@);
    }
    Option::None
}

/// Files `rec` under `digest` within the running digest groups.
fn insert_record(buckets: &mut Vec<DigestGroup>, digest: Vec<u8>, rec: FileRecord)
    ensures
        final(buckets).deep_view() == digest_insert(old(buckets).deep_view(), digest@, rec@),
{
    let ghost dv = digest@;
    let ghost rv = rec@;
    let ghost bs0 = buckets.deep_view();

    let mut idx: usize = 0;
    let mut found: bool = false;
    while !found && idx < buckets.len()
        invariant
            idx <= buckets.len(),
            buckets.deep_view() == bs0,
            digest@ == dv,
            forall|k: int| 0 <= k < idx ==> bs0[k].digest != dv,
            found ==> idx < bs0.len() && bs0[idx as int].digest == dv,
        decreases buckets.len() - idx, if found {
            0int
        } else {
            1int
        },
    {
        proof {
            assert(buckets.deep_view()[idx as int] == buckets@[idx as int]@);
        }
        if bytes_eq(&buckets[idx].digest, &digest) {
            found = true;
        } else {
            idx += 1;
        }
    }

    if found {
        proof {
            lemma_find_digest_at(bs0, dv, idx as int);
            assert(bs0[idx as int] == buckets@[idx as int]@);
        }
        let mut b = buckets.remove(idx);
        b.recs.push(rec);
        proof {
            assert(b.recs.deep_view() =~= bs0[idx as int].recs.push(rv));
        }
        buckets.insert(idx, b);
        proof {
            let updated = DigestGroupModel {
                digest: bs0[idx as int].digest,
                recs: bs0[idx as int].recs.push(rv),
            };
            assert(buckets.deep_view() =~= bs0.update(idx as int, updated));
            assert(buckets.deep_view() == digest_insert(bs0, dv, rv));
        }
    } else {
        proof {
            lemma_find_digest_none(bs0, dv);
        }
        let mut recs: Vec<FileRecord> = Vec::new();
        recs.push(rec);
        proof {
            assert(recs.deep_view() =~= seq![rv]);
        }
        buckets.push(DigestGroup { digest, recs });
        proof {
            assert(buckets.deep_view() =~= bs0.push(DigestGroupModel { digest: dv, recs: seq![rv] }));
            assert(buckets.deep_view() == digest_insert(bs0, dv, rv));
        }
    }
}

/// Detects exact duplicates within the name-similarity groups.
pub struct SmartDuplicateDetector;

impl SmartDuplicateDetector {
    /// A detector.
    pub fn new() -> (r: Self) {
        SmartDuplicateDetector
    }

    /// Buckets the readable members of every group of two or more files by
    /// content digest and reports the sets of identical files, with the
    /// duplicate and wasted-space statistics; see [`detect_groups`].
    ///
    /// The two bounds are machine limits: the statistics must fit their
    /// counters.
    pub fn detect_duplicates(
        &self,
        file_groups: &Vec<FileGroup>,
        files: &Vec<FileEntry>,
    ) -> (r: DuplicateResults)
        requires
            total_members(file_groups.deep_view()) <= usize::MAX,
            member_sizes_sum(file_groups.deep_view(), files.deep_view()) <= u64::MAX,
        ensures
            r.duplicate_groups.deep_view() == detect_groups(
                file_groups.deep_view(),
                files.deep_view(),
            ),
            r.total_duplicates == groups_excess(
                detect_groups(file_groups.deep_view(), files.deep_view()),
            ),
            r.space_wasted == groups_waste(
                detect_groups(file_groups.deep_view(), files.deep_view()),
            ),
            r.consistent(),
    {
        let ghost gsv = file_groups.deep_view();
        let ghost fsv = files.deep_view();
        let mut results = DuplicateResults::new();
        let mut gi: usize = 0;
        while gi < file_groups.len()
            invariant
                gi <= file_groups.len(),
                file_groups.deep_view() == gsv,
                files.deep_view() == fsv,
                results.duplicate_groups.deep_view() == detect_groups(gsv.take(gi as int), fsv),
                results.total_duplicates == groups_excess(detect_groups(gsv.take(gi as int), fsv)),
                results.space_wasted == groups_waste(detect_groups(gsv.take(gi as int), fsv)),
                total_members(gsv) <= usize::MAX,
                member_sizes_sum(gsv, fsv) <= u64::MAX,
            decreases file_groups.len() - gi,
        {
            let ghost g = gsv[gi as int];
            proof {
                assert(g == file_groups@[gi as int]@);
                assert(gsv.take(gi + 1 as int).drop_last() =~= gsv.take(gi as int));
                assert(gsv.take(gi + 1 as int).last() == g);
            }
            let group = &file_groups[gi];
            let mut handled: bool = false;
            if group.variants.len() > 1 {
                let mut buckets: Vec<DigestGroup> = Vec::new();
                let mut mi: usize = 0;
                while mi < group.variants.len()
                    invariant
                        mi <= group.variants.len(),
                        group.variants.deep_view() == g.members,
                        files.deep_view() == fsv,
                        buckets.deep_view() == group_digests(g.members.take(mi as int), fsv),
                    decreases group.variants.len() - mi,
                {
                    let ghost p = g.members[mi as int];
                    proof {
                        assert(p == group.variants@[mi as int]@);
                        assert(g.members.take(mi + 1 as int).drop_last() =~= g.members.take(
                            mi as int,
                        ));
                        assert(g.members.take(mi + 1 as int).last() == p);
                    }
                    match lookup_entry(files, &group.variants[mi]) {
                        Option::Some(ei) => {
                            proof {
                                assert(fsv[ei as int] == files@[ei as int]@);
                            }
                            let entry_size_now = files[ei].size;
                            match &files[ei].content {
                                Option::Some(content) => {
                                    proof {
                                        assert(fsv[ei as int].content is Some);
                                        assert(fsv[ei as int].content->0 == content@);
                                    }
                                    let digest = crate::hashing::sha256_digest(content);
                                    let rec = FileRecord {
                                        path: copy_bytes(&group.variants[mi]),
                                        size: entry_size_now,
                                    };
                                    proof {
                                        assert(rec@ == RecordModel {
                                            path: p,
                                            size: fsv[ei as int].size,
                                        });
                                    }
                                    insert_record(&mut buckets, digest, rec);
                                },
                                Option::None => {
                                    proof {
                                        assert(!(fsv[ei as int].content is Some));
                                    }
                                },
                            }
                        },
                        Option::None => {
                        },
                    }
                    mi += 1;
                }
                proof {
                    assert(g.members.take(g.members.len() as int) =~= g.members);
                }

                let mut sets: Vec<Vec<FileRecord>> = Vec::new();
                let ghost bdv = buckets.deep_view();
                let mut bi: usize = 0;
                while bi < buckets.len()
                    invariant
                        bi <= buckets.len(),
                        buckets.deep_view() == bdv,
                        sets.deep_view() == dup_sets_of_digests(bdv.take(bi as int)),
                    decreases buckets.len() - bi,
                {
                    proof {
                        assert(bdv[bi as int] == buckets@[bi as int]@);
                        assert(bdv.take(bi + 1 as int).drop_last() =~= bdv.take(bi as int));
                        assert(bdv.take(bi + 1 as int).last() == bdv[bi as int]);
                    }
                    if buckets[bi].recs.len() > 1 {
                        sets.push(copy_records(&buckets[bi].recs));
                        proof {
                            assert(sets.deep_view() =~= dup_sets_of_digests(
                                bdv.take(bi + 1 as int),
                            ));
                        }
                    } else {
                        proof {
                            assert(sets.deep_view() =~= dup_sets_of_digests(
                                bdv.take(bi + 1 as int),
                            ));
                        }
                    }
                    bi += 1;
                }
                proof {
                    assert(bdv.take(bdv.len() as int) =~= bdv);
                }

                if sets.len() > 0 {
                    let ghost setsv = sets.deep_view();
                    let dg = DuplicateGroup {
                        base_name: copy_bytes(&group.canonical_name),
                        duplicate_sets: sets,
                    };
                    proof {
                        assert(group.canonical_name@ == g.canonical_name);
                        assert(dg@ == DupGroupModel {
                            base_name: g.canonical_name,
                            duplicate_sets: setsv,
                        });
                        assert(group_result(g, fsv) == Option::Some(dg@));
                        let prev = detect_groups(gsv.take(gi as int), fsv);
                        assert(detect_groups(gsv.take(gi + 1 as int), fsv) =~= prev.push(dg@));
                        lemma_seq_sum_push(prev, dg@, group_excess_fn());
                        lemma_seq_sum_push(prev, dg@, group_waste_fn());
                        lemma_detect_groups_bounds(gsv.take(gi + 1 as int), fsv);
                        lemma_total_members_prefix(gsv, gi + 1 as int);
                        lemma_member_sizes_prefix(gsv, fsv, gi + 1 as int);
                        lemma_groups_excess_nonneg(prev);
                        lemma_groups_waste_nonneg(prev);
                    }
                    results.add_duplicate_group(dg);
                    handled = true;
                } else {
                    proof {
                        assert(group_result(g, fsv) is None);
                    }
                }
            } else {
                proof {
                    assert(g.members.len() <= 1);
                    assert(group_result(g, fsv) is None);
                }
            }
            proof {
                if !handled {
                    assert(detect_groups(gsv.take(gi + 1 as int), fsv) =~= detect_groups(
                        gsv.take(gi as int),
                        fsv,
                    ));
                }
            }
            gi += 1;
        }
        proof {
            assert(gsv.take(gsv.len() as int) =~= gsv);
        }
        results
    }
}

} // verus!
