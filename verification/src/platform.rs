//! The analysis pipeline: group, detect, aggregate.
//!
//! The application enumerates and reads the files and hands them in as
//! plain entries; the pipeline clusters them by normalized name, finds
//! exact duplicates within each cluster, and rolls the statistics up into
//! one result.

use vstd::prelude::*;

use crate::duplicates::{
    detect_groups, entry_size, groups_excess, groups_waste, member_size_fn, member_sizes_sum,
    lemma_total_members_prefix, DuplicateResults, EntryModel, FileEntry, SmartDuplicateDetector,
};
use crate::grouping::{
    find_matching_group, groups_of, insert_path, lemma_groups_cover_all_paths, normalized_name,
    total_members, FileGroup, GroupModel, SmartGrouper,
};
use crate::sums::{lemma_seq_sum_push, lemma_seq_sum_update, seq_sum};
use crate::text::copy_bytes;

verus! {

/// The externally visible result of one analysis run.
#[derive(Clone, Debug, PartialEq, Eq)]
pub struct AnalysisResults {
    /// How many files were analyzed.
    pub total_files: usize,
    /// How many name-similarity groups they formed.
    pub total_groups: usize,
    /// The duplicate sets and their statistics.
    pub duplicate_results: DuplicateResults,
}

/// Plain metadata of one file, for presentation layers.
#[derive(Clone, Debug, PartialEq, Eq)]
pub struct FileInfo {
    pub path: Vec<u8>,
    pub size: u64,
    /// Seconds since the epoch.
    pub modified: u64,
    pub is_directory: bool,
}

/// The paths of the entries, in order.
pub open spec fn entry_paths(files: Seq<EntryModel>) -> Seq<Seq<u8>>
    decreases files.len(),
{
    if files.len() == 0 {
        Seq::empty()
    } else {
        entry_paths(files.drop_last()).push(files.last().path)
    }
}

proof fn lemma_entry_paths_len(files: Seq<EntryModel>)
    ensures
        entry_paths(files).len() == files.len(),
        forall|k: int| 0 <= k < files.len() ==> #[trigger] entry_paths(files)[k] == files[k].path,
    decreases files.len(),
{
    if files.len() > 0 {
        lemma_entry_paths_len(files.drop_last());
        assert forall|k: int|
            0 <= k < files.len() implies #[trigger] entry_paths(files)[k] == files[k].path by {
            if k < files.len() - 1 {
                assert(entry_paths(files)[k] == entry_paths(files.drop_last())[k]);
                assert(files.drop_last()[k] == files[k]);
            }
        }
    }
}

proof fn lemma_member_sizes_insert(
    gs: Seq<GroupModel>,
    p: Seq<u8>,
    threshold: i64,
    files: Seq<EntryModel>,
)
    ensures
        member_sizes_sum(insert_path(gs, p, threshold), files) == member_sizes_sum(gs, files)
            + entry_size(files, p),
{
    let name = normalized_name(p);
    let i = find_matching_group(gs, name, threshold);
    if 0 <= i < gs.len() {
        let g = GroupModel { canonical_name: gs[i].canonical_name, members: gs[i].members.push(p) };
        lemma_seq_sum_update(gs, i, g, crate::duplicates::group_sizes_fn(files));
        lemma_seq_sum_push(gs[i].members, p, member_size_fn(files));
    } else {
        let g = GroupModel { canonical_name: name, members: seq![p] };
        lemma_seq_sum_push(gs, g, crate::duplicates::group_sizes_fn(files));
        assert(seq![p].drop_last() =~= Seq::<Seq<u8>>::empty());
        assert(seq_sum(Seq::<Seq<u8>>::empty(), member_size_fn(files)) == 0);
        assert(seq_sum(seq![p], member_size_fn(files)) == entry_size(files, p));
    }
}

/// The member sizes of the groups sum to the looked-up sizes of the
/// paths: grouping loses no file.
pub proof fn lemma_member_sizes_of_groups(
    paths: Seq<Seq<u8>>,
    threshold: i64,
    files: Seq<EntryModel>,
)
    ensures
        member_sizes_sum(groups_of(paths, threshold), files) == seq_sum(
            paths,
            member_size_fn(files),
        ),
    decreases paths.len(),
{
    if paths.len() == 0 {
    } else {
        lemma_member_sizes_of_groups(paths.drop_last(), threshold, files);
        lemma_member_sizes_insert(
            groups_of(paths.drop_last(), threshold),
            paths.last(),
            threshold,
            files,
        );
    }
}

/// The paths of the entries, in order.
pub fn paths_of_entries(entries: &Vec<FileEntry>) -> (r: Vec<Vec<u8>>)
    ensures
        r.deep_view() == entry_paths(entries.deep_view()),
{
    let ghost esv = entries.deep_view();
    let mut r: Vec<Vec<u8>> = Vec::new();
    proof {
        assert(esv.take(0) =~= Seq::<EntryModel>::empty());
        assert(r.deep_view() =~= entry_paths(esv.take(0)));
    }
    let mut i: usize = 0;
    while i < entries.len()
        invariant
            i <= entries.len(),
            entries.deep_view() == esv,
            r.deep_view() == entry_paths(esv.take(i as int)),
        decreases entries.len() - i,
    {
        proof {
            assert(esv[i as int] == entries@[i as int]@);
            assert(esv.take(i + 1 as int).drop_last() =~= esv.take(i as int));
            assert(esv.take(i + 1 as int).last() == esv[i as int]);
        }
        let ghost old_r = r.deep_view();
        let p = copy_bytes(&entries[i].path);
        let ghost pv = p@;
        r.push(p);
        proof {
            assert forall|k: int|
                0 <= k < r@.len() implies r.deep_view()[k] == old_r.push(pv)[k] by {
                assert(r.deep_view()[k] == r@[k]@);
            }
            assert(r.deep_view() =~= old_r.push(pv));
            assert(r.deep_view() =~= entry_paths(esv.take(i + 1 as int)));
        }
        i += 1;
    }
    proof {
        assert(esv.take(esv.len() as int) =~= esv);
    }
    r
}

/// Runs the whole pipeline over the entries: clusters the paths with the
/// default grouping threshold of 60, detects exact duplicates within each
/// cluster, and aggregates the statistics.  The size bound is a machine
/// limit: the wasted-space counter must fit.
pub fn analyze_entries(entries: &Vec<FileEntry>) -> (r: AnalysisResults)
    requires
        seq_sum(entry_paths(entries.deep_view()), member_size_fn(entries.deep_view()))
            <= u64::MAX,
    ensures
        ({
            let groups = groups_of(entry_paths(entries.deep_view()), 60);
            let dgs = detect_groups(groups, entries.deep_view());
            &&& r.total_files == entries@.len()
            &&& r.total_files == total_members(groups)
            &&& r.total_groups == groups.len()
            &&& r.duplicate_results.duplicate_groups.deep_view() == dgs
            &&& r.duplicate_results.total_duplicates == groups_excess(dgs)
            &&& r.duplicate_results.space_wasted == groups_waste(dgs)
            &&& r.duplicate_results.consistent()
        }),
{
    let ghost esv = entries.deep_view();
    let paths = paths_of_entries(entries);
    let grouper = SmartGrouper::new();
    let groups = grouper.group_files(paths);
    proof {
        lemma_entry_paths_len(esv);
        lemma_groups_cover_all_paths(entry_paths(esv), 60);
        lemma_member_sizes_of_groups(entry_paths(esv), 60, esv);
    }
    let total_files = entries.len();
    let detector = SmartDuplicateDetector::new();
    let duplicate_results = detector.detect_duplicates(&groups, entries);
    let total_groups = groups.len();
    AnalysisResults { total_files, total_groups, duplicate_results }
}

} // verus!
