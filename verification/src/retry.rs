//! Bounded retries for files whose access failed on a lock.
//!
//! A locked file is queued and retried a bounded number of times; a file
//! that exhausts its retries is reported as a permanent failure, never
//! fatal to the run.  The manager holds the policy only: the caller
//! performs the actual file accesses and reports each attempt's outcome.

use vstd::prelude::*;

use crate::grouping::lower_seq;
use crate::text::{bytes_eq, copy_bytes, extend_bytes};

verus! {

/// Whether `needle` occurs contiguously in `hay`.
pub open spec fn has_substring(hay: Seq<u8>, needle: Seq<u8>) -> bool {
    exists|o: int|
        0 <= o && o + needle.len() <= hay.len() && #[trigger] hay.subrange(o, o + needle.len())
            == needle
}

/// Whether `needle` occurs in `hay`; see [`has_substring`].
pub fn find_substring(hay: &Vec<u8>, needle: &Vec<u8>) -> (r: bool)
    ensures
        r == has_substring(hay@, needle@),
{
    let n = needle.len();
    if n > hay.len() {
        proof {
            assert(!has_substring(hay@, needle@));
        }
        return false;
    }
    if n == 0 {
        proof {
            assert(hay@.subrange(0int, 0int + needle@.len() as int) =~= needle@);
            assert(has_substring(hay@, needle@));
        }
        return true;
    }
    let hl = hay.len();
    let last = hl - n;
    let mut o: usize = 0;
    while o <= last
        invariant
            o <= last + 1,
            hl == hay@.len(),
            last == hl - n,
            n == needle@.len(),
            1 <= n <= hl,
            forall|q: int|
                0 <= q < o ==> #[trigger] hay@.subrange(q, q + needle@.len()) != needle@,
        decreases last + 1 - o,
    {
        let mut m: usize = 0;
        let mut matched: bool = true;
        while m < n
            invariant
                m <= n,
                hl == hay@.len(),
                o + n <= hl,
                n == needle@.len(),
                matched == (forall|q: int| 0 <= q < m ==> hay@[o + q] == needle@[q]),
            decreases n - m,
        {
            if hay[o + m] != needle[m] {
                matched = false;
            }
            m += 1;
        }
        if matched {
            proof {
                assert(hay@.subrange(o as int, o + needle@.len()) =~= needle@);
            }
            return true;
        }
        proof {
            assert(hay@.subrange(o as int, o + needle@.len()) != needle@);
        }
        o += 1;
    }
    proof {
        assert forall|q: int|
            0 <= q && q + needle@.len() <= hay@.len() implies #[trigger] hay@.subrange(
            q,
            q + needle@.len(),
        ) != needle@ by {}
    }
    false
}

/// The byte string `access denied`.
pub open spec fn phrase_access_denied() -> Seq<u8> {
    seq![97u8, 99u8, 99u8, 101u8, 115u8, 115u8, 32u8, 100u8, 101u8, 110u8, 105u8, 101u8, 100u8]
}

/// The byte string `being used by another process`.
pub open spec fn phrase_in_use() -> Seq<u8> {
    seq![98u8, 101u8, 105u8, 110u8, 103u8, 32u8, 117u8, 115u8, 101u8, 100u8, 32u8, 98u8, 121u8, 32u8, 97u8, 110u8, 111u8, 116u8, 104u8, 101u8, 114u8, 32u8, 112u8, 114u8, 111u8, 99u8, 101u8, 115u8, 115u8]
}

/// The byte string `sharing violation`.
pub open spec fn phrase_sharing_violation() -> Seq<u8> {
    seq![115u8, 104u8, 97u8, 114u8, 105u8, 110u8, 103u8, 32u8, 118u8, 105u8, 111u8, 108u8, 97u8, 116u8, 105u8, 111u8, 110u8]
}

/// The byte string `file is locked`.
pub open spec fn phrase_file_locked() -> Seq<u8> {
    seq![102u8, 105u8, 108u8, 101u8, 32u8, 105u8, 115u8, 32u8, 108u8, 111u8, 99u8, 107u8, 101u8, 100u8]
}

/// Whether an error message, lower-cased, names a sharing or lock
/// failure that is worth retrying.
pub open spec fn is_lock_error_message(e: Seq<u8>) -> bool {
    let low = lower_seq(e);
    ||| has_substring(low, phrase_access_denied())
    ||| has_substring(low, phrase_in_use())
    ||| has_substring(low, phrase_sharing_violation())
    ||| has_substring(low, phrase_file_locked())
}

/// The byte string `Max retries exceeded: `.
pub open spec fn phrase_max_retries() -> Seq<u8> {
    seq![77u8, 97u8, 120u8, 32u8, 114u8, 101u8, 116u8, 114u8, 105u8, 101u8, 115u8, 32u8, 101u8, 120u8, 99u8, 101u8, 101u8, 100u8, 101u8, 100u8, 58u8, 32u8]
}

/// The outcome of one attempt on a queued file, reported by the caller
/// that performed the access.
#[derive(Clone, Debug, PartialEq, Eq)]
pub enum RetryOutcome {
    /// The file was still locked; nothing was attempted.
    StillLocked,
    /// Processing succeeded.
    Succeeded,
    /// Processing failed with this error message.
    Failed { error: Vec<u8> },
}

/// The mathematical model of a [`RetryOutcome`].
pub enum OutcomeModel {
    StillLocked,
    Succeeded,
    Failed { error: Seq<u8> },
}

impl View for RetryOutcome {
    type V = OutcomeModel;

    open spec fn view(&self) -> OutcomeModel {
        match self {
            RetryOutcome::StillLocked => OutcomeModel::StillLocked,
            RetryOutcome::Succeeded => OutcomeModel::Succeeded,
            RetryOutcome::Failed { error } => OutcomeModel::Failed { error: error@ },
        }
    }
}

impl DeepView for RetryOutcome {
    type V = OutcomeModel;

    open spec fn deep_view(&self) -> OutcomeModel {
        self@
    }
}

/// The final report for one file.
#[derive(Clone, Debug, PartialEq, Eq)]
pub enum ProcessResult {
    Success { path: Vec<u8> },
    Failed { path: Vec<u8>, error: Vec<u8> },
}

/// The mathematical model of a [`ProcessResult`].
pub enum ResultModel {
    Success { path: Seq<u8> },
    Failed { path: Seq<u8>, error: Seq<u8> },
}

impl View for ProcessResult {
    type V = ResultModel;

    open spec fn view(&self) -> ResultModel {
        match self {
            ProcessResult::Success { path } => ResultModel::Success { path: path@ },
            ProcessResult::Failed { path, error } => ResultModel::Failed {
                path: path@,
                error: error@,
            },
        }
    }
}

impl DeepView for ProcessResult {
    type V = ResultModel;

    open spec fn deep_view(&self) -> ResultModel {
        self@
    }
}

/// A queued file: its path, the error that queued it, and how many
/// retries it has seen.
#[derive(Clone, Debug, PartialEq, Eq)]
pub struct LockedFile {
    pub path: Vec<u8>,
    pub error: Vec<u8>,
    pub retry_count: usize,
}

/// The mathematical model of a [`LockedFile`].
pub struct LockedModel {
    pub path: Seq<u8>,
    pub error: Seq<u8>,
    pub retry_count: usize,
}

impl View for LockedFile {
    type V = LockedModel;

    open spec fn view(&self) -> LockedModel {
        LockedModel { path: self.path@, error: self.error@, retry_count: self.retry_count }
    }
}

impl DeepView for LockedFile {
    type V = LockedModel;

    open spec fn deep_view(&self) -> LockedModel {
        self@
    }
}

/// What one round does with one queued file and its reported outcome.
/// A file over the retry bound fails permanently; a still-locked file or
/// a lock-flavored failure is requeued with its count raised; success and
/// other failures are reported.
pub open spec fn pair_report(f: LockedModel, o: OutcomeModel, max_retries: usize) -> Option<
    ResultModel,
> {
    if f.retry_count >= max_retries {
        Option::Some(
            ResultModel::Failed { path: f.path, error: phrase_max_retries() + f.error },
        )
    } else {
        match o {
            OutcomeModel::StillLocked => Option::None,
            OutcomeModel::Succeeded => Option::Some(ResultModel::Success { path: f.path }),
            OutcomeModel::Failed { error } => if is_lock_error_message(error) {
                Option::None
            } else {
                Option::Some(ResultModel::Failed { path: f.path, error: error })
            },
        }
    }
}

/// Whether the file stays queued after this round.
pub open spec fn pair_requeued(f: LockedModel, o: OutcomeModel, max_retries: usize) -> Option<
    LockedModel,
> {
    if f.retry_count >= max_retries {
        Option::None
    } else {
        match o {
            OutcomeModel::StillLocked => Option::Some(
                LockedModel { path: f.path, error: f.error, retry_count: (f.retry_count + 1) as usize },
            ),
            OutcomeModel::Succeeded => Option::None,
            OutcomeModel::Failed { error } => if is_lock_error_message(error) {
                Option::Some(
                    LockedModel {
                        path: f.path,
                        error: f.error,
                        retry_count: (f.retry_count + 1) as usize,
                    },
                )
            } else {
                Option::None
            },
        }
    }
}

/// The reports of one round, in queue order.
pub open spec fn round_reports(
    q: Seq<LockedModel>,
    os: Seq<OutcomeModel>,
    max_retries: usize,
) -> Seq<ResultModel>
    decreases q.len(),
{
    if q.len() == 0 {
        Seq::empty()
    } else {
        round_reports(q.drop_last(), os.drop_last(), max_retries) + match pair_report(
            q.last(),
            os.last(),
            max_retries,
        ) {
            Option::Some(r) => seq![r],
            Option::None => Seq::<ResultModel>::empty(),
        }
    }
}

/// The queue left after one round, in queue order.
pub open spec fn round_requeued(
    q: Seq<LockedModel>,
    os: Seq<OutcomeModel>,
    max_retries: usize,
) -> Seq<LockedModel>
    decreases q.len(),
{
    if q.len() == 0 {
        Seq::empty()
    } else {
        round_requeued(q.drop_last(), os.drop_last(), max_retries) + match pair_requeued(
            q.last(),
            os.last(),
            max_retries,
        ) {
            Option::Some(f) => seq![f],
            Option::None => Seq::<LockedModel>::empty(),
        }
    }
}

/// Queues locked files and applies the bounded-retry policy round by
/// round.
pub struct RetryManager {
    /// Files waiting for another attempt.
    pub locked_files: Vec<LockedFile>,
    /// How many retries a file gets before it fails permanently.
    pub max_retries: usize,
    /// Seconds the caller should wait between rounds.
    pub retry_delay_secs: u64,
}

impl Default for RetryManager {
    /// Three retries, five seconds apart.
    fn default() -> (r: Self)
        ensures
            r.locked_files.deep_view() == Seq::<LockedModel>::empty(),
            r.max_retries == 3,
            r.retry_delay_secs == 5,
    {
        let r = RetryManager { locked_files: Vec::new(), max_retries: 3, retry_delay_secs: 5 };
        proof {
            assert(r.locked_files.deep_view() =~= Seq::<LockedModel>::empty());
        }
        r
    }
}

impl RetryManager {
    /// Queues a file that failed with a lock error.
    pub fn add_locked_file(&mut self, path: Vec<u8>, error: Vec<u8>)
        ensures
            final(self).locked_files.deep_view() == old(self).locked_files.deep_view().push(
                LockedModel { path: path@, error: error@, retry_count: 0 },
            ),
            final(self).max_retries == old(self).max_retries,
            final(self).retry_delay_secs == old(self).retry_delay_secs,
    {
        let ghost old_q = self.locked_files.deep_view();
        let ghost pv = path@;
        let ghost ev = error@;
        self.locked_files.push(LockedFile { path, error, retry_count: 0 });
        proof {
            assert forall|k: int|
                0 <= k < self.locked_files@.len()
                    implies self.locked_files.deep_view()[k] == old_q.push(
                LockedModel { path: pv, error: ev, retry_count: 0 },
            )[k] by {
                assert(self.locked_files.deep_view()[k] == self.locked_files@[k]@);
            }
            assert(self.locked_files.deep_view() =~= old_q.push(
                LockedModel { path: pv, error: ev, retry_count: 0 },
            ));
        }
    }

    /// Whether an error message reads as a sharing or lock failure.
    pub fn is_lock_error(&self, error: &Vec<u8>) -> (r: bool)
        ensures
            r == is_lock_error_message(error@),
    {
        let low = crate::grouping::lower_bytes(error);
        let p1: Vec<u8> = vec![97u8, 99u8, 99u8, 101u8, 115u8, 115u8, 32u8, 100u8, 101u8, 110u8, 105u8, 101u8, 100u8];
        let p2: Vec<u8> = vec![98u8, 101u8, 105u8, 110u8, 103u8, 32u8, 117u8, 115u8, 101u8, 100u8, 32u8, 98u8, 121u8, 32u8, 97u8, 110u8, 111u8, 116u8, 104u8, 101u8, 114u8, 32u8, 112u8, 114u8, 111u8, 99u8, 101u8, 115u8, 115u8];
        let p3: Vec<u8> = vec![115u8, 104u8, 97u8, 114u8, 105u8, 110u8, 103u8, 32u8, 118u8, 105u8, 111u8, 108u8, 97u8, 116u8, 105u8, 111u8, 110u8];
        let p4: Vec<u8> = vec![102u8, 105u8, 108u8, 101u8, 32u8, 105u8, 115u8, 32u8, 108u8, 111u8, 99u8, 107u8, 101u8, 100u8];
        proof {
            assert(p1@ =~= phrase_access_denied());
            assert(p2@ =~= phrase_in_use());
            assert(p3@ =~= phrase_sharing_violation());
            assert(p4@ =~= phrase_file_locked());
        }
        find_substring(&low, &p1) || find_substring(&low, &p2) || find_substring(&low, &p3)
            || find_substring(&low, &p4)
    }

    /// One retry round.  `outcomes` reports, for each queued file in
    /// order, what the caller's attempt did; the round reports successes
    /// and permanent failures and requeues the rest with their counts
    /// raised; see [`round_reports`] and [`round_requeued`].
    pub fn retry_locked_files(&mut self, outcomes: &Vec<RetryOutcome>) -> (results: Vec<
        ProcessResult,
    >)
        requires
            outcomes@.len() == old(self).locked_files@.len(),
        ensures
            results.deep_view() == round_reports(
                old(self).locked_files.deep_view(),
                outcomes.deep_view(),
                old(self).max_retries,
            ),
            final(self).locked_files.deep_view() == round_requeued(
                old(self).locked_files.deep_view(),
                outcomes.deep_view(),
                old(self).max_retries,
            ),
            final(self).max_retries == old(self).max_retries,
            final(self).retry_delay_secs == old(self).retry_delay_secs,
    {
        let ghost q0 = self.locked_files.deep_view();
        let ghost osv = outcomes.deep_view();
        let max_retries = self.max_retries;
        let mut results: Vec<ProcessResult> = Vec::new();
        let mut keep: Vec<LockedFile> = Vec::new();
        proof {
            assert(q0.take(0) =~= Seq::<LockedModel>::empty());
            assert(osv.take(0) =~= Seq::<OutcomeModel>::empty());
            assert(results.deep_view() =~= round_reports(q0.take(0), osv.take(0), max_retries));
            assert(keep.deep_view() =~= round_requeued(q0.take(0), osv.take(0), max_retries));
        }
        let mut i: usize = 0;
        while i < self.locked_files.len()
            invariant
                i <= self.locked_files@.len(),
                self.locked_files.deep_view() == q0,
                outcomes.deep_view() == osv,
                osv.len() == q0.len(),
                max_retries == self.max_retries,
                results.deep_view() == round_reports(
                    q0.take(i as int),
                    osv.take(i as int),
                    max_retries,
                ),
                keep.deep_view() == round_requeued(
                    q0.take(i as int),
                    osv.take(i as int),
                    max_retries,
                ),
            decreases self.locked_files@.len() - i,
        {
            let ghost f = q0[i as int];
            let ghost o = osv[i as int];
            proof {
                assert(f == self.locked_files@[i as int]@);
                assert(o == outcomes@[i as int]@);
                assert(q0.take(i + 1 as int).drop_last() =~= q0.take(i as int));
                assert(osv.take(i + 1 as int).drop_last() =~= osv.take(i as int));
                assert(q0.take(i + 1 as int).last() == f);
                assert(osv.take(i + 1 as int).last() == o);
            }
            let file = &self.locked_files[i];
            if file.retry_count >= max_retries {
                let mut msg: Vec<u8> = vec![77u8, 97u8, 120u8, 32u8, 114u8, 101u8, 116u8, 114u8, 105u8, 101u8, 115u8, 32u8, 101u8, 120u8, 99u8, 101u8, 101u8, 100u8, 101u8, 100u8, 58u8, 32u8];
                proof {
                    assert(msg@ =~= phrase_max_retries());
                }
                extend_bytes(&mut msg, &file.error);
                let rep = ProcessResult::Failed { path: copy_bytes(&file.path), error: msg };
                proof {
                    assert(Option::Some(rep@) == pair_report(f, o, max_retries));
                }
                push_result(&mut results, rep, Ghost(round_reports(q0.take(i as int), osv.take(i as int), max_retries)));
                proof {
                    assert(pair_requeued(f, o, max_retries) is None);
                    assert(keep.deep_view() =~= round_requeued(
                        q0.take(i + 1 as int),
                        osv.take(i + 1 as int),
                        max_retries,
                    ));
                    assert(results.deep_view() =~= round_reports(
                        q0.take(i + 1 as int),
                        osv.take(i + 1 as int),
                        max_retries,
                    ));
                }
            } else {
                match &outcomes[i] {
                    RetryOutcome::StillLocked => {
                        let nf = LockedFile {
                            path: copy_bytes(&file.path),
                            error: copy_bytes(&file.error),
                            retry_count: file.retry_count + 1,
                        };
                        proof {
                            assert(Option::Some(nf@) == pair_requeued(f, o, max_retries));
                        }
                        push_kept(&mut keep, nf, Ghost(round_requeued(q0.take(i as int), osv.take(i as int), max_retries)));
                        proof {
                            assert(pair_report(f, o, max_retries) is None);
                            assert(results.deep_view() =~= round_reports(
                                q0.take(i + 1 as int),
                                osv.take(i + 1 as int),
                                max_retries,
                            ));
                            assert(keep.deep_view() =~= round_requeued(
                                q0.take(i + 1 as int),
                                osv.take(i + 1 as int),
                                max_retries,
                            ));
                        }
                    },
                    RetryOutcome::Succeeded => {
                        let rep = ProcessResult::Success { path: copy_bytes(&file.path) };
                        proof {
                            assert(Option::Some(rep@) == pair_report(f, o, max_retries));
                        }
                        push_result(&mut results, rep, Ghost(round_reports(q0.take(i as int), osv.take(i as int), max_retries)));
                        proof {
                            assert(pair_requeued(f, o, max_retries) is None);
                            assert(keep.deep_view() =~= round_requeued(
                                q0.take(i + 1 as int),
                                osv.take(i + 1 as int),
                                max_retries,
                            ));
                            assert(results.deep_view() =~= round_reports(
                                q0.take(i + 1 as int),
                                osv.take(i + 1 as int),
                                max_retries,
                            ));
                        }
                    },
                    RetryOutcome::Failed { error } => {
                        if self.is_lock_error(error) {
                            let nf = LockedFile {
                                path: copy_bytes(&file.path),
                                error: copy_bytes(&file.error),
                                retry_count: file.retry_count + 1,
                            };
                            proof {
                                assert(Option::Some(nf@) == pair_requeued(f, o, max_retries));
                            }
                            push_kept(&mut keep, nf, Ghost(round_requeued(q0.take(i as int), osv.take(i as int), max_retries)));
                            proof {
                                assert(pair_report(f, o, max_retries) is None);
                                assert(results.deep_view() =~= round_reports(
                                    q0.take(i + 1 as int),
                                    osv.take(i + 1 as int),
                                    max_retries,
                                ));
                                assert(keep.deep_view() =~= round_requeued(
                                    q0.take(i + 1 as int),
                                    osv.take(i + 1 as int),
                                    max_retries,
                                ));
                            }
                        } else {
                            let rep = ProcessResult::Failed {
                                path: copy_bytes(&file.path),
                                error: copy_bytes(error),
                            };
                            proof {
                                assert(Option::Some(rep@) == pair_report(f, o, max_retries));
                            }
                            push_result(&mut results, rep, Ghost(round_reports(q0.take(i as int), osv.take(i as int), max_retries)));
                            proof {
                                assert(pair_requeued(f, o, max_retries) is None);
                                assert(keep.deep_view() =~= round_requeued(
                                    q0.take(i + 1 as int),
                                    osv.take(i + 1 as int),
                                    max_retries,
                                ));
                                assert(results.deep_view() =~= round_reports(
                                    q0.take(i + 1 as int),
                                    osv.take(i + 1 as int),
                                    max_retries,
                                ));
                            }
                        }
                    },
                }
            }
            i += 1;
        }
        proof {
            assert(q0.take(q0.len() as int) =~= q0);
            assert(osv.take(osv.len() as int) =~= osv);
        }
        self.locked_files = keep;
        results
    }
}

/// Appends one report.
fn push_result(results: &mut Vec<ProcessResult>, rep: ProcessResult, Ghost(prev): Ghost<Seq<ResultModel>>)
    requires
        old(results).deep_view() == prev,
    ensures
        final(results).deep_view() == prev.push(rep@),
{
    let ghost rv = rep@;
    results.push(rep);
    proof {
        assert forall|k: int|
            0 <= k < results@.len() implies results.deep_view()[k] == prev.push(rv)[k] by {
            assert(results.deep_view()[k] == results@[k]@);
        }
        assert(results.deep_view() =~= prev.push(rv));
    }
}

/// Appends one requeued file.
fn push_kept(keep: &mut Vec<LockedFile>, nf: LockedFile, Ghost(prev): Ghost<Seq<LockedModel>>)
    requires
        old(keep).deep_view() == prev,
    ensures
        final(keep).deep_view() == prev.push(nf@),
{
    let ghost nv = nf@;
    keep.push(nf);
    proof {
        assert forall|k: int|
            0 <= k < keep@.len() implies keep.deep_view()[k] == prev.push(nv)[k] by {
            assert(keep.deep_view()[k] == keep@[k]@);
        }
        assert(keep.deep_view() =~= prev.push(nv));
    }
}

/// Whether `path` is locked by another process.  Answering truly needs a
/// platform sharing-mode probe that this library does not perform, so no
/// file is ever reported locked.
pub fn is_file_locked(_path: &Vec<u8>) -> (r: bool)
    ensures
        r == false,
{
    false
}

} // verus!
