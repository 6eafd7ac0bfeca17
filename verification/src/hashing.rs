//! Content hashing and hash-bucketing of files.
//!
//! Files are identified as exact duplicates by their SHA-256 digest: two
//! files with the same digest are treated as byte-identical.  The hasher
//! keeps one bucket per digest, in first-seen order, so a run over the same
//! records is deterministic.

use vstd::prelude::*;

use crate::text::{copy_bytes, copy_byte_vecs};

verus! {

/// The SHA-256 digest of a byte string.  The digest is a function of the
/// bytes alone, the same in every process and on every machine.
pub uninterp spec fn sha256_of(bytes: Seq<u8>) -> Seq<u8>;

/// Relies on sha2's `Sha256::digest` (through the `Digest` trait): the
/// SHA-256 digest of the input bytes.
#[verifier::external_body]
pub(crate) fn sha256_digest(bytes: &Vec<u8>) -> (r: Vec<u8>)
    ensures
        r@ == sha256_of(bytes@),
{
    <sha2::Sha256 as sha2::Digest>::digest(bytes.as_slice()).to_vec()
}

/// Hash correctness: the recorded hash is a function of the file's bytes,
/// so two files with identical content always receive identical hashes.
/// (That files with differing content receive differing hashes is the
/// collision resistance of SHA-256, assumed, not stated.)
pub proof fn lemma_hash_deterministic(a: Seq<u8>, b: Seq<u8>)
    requires
        a == b,
    ensures
        sha256_of(a) == sha256_of(b),
{
}

/// One digest and the paths whose content hashed to it, in arrival order.
#[derive(Clone, Debug, PartialEq, Eq)]
pub struct HashBucket {
    pub digest: Vec<u8>,
    pub paths: Vec<Vec<u8>>,
}

/// The mathematical model of a [`HashBucket`].
pub struct BucketModel {
    pub digest: Seq<u8>,
    pub paths: Seq<Seq<u8>>,
}

impl View for HashBucket {
    type V = BucketModel;

    open spec fn view(&self) -> BucketModel {
        BucketModel { digest: self.digest@, paths: self.paths.deep_view() }
    }
}

impl DeepView for HashBucket {
    type V = BucketModel;

    open spec fn deep_view(&self) -> BucketModel {
        self@
    }
}

/// Index of the bucket holding `digest`, or -1.
pub open spec fn find_bucket(bs: Seq<BucketModel>, digest: Seq<u8>) -> int
    decreases bs.len(),
{
    if bs.len() == 0 {
        -1
    } else if bs[0].digest == digest {
        0
    } else {
        let r = find_bucket(bs.drop_first(), digest);
        if r == -1 {
            -1
        } else {
            r + 1
        }
    }
}

/// One recording step: `path` joins the bucket of `digest`, or a new bucket
/// is appended.
pub open spec fn bucket_insert(bs: Seq<BucketModel>, digest: Seq<u8>, path: Seq<u8>) -> Seq<
    BucketModel,
> {
    let i = find_bucket(bs, digest);
    if 0 <= i < bs.len() {
        bs.update(i, BucketModel { digest: bs[i].digest, paths: bs[i].paths.push(path) })
    } else {
        bs.push(BucketModel { digest: digest, paths: seq![path] })
    }
}

/// No two buckets share a digest.
pub open spec fn buckets_distinct(bs: Seq<BucketModel>) -> bool {
    forall|j: int, k: int| 0 <= j < k < bs.len() ==> bs[j].digest != bs[k].digest
}

proof fn lemma_find_bucket_none(bs: Seq<BucketModel>, digest: Seq<u8>)
    requires
        forall|k: int| 0 <= k < bs.len() ==> bs[k].digest != digest,
    ensures
        find_bucket(bs, digest) == -1,
    decreases bs.len(),
{
    if bs.len() > 0 {
        lemma_find_bucket_none(bs.drop_first(), digest);
    }
}

proof fn lemma_find_bucket_at(bs: Seq<BucketModel>, digest: Seq<u8>, i: int)
    requires
        0 <= i < bs.len(),
        forall|k: int| 0 <= k < i ==> bs[k].digest != digest,
        bs[i].digest == digest,
    ensures
        find_bucket(bs, digest) == i,
    decreases bs.len(),
{
    if i > 0 {
        lemma_find_bucket_at(bs.drop_first(), digest, i - 1);
    }
}

/// Buckets files by the SHA-256 digest of their content.
pub struct FileHasher {
    /// One bucket per distinct digest, in first-seen order.
    pub duplicates: Vec<HashBucket>,
}

impl FileHasher {
    /// Whether no two buckets share a digest; established by [`FileHasher::new`]
    /// and preserved by [`FileHasher::record_file`].
    pub open spec fn well_formed(&self) -> bool {
        buckets_distinct(self.duplicates.deep_view())
    }

    /// An empty hasher.
    pub fn new() -> (r: Self)
        ensures
            r.duplicates.deep_view() == Seq::<BucketModel>::empty(),
            r.well_formed(),
    {
        let r = FileHasher { duplicates: Vec::new() };
        proof {
            assert(r.duplicates.deep_view() =~= Seq::<BucketModel>::empty());
        }
        r
    }

    /// The SHA-256 digest of `content`.
    pub fn calculate_hash(&self, content: &Vec<u8>) -> (r: Vec<u8>)
        ensures
            r@ == sha256_of(content@),
    {
        sha256_digest(content)
    }

    /// Hashes `content` and files `path` under its digest.
    pub fn record_file(&mut self, path: Vec<u8>, content: &Vec<u8>)
        requires
            old(self).well_formed(),
        ensures
            final(self).duplicates.deep_view() == bucket_insert(
                old(self).duplicates.deep_view(),
                sha256_of(content@),
                path@,
            ),
            final(self).well_formed(),
    {
        let digest = sha256_digest(content);
        let ghost dv = digest@;
        let ghost pv = path@;
        let ghost bs0 = self.duplicates.deep_view();

        let mut idx: usize = 0;
        let mut found: bool = false;
        while !found && idx < self.duplicates.len()
            invariant
                idx <= self.duplicates.len(),
                self.duplicates.deep_view() == bs0,
                digest@ == dv,
                forall|k: int| 0 <= k < idx ==> bs0[k].digest != dv,
                found ==> idx < bs0.len() && bs0[idx as int].digest == dv,
            decreases self.duplicates.len() - idx, if found {
                0int
            } else {
                1int
            },
        {
            proof {
                assert(self.duplicates.deep_view()[idx as int] == self.duplicates@[idx as int]@);
            }
            if crate::text::bytes_eq(&self.duplicates[idx].digest, &digest) {
                found = true;
            } else {
                idx += 1;
            }
        }

        if found {
            proof {
                lemma_find_bucket_at(bs0, dv, idx as int);
                assert(bs0[idx as int] == self.duplicates@[idx as int]@);
            }
            let mut b = self.duplicates.remove(idx);
            b.paths.push(path);
            proof {
                assert(b.paths.deep_view() =~~= bs0[idx as int].paths.push(pv));
            }
            self.duplicates.insert(idx, b);
            proof {
                let updated = BucketModel {
                    digest: bs0[idx as int].digest,
                    paths: bs0[idx as int].paths.push(pv),
                };
                assert(self.duplicates.deep_view() =~= bs0.update(idx as int, updated));
                assert(self.duplicates.deep_view() == bucket_insert(bs0, dv, pv));
            }
        } else {
            proof {
                lemma_find_bucket_none(bs0, dv);
            }
            let mut paths: Vec<Vec<u8>> = Vec::new();
            paths.push(path);
            proof {
                assert(paths.deep_view() =~~= seq![pv]);
            }
            self.duplicates.push(HashBucket { digest, paths });
            proof {
                assert(self.duplicates.deep_view() =~= bs0.push(
                    BucketModel { digest: dv, paths: seq![pv] },
                ));
                assert(self.duplicates.deep_view() == bucket_insert(bs0, dv, pv));
            }
        }
    }

    /// The path lists of all buckets with at least two members; see
    /// [`duplicate_sets_of`].
    pub fn get_duplicates(&self) -> (r: Vec<Vec<Vec<u8>>>)
        ensures
            r.deep_view() == duplicate_sets_of(self.duplicates.deep_view()),
    {
        let ghost bs = self.duplicates.deep_view();
        let mut r: Vec<Vec<Vec<u8>>> = Vec::new();
        let mut i: usize = 0;
        while i < self.duplicates.len()
            invariant
                i <= self.duplicates.len(),
                self.duplicates.deep_view() == bs,
                r.deep_view() == duplicate_sets_of(bs.take(i as int)),
            decreases self.duplicates.len() - i,
        {
            proof {
                assert(bs[i as int] == self.duplicates@[i as int]@);
                assert(bs.take(i + 1 as int).drop_last() =~= bs.take(i as int));
                assert(bs.take(i + 1 as int).last() == bs[i as int]);
            }
            if self.duplicates[i].paths.len() > 1 {
                r.push(copy_byte_vecs(&self.duplicates[i].paths));
                proof {
                    assert(r.deep_view() =~= duplicate_sets_of(bs.take(i + 1 as int)));
                }
            } else {
                proof {
                    assert(r.deep_view() =~= duplicate_sets_of(bs.take(i + 1 as int)));
                }
            }
            i += 1;
        }
        proof {
            assert(bs.take(bs.len() as int) =~= bs);
        }
        r
    }
}

/// The path lists of the buckets with two or more members, in bucket order.
pub open spec fn duplicate_sets_of(bs: Seq<BucketModel>) -> Seq<Seq<Seq<u8>>>
    decreases bs.len(),
{
    if bs.len() == 0 {
        Seq::empty()
    } else {
        duplicate_sets_of(bs.drop_last()) + if bs.last().paths.len() > 1 {
            seq![bs.last().paths]
        } else {
            Seq::empty()
        }
    }
}

} // verus!
