//! Document classification for archive members.
//!
//! Reading an archive is the caller's business; the library decides which
//! member names count as documents and assembles the per-member records.

use vstd::prelude::*;

use crate::grouping::{lemma_rfind_dot_at, lemma_rfind_dot_none, lower_bytes, lower_seq, rfind_dot};
use crate::text::{bytes_eq, copy_bytes, copy_range};

verus! {

/// The extension of a file name: what follows the last `.`, unless that
/// dot leads the name.
pub open spec fn extension_of(name: Seq<u8>) -> Seq<u8> {
    let d = rfind_dot(name);
    if d > 0 {
        name.skip(d + 1)
    } else {
        Seq::empty()
    }
}

/// Whether a lower-cased extension names a document format.
pub open spec fn is_document_ext(ext: Seq<u8>) -> bool {
    ||| ext == seq![116u8, 120u8, 116u8]  // txt
    ||| ext == seq![109u8, 100u8]  // md
    ||| ext == seq![114u8, 115u8, 116u8]  // rst
    ||| ext == seq![100u8, 111u8, 99u8]  // doc
    ||| ext == seq![100u8, 111u8, 99u8, 120u8]  // docx
    ||| ext == seq![112u8, 100u8, 102u8]  // pdf
    ||| ext == seq![120u8, 108u8, 115u8]  // xls
    ||| ext == seq![120u8, 108u8, 115u8, 120u8]  // xlsx
    ||| ext == seq![112u8, 112u8, 116u8]  // ppt
    ||| ext == seq![112u8, 112u8, 116u8, 120u8]  // pptx
    ||| ext == seq![114u8, 116u8, 102u8]  // rtf
    ||| ext == seq![111u8, 100u8, 116u8]  // odt
    ||| ext == seq![111u8, 100u8, 115u8]  // ods
    ||| ext == seq![111u8, 100u8, 112u8]  // odp
}

/// Whether a file name, by its extension, names a document.
pub open spec fn is_document_name(name: Seq<u8>) -> bool {
    is_document_ext(lower_seq(extension_of(name)))
}

/// A member of an archive: its name and how many bytes of text it held.
#[derive(Clone, Debug, PartialEq, Eq)]
pub struct ArchiveEntry {
    pub file_name: Vec<u8>,
    pub content_length: usize,
}

/// The mathematical model of an [`ArchiveEntry`].
pub struct ArchiveEntryModel {
    pub file_name: Seq<u8>,
    pub content_length: usize,
}

impl View for ArchiveEntry {
    type V = ArchiveEntryModel;

    open spec fn view(&self) -> ArchiveEntryModel {
        ArchiveEntryModel { file_name: self.file_name@, content_length: self.content_length }
    }
}

impl DeepView for ArchiveEntry {
    type V = ArchiveEntryModel;

    open spec fn deep_view(&self) -> ArchiveEntryModel {
        self@
    }
}

/// One document found inside an archive.
#[derive(Clone, Debug, PartialEq, Eq)]
pub struct ArchiveDuplicateInfo {
    pub archive_path: Vec<u8>,
    pub file_name: Vec<u8>,
    pub content_length: usize,
    /// Whether the member matched a file outside the archive; the
    /// classifier leaves this false for a later pass to fill.
    pub is_duplicate: bool,
}

/// The mathematical model of an [`ArchiveDuplicateInfo`].
pub struct ArchiveInfoModel {
    pub archive_path: Seq<u8>,
    pub file_name: Seq<u8>,
    pub content_length: usize,
    pub is_duplicate: bool,
}

impl View for ArchiveDuplicateInfo {
    type V = ArchiveInfoModel;

    open spec fn view(&self) -> ArchiveInfoModel {
        ArchiveInfoModel {
            archive_path: self.archive_path@,
            file_name: self.file_name@,
            content_length: self.content_length,
            is_duplicate: self.is_duplicate,
        }
    }
}

impl DeepView for ArchiveDuplicateInfo {
    type V = ArchiveInfoModel;

    open spec fn deep_view(&self) -> ArchiveInfoModel {
        self@
    }
}

/// The records for the members of one archive that name documents, in
/// member order, none yet marked as a duplicate.
pub open spec fn document_entries_of(
    archive_path: Seq<u8>,
    entries: Seq<ArchiveEntryModel>,
) -> Seq<ArchiveInfoModel>
    decreases entries.len(),
{
    if entries.len() == 0 {
        Seq::empty()
    } else {
        document_entries_of(archive_path, entries.drop_last()) + if is_document_name(
            entries.last().file_name,
        ) {
            seq![
                ArchiveInfoModel {
                    archive_path: archive_path,
                    file_name: entries.last().file_name,
                    content_length: entries.last().content_length,
                    is_duplicate: false,
                },
            ]
        } else {
            Seq::<ArchiveInfoModel>::empty()
        }
    }
}

/// Classifies archive members as documents.
pub struct ArchiveProcessor;

impl ArchiveProcessor {
    /// A processor.
    pub fn new() -> (r: Self) {
        ArchiveProcessor
    }

    /// Whether `filename`, by its extension, names a document; see
    /// [`is_document_name`].
    pub fn is_document_file(&self, filename: &Vec<u8>) -> (r: bool)
        ensures
            r == is_document_name(filename@),
    {
        // Extension: after the last dot, unless the dot leads.
        let mut dot: usize = 0;
        let mut found_dot: bool = false;
        let mut j: usize = 0;
        while j < filename.len()
            invariant
                j <= filename.len(),
                found_dot ==> dot < j && filename@[dot as int] == 46,
                found_dot ==> forall|k: int| dot < k < j ==> filename@[k] != 46,
                !found_dot ==> forall|k: int| 0 <= k < j ==> filename@[k] != 46,
            decreases filename.len() - j,
        {
            if filename[j] == 46 {
                dot = j;
                found_dot = true;
            }
            j += 1;
        }
        let ext = if found_dot && dot > 0 {
            proof {
                lemma_rfind_dot_at(filename@, dot as int);
            }
            copy_range(filename, dot + 1, filename.len())
        } else {
            proof {
                if found_dot {
                    lemma_rfind_dot_at(filename@, dot as int);
                } else {
                    lemma_rfind_dot_none(filename@);
                }
            }
            Vec::new()
        };
        proof {
            assert(ext@ =~= extension_of(filename@));
        }
        let low = lower_bytes(&ext);
        is_document_ext_exec(&low)
    }

    /// The document records of one archive's members; see
    /// [`document_entries_of`].
    pub fn collect_document_entries(
        &self,
        archive_path: &Vec<u8>,
        entries: &Vec<ArchiveEntry>,
    ) -> (r: Vec<ArchiveDuplicateInfo>)
        ensures
            r.deep_view() == document_entries_of(archive_path@, entries.deep_view()),
    {
        let ghost ap = archive_path@;
        let ghost esv = entries.deep_view();
        let mut r: Vec<ArchiveDuplicateInfo> = Vec::new();
        proof {
            assert(esv.take(0) =~= Seq::<ArchiveEntryModel>::empty());
            assert(r.deep_view() =~= document_entries_of(ap, esv.take(0)));
        }
        let mut i: usize = 0;
        while i < entries.len()
            invariant
                i <= entries.len(),
                entries.deep_view() == esv,
                r.deep_view() == document_entries_of(ap, esv.take(i as int)),
                ap == archive_path@,
            decreases entries.len() - i,
        {
            proof {
                assert(esv[i as int] == entries@[i as int]@);
                assert(esv.take(i + 1 as int).drop_last() =~= esv.take(i as int));
                assert(esv.take(i + 1 as int).last() == esv[i as int]);
            }
            if self.is_document_file(&entries[i].file_name) {
                let info = ArchiveDuplicateInfo {
                    archive_path: copy_bytes(archive_path),
                    file_name: copy_bytes(&entries[i].file_name),
                    content_length: entries[i].content_length,
                    is_duplicate: false,
                };
                let ghost old_r = r.deep_view();
                let ghost iv = info@;
                r.push(info);
                proof {
                    assert forall|k: int|
                        0 <= k < r@.len() implies r.deep_view()[k] == old_r.push(iv)[k] by {
                        assert(r.deep_view()[k] == r@[k]@);
                    }
                    assert(r.deep_view() =~= old_r.push(iv));
                    assert(r.deep_view() =~= document_entries_of(ap, esv.take(i + 1 as int)));
                }
            } else {
                proof {
                    assert(r.deep_view() =~= document_entries_of(ap, esv.take(i + 1 as int)));
                }
            }
            i += 1;
        }
        proof {
            assert(esv.take(esv.len() as int) =~= esv);
        }
        r
    }
}

/// Whether a lower-cased extension names a document format; see
/// [`is_document_ext`].
fn is_document_ext_exec(ext: &Vec<u8>) -> (r: bool)
    ensures
        r == is_document_ext(ext@),
{
    let w0: Vec<u8> = vec![116u8, 120u8, 116u8];
    let w1: Vec<u8> = vec![109u8, 100u8];
    let w2: Vec<u8> = vec![114u8, 115u8, 116u8];
    let w3: Vec<u8> = vec![100u8, 111u8, 99u8];
    let w4: Vec<u8> = vec![100u8, 111u8, 99u8, 120u8];
    let w5: Vec<u8> = vec![112u8, 100u8, 102u8];
    let w6: Vec<u8> = vec![120u8, 108u8, 115u8];
    let w7: Vec<u8> = vec![120u8, 108u8, 115u8, 120u8];
    let w8: Vec<u8> = vec![112u8, 112u8, 116u8];
    let w9: Vec<u8> = vec![112u8, 112u8, 116u8, 120u8];
    let w10: Vec<u8> = vec![114u8, 116u8, 102u8];
    let w11: Vec<u8> = vec![111u8, 100u8, 116u8];
    let w12: Vec<u8> = vec![111u8, 100u8, 115u8];
    let w13: Vec<u8> = vec![111u8, 100u8, 112u8];
    proof {
        assert(w0@ =~= seq![116u8, 120u8, 116u8]);
        assert(w1@ =~= seq![109u8, 100u8]);
        assert(w2@ =~= seq![114u8, 115u8, 116u8]);
        assert(w3@ =~= seq![100u8, 111u8, 99u8]);
        assert(w4@ =~= seq![100u8, 111u8, 99u8, 120u8]);
        assert(w5@ =~= seq![112u8, 100u8, 102u8]);
        assert(w6@ =~= seq![120u8, 108u8, 115u8]);
        assert(w7@ =~= seq![120u8, 108u8, 115u8, 120u8]);
        assert(w8@ =~= seq![112u8, 112u8, 116u8]);
        assert(w9@ =~= seq![112u8, 112u8, 116u8, 120u8]);
        assert(w10@ =~= seq![114u8, 116u8, 102u8]);
        assert(w11@ =~= seq![111u8, 100u8, 116u8]);
        assert(w12@ =~= seq![111u8, 100u8, 115u8]);
        assert(w13@ =~= seq![111u8, 100u8, 112u8]);
    }
    bytes_eq(ext, &w0) || bytes_eq(ext, &w1) || bytes_eq(ext, &w2) || bytes_eq(ext, &w3) || bytes_eq(ext, &w4) || bytes_eq(ext, &w5) || bytes_eq(ext, &w6) || bytes_eq(ext, &w7) || bytes_eq(ext, &w8) || bytes_eq(ext, &w9) || bytes_eq(ext, &w10) || bytes_eq(ext, &w11) || bytes_eq(ext, &w12) || bytes_eq(ext, &w13)
}

} // verus!
