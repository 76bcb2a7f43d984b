//! Structured metainfo values, as delivered by the external decoder.
//!
//! The engine consumes these fields as plain values; decoding the metainfo
//! file itself is an external collaborator's job.

use vstd::prelude::*;

verus! {

#[derive(Clone, Debug)]
pub struct SingleFileInfo {
    pub length: i64,
    pub md5sum: Option<Vec<u8>>,
}

#[derive(Clone, Debug)]
pub struct FileInfo {
    pub length: i64,
    pub md5sum: Option<Vec<u8>>,
    pub path: Vec<String>,
}

#[derive(Clone, Debug)]
pub struct MultiFileInfo {
    pub files: Vec<FileInfo>,
}

#[derive(Clone, Debug)]
pub enum FileMode {
    SingleFile(SingleFileInfo),
    MultiFile(MultiFileInfo),
}

#[derive(Clone, Debug)]
pub struct Metadata {
    pub announce: String,
    pub info_hash: [u8; 20],
    pub name: String,
    pub piece_length: i64,
    pub pieces: Vec<u8>,
    pub mode_info: FileMode,
}

/// Sum of the lengths of a file list.
pub open spec fn sum_lengths(files: Seq<FileInfo>) -> int
    decreases files.len(),
{
    if files.len() == 0 {
        0
    } else {
        sum_lengths(files.drop_last()) + files.last().length
    }
}

/// The total payload length of the torrent in bytes.
pub open spec fn spec_total_length(m: Metadata) -> int {
    match m.mode_info {
        FileMode::SingleFile(sf) => sf.length as int,
        FileMode::MultiFile(mf) => sum_lengths(mf.files@),
    }
}

impl Metadata {
    /// The total number of payload bytes, over all files.
    pub fn get_total_length(&self) -> (r: u32)
        requires
            0 <= spec_total_length(*self) <= u32::MAX,
            (self.mode_info matches FileMode::MultiFile(mf) ==> forall|i: int|
                0 <= i < mf.files@.len() ==> (#[trigger] mf.files@[i]).length >= 0),
        ensures
            r == spec_total_length(*self),
    {
        match &self.mode_info {
            FileMode::SingleFile(sf) => sf.length as u32,
            FileMode::MultiFile(mf) => {
                let mut acc: i64 = 0;
                let mut i: usize = 0;
                while i < mf.files.len()
                    invariant
                        i <= mf.files@.len(),
                        acc == sum_lengths(mf.files@.take(i as int)),
                        forall|k: int| 0 <= k < mf.files@.len() ==> (#[trigger] mf.files@[k]).length
                            >= 0,
                        sum_lengths(mf.files@) <= u32::MAX,
                        acc >= 0,
                    decreases mf.files@.len() - i,
                {
                    proof {
                        lemma_sum_prefix(mf.files@, i as int);
                        lemma_sum_prefix_bound(mf.files@, i + 1);
                    }
                    acc = acc + mf.files[i].length;
                    i += 1;
                }
                proof {
                    assert(mf.files@.take(mf.files@.len() as int) =~= mf.files@);
                }
                acc as u32
            },
        }
    }
}

/// Unfold one step of the prefix sum.
proof fn lemma_sum_prefix(files: Seq<FileInfo>, i: int)
    requires
        0 <= i < files.len(),
    ensures
        sum_lengths(files.take(i + 1)) == sum_lengths(files.take(i)) + files[i].length,
{
    let t = files.take(i + 1);
    assert(t.drop_last() =~= files.take(i));
    assert(t.last() == files[i]);
}

/// With non-negative lengths, every prefix sum is at most the full sum.
proof fn lemma_sum_prefix_bound(files: Seq<FileInfo>, i: int)
    requires
        0 <= i <= files.len(),
        forall|k: int| 0 <= k < files.len() ==> (#[trigger] files[k]).length >= 0,
    ensures
        sum_lengths(files.take(i)) <= sum_lengths(files),
        sum_lengths(files.take(i)) >= 0,
    decreases files.len() - i,
{
    assert forall|k: int| 0 <= k < files.take(i).len() implies (#[trigger] files.take(i)[k]).length
        >= 0 by {
        assert(files.take(i)[k] == files[k]);
    }
    lemma_sum_nonneg(files.take(i));
    if i == files.len() {
        assert(files.take(i) =~= files);
    } else {
        lemma_sum_prefix(files, i);
        lemma_sum_prefix_bound(files, i + 1);
    }
}

/// A sum of non-negative lengths is non-negative.
proof fn lemma_sum_nonneg(files: Seq<FileInfo>)
    requires
        forall|k: int| 0 <= k < files.len() ==> (#[trigger] files[k]).length >= 0,
    ensures
        sum_lengths(files) >= 0,
    decreases files.len(),
{
    if files.len() > 0 {
        lemma_sum_nonneg(files.drop_last());
    }
}

} // verus!
