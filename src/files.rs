//! Mapping of byte ranges of the torrent onto its files.

use vstd::prelude::*;

verus! {

/// A part of a byte range that lies in one file.
#[derive(Clone, Copy, Debug, PartialEq, Eq, Structural)]
pub struct FileSegment {
    pub file_index: usize,
    /// Offset of the part inside its file.
    pub file_offset: u64,
    pub len: u64,
}

/// Offset of file `i` in the concatenation of the files.
pub open spec fn file_start(lens: Seq<u64>, i: int) -> int
    decreases i,
{
    if i <= 0 {
        0
    } else {
        file_start(lens, i - 1) + lens[i - 1]
    }
}

/// Offset of a segment in the concatenation of the files.
pub open spec fn segment_start(lens: Seq<u64>, s: FileSegment) -> int {
    file_start(lens, s.file_index as int) + s.file_offset
}

/// `segs` are, in order, the non-empty parts of `[offset, offset + len)` in each file.
pub open spec fn segments_cover(lens: Seq<u64>, segs: Seq<FileSegment>, offset: int,
    len: int) -> bool {
    &&& (len == 0 <==> segs.len() == 0)
    &&& forall|k: int|
        0 <= k < segs.len() ==> {
            &&& (#[trigger] segs[k]).file_index < lens.len()
            &&& segs[k].len > 0
            &&& segs[k].file_offset + segs[k].len <= lens[segs[k].file_index as int]
        }
    &&& forall|k: int| 0 <= k < segs.len() - 1 ==> (#[trigger] segs[k]).file_index < segs[k
        + 1].file_index
    &&& segs.len() > 0 ==> segment_start(lens, segs[0]) == offset
    &&& forall|k: int|
        0 <= k < segs.len() - 1 ==> segment_start(lens, #[trigger] segs[k]) + segs[k].len
            == segment_start(lens, segs[k + 1])
    &&& segs.len() > 0 ==> segment_start(lens, segs.last()) + segs.last().len == offset + len
}

pub proof fn lemma_file_start_mono(lens: Seq<u64>, i: int, j: int)
    requires
        0 <= i <= j,
    ensures
        file_start(lens, i) <= file_start(lens, j),
    decreases j - i,
{
    if i < j {
        lemma_file_start_mono(lens, i, j - 1);
    }
}

/// Splits the range `[offset, offset + len)` of the concatenated files into the parts that
/// each file holds; `None` when the range runs past the last file.
pub fn file_segments(file_lengths: &Vec<u64>, offset: u64,
    len: u64) -> (r: Option<Vec<FileSegment>>)
    requires
        file_start(file_lengths@, file_lengths@.len() as int) <= u64::MAX,
    ensures
        r is None <==> offset + len > file_start(file_lengths@, file_lengths@.len() as int),
        r matches Some(segs) ==> segments_cover(file_lengths@, segs@, offset as int, len as int),
{
    let lens = file_lengths;
    let n = lens.len();
    let mut segs: Vec<FileSegment> = Vec::new();
    let mut start: u64 = 0;
    let mut pos: u64 = offset;
    let mut remaining: u64 = len;
    let mut i: usize = 0;
    while i < n
        invariant
            n == lens@.len(),
            file_start(lens@, n as int) <= u64::MAX,
            i <= n,
            start == file_start(lens@, i as int),
            pos + remaining == offset + len,
            pos >= offset,
            remaining > 0 ==> pos >= start,
            remaining == 0 ==> segs@.len() > 0 || len == 0,
            len == 0 ==> segs@.len() == 0,
            segs@.len() == 0 ==> pos == offset,
            segs@.len() > 0 ==> pos <= start,
            forall|k: int|
                0 <= k < segs@.len() ==> {
                    &&& (#[trigger] segs@[k]).file_index < i
                    &&& segs@[k].len > 0
                    &&& segs@[k].file_offset + segs@[k].len <= lens@[segs@[k].file_index as int]
                },
            forall|k: int| 0 <= k < segs@.len() - 1
                ==> (#[trigger] segs@[k]).file_index < segs@[k + 1].file_index,
            segs@.len() > 0 ==> segment_start(lens@, segs@[0]) == offset,
            forall|k: int|
                0 <= k < segs@.len() - 1 ==> segment_start(lens@, #[trigger] segs@[k])
                    + segs@[k].len
                    == segment_start(lens@, segs@[k + 1]),
            segs@.len() > 0 ==> segment_start(lens@, segs@.last()) + segs@.last().len == pos,
        decreases n - i,
    {
        proof {
            lemma_file_start_mono(lens@, i + 1, n as int);
        }
        let end = start + lens[i];
        if remaining > 0 && pos < end {
            let avail = end - pos;
            let take = if avail < remaining { avail } else { remaining };
            let ghost prev = segs@;
            segs.push(FileSegment { file_index: i, file_offset: pos - start, len: take });
            proof {
                assert(segs@[segs@.len() - 1] == FileSegment { file_index: i,
                    file_offset: (pos - start) as u64, len: take });
                assert forall|k: int| 0 <= k < segs@.len() - 1
                    implies (#[trigger] segs@[k]).file_index < segs@[k + 1].file_index by {
                    if k + 1 < prev.len() {
                        assert(segs@[k] == prev[k] && segs@[k + 1] == prev[k + 1]);
                    } else {
                        assert(segs@[k] == prev[k]);
                    }
                }
                assert forall|k: int| 0 <= k < segs@.len() - 1 implies segment_start(lens@,
                    #[trigger] segs@[k]) + segs@[k].len
                    == segment_start(lens@, segs@[k + 1]) by {
                    if k + 1 < prev.len() {
                        assert(segs@[k] == prev[k] && segs@[k + 1] == prev[k + 1]);
                    } else {
                        assert(segs@[k] == prev[k]);
                    }
                }
                assert forall|k: int| 0 <= k < segs@.len() implies {
                    &&& (#[trigger] segs@[k]).file_index < i + 1
                    &&& segs@[k].len > 0
                    &&& segs@[k].file_offset + segs@[k].len <= lens@[segs@[k].file_index as int]
                } by {
                    if k < prev.len() {
                        assert(segs@[k] == prev[k]);
                    }
                }
                if prev.len() > 0 {
                    assert(segs@[0] == prev[0]);
                }
            }
            pos = pos + take;
            remaining = remaining - take;
        }
        start = end;
        i = i + 1;
    }
    if remaining > 0 || pos > start {
        return None;
    }
    Some(segs)
}

} // verus!
