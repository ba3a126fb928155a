//! Absolute-path resolution, as a specification: splitting a path into its
//! non-empty segments and walking them down from the root directory.

use vstd::prelude::*;

use crate::FsError;
use crate::bootsector::BootSector;
use crate::chain::spec_chain_content;
use crate::fs::spec_entries_find;
use crate::fs::spec_root_entry_bytes;
use crate::fs::spec_root_find;
use crate::names::spec_normalize_name;

verus! {

/// How many bytes the first path segment occupies: the index of the first
/// separator, or the whole length when there is none.
pub open spec fn spec_seg_len(p: Seq<u8>) -> int
    decreases p.len(),
{
    if p.len() == 0 {
        0
    } else if p[0] == 47 {
        0
    } else {
        1 + spec_seg_len(p.skip(1))
    }
}

/// The first segment runs up to the first separator: nothing before it is a
/// separator, and what bounds it (if anything) is one.
pub proof fn lemma_seg_len(p: Seq<u8>)
    ensures
        0 <= spec_seg_len(p) <= p.len(),
        forall|i: int| 0 <= i < spec_seg_len(p) ==> p[i] != 47,
        spec_seg_len(p) < p.len() ==> p[spec_seg_len(p)] == 47,
    decreases p.len(),
{
    if p.len() == 0 || p[0] == 47 {
    } else {
        lemma_seg_len(p.skip(1));
        assert forall|i: int| 0 <= i < spec_seg_len(p) implies p[i] != 47 by {
            if i >= 1 {
                assert(p.skip(1)[i - 1] != 47);
            }
        }
        if spec_seg_len(p) < p.len() {
            assert(p.skip(1)[spec_seg_len(p) - 1] == 47);
        }
    }
}

/// The non-empty segments of a path, in order: runs of bytes between
/// separators, with empty runs from repeated separators dropped.
pub open spec fn spec_split_segments(p: Seq<u8>) -> Seq<Seq<u8>>
    decreases p.len(),
    via spec_split_segments_decreases
{
    if p.len() == 0 {
        Seq::empty()
    } else if p[0] == 47 {
        spec_split_segments(p.skip(1))
    } else {
        let j = spec_seg_len(p);
        seq![p.take(j)] + spec_split_segments(p.skip(j))
    }
}

#[via_fn]
proof fn spec_split_segments_decreases(p: Seq<u8>) {
    if p.len() > 0 && p[0] != 47 {
        lemma_seg_len(p);
    }
}

/// Resolution of the path segments after the first, walking down from the
/// 32-byte record `entry`: each further segment requires the record so far
/// to carry the directory attribute and to contain an entry of that
/// normalized name; the last resolved record is the result.
pub open spec fn spec_resolve_from(
    disk: Seq<u8>,
    boot: BootSector,
    entry: Seq<u8>,
    segs: Seq<Seq<u8>>,
    k: int,
) -> Result<Option<Seq<u8>>, FsError>
    decreases segs.len() - k,
{
    if k < 1 || k >= segs.len() {
        Ok(Some(entry))
    } else if entry[11] & 0x10 == 0 {
        Ok(None)
    } else {
        match spec_chain_content(disk, boot, crate::bytes::spec_le16(entry, 26)) {
            Err(e) => Err(e),
            Ok(all) => match spec_entries_find(all, spec_normalize_name(segs[k]), 0) {
                None => Ok(None),
                Some(i) => spec_resolve_from(
                    disk,
                    boot,
                    all.subrange(i * 32, i * 32 + 32),
                    segs,
                    k + 1,
                ),
            },
        }
    }
}

/// Resolution of a whole segment list: the first segment against the fixed
/// root directory, every further one against the directory resolved so far.
/// An empty list names nothing.
pub open spec fn spec_resolve_segments(disk: Seq<u8>, boot: BootSector, segs: Seq<Seq<u8>>) -> Result<
    Option<Seq<u8>>,
    FsError,
> {
    if segs.len() == 0 {
        Ok(None)
    } else {
        match spec_root_find(disk, boot, spec_normalize_name(segs[0]), 0) {
            None => Ok(None),
            Some(i) => spec_resolve_from(disk, boot, spec_root_entry_bytes(disk, boot, i), segs, 1),
        }
    }
}

/// The per-segment budget of disk reads a path walk may spend: one root or
/// directory lookup each.
pub open spec fn spec_segment_read_budget() -> int {
    0x1000000
}

} // verus!
