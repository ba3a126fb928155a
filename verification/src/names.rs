//! 8.3 name normalization: how a raw ASCII name maps onto the fixed
//! 11-byte, space-padded, uppercase form the on-disk directory uses.

use vstd::prelude::*;

verus! {

/// The ASCII uppercase of one byte.
pub open spec fn spec_upper(c: u8) -> u8 {
    if 97 <= c <= 122 {
        (c - 32) as u8
    } else {
        c
    }
}

/// Where the extension starts in a raw name: the index of the last dot, or
/// the name's length when it has no dot.
pub open spec fn spec_ext_index(s: Seq<u8>) -> int
    decreases s.len(),
{
    if s.len() == 0 {
        0
    } else if s[s.len() - 1] == 46 {
        s.len() - 1
    } else {
        let r = spec_ext_index(s.drop_last());
        if r == s.len() - 1 {
            s.len() as int
        } else {
            r
        }
    }
}

/// The extension index is within the name, points at a dot when it is not
/// the length, and no dot follows it.
pub proof fn lemma_ext_index(s: Seq<u8>)
    ensures
        0 <= spec_ext_index(s) <= s.len(),
        spec_ext_index(s) < s.len() ==> s[spec_ext_index(s)] == 46,
        forall|i: int| spec_ext_index(s) < i < s.len() ==> s[i] != 46,
        spec_ext_index(s) == s.len() ==> (forall|i: int| 0 <= i < s.len() ==> s[i] != 46),
    decreases s.len(),
{
    if s.len() == 0 {
    } else if s[s.len() - 1] == 46 {
    } else {
        lemma_ext_index(s.drop_last());
        let e = spec_ext_index(s.drop_last());
        assert(forall|i: int| 0 <= i < s.len() - 1 ==> s[i] == s.drop_last()[i]);
    }
}

/// An 8.3-encoded name: the part before the last dot uppercased and
/// left-justified, the part after it uppercased and right-justified in the
/// last three positions, spaces in between; input truncated to 11 bytes.
pub open spec fn spec_normalize_name(raw: Seq<u8>) -> Seq<u8> {
    let t = if raw.len() > 11 {
        raw.take(11)
    } else {
        raw
    };
    let e = spec_ext_index(t);
    Seq::new(
        11,
        |j: int|
            if j < e {
                spec_upper(t[j])
            } else if e < t.len() && j >= 11 - t.len() + e + 1 {
                spec_upper(t[j - 11 + t.len()])
            } else {
                32u8
            },
    )
}

/// The ASCII uppercase of one byte.
pub(crate) fn to_upper(c: u8) -> (r: u8)
    ensures
        r == spec_upper(c),
{
    if c >= 97 && c <= 122 {
        c - 32
    } else {
        c
    }
}
} // verus!
