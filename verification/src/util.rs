//! Byte-level helpers for the request line: method bytes, path extraction
//! bounded by the next space, and file-extension scanning.

use vstd::prelude::*;

verus! {

/// Leading byte of a GET request.
pub const U8_G: u8 = 71;
/// Leading byte of a POST request.
pub const U8_P: u8 = 80;
/// Leading byte of an OPTIONS request.
pub const U8_O: u8 = 79;
/// The ASCII space byte that terminates the path token.
pub const U8_SPACE: u8 = 32;
/// The ASCII dot byte that introduces a file extension.
pub const U8_DOT: u8 = 46;

/// Index of the last occurrence of `b` in `s` at or before `i`, or `-1`.
pub open spec fn rscan(s: Seq<u8>, i: int, b: u8) -> int
    decreases i + 1,
{
    if i < 0 {
        -1
    } else if s[i] == b {
        i
    } else {
        rscan(s, i - 1, b)
    }
}

/// When `b` stands at `k` and nowhere later up to `i`, the backward scan
/// from `i` finds `k`.
pub proof fn lemma_rscan_found(s: Seq<u8>, i: int, k: int, b: u8)
    requires
        0 <= k <= i,
        s[k] == b,
        forall|t: int| k < t <= i ==> s[t] != b,
    ensures
        rscan(s, i, b) == k,
    decreases i + 1,
{
    if i > k {
        lemma_rscan_found(s, i - 1, k, b);
    }
}

/// When `b` occurs nowhere in `s` up to `i`, the backward scan finds nothing.
pub proof fn lemma_rscan_none(s: Seq<u8>, i: int, b: u8)
    requires
        forall|t: int| 0 <= t <= i ==> s[t] != b,
    ensures
        rscan(s, i, b) == -1,
    decreases i + 1,
{
    if i >= 0 {
        lemma_rscan_none(s, i - 1, b);
    }
}

/// Index of the first occurrence of `b` in `s` at or after `i`, or `s.len()`.
pub open spec fn fscan(s: Seq<u8>, i: int, b: u8) -> int
    decreases s.len() - i,
{
    if i >= s.len() {
        s.len() as int
    } else if s[i] == b {
        i
    } else {
        fscan(s, i + 1, b)
    }
}

pub proof fn lemma_fscan_bounds(s: Seq<u8>, i: int, b: u8)
    requires
        0 <= i <= s.len(),
    ensures
        i <= fscan(s, i, b) <= s.len(),
    decreases s.len() - i,
{
    if i < s.len() && s[i] != b {
        lemma_fscan_bounds(s, i + 1, b);
    }
}

/// The path token starting at `start`: the bytes up to (excluding) the first
/// space at or after `start`, or up to the end of `s` when no space follows.
/// Empty when `start` lies outside `s`.
pub open spec fn path_at(s: Seq<u8>, start: int) -> Seq<u8> {
    if 0 <= start <= s.len() {
        s.subrange(start, fscan(s, start, U8_SPACE))
    } else {
        Seq::empty()
    }
}

/// Extracts the request-path bytes beginning at `start`, stopping at the
/// first space byte. Out-of-range starts yield an empty slice.
pub fn read_data_until_space(data: &Vec<u8>, start: usize) -> (r: &[u8])
    ensures
        r@ == path_at(data@, start as int),
{
    let len = data.len();
    if start > len {
        return &data[0..0];
    }
    let mut end = start;
    while end < len && data[end] != U8_SPACE
        invariant
            start <= end <= len,
            len == data@.len(),
            fscan(data@, start as int, U8_SPACE) == fscan(data@, end as int, U8_SPACE),
        decreases len - end,
    {
        end = end + 1;
    }
    proof {
        lemma_fscan_bounds(data@, start as int, U8_SPACE);
        assert(fscan(data@, end as int, U8_SPACE) == end);
    }
    &data[start..end]
}

/// The file extension of `s`: the bytes after the last dot. Empty when `s`
/// is shorter than two bytes, ends with a dot, or holds no dot at all.
pub open spec fn extension_of(s: Seq<u8>) -> Seq<u8> {
    if s.len() < 2 || s[s.len() - 1] == U8_DOT {
        Seq::empty()
    } else {
        let d = rscan(s, s.len() - 2, U8_DOT);
        if d < 0 {
            Seq::empty()
        } else {
            s.subrange(d + 1, s.len() as int)
        }
    }
}

/// Returns the extension bytes of a file name, per `extension_of`.
pub fn get_extension(v: &[u8]) -> (r: &[u8])
    ensures
        r@ == extension_of(v@),
{
    let len = v.len();
    if len < 2 {
        return &v[0..0];
    }
    if v[len - 1] == U8_DOT {
        return &v[0..0];
    }
    let mut i = len - 1;
    while i > 0 && v[i - 1] != U8_DOT
        invariant
            0 <= i <= len - 1,
            len == v@.len(),
            rscan(v@, len - 2, U8_DOT) == rscan(v@, i - 1, U8_DOT),
        decreases i,
    {
        i = i - 1;
    }
    if i == 0 {
        assert(rscan(v@, len - 2, U8_DOT) == -1);
        &v[0..0]
    } else {
        assert(rscan(v@, len - 2, U8_DOT) == i - 1);
        &v[i..len]
    }
}

/// True exactly when the two byte slices hold the same bytes.
pub fn bytes_eq(a: &[u8], b: &[u8]) -> (r: bool)
    ensures
        r == (a@ == b@),
{
    if a.len() != b.len() {
        return false;
    }
    let mut i: usize = 0;
    while i < a.len()
        invariant
            0 <= i <= a@.len(),
            a@.len() == b@.len(),
            forall|j: int| 0 <= j < i ==> a@[j] == b@[j],
        decreases a@.len() - i,
    {
        if a[i] != b[i] {
            return false;
        }
        i = i + 1;
    }
    proof {
        assert(a@ =~= b@);
    }
    true
}

} // verus!
