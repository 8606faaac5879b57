//! Scores of the overlapping four-byte windows of a byte slice.
//!
//! A window is four consecutive bytes read as a little-endian `u32` `x`; its
//! score is `x.wrapping_mul(multiplier).wrapping_add(addend)`.  The search
//! returns the earliest window of lowest score.
use vstd::prelude::*;

verus! {

/// The multiplier of the window hash used by default.
pub const DEFAULT_MULTIPLIER: u32 = 0x9e37_79b1;

/// The addend of the window hash used by default.
pub const DEFAULT_ADDEND: u32 = 0x7f4a_7c15;

/// The little-endian value of the four bytes starting at `j`.
pub open spec fn window_value(s: Seq<u8>, j: int) -> u32 {
    (s[j] as int + s[j + 1] as int * 0x100 + s[j + 2] as int * 0x1_0000 + s[j + 3] as int
        * 0x100_0000) as u32
}

/// The score of the window starting at `j`.
pub open spec fn window_hash(s: Seq<u8>, j: int, mult: u32, add: u32) -> u32 {
    vstd::wrapping::u32_specs::wrapping_add(
        vstd::wrapping::u32_specs::wrapping_mul(window_value(s, j), mult),
        add,
    )
}

/// The number of windows in `s`.
pub open spec fn window_count(s: Seq<u8>) -> int {
    if s.len() < 4 {
        0
    } else {
        s.len() - 3
    }
}

/// The earliest window of lowest score among the first `w` windows.
pub open spec fn first_min(s: Seq<u8>, w: int, mult: u32, add: u32) -> int
    decreases w,
{
    if w <= 1 {
        0
    } else {
        let k = first_min(s, w - 1, mult, add);
        if window_hash(s, w - 1, mult, add) < window_hash(s, k, mult, add) {
            w - 1
        } else {
            k
        }
    }
}

/// `j` is the earliest window of lowest score among the first `w` windows.
pub open spec fn is_first_min(s: Seq<u8>, w: int, j: int, mult: u32, add: u32) -> bool {
    &&& 0 <= j < w
    &&& forall|k: int| 0 <= k < w ==> window_hash(s, j, mult, add) <= #[trigger] window_hash(s, k, mult, add)
    &&& forall|k: int| 0 <= k < j ==> window_hash(s, j, mult, add) < #[trigger] window_hash(s, k, mult, add)
}

/// `first_min` is the earliest window of lowest score.
pub proof fn lemma_first_min(s: Seq<u8>, w: int, mult: u32, add: u32)
    requires
        w >= 1,
    ensures
        is_first_min(s, w, first_min(s, w, mult, add), mult, add),
    decreases w,
{
    if w > 1 {
        lemma_first_min(s, w - 1, mult, add);
    }
}

/// The score of the window starting at `j`.
fn hash_at(bytes: &[u8], j: usize, mult: u32, add: u32) -> (h: u32)
    requires
        j + 4 <= bytes.len(),
    ensures
        h == window_hash(bytes@, j as int, mult, add),
{
    let x: u32 = bytes[j] as u32 + bytes[j + 1] as u32 * 0x100 + bytes[j + 2] as u32 * 0x1_0000
        + bytes[j + 3] as u32 * 0x100_0000;
    x.wrapping_mul(mult).wrapping_add(add)
}

/// Finds the earliest window of lowest score in `bytes` and returns its start
/// and its score; a slice too short to hold a window gives `(0, u32::MAX)`.
pub fn argmin_hashed_windows(bytes: &[u8], mult: u32, add: u32) -> (res: (usize, u32))
    ensures
        bytes.len() < 4 ==> res == (0usize, u32::MAX),
        bytes.len() >= 4 ==> {
            &&& res.0 == first_min(bytes@, window_count(bytes@), mult, add)
            &&& is_first_min(bytes@, window_count(bytes@), res.0 as int, mult, add)
            &&& res.1 == window_hash(bytes@, res.0 as int, mult, add)
        },
{
    if bytes.len() < 4 {
        return (0, u32::MAX);
    }
    let w = bytes.len() - 3;
    let mut best: usize = 0;
    let mut best_hash = hash_at(bytes, 0, mult, add);
    let mut j: usize = 1;
    while j < w
        invariant
            w == bytes.len() - 3,
            1 <= j <= w,
            best == first_min(bytes@, j as int, mult, add),
            best < j,
            best_hash == window_hash(bytes@, best as int, mult, add),
        decreases w - j,
    {
        let h = hash_at(bytes, j, mult, add);
        if h < best_hash {
            best = j;
            best_hash = h;
        }
        j += 1;
    }
    proof {
        lemma_first_min(bytes@, w as int, mult, add);
    }
    (best, best_hash)
}

} // verus!
