//! Recursive minimum-based chunking: spans of the input are kept in a
//! Cartesian tree ordered by their lowest window score, and the input is cut
//! at the lowest-scoring window of the best span that leaves room for the
//! size bounds.
use vstd::prelude::*;
use crate::arena::{node_map, CartNodes};
use crate::arena::CartNodeKey;
use crate::cart_tree::{next_stamp, compares_by_rank, lemma_view_len, lemma_wf_frame, lemma_wf_keys, unchanged_outside, CartNode, CartTree};
use crate::chunk::{lemma_tiles_append, tiles, Chunk};
use crate::window::{
    argmin_hashed_windows, first_min, lemma_first_min, window_count, window_hash, window_value,
    DEFAULT_ADDEND, DEFAULT_MULTIPLIER,
};

verus! {

/// `x` brought into `lo ..= hi`.
pub open spec fn clamp_to(x: int, lo: int, hi: int) -> int {
    if x < lo {
        lo
    } else if x > hi {
        hi
    } else {
        x
    }
}

/// `x` brought into `lo ..= hi`, as `Ord::clamp` does.
fn clamp_usize(x: usize, lo: usize, hi: usize) -> (r: usize)
    requires
        lo <= hi,
    ensures
        r == clamp_to(x as int, lo as int, hi as int),
{
    if x < lo {
        lo
    } else if x > hi {
        hi
    } else {
        x
    }
}

/// The lowest window score of `s[start..stop]`; a span too short to hold a
/// window scores `u32::MAX`.
#[verifier::opaque]
pub open spec fn span_score(s: Seq<u8>, start: int, stop: int) -> u32 {
    let sub = s.subrange(start, stop);
    if sub.len() < 4 {
        u32::MAX
    } else {
        window_hash(
            sub,
            first_min(sub, window_count(sub), DEFAULT_MULTIPLIER, DEFAULT_ADDEND),
            DEFAULT_MULTIPLIER,
            DEFAULT_ADDEND,
        )
    }
}

/// Where a span is cut: just after its earliest lowest-scoring window; a span
/// too short to hold a window is cut at its end.
#[verifier::opaque]
pub open spec fn span_split(s: Seq<u8>, start: int, stop: int) -> int {
    let sub = s.subrange(start, stop);
    if sub.len() < 4 {
        stop
    } else {
        start + first_min(sub, window_count(sub), DEFAULT_MULTIPLIER, DEFAULT_ADDEND) + 4
    }
}

/// The cut of a non-empty span lies after its start and no later than its end.
pub proof fn lemma_span_split_bounds(s: Seq<u8>, start: int, stop: int)
    requires
        0 <= start <= stop <= s.len(),
    ensures
        start <= span_split(s, start, stop) <= stop,
        start < stop ==> start < span_split(s, start, stop),
{
    reveal(span_split);
    let sub = s.subrange(start, stop);
    if sub.len() >= 4 {
        lemma_first_min(sub, window_count(sub), DEFAULT_MULTIPLIER, DEFAULT_ADDEND);
    }
}

/// A span that a lower bound covers bounds each of its sub-spans too.
pub proof fn lemma_span_score_sub(s: Seq<u8>, a: int, b: int, c: int, d: int)
    requires
        0 <= a <= c <= d <= b <= s.len(),
    ensures
        span_score(s, a, b) <= span_score(s, c, d),
{
    reveal(span_score);
    let outer = s.subrange(a, b);
    let inner = s.subrange(c, d);
    if inner.len() >= 4 {
        let w = window_count(outer);
        let j = first_min(inner, window_count(inner), DEFAULT_MULTIPLIER, DEFAULT_ADDEND);
        lemma_first_min(inner, window_count(inner), DEFAULT_MULTIPLIER, DEFAULT_ADDEND);
        lemma_first_min(outer, w, DEFAULT_MULTIPLIER, DEFAULT_ADDEND);
        let k = j + (c - a);
        assert(window_value(inner, j) == window_value(outer, k));
        assert(window_hash(inner, j, DEFAULT_MULTIPLIER, DEFAULT_ADDEND) == window_hash(
            outer,
            k,
            DEFAULT_MULTIPLIER,
            DEFAULT_ADDEND,
        ));
        assert(0 <= k < w);
    }
}

/// A span `start .. stop` of the input together with what has been learned of
/// its scores.
#[derive(Clone, Copy)]
pub struct MinChunk {
    start: usize,
    stop: usize,
    eval: Option<u32>,
    eval_lower_bound: Option<u32>,
    argmin: Option<usize>,
}

impl MinChunk {
    /// Where the span starts.
    pub closed spec fn start_pos(self) -> int {
        self.start as int
    }

    /// Where the span stops.
    pub closed spec fn stop_pos(self) -> int {
        self.stop as int
    }

    /// The span's score is known.
    pub closed spec fn is_scored(self) -> bool {
        self.eval is Some
    }

    /// The known score of the span (`u32::MAX` while it is not known).
    pub closed spec fn rank(self) -> u32 {
        match self.eval {
            Some(h) => h,
            None => u32::MAX,
        }
    }

    /// The known cut of the span, if any.
    pub closed spec fn cached_split(self) -> Option<usize> {
        self.argmin
    }

    /// A known lower bound of the span's score, if any.
    pub closed spec fn lower_bound(self) -> Option<u32> {
        self.eval_lower_bound
    }

    /// The span's score and its cut are known together, or neither is.
    pub closed spec fn wf(self) -> bool {
        (self.eval is Some) == (self.argmin is Some)
    }

    /// The span lies in `s`, and what is known of it holds of `s`.
    pub closed spec fn cache_ok(self, s: Seq<u8>) -> bool {
        &&& self.start <= self.stop <= s.len()
        &&& self.eval matches Some(h) ==> h == span_score(s, self.start as int, self.stop as int)
        &&& self.argmin matches Some(a) ==> a == span_split(s, self.start as int, self.stop as int)
        &&& self.eval_lower_bound matches Some(l) ==> l <= span_score(
            s,
            self.start as int,
            self.stop as int,
        )
    }

    /// The span's score, taken from what is known or else from `s`.
    pub closed spec fn score_in(self, s: Seq<u8>) -> u32 {
        match self.eval {
            Some(h) => h,
            None => span_score(s, self.start as int, self.stop as int),
        }
    }

    /// What `is_less` answers, case by case on what is known of the spans.
    pub closed spec fn is_less_spec(self, other: Self, s: Seq<u8>) -> bool {
        match (self.eval, other.eval) {
            (Some(a), Some(b)) => a < b,
            (Some(a), None) => (other.eval_lower_bound matches Some(bl) && a < bl) || (a
                < other.score_in(s)),
            (None, Some(b)) => !(self.eval_lower_bound matches Some(al) && !(al < b))
                && (self.score_in(s) < b),
            (None, None) => self.score_in(s) < other.score_in(s),
        }
    }

    /// The span `start .. stop`, with nothing known of its score.
    pub fn new(start: usize, stop: usize) -> (r: Self)
        ensures
            r.start_pos() == start,
            r.stop_pos() == stop,
            !r.is_scored(),
            r.lower_bound() is None,
            r.cached_split() is None,
            r.wf(),
            forall|s: Seq<u8>| start <= stop <= s.len() ==> #[trigger] r.cache_ok(s),
    {
        Self { start, stop, eval: None, eval_lower_bound: None, argmin: None }
    }

    /// Where the span starts.
    pub fn start(&self) -> (r: usize)
        ensures
            r == self.start_pos(),
    {
        self.start
    }

    /// Where the span stops.
    pub fn stop(&self) -> (r: usize)
        ensures
            r == self.stop_pos(),
    {
        self.stop
    }

    /// Narrows the span to `start .. stop`; `None` when nothing of it is left.
    pub fn clamp(self, start: usize, stop: usize) -> (r: Option<Self>)
        requires
            self.start_pos() <= self.stop_pos(),
        ensures
            ({
                let ns = clamp_to(start as int, self.start_pos(), self.stop_pos());
                let nt = clamp_to(stop as int, self.start_pos(), self.stop_pos());
                &&& ns >= nt ==> r is None
                &&& ns < nt ==> (r matches Some(c) && c.start_pos() == ns && c.stop_pos() == nt
                    && !c.is_scored() && c.cached_split() is None && c.lower_bound()
                    == self.lower_bound() && c.wf())
            }),
            forall|s: Seq<u8>|
                #![trigger self.cache_ok(s)]
                self.cache_ok(s) && r is Some ==> r.unwrap().cache_ok(s),
    {
        let new_start = clamp_usize(start, self.start, self.stop);
        let new_stop = clamp_usize(stop, self.start, self.stop);
        if new_start >= new_stop {
            return None;
        }
        let mut chunk = self;
        chunk.start = new_start;
        chunk.stop = new_stop;
        chunk.eval = None;
        chunk.argmin = None;
        proof {
            assert forall|s: Seq<u8>| self.cache_ok(s) implies #[trigger] chunk.cache_ok(s) by {
                lemma_span_score_sub(
                    s,
                    self.start as int,
                    self.stop as int,
                    new_start as int,
                    new_stop as int,
                );
            }
        }
        Some(chunk)
    }

    /// The cut and the score of the span, computed from `bytes`.
    fn compute(&self, bytes: &[u8]) -> (res: (usize, u32))
        requires
            self.start <= self.stop <= bytes.len(),
        ensures
            res.0 == span_split(bytes@, self.start as int, self.stop as int),
            res.1 == span_score(bytes@, self.start as int, self.stop as int),
    {
        proof {
            reveal(span_score);
            reveal(span_split);
        }
        let span = vstd::slice::slice_subrange(bytes, self.start, self.stop);
        let (argmin, hash) = argmin_hashed_windows(span, DEFAULT_MULTIPLIER, DEFAULT_ADDEND);
        if span.len() < 4 {
            (self.stop, hash)
        } else {
            (self.start + argmin + 4, hash)
        }
    }

    /// Whether this span scores below `other`, computing a score from
    /// `bytes` where it is not known yet.
    pub fn is_less(&self, other: &Self, bytes: &[u8]) -> (r: bool)
        requires
            !self.is_scored() ==> self.start_pos() <= self.stop_pos() <= bytes@.len(),
            !other.is_scored() ==> other.start_pos() <= other.stop_pos() <= bytes@.len(),
        ensures
            r == self.is_less_spec(*other, bytes@),
            self.is_scored() && other.is_scored() ==> r == (self.rank() < other.rank()),
            self.cache_ok(bytes@) && other.cache_ok(bytes@) ==> r == (span_score(
                bytes@,
                self.start_pos(),
                self.stop_pos(),
            ) < span_score(bytes@, other.start_pos(), other.stop_pos())),
    {
        match (self.eval, other.eval) {
            (Some(a), Some(b)) => a < b,
            (Some(a), None) => {
                if let Some(bl) = other.eval_lower_bound {
                    if a < bl {
                        return true;
                    }
                }
                a < other.compute(bytes).1
            },
            (None, Some(b)) => {
                if let Some(al) = self.eval_lower_bound {
                    if !(al < b) {
                        return false;
                    }
                }
                self.compute(bytes).1 < b
            },
            (None, None) => self.compute(bytes).1 < other.compute(bytes).1,
        }
    }

    /// The cut of the span, just after its earliest lowest-scoring window;
    /// scores the span first when its score is not known.
    pub fn argmin(&mut self, bytes: &[u8]) -> (r: usize)
        requires
            old(self).wf(),
            !old(self).is_scored() ==> old(self).start_pos() <= old(self).stop_pos()
                <= bytes@.len(),
        ensures
            old(self).cached_split() matches Some(a) ==> r == a,
            old(self).cached_split() is None ==> r == span_split(
                bytes@,
                old(self).start_pos(),
                old(self).stop_pos(),
            ),
            old(self).cache_ok(bytes@) ==> r == span_split(
                bytes@,
                old(self).start_pos(),
                old(self).stop_pos(),
            ) && final(self).cache_ok(bytes@),
            final(self).wf(),
            final(self).is_scored(),
            final(self).cached_split() == Some(r),
            old(self).is_scored() ==> *final(self) == *old(self),
            final(self).start_pos() == old(self).start_pos(),
            final(self).stop_pos() == old(self).stop_pos(),
            final(self).lower_bound() == old(self).lower_bound(),
    {
        let ghost before = *self;
        proof {
            if before.eval is None {
                lemma_span_split_bounds(bytes@, self.start as int, self.stop as int);
            }
        }
        self.eval(bytes);
        proof {
            if before.eval is Some {
                assert(*self == before);
            }
        }
        self.argmin.unwrap()
    }

    /// The score of the span; computes it from `bytes` and keeps it when it
    /// is not known yet.
    pub fn eval(&mut self, bytes: &[u8]) -> (r: u32)
        requires
            old(self).wf(),
            !old(self).is_scored() ==> old(self).start_pos() <= old(self).stop_pos()
                <= bytes@.len(),
        ensures
            r == old(self).score_in(bytes@),
            old(self).is_scored() ==> *final(self) == *old(self),
            !old(self).is_scored() ==> final(self).cached_split() == Some(
                span_split(bytes@, old(self).start_pos(), old(self).stop_pos()) as usize,
            ),
            final(self).is_scored(),
            final(self).rank() == r,
            final(self).cached_split() is Some,
            old(self).cache_ok(bytes@) ==> final(self).cached_split() == Some(
                span_split(bytes@, old(self).start_pos(), old(self).stop_pos()) as usize,
            ),
            final(self).wf(),
            final(self).start_pos() == old(self).start_pos(),
            final(self).stop_pos() == old(self).stop_pos(),
            final(self).lower_bound() == old(self).lower_bound(),
            old(self).cache_ok(bytes@) ==> final(self).cache_ok(bytes@),
            old(self).cache_ok(bytes@) ==> r == span_score(
                bytes@,
                old(self).start_pos(),
                old(self).stop_pos(),
            ),
    {
        if let Some(h) = self.eval {
            return h;
        }
        let (split, hash) = self.compute(bytes);
        self.eval = Some(hash);
        self.argmin = Some(split);
        hash
    }
}

/// Where what is known of two spans is true of `s`, `is_less` compares
/// their scores in `s`.
proof fn lemma_is_less_scores(a: MinChunk, b: MinChunk, s: Seq<u8>)
    requires
        a.cache_ok(s),
        b.cache_ok(s),
    ensures
        a.is_less_spec(b, s) == (span_score(s, a.start_pos(), a.stop_pos()) < span_score(
            s,
            b.start_pos(),
            b.stop_pos(),
        )),
{
}

/// Where what is known of the spans is true of `s`, `is_less` is a strict
/// weak order: no span is less than itself, of two spans at most one is less
/// than the other, being less carries over from one span to the next, and so
/// does being neither less nor greater.
pub proof fn law_is_less_strict_weak_order(a: MinChunk, b: MinChunk, c: MinChunk, s: Seq<u8>)
    requires
        a.cache_ok(s),
        b.cache_ok(s),
        c.cache_ok(s),
    ensures
        !a.is_less_spec(a, s),
        a.is_less_spec(b, s) ==> !b.is_less_spec(a, s),
        a.is_less_spec(b, s) && b.is_less_spec(c, s) ==> a.is_less_spec(c, s),
        !a.is_less_spec(b, s) && !b.is_less_spec(a, s) && !b.is_less_spec(c, s) && !c.is_less_spec(b, s)
            ==> !a.is_less_spec(c, s) && !c.is_less_spec(a, s),
{
    lemma_is_less_scores(a, a, s);
    lemma_is_less_scores(a, b, s);
    lemma_is_less_scores(b, a, s);
    lemma_is_less_scores(b, c, s);
    lemma_is_less_scores(c, b, s);
    lemma_is_less_scores(a, c, s);
    lemma_is_less_scores(c, a, s);
}

/// The longest span that the scan adds to the tree at once.
pub const SCAN_SPAN: usize = 1024;

/// A span as the chunker keeps it: non-empty, no longer than `SCAN_SPAN`,
/// scored, and true to the input `s`.
pub closed spec fn span_ok(c: MinChunk, s: Seq<u8>) -> bool {
    &&& c.start < c.stop
    &&& c.stop - c.start <= SCAN_SPAN
    &&& c.cache_ok(s)
    &&& c.wf()
    &&& c.is_scored()
}

/// Every span of `v` is as the chunker keeps it.
pub closed spec fn spans_ok(v: Seq<MinChunk>, s: Seq<u8>) -> bool {
    forall|k: int| 0 <= k < v.len() ==> span_ok(#[trigger] v[k], s)
}

/// Span `k` ends no later than span `k + 1` starts.
pub closed spec fn step_ok(v: Seq<MinChunk>, k: int) -> bool {
    v[k].stop <= v[k + 1].start
}

/// The spans follow one another without overlapping.
pub closed spec fn sorted(v: Seq<MinChunk>) -> bool {
    forall|k: int| 0 <= k < v.len() - 1 ==> #[trigger] step_ok(v, k)
}

/// A stretch of sorted spans is sorted.
proof fn lemma_sorted_sub(v: Seq<MinChunk>, a: int, b: int)
    requires
        sorted(v),
        0 <= a <= b <= v.len(),
    ensures
        sorted(v.subrange(a, b)),
{
    let w = v.subrange(a, b);
    assert forall|k: int| 0 <= k < w.len() - 1 implies #[trigger] step_ok(w, k) by {
        assert(step_ok(v, k + a));
    }
}

/// In sorted non-empty spans, later spans start no earlier than earlier ones
/// stop.
proof fn lemma_sorted_order(v: Seq<MinChunk>, i: int, j: int)
    requires
        sorted(v),
        forall|k: int| 0 <= k < v.len() ==> (#[trigger] v[k]).start < v[k].stop,
        0 <= i < j < v.len(),
    ensures
        v[i].stop <= v[j].start,
    decreases j - i,
{
    assert(step_ok(v, j - 1));
    if i < j - 1 {
        lemma_sorted_order(v, i, j - 1);
        assert(v[j - 1].start < v[j - 1].stop);
    }
}

/// Spans as the chunker keeps them start before they stop.
proof fn lemma_spans_nonempty(v: Seq<MinChunk>, s: Seq<u8>)
    requires
        spans_ok(v, s),
    ensures
        forall|k: int| 0 <= k < v.len() ==> (#[trigger] v[k]).start < v[k].stop,
{
    assert forall|k: int| 0 <= k < v.len() implies (#[trigger] v[k]).start < v[k].stop by {
        assert(span_ok(v[k], s));
    }
}

/// Span `k` ends no later than span `k + 1` starts, and where it ends earlier
/// it ends at or after `g`.
pub closed spec fn gap_ok(v: Seq<MinChunk>, g: int, k: int) -> bool {
    &&& v[k].stop <= v[k + 1].start
    &&& v[k].stop < v[k + 1].start ==> v[k].stop >= g
}

/// The spans are in order; a gap between two of them opens at or after `g`.
pub closed spec fn in_order(v: Seq<MinChunk>, g: int) -> bool {
    forall|k: int| 0 <= k < v.len() - 1 ==> #[trigger] gap_ok(v, g, k)
}

/// Each span ends where the next one starts.
pub closed spec fn adjacent(v: Seq<MinChunk>) -> bool {
    forall|k: int| 0 <= k < v.len() - 1 ==> #[trigger] v[k].stop == v[k + 1].start
}

/// The part of a sequence whose spans keep their order stays in order.
proof fn lemma_in_order_sub(v: Seq<MinChunk>, g: int, a: int, b: int)
    requires
        in_order(v, g),
        0 <= a <= b <= v.len(),
    ensures
        in_order(v.subrange(a, b), g),
{
    let w = v.subrange(a, b);
    assert forall|k: int| 0 <= k < w.len() - 1 implies #[trigger] gap_ok(w, g, k) by {
        assert(gap_ok(v, g, k + a));
    }
}

proof fn lemma_adjacent_sub(v: Seq<MinChunk>, a: int, b: int)
    requires
        adjacent(v),
        0 <= a <= b <= v.len(),
    ensures
        adjacent(v.subrange(a, b)),
{
    let w = v.subrange(a, b);
    assert forall|k: int| 0 <= k < w.len() - 1 implies #[trigger] w[k].stop == w[k + 1].start by {
        assert(v[k + a].stop == v[k + a + 1].start);
    }
}

/// In adjacent spans, later spans start no earlier than earlier ones stop.
proof fn lemma_adjacent_order(v: Seq<MinChunk>, i: int, j: int)
    requires
        adjacent(v),
        forall|k: int| 0 <= k < v.len() ==> (#[trigger] v[k]).start < v[k].stop,
        0 <= i < j < v.len(),
    ensures
        v[i].stop <= v[j].start,
    decreases j - i,
{
    assert(v[j - 1].stop == v[j].start);
    if i < j - 1 {
        lemma_adjacent_order(v, i, j - 1);
        assert(v[j - 1].start < v[j - 1].stop);
    }
}

/// In ordered spans, later spans start no earlier than earlier ones stop.
proof fn lemma_in_order_order(v: Seq<MinChunk>, g: int, i: int, j: int)
    requires
        in_order(v, g),
        forall|k: int| 0 <= k < v.len() ==> (#[trigger] v[k]).start < v[k].stop,
        0 <= i < j < v.len(),
    ensures
        v[i].stop <= v[j].start,
    decreases j - i,
{
    assert(gap_ok(v, g, j - 1));
    if i < j - 1 {
        lemma_in_order_order(v, g, i, j - 1);
        assert(v[j - 1].start < v[j - 1].stop);
    }
}

/// Adjacent spans are in order whatever the gap bound.
proof fn lemma_adjacent_in_order(v: Seq<MinChunk>, g: int)
    requires
        adjacent(v),
    ensures
        in_order(v, g),
{
    assert forall|k: int| 0 <= k < v.len() - 1 implies #[trigger] gap_ok(v, g, k) by {
        assert(v[k].stop == v[k + 1].start);
    }
}


/// A scanned span appended behind ordered spans keeps them ordered.
proof fn lemma_push_span_in_order(v: Seq<MinChunk>, c: MinChunk, g: int, scan: int, s: Seq<u8>)
    requires
        spans_ok(v, s),
        in_order(v, g),
        span_ok(c, s),
        c.start == scan,
        v.len() > 0 ==> v.last().stop <= scan,
        v.len() > 0 && v.last().stop < scan ==> v.last().stop >= g,
    ensures
        spans_ok(v.push(c), s),
        in_order(v.push(c), g),
{
    let w = v.push(c);
    assert forall|k: int| 0 <= k < w.len() implies span_ok(#[trigger] w[k], s) by {
        if k < v.len() {
            assert(w[k] == v[k]);
        }
    }
    assert forall|k: int| 0 <= k < w.len() - 1 implies #[trigger] gap_ok(w, g, k) by {
        if k < v.len() - 1 {
            assert(gap_ok(v, g, k));
        }
    }
}

/// spans before it lie side by side over `lo` to its start, and the spans
/// after it over its end to `hi`.
proof fn lemma_round_parts_adjacent(w: Seq<MinChunk>, s: Seq<u8>, rp: int, lo: int, hi: int)
    requires
        w.len() > 0,
        spans_ok(w, s),
        adjacent(w),
        w[0].start == lo,
        w[w.len() - 1].stop == hi,
        0 <= rp < w.len(),
    ensures
        span_ok(w[rp], s),
        lo <= w[rp].start < w[rp].stop <= hi,
        rp > 0 ==> lo < w[rp].start,
        rp + 1 < w.len() ==> w[rp].stop < hi,
        rp + 1 == w.len() ==> w[rp].stop == hi,
        ({
            let l = w.subrange(0, rp);
            rp > 0 ==> {
                &&& spans_ok(l, s)
                &&& adjacent(l)
                &&& l[0].start == lo
                &&& l[l.len() - 1].stop == w[rp].start
            }
        }),
        ({
            let r = w.subrange(rp + 1, w.len() as int);
            rp + 1 < w.len() ==> {
                &&& spans_ok(r, s)
                &&& adjacent(r)
                &&& r[0].start == w[rp].stop
                &&& r[r.len() - 1].stop == hi
            }
        }),
{
    let n = w.len() as int;
    assert forall|k: int| 0 <= k < n implies (#[trigger] w[k]).start < w[k].stop by {
        assert(span_ok(w[k], s));
    }
    assert(span_ok(w[rp], s));
    if rp > 0 {
        lemma_adjacent_order(w, 0, rp);
        let l = w.subrange(0, rp);
        lemma_adjacent_sub(w, 0, rp);
        assert forall|k: int| 0 <= k < l.len() implies span_ok(#[trigger] l[k], s) by {
            assert(l[k] == w[k]);
        }
        assert(w[rp - 1].stop == w[rp].start);
        assert(w[0].start < w[0].stop);
    }
    if rp + 1 < n {
        lemma_adjacent_order(w, rp, n - 1);
        let r = w.subrange(rp + 1, n);
        lemma_adjacent_sub(w, rp + 1, n);
        assert forall|k: int| 0 <= k < r.len() implies span_ok(#[trigger] r[k], s) by {
            assert(r[k] == w[k + rp + 1]);
        }
        assert(w[rp].stop == w[rp + 1].start);
        assert(w[n - 1].start < w[n - 1].stop);
    }
}

/// What is left once the front of a trim is done: the spans from the one
/// that holds `lo`, that one narrowed to start at `lo` when it started before.
proof fn lemma_front_covered(
    v0: Seq<MinChunk>,
    w1: Seq<MinChunk>,
    j: int,
    clipped: bool,
    cl: MinChunk,
    lo: int,
    hi: int,
    s: Seq<u8>,
)
    requires
        v0.len() > 0,
        spans_ok(v0, s),
        in_order(v0, hi),
        v0[0].start <= lo,
        v0[v0.len() - 1].stop > lo,
        lo < hi,
        0 <= j < v0.len(),
        forall|k: int| 0 <= k < j ==> #[trigger] v0[k].stop <= lo,
        !clipped ==> v0[j].start >= lo,
        clipped ==> {
            &&& cl.start == lo
            &&& cl.stop == capped(v0[j].stop as int, hi)
            &&& v0[j].start < lo < v0[j].stop
            &&& span_ok(cl, s)
        },
        w1 == if clipped { seq![cl] + v0.subrange(j + 1, v0.len() as int) } else { v0.subrange(j, v0.len() as int) },
    ensures
        ({
            &&& w1.len() > 0
            &&& spans_ok(w1, s)
            &&& in_order(w1, hi)
            &&& w1[0].start == lo
            &&& forall|i: int| 0 <= i < w1.len() ==> #[trigger] w1[i].start >= lo
            &&& capped(w1[w1.len() - 1].stop as int, hi) == capped(v0[v0.len() - 1].stop as int, hi)
        }),
{
    let n0 = v0.len() as int;
    assert forall|k: int| 0 <= k < n0 implies (#[trigger] v0[k]).start < v0[k].stop by {
        assert(span_ok(v0[k], s));
    }
    lemma_in_order_sub(v0, hi, j + 1, n0);
    lemma_in_order_sub(v0, hi, j, n0);
    if !clipped {
        if j > 0 {
            assert(gap_ok(v0, hi, j - 1));
            assert(v0[j - 1].stop <= lo);
        }
        assert(w1[0].start == lo);
    } else {
        if j + 1 < n0 {
            assert(gap_ok(v0, hi, j));
            assert(gap_ok(w1, hi, 0));
            assert forall|k: int| 0 <= k < w1.len() - 1 implies #[trigger] gap_ok(w1, hi, k) by {
                if k > 0 {
                    assert(gap_ok(v0, hi, k + j));
                }
            }
        }
    }
    assert forall|k: int| 0 <= k < w1.len() implies span_ok(#[trigger] w1[k], s) by {
        if clipped && k == 0 {
        } else if clipped {
            assert(w1[k] == v0[k + j]);
        } else {
            assert(w1[k] == v0[k + j]);
        }
    }
    assert forall|i: int| 0 <= i < w1.len() implies #[trigger] w1[i].start >= lo by {
        if i > 0 {
            assert forall|k: int| 0 <= k < w1.len() implies (#[trigger] w1[k]).start < w1[k].stop by {
                assert(span_ok(w1[k], s));
            }
            lemma_in_order_order(w1, hi, 0, i);
        }
    }
}

/// What is left once the back of a trim is done: the spans up to the one
/// that holds `hi`, that one narrowed to end at `hi` when it ended after.
proof fn lemma_back_covered(
    v0: Seq<MinChunk>,
    w1: Seq<MinChunk>,
    w2: Seq<MinChunk>,
    k: int,
    clipped2: bool,
    c2: MinChunk,
    lo: int,
    hi: int,
    s: Seq<u8>,
)
    requires
        v0.len() > 0,
        w1.len() > 0,
        spans_ok(w1, s),
        in_order(w1, hi),
        w1[0].start == lo,
        lo < hi,
        forall|i: int| 0 <= i < w1.len() ==> #[trigger] w1[i].start >= lo,
        capped(w1[w1.len() - 1].stop as int, hi) == capped(v0[v0.len() - 1].stop as int, hi),
        1 <= k <= w1.len(),
        forall|i: int| k <= i < w1.len() ==> #[trigger] w1[i].start >= hi,
        !clipped2 ==> w1[k - 1].stop <= hi,
        clipped2 ==> {
            &&& c2.start == w1[k - 1].start
            &&& c2.stop == hi
            &&& w1[k - 1].start < hi < w1[k - 1].stop
            &&& span_ok(c2, s)
        },
        w2 == if clipped2 { w1.subrange(0, k - 1).push(c2) } else { w1.subrange(0, k) },
    ensures
        ({
            &&& w2.len() > 0
            &&& spans_ok(w2, s)
            &&& adjacent(w2)
            &&& w2[0].start == lo
            &&& w2[w2.len() - 1].stop == capped(v0[v0.len() - 1].stop as int, hi)
        }),
{
    let n1 = w1.len() as int;
    assert forall|i: int| 0 <= i < n1 implies (#[trigger] w1[i]).start < w1[i].stop by {
        assert(span_ok(w1[i], s));
    }
    assert forall|i: int| 0 <= i < w2.len() implies span_ok(#[trigger] w2[i], s) by {
        if !(clipped2 && i == k - 1) {
            assert(w2[i] == w1[i]);
        }
    }
    // Every kept span but the last starts before `hi`, so no gap lies between them.
    let top = if clipped2 { w1[k - 1].start as int } else { w1[k - 1].stop as int };
    assert(top <= hi);
    assert forall|i: int| 0 <= i < w2.len() - 1 implies #[trigger] w2[i].stop == w2[i + 1].start by {
        assert(gap_ok(w1, hi, i));
        assert(w2[i] == w1[i]);
        if i + 1 < k - 1 || !clipped2 {
            assert(w2[i + 1] == w1[i + 1]);
            if i + 1 < k - 1 {
                lemma_in_order_order(w1, hi, i + 1, k - 1);
            }
            assert(w1[i + 1].start < hi);
        } else {
            assert(w1[i + 1].start < hi);
        }
    }
    if !clipped2 && k < n1 {
        assert(gap_ok(w1, hi, k - 1));
        if k < n1 - 1 {
            lemma_in_order_order(w1, hi, k, n1 - 1);
        }
        assert(w1[n1 - 1].stop > hi);
    }
    if clipped2 {
        if k < n1 {
            lemma_in_order_order(w1, hi, k - 1, n1 - 1);
        }
        assert(w1[n1 - 1].stop > hi);
    }
    if clipped2 && k == 1 {
        assert(w2[0] == c2);
    }
}

/// Every chunk is at least `min` and at most `max` bytes long, and none is
/// empty.
pub open spec fn sizes_within(cs: Seq<Chunk>, min: int, max: int) -> bool {
    forall|i: int| 0 <= i < cs.len() ==> min <= (#[trigger] cs[i]).bytes().len() <= max && 0 < cs[i].bytes().len()
}

/// One more round of cutting: the chunks already there, those a recursive
/// cut added, and the chunk that ends at the new cut tile the stretch so far.
#[verifier::rlimit(60)]
#[verifier::spinoff_prover]
proof fn lemma_splits_step(
    sp0: Seq<Chunk>,
    sp1: Seq<Chunk>,
    sp2: Seq<Chunk>,
    l0: int,
    bytes: Seq<u8>,
    from: int,
    lower: int,
    prev: int,
    cut: int,
    min: int,
    max: int,
)
    requires
        0 <= l0 <= sp0.len() <= sp1.len(),
        sp1.subrange(0, sp0.len() as int) == sp0,
        tiles(sp0.subrange(l0, sp0.len() as int), bytes, from, lower),
        sizes_within(sp0.subrange(l0, sp0.len() as int), min, max),
        tiles(sp1.subrange(sp0.len() as int, sp1.len() as int), bytes, lower, prev),
        sizes_within(sp1.subrange(sp0.len() as int, sp1.len() as int), min, max),
        sp2.len() == sp1.len() + 1,
        sp2.subrange(0, sp1.len() as int) == sp1,
        0 <= prev,
        0 <= min,
        cut <= bytes.len(),
        min <= cut - prev <= max,
        prev < cut,
        sp2.last().start() == prev,
        sp2.last().bytes() == bytes.subrange(prev, cut),
    ensures
        sp2.subrange(0, l0) == sp0.subrange(0, l0),
        tiles(sp2.subrange(l0, sp2.len() as int), bytes, from, cut),
        sizes_within(sp2.subrange(l0, sp2.len() as int), min, max),
{
    let l1 = sp0.len() as int;
    let l2 = sp1.len() as int;
    let a = sp0.subrange(l0, l1);
    let b = sp1.subrange(l1, l2);
    let c = sp2.subrange(l2, l2 + 1);
    assert(sp2.subrange(0, l0) =~= sp0.subrange(0, l0)) by {
        assert forall|i: int| 0 <= i < l0 implies sp2[i] == sp0[i] by {
            assert(sp2[i] == sp1[i]);
            assert(sp1[i] == sp0[i]);
        }
    }
    assert(sp2.subrange(l0, l2 + 1) =~= a + b + c) by {
        assert forall|i: int| 0 <= i < l2 + 1 - l0 implies sp2[i + l0] == (a + b + c)[i] by {
            if i + l0 < l1 {
                assert(sp2[i + l0] == sp1[i + l0]);
                assert(sp1[i + l0] == sp0[i + l0]);
            } else if i + l0 < l2 {
                assert(sp2[i + l0] == sp1[i + l0]);
            }
        }
    }
    assert(c.len() == 1 && c[0] == sp2.last());
    assert(tiles(c, bytes, prev, cut));
    lemma_tiles_append(a, b, bytes, from, lower, prev);
    lemma_tiles_append(a + b, c, bytes, from, prev, cut);
    assert forall|i: int| 0 <= i < (a + b + c).len() implies min <= (#[trigger] (a + b + c)[i]).bytes().len() <= max
        && 0 < (a + b + c)[i].bytes().len() by {
        if i < a.len() {
            assert((a + b + c)[i] == a[i]);
        } else if i < a.len() + b.len() {
            assert((a + b + c)[i] == b[i - a.len()]);
        } else {
            assert((a + b + c)[i] == c[0]);
        }
    }
}

/// A scanned span appended behind sorted spans keeps them sorted.
proof fn lemma_push_span(v: Seq<MinChunk>, c: MinChunk, scan: int, s: Seq<u8>)
    requires
        spans_ok(v, s),
        sorted(v),
        span_ok(c, s),
        c.start == scan,
        v.len() > 0 ==> v.last().stop <= scan,
    ensures
        spans_ok(v.push(c), s),
        sorted(v.push(c)),
{
    let w = v.push(c);
    assert forall|k: int| 0 <= k < w.len() implies span_ok(#[trigger] w[k], s) by {
        if k < v.len() {
            assert(w[k] == v[k]);
        }
    }
    assert forall|k: int| 0 <= k < w.len() - 1 implies #[trigger] step_ok(w, k) by {
        if k < v.len() - 1 {
            assert(step_ok(v, k));
        }
    }
}

/// The spans of `v` as the search sees them: where each starts, where it
/// stops, and its stamp from `st` (the later it joined the tree, the larger).
pub open spec fn pieces_of(v: Seq<MinChunk>, st: Seq<int>) -> Seq<(int, int, int)> {
    Seq::new(v.len(), |i: int| (v[i].start_pos(), v[i].stop_pos(), st[i]))
}

/// The stamps of `ps`, in order.
pub open spec fn stamps_of(ps: Seq<(int, int, int)>) -> Seq<int> {
    Seq::new(ps.len(), |i: int| ps[i].2)
}

/// The span `p` narrowed to `lo .. hi`, as `MinChunk::clamp` narrows it.
pub open spec fn clamp_piece(p: (int, int, int), lo: int, hi: int) -> (int, int) {
    (clamp_to(lo, p.0, p.1), clamp_to(hi, p.0, p.1))
}

/// The spans `ps` once those that start before `lo` are dropped from the
/// front, up to the first one that keeps something of `lo .. hi`, which is
/// narrowed to it and joins again, newest of all.
pub open spec fn trim_front(ps: Seq<(int, int, int)>, lo: int, hi: int) -> Seq<(int, int, int)>
    decreases ps.len(),
{
    if ps.len() == 0 {
        ps
    } else if ps[0].0 < lo {
        let c = clamp_piece(ps[0], lo, hi);
        if c.0 < c.1 {
            seq![(c.0, c.1, next_stamp(stamps_of(ps.drop_first())))] + ps.drop_first()
        } else {
            trim_front(ps.drop_first(), lo, hi)
        }
    } else {
        ps
    }
}

/// The spans `ps` once those that stop after `hi` are dropped from the
/// back, up to the last one that keeps something of `lo .. hi`, which is
/// narrowed to it and joins again, newest of all.
pub open spec fn trim_back(ps: Seq<(int, int, int)>, lo: int, hi: int) -> Seq<(int, int, int)>
    decreases ps.len(),
{
    if ps.len() == 0 {
        ps
    } else if ps.last().1 > hi {
        let c = clamp_piece(ps.last(), lo, hi);
        if c.0 < c.1 {
            ps.drop_last().push((c.0, c.1, next_stamp(stamps_of(ps.drop_last()))))
        } else {
            trim_back(ps.drop_last(), lo, hi)
        }
    } else {
        ps
    }
}

/// The spans `ps` trimmed to `lo .. hi`: first at the front, then at the back.
pub open spec fn trimmed(ps: Seq<(int, int, int)>, lo: int, hi: int) -> Seq<(int, int, int)> {
    trim_back(trim_front(ps, lo, hi), lo, hi)
}

/// `ps` with the spans that the scan lays down from `from` up to `to`
/// appended, each newest of all: pieces of `SCAN_SPAN` bytes, the last one
/// shorter where the stretch runs out.
pub open spec fn scanned(ps: Seq<(int, int, int)>, from: int, to: int) -> Seq<(int, int, int)>
    decreases to - from,
{
    if from >= to {
        ps
    } else {
        let e = if to - from < SCAN_SPAN { to } else { from + SCAN_SPAN };
        scanned(ps.push((from, e, next_stamp(stamps_of(ps)))), e, to)
    }
}

/// Span `k` of `w` scores lower than every other span of `w`, or as low and
/// with an earlier stamp.
#[verifier::opaque]
pub open spec fn first_lowest(s: Seq<u8>, w: Seq<(int, int, int)>, k: int) -> bool {
    &&& 0 <= k < w.len()
    &&& forall|j: int|
        0 <= j < w.len() && j != k ==> span_score(s, w[k].0, w[k].1) < #[trigger] span_score(
            s,
            w[j].0,
            w[j].1,
        ) || (span_score(s, w[k].0, w[k].1) == span_score(s, w[j].0, w[j].1) && w[k].2 < w[j].2)
}

/// The span that a round takes from `w`: the lowest-scoring one, and of
/// several as low the one with the earliest stamp.
pub open spec fn lowest_index(s: Seq<u8>, w: Seq<(int, int, int)>) -> int {
    choose|k: int| first_lowest(s, w, k)
}

/// The cuts of `lower .. upper` that the recursive search makes over the
/// spans `ps`.  Each round trims the spans to `lower + min .. upper - min`,
/// takes the span `lowest_index` names, cuts after its earliest lowest window,
/// searches `lower ..` that cut again when it lies more than `max` bytes past
/// `lower`, and goes on after the cut while more than `max` bytes are left
/// before `upper`.  The result holds the cuts in order, the last cut, and
/// whether every round found a span that leaves a cut inside the stretch.
#[verifier::opaque]
pub open spec fn rec_cuts(
    s: Seq<u8>,
    min: int,
    max: int,
    ps: Seq<(int, int, int)>,
    lower: int,
    upper: int,
) -> (Seq<int>, int, bool)
    decreases upper - lower,
{
    let w = trimmed(ps, lower + min, upper - min);
    let k = lowest_index(s, w);
    if !first_lowest(s, w, k) {
        (seq![], lower, false)
    } else {
        let cut = span_split(s, w[k].0, w[k].1);
        if !(lower < cut < upper) {
            (seq![], lower, false)
        } else {
            let left = if cut - lower > max {
                rec_cuts(s, min, max, w.take(k), lower, cut)
            } else {
                (seq![], lower, true)
            };
            if upper - cut > max {
                let right = rec_cuts(s, min, max, w.skip(k + 1), cut, upper);
                (left.0.push(cut) + right.0, right.1, left.2 && right.2)
            } else {
                (left.0.push(cut), cut, left.2)
            }
        }
    }
}

/// The cuts that the chunker makes from `out` to the end of `s`, holding the
/// spans `ps` with the scan at `scan`.  What is left is one chunk once it
/// holds at most `max` bytes.  Otherwise a round scans up to `horizon` bytes
/// past `out` (no further than the end), trims the spans to
/// `out + min .. len - min`, takes the span `lowest_index` names, cuts after
/// its earliest lowest window, searches `out ..` that cut again when it lies
/// more than `max` bytes past `out`, and goes on from the cut with the spans
/// after the one it took.  The result holds the cuts in order and whether
/// every round found a span that leaves a cut inside the stretch.
#[verifier::opaque]
pub open spec fn top_cuts(
    s: Seq<u8>,
    min: int,
    max: int,
    horizon: int,
    ps: Seq<(int, int, int)>,
    scan: int,
    out: int,
) -> (Seq<int>, bool)
    decreases s.len() - out,
{
    if out >= s.len() {
        (seq![], true)
    } else if out + max >= s.len() {
        (seq![s.len() as int], true)
    } else {
        let mr = capped(out + horizon, s.len() as int);
        let w = trimmed(scanned(ps, scan, mr), out + min, s.len() - min);
        let scan1 = if scan < mr { mr } else { scan };
        let k = lowest_index(s, w);
        if !first_lowest(s, w, k) {
            (seq![], false)
        } else {
            let cut = span_split(s, w[k].0, w[k].1);
            if !(out < cut < s.len()) {
                (seq![], false)
            } else {
                let left = if cut - out > max {
                    rec_cuts(s, min, max, w.take(k), out, cut)
                } else {
                    (seq![], out, true)
                };
                let rest = top_cuts(s, min, max, horizon, w.skip(k + 1), scan1, cut);
                (left.0.push(cut) + rest.0, left.2 && rest.1)
            }
        }
    }
}

/// Where each chunk of `cs` ends.
pub open spec fn ends_of(cs: Seq<Chunk>) -> Seq<int> {
    Seq::new(cs.len(), |i: int| cs[i].end())
}

/// The cuts `done` followed by the result `r` of further cutting.
pub open spec fn glue(done: Seq<int>, r: (Seq<int>, int, bool)) -> (Seq<int>, int, bool) {
    (done + r.0, r.1, r.2)
}

/// The cuts `done` followed by the result `r` of further cutting.
pub open spec fn glue_top(done: Seq<int>, r: (Seq<int>, bool)) -> (Seq<int>, bool) {
    (done + r.0, r.1)
}

/// The span that `first_lowest` holds of is the one `lowest_index` names.
proof fn lemma_lowest_index(s: Seq<u8>, w: Seq<(int, int, int)>, k: int)
    requires
        first_lowest(s, w, k),
    ensures
        lowest_index(s, w) == k,
{
    reveal(first_lowest);
    let k2 = lowest_index(s, w);
    assert(first_lowest(s, w, k2));
    if k2 != k {
        assert(span_score(s, w[k].0, w[k].1) < span_score(s, w[k2].0, w[k2].1) || (span_score(
            s,
            w[k].0,
            w[k].1,
        ) == span_score(s, w[k2].0, w[k2].1) && w[k].2 < w[k2].2));
        assert(span_score(s, w[k2].0, w[k2].1) < span_score(s, w[k].0, w[k].1) || (span_score(
            s,
            w[k2].0,
            w[k2].1,
        ) == span_score(s, w[k].0, w[k].1) && w[k2].2 < w[k].2));
    }
}

/// A search of a stretch fails where no span is left after trimming, or
/// where the cut of the span it takes does not fall strictly inside.
proof fn lemma_rec_fails(
    s: Seq<u8>,
    min: int,
    max: int,
    ps: Seq<(int, int, int)>,
    lower: int,
    upper: int,
    rp: int,
)
    requires
        trimmed(ps, lower + min, upper - min).len() == 0 || ({
            let w = trimmed(ps, lower + min, upper - min);
            &&& first_lowest(s, w, rp)
            &&& !(lower < span_split(s, w[rp].0, w[rp].1) < upper)
        }),
    ensures
        !rec_cuts(s, min, max, ps, lower, upper).2,
{
    let w = trimmed(ps, lower + min, upper - min);
    reveal(rec_cuts);
    if w.len() == 0 {
        reveal(first_lowest);
    } else {
        lemma_lowest_index(s, w, rp);
    }
}

/// A search of a stretch fails where the nested search of the stretch before
/// the span it takes fails.
proof fn lemma_rec_left_fails(
    s: Seq<u8>,
    min: int,
    max: int,
    ps: Seq<(int, int, int)>,
    lower: int,
    upper: int,
    w: Seq<(int, int, int)>,
    rp: int,
    cut: int,
)
    requires
        w == trimmed(ps, lower + min, upper - min),
        first_lowest(s, w, rp),
        cut == span_split(s, w[rp].0, w[rp].1),
        lower < cut < upper,
        cut - lower > max,
        !rec_cuts(s, min, max, w.take(rp), lower, cut).2,
    ensures
        !rec_cuts(s, min, max, ps, lower, upper).2,
{
    lemma_lowest_index(s, w, rp);
    reveal(rec_cuts);
}

/// A run fails where its next round is left with no span after trimming, or
/// where the cut of the span it takes does not fall strictly inside.
proof fn lemma_top_fails(
    s: Seq<u8>,
    min: int,
    max: int,
    horizon: int,
    ps: Seq<(int, int, int)>,
    scan: int,
    out: int,
    rp: int,
)
    requires
        0 <= out,
        0 <= max,
        out + max < s.len(),
        ({
            let w = trimmed(scanned(ps, scan, capped(out + horizon, s.len() as int)), out + min, s.len() - min);
            w.len() == 0 || (first_lowest(s, w, rp) && !(out < span_split(s, w[rp].0, w[rp].1) < s.len()))
        }),
    ensures
        !top_cuts(s, min, max, horizon, ps, scan, out).1,
{
    let w = trimmed(scanned(ps, scan, capped(out + horizon, s.len() as int)), out + min, s.len() - min);
    reveal(top_cuts);
    if w.len() == 0 {
        reveal(first_lowest);
    } else {
        lemma_lowest_index(s, w, rp);
    }
}

/// A run fails where the nested search of the stretch before the span its
/// next round takes fails.
proof fn lemma_top_left_fails(
    s: Seq<u8>,
    min: int,
    max: int,
    horizon: int,
    ps: Seq<(int, int, int)>,
    scan: int,
    out: int,
    w: Seq<(int, int, int)>,
    rp: int,
    cut: int,
)
    requires
        0 <= out,
        0 <= max,
        out + max < s.len(),
        w == trimmed(scanned(ps, scan, capped(out + horizon, s.len() as int)), out + min, s.len() - min),
        first_lowest(s, w, rp),
        cut == span_split(s, w[rp].0, w[rp].1),
        out < cut < s.len(),
        cut - out > max,
        !rec_cuts(s, min, max, w.take(rp), out, cut).2,
    ensures
        !top_cuts(s, min, max, horizon, ps, scan, out).1,
{
    lemma_lowest_index(s, w, rp);
    reveal(top_cuts);
}

/// A round of the recursive search carried into the description of the whole
/// search: what came before it (`done`), the nested search and this round's
/// cut (`done2`), then the rest from the cut on.
proof fn lemma_rec_advance(
    s: Seq<u8>,
    min: int,
    max: int,
    ps0: Seq<(int, int, int)>,
    lower0: int,
    done: Seq<int>,
    done2: Seq<int>,
    ps: Seq<(int, int, int)>,
    w: Seq<(int, int, int)>,
    rp: int,
    cut: int,
    inner: Seq<int>,
    prev: int,
    lower: int,
    upper: int,
)
    requires
        rec_cuts(s, min, max, ps0, lower0, upper) == glue(done, rec_cuts(s, min, max, ps, lower, upper)),
        w == trimmed(ps, lower + min, upper - min),
        first_lowest(s, w, rp),
        cut == span_split(s, w[rp].0, w[rp].1),
        lower < cut < upper,
        cut - lower > max ==> rec_cuts(s, min, max, w.take(rp), lower, cut) == (inner, prev, true),
        cut - lower <= max ==> inner == Seq::<int>::empty(),
        done2 == done + inner.push(cut),
    ensures
        upper - cut > max ==> rec_cuts(s, min, max, ps0, lower0, upper) == glue(
            done2,
            rec_cuts(s, min, max, w.skip(rp + 1), cut, upper),
        ),
        upper - cut <= max ==> rec_cuts(s, min, max, ps0, lower0, upper) == (done2, cut, true),
{
    lemma_lowest_index(s, w, rp);
    reveal(rec_cuts);
    if upper - cut > max {
        let next = rec_cuts(s, min, max, w.skip(rp + 1), cut, upper);
        assert(done + (inner.push(cut) + next.0) =~= done2 + next.0);
    } else {
        assert(done + inner.push(cut) =~= done2);
    }
}

/// A round of the chunker carried into the description of the whole run:
/// what came before it (`done`), the nested search and this round's cut
/// (`done2`), then the rest from the cut on.
proof fn lemma_top_advance(
    s: Seq<u8>,
    min: int,
    max: int,
    horizon: int,
    ps0: Seq<(int, int, int)>,
    scan0: int,
    out0: int,
    done: Seq<int>,
    done2: Seq<int>,
    ps: Seq<(int, int, int)>,
    scan: int,
    out: int,
    w: Seq<(int, int, int)>,
    rp: int,
    cut: int,
    inner: Seq<int>,
    prev: int,
)
    requires
        top_cuts(s, min, max, horizon, ps0, scan0, out0) == glue_top(
            done,
            top_cuts(s, min, max, horizon, ps, scan, out),
        ),
        out < s.len(),
        out + max < s.len(),
        scan <= capped(out + horizon, s.len() as int),
        w == trimmed(scanned(ps, scan, capped(out + horizon, s.len() as int)), out + min, s.len() - min),
        first_lowest(s, w, rp),
        cut == span_split(s, w[rp].0, w[rp].1),
        out < cut < s.len(),
        cut - out > max ==> rec_cuts(s, min, max, w.take(rp), out, cut) == (inner, prev, true),
        cut - out <= max ==> inner == Seq::<int>::empty(),
        done2 == done + inner.push(cut),
    ensures
        top_cuts(s, min, max, horizon, ps0, scan0, out0) == glue_top(
            done2,
            top_cuts(s, min, max, horizon, w.skip(rp + 1), capped(out + horizon, s.len() as int), cut),
        ),
{
    lemma_lowest_index(s, w, rp);
    reveal(top_cuts);
    let mr = capped(out + horizon, s.len() as int);
    let rest = top_cuts(s, min, max, horizon, w.skip(rp + 1), mr, cut);
    assert(done + (inner.push(cut) + rest.0) =~= done2 + rest.0);
}

/// At the end of the input there is nothing left to cut, and a rest of at
/// most `max` bytes is one last chunk.
proof fn lemma_top_tail(
    s: Seq<u8>,
    min: int,
    max: int,
    horizon: int,
    ps: Seq<(int, int, int)>,
    scan: int,
    out: int,
)
    ensures
        out >= s.len() ==> top_cuts(s, min, max, horizon, ps, scan, out) == (Seq::<int>::empty(), true),
        out < s.len() && out + max >= s.len() ==> top_cuts(s, min, max, horizon, ps, scan, out) == (
        seq![s.len() as int], true),
{
    reveal(top_cuts);
}

/// Chunks of one more round appended to those before them: they tile on,
/// keep their sizes, and their cuts follow the earlier ones.
proof fn lemma_chunks_step(
    before: Seq<Chunk>,
    add: Seq<Chunk>,
    input: Seq<u8>,
    x: int,
    y: int,
    z: int,
    min: int,
    max: int,
    all_cuts: (Seq<int>, bool),
    rest: (Seq<int>, bool),
)
    requires
        tiles(before, input, x, y),
        tiles(add, input, y, z),
        sizes_within(before, min, max),
        sizes_within(add, min, max),
        all_cuts == glue_top(ends_of(before), glue_top(ends_of(add), rest)),
    ensures
        tiles(before + add, input, x, z),
        sizes_within(before + add, min, max),
        all_cuts == glue_top(ends_of(before + add), rest),
{
    let all = before + add;
    lemma_tiles_append(before, add, input, x, y, z);
    assert(ends_of(all) =~= ends_of(before) + ends_of(add));
    assert(ends_of(before) + (ends_of(add) + rest.0) =~= ends_of(all) + rest.0);
    assert forall|i: int| 0 <= i < all.len() implies min <= (#[trigger] all[i]).bytes().len() <= max by {
        if i < before.len() {
            assert(all[i] == before[i]);
        } else {
            assert(all[i] == add[i - before.len()]);
        }
    }
}

/// The span `rp` of spans side by side that ranks lower than every other, or
/// as low with an earlier stamp, is the one a round takes.
proof fn lemma_first_lowest(w: Seq<MinChunk>, st: Seq<int>, s: Seq<u8>, rp: int)
    requires
        spans_ok(w, s),
        st.len() == w.len(),
        0 <= rp < w.len(),
        forall|j: int|
            0 <= j < w.len() && j != rp ==> (w[rp].rank() < #[trigger] w[j].rank() || (w[rp].rank()
                == w[j].rank() && st[rp] < st[j])),
    ensures
        first_lowest(s, pieces_of(w, st), rp),
{
    reveal(first_lowest);
    let b = pieces_of(w, st);
    assert forall|j: int| 0 <= j < b.len() && j != rp implies span_score(s, b[rp].0, b[rp].1)
        < #[trigger] span_score(s, b[j].0, b[j].1) || (span_score(s, b[rp].0, b[rp].1) == span_score(
        s,
        b[j].0,
        b[j].1,
    ) && b[rp].2 < b[j].2) by {
        assert(span_ok(w[j], s));
        assert(span_ok(w[rp], s));
        assert(w[rp].rank() < w[j].rank() || (w[rp].rank() == w[j].rank() && st[rp] < st[j]));
    }
}

/// The span a round takes out of trimmed spans, and the spans on either
/// side of it.
proof fn lemma_round_parts(w: Seq<MinChunk>, s: Seq<u8>, rp: int, lo: int, hi: int)
    requires
        spans_ok(w, s),
        sorted(w),
        forall|i: int| 0 <= i < w.len() ==> lo <= (#[trigger] w[i]).start && w[i].stop <= hi,
        0 <= rp < w.len(),
    ensures
        span_ok(w[rp], s),
        lo <= w[rp].start < w[rp].stop <= hi,
        w[rp].stop <= w.last().stop,
        spans_ok(w.subrange(0, rp), s),
        sorted(w.subrange(0, rp)),
        spans_ok(w.subrange(rp + 1, w.len() as int), s),
        sorted(w.subrange(rp + 1, w.len() as int)),
        forall|i: int| rp < i < w.len() ==> w[rp].stop <= #[trigger] w[i].start,
        forall|i: int| 0 <= i < w.len() ==> (#[trigger] w[i]).stop <= w.last().stop,
{
    let n = w.len() as int;
    lemma_spans_nonempty(w, s);
    assert(span_ok(w[rp], s));
    lemma_sorted_sub(w, 0, rp);
    lemma_sorted_sub(w, rp + 1, n);
    let l = w.subrange(0, rp);
    let r = w.subrange(rp + 1, n);
    assert forall|k: int| 0 <= k < l.len() implies span_ok(#[trigger] l[k], s) by {
        assert(l[k] == w[k]);
    }
    assert forall|k: int| 0 <= k < r.len() implies span_ok(#[trigger] r[k], s) by {
        assert(r[k] == w[k + rp + 1]);
    }
    assert forall|i: int| rp < i < n implies w[rp].stop <= #[trigger] w[i].start by {
        lemma_sorted_order(w, rp, i);
    }
    assert forall|i: int| 0 <= i < n implies (#[trigger] w[i]).stop <= w.last().stop by {
        if i < n - 1 {
            lemma_sorted_order(w, i, n - 1);
        }
    }
}

/// The configuration and input of a chunker, all but its node map.
pub closed spec fn same_setting<'a>(a: SliceRecMinCdcHash4<'a>, b: SliceRecMinCdcHash4<'a>) -> bool {
    &&& a.min_size == b.min_size
    &&& a.max_size == b.max_size
    &&& a.horizon == b.horizon
    &&& a.bytes@ == b.bytes@
    &&& a.out_offset == b.out_offset
    &&& a.scan_offset == b.scan_offset
    &&& a.tree == b.tree
}

/// Splits a byte slice into chunks whose boundaries depend on its content.
#[derive(Clone)]
pub struct SliceRecMinCdcHash4<'a> {
    min_size: usize,
    max_size: usize,
    horizon: usize,
    bytes: &'a [u8],
    out_offset: usize,
    scan_offset: usize,
    nodes: CartNodes,
    tree: CartTree,
}

proof fn lemma_unchanged_at(
    m0: Map<CartNodeKey, CartNode>,
    m1: Map<CartNodeKey, CartNode>,
    ks0: Seq<CartNodeKey>,
    k: CartNodeKey,
)
    requires
        unchanged_outside(m0, m1, ks0),
        m0.contains_key(k),
        !ks0.contains(k),
    ensures
        m1.contains_key(k) && m1[k] == m0[k],
{
}

/// Keys that were in `before` and not in `owned` keep their nodes through
/// two steps when the second step touches only keys of `owned` or new ones.
proof fn lemma_frame_step(
    m0: Map<CartNodeKey, CartNode>,
    m1: Map<CartNodeKey, CartNode>,
    m2: Map<CartNodeKey, CartNode>,
    ks0: Seq<CartNodeKey>,
    ks1: Seq<CartNodeKey>,
)
    requires
        unchanged_outside(m0, m1, ks0),
        forall|k| #[trigger] ks1.contains(k) ==> ks0.contains(k) || !m0.contains_key(k),
        unchanged_outside(m1, m2, ks1),
    ensures
        unchanged_outside(m0, m2, ks0),
{
    assert forall|k: CartNodeKey| m0.contains_key(k) && !ks0.contains(k) implies #[trigger] m2.contains_key(k)
        && m2[k] == m0[k] by {
        lemma_unchanged_at(m0, m1, ks0, k);
        lemma_unchanged_at(m1, m2, ks1, k);
    }
}

/// `x` capped at `hi`.
pub open spec fn capped(x: int, hi: int) -> int {
    if x < hi {
        x
    } else {
        hi
    }
}

/// What is left once the front of a trim is done: the spans from the first
/// that reaches past `lo`, that one narrowed to start at `lo` when it started
/// before.
proof fn lemma_front_trimmed(
    v0: Seq<MinChunk>,
    w1: Seq<MinChunk>,
    j: int,
    clipped: bool,
    cl: MinChunk,
    lo: int,
    hi: int,
    s: Seq<u8>,
)
    requires
        spans_ok(v0, s),
        sorted(v0),
        lo < hi,
        0 <= j <= v0.len(),
        forall|k: int| 0 <= k < j ==> #[trigger] v0[k].stop <= lo,
        !clipped ==> (j < v0.len() ==> v0[j].start >= lo),
        clipped ==> {
            &&& j < v0.len()
            &&& cl.start == lo
            &&& cl.stop == capped(v0[j].stop as int, hi)
            &&& v0[j].start < lo < v0[j].stop
            &&& span_ok(cl, s)
        },
        w1 == if clipped { seq![cl] + v0.subrange(j + 1, v0.len() as int) } else { v0.subrange(j, v0.len() as int) },
    ensures
        spans_ok(w1, s),
        sorted(w1),
        forall|i: int| 0 <= i < w1.len() ==> #[trigger] w1[i].start >= lo,
        w1.len() > 0 ==> v0.len() > 0 && w1.last().stop <= v0.last().stop,
{
    let n0 = v0.len() as int;
    lemma_spans_nonempty(v0, s);
    lemma_sorted_sub(v0, j, n0);
    if clipped {
        lemma_sorted_sub(v0, j + 1, n0);
        assert forall|k: int| 0 <= k < w1.len() - 1 implies #[trigger] step_ok(w1, k) by {
            if k > 0 {
                assert(step_ok(v0, k + j));
            } else {
                assert(step_ok(v0, j));
            }
        }
    } else {
        assert(w1 =~= v0.subrange(j, n0));
    }
    assert forall|k: int| 0 <= k < w1.len() implies span_ok(#[trigger] w1[k], s) by {
        if !(clipped && k == 0) {
            assert(w1[k] == v0[k + j]);
        }
    }
    lemma_spans_nonempty(w1, s);
    assert forall|i: int| 0 <= i < w1.len() implies #[trigger] w1[i].start >= lo by {
        if i > 0 {
            lemma_sorted_order(w1, 0, i);
        }
    }
    if w1.len() > 0 {
        assert(w1.last() == v0.last() || (clipped && w1.len() == 1));
    }
}

/// What is left once the back of a trim is done: the spans up to the last
/// that starts before `hi`, that one narrowed to stop at `hi` when it stopped
/// after.
proof fn lemma_back_trimmed(
    v0: Seq<MinChunk>,
    w1: Seq<MinChunk>,
    w2: Seq<MinChunk>,
    k: int,
    clipped2: bool,
    c2: MinChunk,
    lo: int,
    hi: int,
    s: Seq<u8>,
)
    requires
        spans_ok(w1, s),
        sorted(w1),
        lo < hi,
        forall|i: int| 0 <= i < w1.len() ==> #[trigger] w1[i].start >= lo,
        w1.len() > 0 ==> v0.len() > 0 && w1.last().stop <= v0.last().stop,
        0 <= k <= w1.len(),
        forall|i: int| k <= i < w1.len() ==> #[trigger] w1[i].start >= hi,
        !clipped2 ==> (k > 0 ==> w1[k - 1].stop <= hi),
        clipped2 ==> {
            &&& k >= 1
            &&& c2.start == w1[k - 1].start
            &&& c2.stop == hi
            &&& w1[k - 1].start < hi < w1[k - 1].stop
            &&& span_ok(c2, s)
        },
        w2 == if clipped2 { w1.subrange(0, k - 1).push(c2) } else { w1.subrange(0, k) },
    ensures
        spans_ok(w2, s),
        sorted(w2),
        forall|i: int| 0 <= i < w2.len() ==> lo <= (#[trigger] w2[i]).start && w2[i].stop <= hi,
        w2.len() > 0 ==> v0.len() > 0 && w2.last().stop <= v0.last().stop,
{
    let n1 = w1.len() as int;
    lemma_spans_nonempty(w1, s);
    assert forall|i: int| 0 <= i < w2.len() implies span_ok(#[trigger] w2[i], s) by {
        if !(clipped2 && i == k - 1) {
            assert(w2[i] == w1[i]);
        }
    }
    assert forall|i: int| 0 <= i < w2.len() - 1 implies #[trigger] step_ok(w2, i) by {
        assert(step_ok(w1, i));
        assert(w2[i] == w1[i]);
        if !(clipped2 && i + 1 == k - 1) {
            assert(w2[i + 1] == w1[i + 1]);
        }
    }
    assert forall|i: int| 0 <= i < w2.len() implies lo <= (#[trigger] w2[i]).start && w2[i].stop <= hi by {
        if !(clipped2 && i == k - 1) {
            assert(w2[i] == w1[i]);
            if clipped2 {
                lemma_sorted_order(w1, i, k - 1);
            } else if i < k - 1 {
                lemma_sorted_order(w1, i, k - 1);
            }
        }
    }
    if w2.len() > 0 {
        let top = k - 1;
        if top < n1 - 1 {
            lemma_sorted_order(w1, top, n1 - 1);
        }
        assert(w2.last().stop <= w1[top].stop);
    }
}

/// After a round of cutting, the chunker holds the spans after the chosen
/// one and stands at the cut.
proof fn lemma_round_done<'a>(
    c: SliceRecMinCdcHash4<'a>,
    w: Seq<MinChunk>,
    rp: int,
    len: int,
)
    requires
        c.tree.wf(c.nodes),
        c.tree.ordered(c.nodes),
        c.tree.view_in(c.nodes) == w.subrange(rp + 1, w.len() as int),
        c.max_size >= 2 * c.min_size,
        c.horizon >= c.max_size,
        len == c.bytes@.len(),
        c.scan_offset <= len,
        c.out_offset <= len,
        c.scan_offset <= c.out_offset + c.horizon,
        node_map(c.nodes).dom().len() <= c.scan_offset,
        node_map(c.nodes).dom().len() * SCAN_SPAN <= c.scan_offset + c.out_offset + SCAN_SPAN,
        spans_ok(w.subrange(rp + 1, w.len() as int), c.bytes@),
        sorted(w.subrange(rp + 1, w.len() as int)),
        0 <= rp < w.len(),
        forall|i: int| rp < i < w.len() ==> w[rp].stop <= #[trigger] w[i].start,
        w.last().stop <= c.scan_offset,
        c.out_offset <= w[rp].stop,
        c.min_size >= SCAN_SPAN ==> c.covered(),
    ensures
        c.wf(),
{
    let n = w.len() as int;
    let r = w.subrange(rp + 1, n);
    if r.len() > 0 {
        assert(r[0] == w[rp + 1]);
        assert(r[r.len() - 1] == w[n - 1]);
    } else {
        assert(w[rp].stop <= w.last().stop) by {
            assert(rp == n - 1);
        }
    }
}

/// After a round of cutting with chunks of at least `SCAN_SPAN` bytes, the
/// spans after the chosen one still lie side by side from close to the cut.
proof fn lemma_round_done_covered<'a>(
    c: SliceRecMinCdcHash4<'a>,
    v: Seq<MinChunk>,
    w: Seq<MinChunk>,
    rp: int,
    m: MinChunk,
    len: int,
    min: int,
    max: int,
    out: int,
)
    requires
        c.tree.view_in(c.nodes) == w.subrange(rp + 1, w.len() as int),
        min == c.min_size,
        max == c.max_size,
        len == c.bytes@.len(),
        min >= SCAN_SPAN,
        max >= min + SCAN_SPAN,
        spans_ok(w, c.bytes@),
        adjacent(w),
        0 <= rp < w.len(),
        w[rp] == m,
        w[w.len() - 1].stop == capped(v[v.len() - 1].stop as int, len - min),
        v.len() > 0,
        v[v.len() - 1].stop <= c.scan_offset,
        v[v.len() - 1].stop < c.scan_offset ==> v[v.len() - 1].stop >= len - min,
        m.start < c.out_offset <= m.stop,
        m.stop <= len - min,
        out + max < len,
    ensures
        c.covered(),
{
    let n = w.len() as int;
    let r = w.subrange(rp + 1, n);
    assert(span_ok(w[rp], c.bytes@));
    lemma_adjacent_sub(w, rp + 1, n);
    lemma_adjacent_in_order(r, len - min);
    if r.len() > 0 {
        assert(r[0] == w[rp + 1]);
        assert(w[rp].stop == w[rp + 1].start);
        assert(r[r.len() - 1] == w[n - 1]);
    } else {
        assert(rp == n - 1);
    }
}

impl<'a> SliceRecMinCdcHash4<'a> {
    /// The input being cut.
    pub closed spec fn input(&self) -> Seq<u8> {
        self.bytes@
    }

    /// Where the next chunk starts.
    pub closed spec fn out_pos(&self) -> int {
        self.out_offset as int
    }

    /// The smallest size of a chunk (but a lone last one).
    pub closed spec fn min_len(&self) -> int {
        self.min_size as int
    }

    /// The largest size of a chunk.
    pub closed spec fn max_len(&self) -> int {
        self.max_size as int
    }

    /// How far past the next chunk's start the scan reads ahead.
    pub closed spec fn horizon_len(&self) -> int {
        self.horizon as int
    }

    /// The spans that the chunker holds, in order, with their stamps.
    pub closed spec fn pieces(&self) -> Seq<(int, int, int)> {
        pieces_of(self.tree.view_in(self.nodes), self.tree.stamps())
    }

    /// Where the scan of the input stands.
    pub closed spec fn scan_pos(&self) -> int {
        self.scan_offset as int
    }

    /// Where the spans in the tree start, or where the scan stands when the
    /// tree is empty.
    closed spec fn front(&self) -> int {
        let v = self.tree.view_in(self.nodes);
        if v.len() > 0 {
            v[0].start as int
        } else {
            self.scan_offset as int
        }
    }

    /// The chunker's state is consistent: the tree holds scored spans of the
    /// input in order, none before the next chunk's start and none past the
    /// scan.
    pub closed spec fn wf(&self) -> bool {
        let v = self.tree.view_in(self.nodes);
        let len = self.bytes@.len() as int;
        &&& self.max_size >= 2 * self.min_size
        &&& self.horizon >= self.max_size
        &&& self.out_offset <= len
        &&& self.scan_offset <= len
        &&& self.scan_offset <= self.out_offset + self.horizon
        &&& self.tree.wf(self.nodes)
        &&& self.tree.ordered(self.nodes)
        &&& node_map(self.nodes).dom().len() <= self.scan_offset
        &&& node_map(self.nodes).dom().len() * SCAN_SPAN <= self.scan_offset + self.out_offset + SCAN_SPAN
        &&& spans_ok(v, self.bytes@)
        &&& sorted(v)
        &&& v.len() > 0 ==> v.last().stop <= self.scan_offset
        &&& self.out_offset < len ==> self.out_offset <= self.front()
        &&& self.min_size >= SCAN_SPAN ==> self.covered()
    }

    /// With chunks of at least `SCAN_SPAN` bytes, the spans lie side by side
    /// from no later than `min_size` past the next chunk's start up to the
    /// scan, but for a gap that opens at or after `min_size` before the end.
    closed spec fn covered(&self) -> bool {
        let v = self.tree.view_in(self.nodes);
        let len = self.bytes@.len() as int;
        &&& in_order(v, len - self.min_size)
        &&& v.len() > 0 && v.last().stop < self.scan_offset ==> v.last().stop >= len - self.min_size
        &&& self.out_offset + self.max_size < len ==> self.front() <= self.out_offset + self.min_size
    }

    /// The sizes on which cutting stays within machine arithmetic: positions
    /// must fit in `usize`, and the node map, which gains at most one node per
    /// 512 bytes of input, must stay below the slot map's `u32` capacity.
    pub open spec fn supported(&self) -> bool {
        let len = self.input().len();
        &&& len > 0 ==> len + self.max_len() <= usize::MAX
        &&& len > self.max_len() ==> {
            &&& len + self.horizon_len() <= usize::MAX
            &&& len <= 0x1ff_ffff_ee00
        }
    }

    /// Every round that cutting from the chunker's state makes, and every
    /// nested search, finds a span to cut in once the spans are trimmed, and
    /// its cut falls strictly inside its stretch (which can only fail with a
    /// `min_size` of zero).  A rest of at most `max_size` bytes is one chunk
    /// and always runs through.  With a `min_size` below `SCAN_SPAN` a search
    /// can be left with no span: the stretch before a cut in the first span
    /// of a round holds none.
    pub open spec fn runs_through(&self) -> bool {
        top_cuts(
            self.input(),
            self.min_len(),
            self.max_len(),
            self.horizon_len(),
            self.pieces(),
            self.scan_pos(),
            self.out_pos(),
        ).1
    }

    /// A chunker over `bytes` whose chunks, all but the last, hold
    /// `min_size ..= max_size` bytes, looking at most `horizon` bytes ahead.
    pub fn new(bytes: &'a [u8], min_size: usize, max_size: usize, horizon: usize) -> (c: Self)
        requires
            max_size >= 2 * min_size,
            horizon >= max_size,
        ensures
            c.wf(),
            c.input() == bytes@,
            c.out_pos() == 0,
            c.scan_pos() == 0,
            c.pieces() == Seq::<(int, int, int)>::empty(),
            c.min_len() == min_size,
            c.max_len() == max_size,
            c.horizon_len() == horizon,
    {
        let nodes = CartNodes::default();
        let tree = CartTree::default();
        let c = Self {
            min_size,
            max_size,
            horizon,
            bytes,
            out_offset: 0,
            scan_offset: 0,
            nodes,
            tree,
        };
        assert(c.tree.view_in(c.nodes) == Seq::<MinChunk>::empty());
        c
    }

    /// Removes from `tree` the spans that lie outside the positions where a
    /// cut between `lower` and `upper` may fall, and narrows the spans that
    /// cross the edges of that stretch.
    #[verifier::spinoff_prover]
    fn trim_tree(&mut self, tree: &mut CartTree, lower: usize, upper: usize)
        requires
            old(tree).wf(old(self).nodes),
            old(tree).ordered(old(self).nodes),
            lower + 2 * old(self).min_size < upper,
            spans_ok(old(tree).view_in(old(self).nodes), old(self).bytes@),
            sorted(old(tree).view_in(old(self).nodes)),
            node_map(old(self).nodes).dom().len() + 2 < u32::MAX,
        ensures
            same_setting(*final(self), *old(self)),
            final(tree).wf(final(self).nodes),
            final(tree).ordered(final(self).nodes),
            ({
                let v = old(tree).view_in(old(self).nodes);
                let w = final(tree).view_in(final(self).nodes);
                let lo = lower + old(self).min_size;
                let hi = upper - old(self).min_size;
                &&& spans_ok(w, old(self).bytes@)
                &&& sorted(w)
                &&& forall|i: int| 0 <= i < w.len() ==> lo <= (#[trigger] w[i]).start && w[i].stop <= hi
                &&& w.len() > 0 ==> v.len() > 0 && w.last().stop <= v.last().stop
                &&& pieces_of(w, final(tree).stamps()) == trimmed(
                    pieces_of(v, old(tree).stamps()),
                    lo,
                    hi,
                )
                &&& v.len() > 0 && v[0].start <= lo && v.last().stop > lo && in_order(v, hi) ==> {
                    &&& w.len() > 0
                    &&& adjacent(w)
                    &&& w[0].start == lo
                    &&& w.last().stop == capped(v.last().stop as int, hi)
                }
            }),
            unchanged_outside(
                node_map(old(self).nodes),
                node_map(final(self).nodes),
                old(tree).key_seq(),
            ),
            forall|k|
                #[trigger] final(tree).key_seq().contains(k) ==> old(tree).key_seq().contains(k)
                    || !node_map(old(self).nodes).contains_key(k),
            node_map(final(self).nodes).dom().len() <= node_map(old(self).nodes).dom().len(),
    {
        let lo_split = lower + self.min_size;
        let hi_split = upper - self.min_size;
        let bytes = self.bytes;
        let is_less = |a: &MinChunk, b: &MinChunk| -> (r: bool)
            requires
                a.is_scored(),
                b.is_scored(),
            ensures
                r == (a.rank() < b.rank()),
            { a.is_less(b, bytes) };
        let ghost lo = lo_split as int;
        let ghost hi = hi_split as int;
        let ghost m0 = node_map(self.nodes);
        let ghost ks0 = tree.key_seq();
        let ghost v0 = tree.view_in(self.nodes);
        let ghost n0 = v0.len() as int;
        let ghost st0 = tree.stamps();
        let ghost cov: bool = n0 > 0 && v0[0].start <= lo && v0[n0 - 1].stop > lo && in_order(v0, hi);
        let ghost mut j: int = 0;
        let ghost mut clipped = false;
        let ghost mut cl = v0[0];
        proof {
            lemma_wf_keys(*tree, self.nodes);
            lemma_view_len(*tree, self.nodes);
            assert(v0.subrange(0, n0) =~= v0);
            assert(st0.subrange(0, n0) =~= st0);
        }
        loop
            invariant_except_break
                !clipped,
            invariant
                same_setting(*self, *old(self)),
                bytes@ == self.bytes@,
                lo == lower + self.min_size,
                hi == upper - self.min_size,
                lo_split == lo,
                hi_split == hi,
                lo < hi,
                compares_by_rank(is_less),
                tree.wf(self.nodes),
                tree.ordered(self.nodes),
                v0.len() == n0,
                spans_ok(v0, bytes@),
                sorted(v0),
                0 <= j <= n0,
                cov == (n0 > 0 && v0[0].start <= lo && v0[n0 - 1].stop > lo && in_order(v0, hi)),
                cov ==> j < n0,
                forall|k: int| 0 <= k < j ==> #[trigger] v0[k].stop <= lo,
                !clipped ==> tree.view_in(self.nodes) == v0.subrange(j, n0),
                !clipped ==> tree.stamps() == st0.subrange(j, n0),
                st0.len() == n0,
                trim_front(pieces_of(v0, st0), lo, hi) == trim_front(
                    pieces_of(v0.subrange(j, n0), st0.subrange(j, n0)),
                    lo,
                    hi,
                ),
                unchanged_outside(m0, node_map(self.nodes), ks0),
                forall|k|
                    #[trigger] tree.key_seq().contains(k) ==> ks0.contains(k) || !m0.contains_key(k),
                node_map(self.nodes).dom().len() <= m0.dom().len(),
                m0.dom().len() + 2 < u32::MAX,
            ensures
                pieces_of(tree.view_in(self.nodes), tree.stamps()) == trim_front(pieces_of(v0, st0), lo, hi),
                !clipped ==> tree.view_in(self.nodes) == v0.subrange(j, n0) && (j < n0 ==> v0[j].start >= lo),
                clipped ==> {
                    &&& j < n0
                    &&& tree.view_in(self.nodes) == seq![cl] + v0.subrange(j + 1, n0)
                    &&& cl.start == lo
                    &&& cl.stop == capped(v0[j].stop as int, hi)
                    &&& v0[j].start < lo < v0[j].stop
                    &&& span_ok(cl, bytes@)
                },
            decreases n0 - j,
        {
            let first = tree.first(&self.nodes);
            assert(j < n0 ==> (first matches Some(c) && c.start == v0[j].start));
            assert(j == n0 ==> first is None);
            let go = match first {
                Some(c) => c.start < lo_split,
                None => false,
            };
            if !go {
                proof {
                    if j < n0 {
                        assert(pieces_of(v0.subrange(j, n0), st0.subrange(j, n0))[0].0 >= lo);
                    }
                    assert(pieces_of(tree.view_in(self.nodes), tree.stamps()) =~= pieces_of(
                        v0.subrange(j, n0),
                        st0.subrange(j, n0),
                    ));
                }
                break ;
            }
            let ghost m1 = node_map(self.nodes);
            let ghost ks1 = tree.key_seq();
            assert(tree.view_in(self.nodes).len() > 0);
            proof {
                lemma_view_len(*tree, self.nodes);
            }
            let chunk = tree.pop_front(&mut self.nodes).unwrap();
            proof {
                assert(tree.key_seq() == ks1.drop_first());
                assert(chunk == v0[j]);
                assert(span_ok(v0[j], bytes@));
                lemma_frame_step(m0, m1, node_map(self.nodes), ks0, ks1);
                assert forall|k| #[trigger] tree.key_seq().contains(k) implies ks0.contains(k) || !m0.contains_key(k) by {
                    let d = ks1.drop_first();
                    assert(d.contains(k));
                    let i = choose|i: int| 0 <= i < d.len() && d[i] == k;
                    assert(d[i] == ks1[i + 1]);
                    assert(ks1.contains(k));
                }
                assert(tree.view_in(self.nodes) =~= v0.subrange(j + 1, n0));
                assert(tree.stamps() =~= st0.subrange(j + 1, n0));
            }
            match chunk.clamp(lo_split, hi_split) {
                Some(clamped) => {
                    let mut c = clamped;
                    c.eval(bytes);
                    let ghost m2 = node_map(self.nodes);
                    let ghost ks2 = tree.key_seq();
                    tree.push_front(c, &mut self.nodes, is_less);
                    proof {
                        lemma_frame_step(m0, m2, node_map(self.nodes), ks0, ks2);
                        assert forall|k| #[trigger] tree.key_seq().contains(k) implies ks0.contains(k) || !m0.contains_key(k) by {
                            if k != tree.key_seq()[0] {
                                let i = choose|i: int| 0 <= i < tree.key_seq().len() && tree.key_seq()[i] == k;
                                assert(tree.key_seq().drop_first()[i - 1] == k);
                                assert(ks2.contains(k));
                            } else if m0.contains_key(k) && !ks0.contains(k) {
                                assert(m2.contains_key(k));
                            }
                        }
                        clipped = true;
                        cl = c;
                        let bj = pieces_of(v0.subrange(j, n0), st0.subrange(j, n0));
                        assert(bj[0].0 == chunk.start_pos() && bj[0].1 == chunk.stop_pos());
                        let rest = pieces_of(v0.subrange(j + 1, n0), st0.subrange(j + 1, n0));
                        assert(rest =~= bj.drop_first());
                        assert(stamps_of(rest) =~= st0.subrange(j + 1, n0));
                        assert(pieces_of(tree.view_in(self.nodes), tree.stamps()) =~= seq![
                            (c.start_pos(), c.stop_pos(), next_stamp(st0.subrange(j + 1, n0))),
                        ] + rest);
                    }
                    break ;
                },
                None => {
                    proof {
                        if cov && j + 1 == n0 {
                            assert(false);
                        }
                        let bj = pieces_of(v0.subrange(j, n0), st0.subrange(j, n0));
                        assert(bj[0].0 == chunk.start_pos() && bj[0].1 == chunk.stop_pos());
                        assert(pieces_of(v0.subrange(j + 1, n0), st0.subrange(j + 1, n0)) =~= bj.drop_first());
                        j = j + 1;
                    }
                },
            }
        }
        let ghost w1 = tree.view_in(self.nodes);
        let ghost n1 = w1.len() as int;
        proof {
            lemma_front_trimmed(v0, w1, j, clipped, cl, lo, hi, bytes@);
            if cov {
                lemma_front_covered(v0, w1, j, clipped, cl, lo, hi, bytes@);
            }
        }
        let ghost m5 = node_map(self.nodes);
        let ghost ks5 = tree.key_seq();
        let ghost mut k: int = n1;
        let ghost sw1 = tree.stamps();
        proof {
            lemma_wf_keys(*tree, self.nodes);
            lemma_view_len(*tree, self.nodes);
            assert(w1.subrange(0, n1) =~= w1);
            assert(sw1.subrange(0, n1) =~= sw1);
        }
        let ghost mut clipped2 = false;
        let ghost mut c2 = cl;
        loop
            invariant_except_break
                !clipped2,
            invariant
                same_setting(*self, *old(self)),
                bytes@ == self.bytes@,
                lo == lower + self.min_size,
                hi == upper - self.min_size,
                lo_split == lo,
                hi_split == hi,
                lo < hi,
                compares_by_rank(is_less),
                tree.wf(self.nodes),
                tree.ordered(self.nodes),
                w1.len() == n1,
                spans_ok(w1, bytes@),
                sorted(w1),
                forall|i: int| 0 <= i < n1 ==> #[trigger] w1[i].start >= lo,
                0 <= k <= n1,
                cov ==> {
                    &&& n1 > 0
                    &&& k >= 1
                    &&& n0 > 0
                    &&& in_order(w1, hi)
                    &&& w1[0].start == lo
                    &&& capped(w1[n1 - 1].stop as int, hi) == capped(v0[n0 - 1].stop as int, hi)
                },
                forall|i: int| k <= i < n1 ==> #[trigger] w1[i].start >= hi,
                !clipped2 ==> tree.view_in(self.nodes) == w1.subrange(0, k),
                !clipped2 ==> tree.stamps() == sw1.subrange(0, k),
                sw1.len() == n1,
                trim_back(pieces_of(w1, sw1), lo, hi) == trim_back(
                    pieces_of(w1.subrange(0, k), sw1.subrange(0, k)),
                    lo,
                    hi,
                ),
                unchanged_outside(m5, node_map(self.nodes), ks5),
                forall|kk|
                    #[trigger] tree.key_seq().contains(kk) ==> ks5.contains(kk) || !m5.contains_key(kk),
                node_map(self.nodes).dom().len() <= m5.dom().len(),
                m5.dom().len() + 2 < u32::MAX,
            ensures
                pieces_of(tree.view_in(self.nodes), tree.stamps()) == trim_back(pieces_of(w1, sw1), lo, hi),
                !clipped2 ==> tree.view_in(self.nodes) == w1.subrange(0, k) && (k > 0 ==> w1[k - 1].stop <= hi),
                clipped2 ==> {
                    &&& k >= 1
                    &&& tree.view_in(self.nodes) == w1.subrange(0, k - 1).push(c2)
                    &&& c2.start == w1[k - 1].start
                    &&& c2.stop == hi
                    &&& w1[k - 1].start < hi < w1[k - 1].stop
                    &&& span_ok(c2, bytes@)
                },
            decreases k,
        {
            let last = tree.last(&self.nodes);
            assert(k > 0 ==> (last matches Some(c) && c.stop == w1[k - 1].stop));
            assert(k == 0 ==> last is None);
            let go = match last {
                Some(c) => c.stop > hi_split,
                None => false,
            };
            if !go {
                proof {
                    if k > 0 {
                        assert(pieces_of(w1.subrange(0, k), sw1.subrange(0, k)).last().1 <= hi);
                    }
                    assert(pieces_of(tree.view_in(self.nodes), tree.stamps()) =~= pieces_of(
                        w1.subrange(0, k),
                        sw1.subrange(0, k),
                    ));
                }
                break ;
            }
            let ghost m1 = node_map(self.nodes);
            let ghost ks1 = tree.key_seq();
            assert(tree.view_in(self.nodes).len() > 0);
            proof {
                lemma_view_len(*tree, self.nodes);
            }
            let chunk = tree.pop_back(&mut self.nodes).unwrap();
            proof {
                assert(tree.key_seq() == ks1.drop_last());
                assert(chunk == w1[k - 1]);
                assert(span_ok(w1[k - 1], bytes@));
                lemma_frame_step(m5, m1, node_map(self.nodes), ks5, ks1);
                assert forall|kk| #[trigger] tree.key_seq().contains(kk) implies ks5.contains(kk) || !m5.contains_key(kk) by {
                    let d = ks1.drop_last();
                    assert(d.contains(kk));
                    let i = choose|i: int| 0 <= i < d.len() && d[i] == kk;
                    assert(d[i] == ks1[i]);
                    assert(ks1.contains(kk));
                }
                assert(tree.view_in(self.nodes) =~= w1.subrange(0, k - 1));
                assert(tree.stamps() =~= sw1.subrange(0, k - 1));
            }
            match chunk.clamp(lo_split, hi_split) {
                Some(clamped) => {
                    let mut c = clamped;
                    c.eval(bytes);
                    let ghost m2 = node_map(self.nodes);
                    let ghost ks2 = tree.key_seq();
                    tree.push_back(c, &mut self.nodes, is_less);
                    proof {
                        lemma_frame_step(m5, m2, node_map(self.nodes), ks5, ks2);
                        assert forall|kk| #[trigger] tree.key_seq().contains(kk) implies ks5.contains(kk) || !m5.contains_key(kk) by {
                            if kk != tree.key_seq().last() {
                                let i = choose|i: int| 0 <= i < tree.key_seq().len() && tree.key_seq()[i] == kk;
                                assert(tree.key_seq().drop_last()[i] == kk);
                                assert(ks2.contains(kk));
                            } else if m5.contains_key(kk) && !ks5.contains(kk) {
                                assert(m2.contains_key(kk));
                            }
                        }
                        clipped2 = true;
                        c2 = c;
                        let bk = pieces_of(w1.subrange(0, k), sw1.subrange(0, k));
                        assert(bk.last().0 == chunk.start_pos() && bk.last().1 == chunk.stop_pos());
                        let rest = pieces_of(w1.subrange(0, k - 1), sw1.subrange(0, k - 1));
                        assert(rest =~= bk.drop_last());
                        assert(stamps_of(rest) =~= sw1.subrange(0, k - 1));
                        assert(pieces_of(tree.view_in(self.nodes), tree.stamps()) =~= rest.push(
                            (c.start_pos(), c.stop_pos(), next_stamp(sw1.subrange(0, k - 1))),
                        ));
                    }
                    break ;
                },
                None => {
                    proof {
                        if cov && k == 1 {
                            assert(false);
                        }
                        let bk = pieces_of(w1.subrange(0, k), sw1.subrange(0, k));
                        assert(bk.last().0 == chunk.start_pos() && bk.last().1 == chunk.stop_pos());
                        assert(pieces_of(w1.subrange(0, k - 1), sw1.subrange(0, k - 1)) =~= bk.drop_last());
                        k = k - 1;
                    }
                },
            }
        }
        proof {
            lemma_back_trimmed(v0, w1, tree.view_in(self.nodes), k, clipped2, c2, lo, hi, bytes@);
            if cov {
                lemma_back_covered(v0, w1, tree.view_in(self.nodes), k, clipped2, c2, lo, hi, bytes@);
            }
            lemma_frame_step(m0, m5, node_map(self.nodes), ks0, ks5);
            assert forall|kk| #[trigger] tree.key_seq().contains(kk) implies ks0.contains(kk) || !m0.contains_key(kk) by {
                if ks5.contains(kk) {
                }
            }
        }
    }

    /// Cuts `lower .. upper`, which is longer than `max_size`, into chunks
    /// of `min_size ..= max_size` bytes, appending them to `splits`, up to a
    /// cut that leaves at most `max_size` bytes before `upper`; returns that
    /// cut.
    #[verifier::rlimit(100)]
    #[verifier::spinoff_prover]
    fn split_recursive(
        &mut self,
        tree: CartTree,
        lower_bound: usize,
        upper_bound: usize,
        splits: &mut Vec<Chunk<'a>>,
    ) -> (res: Option<usize>)
        requires
            old(self).max_size >= 2 * old(self).min_size,
            upper_bound <= old(self).bytes@.len(),
            lower_bound + old(self).max_size < upper_bound,
            tree.wf(old(self).nodes),
            tree.ordered(old(self).nodes),
            spans_ok(tree.view_in(old(self).nodes), old(self).bytes@),
            sorted(tree.view_in(old(self).nodes)),
            node_map(old(self).nodes).dom().len() + 2 < u32::MAX,
        ensures
            same_setting(*final(self), *old(self)),
            (res is Some) == rec_cuts(
                old(self).bytes@,
                old(self).min_size as int,
                old(self).max_size as int,
                pieces_of(tree.view_in(old(self).nodes), tree.stamps()),
                lower_bound as int,
                upper_bound as int,
            ).2,
            old(self).min_size >= SCAN_SPAN && ({
                let v = tree.view_in(old(self).nodes);
                &&& v.len() > 0
                &&& adjacent(v)
                &&& v[0].start <= lower_bound + old(self).min_size
                &&& v.last().stop > lower_bound + old(self).min_size
                &&& v.last().stop + old(self).min_size >= upper_bound
            }) ==> res is Some,
            res matches Some(r) ==> {
                &&& lower_bound < r < upper_bound
                &&& r + old(self).min_size <= upper_bound
                &&& upper_bound - r <= old(self).max_size
                &&& old(splits)@.len() <= final(splits)@.len()
                &&& final(splits)@.subrange(0, old(splits)@.len() as int) == old(splits)@
                &&& tiles(
                    final(splits)@.subrange(old(splits)@.len() as int, final(splits)@.len() as int),
                    old(self).bytes@,
                    lower_bound as int,
                    r as int,
                )
                &&& sizes_within(
                    final(splits)@.subrange(old(splits)@.len() as int, final(splits)@.len() as int),
                    old(self).min_size as int,
                    old(self).max_size as int,
                )
                &&& rec_cuts(
                    old(self).bytes@,
                    old(self).min_size as int,
                    old(self).max_size as int,
                    pieces_of(tree.view_in(old(self).nodes), tree.stamps()),
                    lower_bound as int,
                    upper_bound as int,
                ) == (
                    ends_of(final(splits)@.subrange(old(splits)@.len() as int, final(splits)@.len() as int)),
                    r as int,
                    true,
                )
            },
            unchanged_outside(node_map(old(self).nodes), node_map(final(self).nodes), tree.key_seq()),
            node_map(final(self).nodes).dom().finite(),
            node_map(final(self).nodes).dom().len() <= node_map(old(self).nodes).dom().len(),
        decreases upper_bound - lower_bound,
    {
        let ghost m0 = node_map(self.nodes);
        let ghost ks0 = tree.key_seq();
        let ghost s0 = splits@;
        let ghost bytes = self.bytes@;
        let ghost min = self.min_size as int;
        let ghost max = self.max_size as int;
        let mut cur = tree;
        let mut lower = lower_bound;
        let ghost ps0 = pieces_of(tree.view_in(self.nodes), tree.stamps());
        proof {
            let r0 = rec_cuts(self.bytes@, min, max, ps0, lower_bound as int, upper_bound as int);
            assert(ends_of(splits@.subrange(s0.len() as int, splits@.len() as int)) + r0.0 =~= r0.0);
        }
        let ghost lower0 = lower_bound as int;
        let ghost good: bool = self.min_size >= SCAN_SPAN && ({
            let v = tree.view_in(self.nodes);
            &&& v.len() > 0
            &&& adjacent(v)
            &&& v[0].start <= lower_bound + self.min_size
            &&& v.last().stop > lower_bound + self.min_size
            &&& v.last().stop + self.min_size >= upper_bound
        });
        proof {
            lemma_wf_keys(cur, self.nodes);
        }
        loop
            invariant
                same_setting(*self, *old(self)),
                bytes == self.bytes@,
                min == self.min_size,
                max == self.max_size,
                self.max_size >= 2 * self.min_size,
                upper_bound <= bytes.len(),
                lower0 == lower_bound,
                s0 == old(splits)@,
                m0 == node_map(old(self).nodes),
                ks0 == tree.key_seq(),
                lower0 <= lower,
                lower + max < upper_bound,
                cur.wf(self.nodes),
                cur.ordered(self.nodes),
                spans_ok(cur.view_in(self.nodes), bytes),
                sorted(cur.view_in(self.nodes)),
                good == (old(self).min_size >= SCAN_SPAN && ({
                    let v = tree.view_in(old(self).nodes);
                    &&& v.len() > 0
                    &&& adjacent(v)
                    &&& v[0].start <= lower_bound + old(self).min_size
                    &&& v.last().stop > lower_bound + old(self).min_size
                    &&& v.last().stop + old(self).min_size >= upper_bound
                })),
                good ==> {
                    let v = cur.view_in(self.nodes);
                    &&& min >= SCAN_SPAN
                    &&& v.len() > 0
                    &&& adjacent(v)
                    &&& v[0].start <= lower + min
                    &&& v.last().stop > lower + min
                    &&& v.last().stop + min >= upper_bound
                },
                node_map(self.nodes).dom().len() <= m0.dom().len(),
                m0.dom().len() + 2 < u32::MAX,
                unchanged_outside(m0, node_map(self.nodes), ks0),
                forall|k| #[trigger] cur.key_seq().contains(k) ==> ks0.contains(k) || !m0.contains_key(k),
                splits@.subrange(0, s0.len() as int) == s0,
                s0.len() <= splits@.len(),
                tiles(splits@.subrange(s0.len() as int, splits@.len() as int), bytes, lower0, lower as int),
                sizes_within(splits@.subrange(s0.len() as int, splits@.len() as int), min, max),
                ps0 == pieces_of(tree.view_in(old(self).nodes), tree.stamps()),
                rec_cuts(bytes, min, max, ps0, lower0, upper_bound as int) == glue(
                    ends_of(splits@.subrange(s0.len() as int, splits@.len() as int)),
                    rec_cuts(
                        bytes,
                        min,
                        max,
                        pieces_of(cur.view_in(self.nodes), cur.stamps()),
                        lower as int,
                        upper_bound as int,
                    ),
                ),
            decreases upper_bound - lower,
        {
            let ghost v = cur.view_in(self.nodes);
            let ghost cur_st = cur.stamps();
            let ghost m1 = node_map(self.nodes);
            let ghost ks1 = cur.key_seq();
            proof {
                lemma_wf_keys(cur, self.nodes);
                if good {
                    lemma_adjacent_in_order(v, upper_bound - min);
                }
            }
            self.trim_tree(&mut cur, lower, upper_bound);
            let ghost w = cur.view_in(self.nodes);
            let ghost m2 = node_map(self.nodes);
            let ghost ks2 = cur.key_seq();
            let ghost tree2 = cur;
            let ghost nodes2 = self.nodes;
            let ghost lo = lower + min;
            let ghost hi = upper_bound - min;
            proof {
                lemma_frame_step(m0, m1, m2, ks0, ks1);
                lemma_view_len(tree2, nodes2);
                lemma_wf_keys(tree2, nodes2);
                assert(pieces_of(w, tree2.stamps()).len() == w.len());
            }
            if cur.is_empty() {
                proof {
                    assert(!good);
                    lemma_rec_fails(bytes, min, max, pieces_of(v, cur_st), lower as int, upper_bound as int, 0);
                }
                return None;
            }
            let (left, chunk, right) = cur.split_min(&mut self.nodes).unwrap();
            let ghost chunk_view = chunk;
            let ghost m3 = node_map(self.nodes);
            let ghost nodes3 = self.nodes;
            let ghost rp = cur.root_pos();
            proof {
                lemma_frame_step(m0, m2, m3, ks0, ks2);
                lemma_round_parts(w, bytes, rp, lo, hi);
                if good {
                    assert(w.last().stop == hi);
                    lemma_round_parts_adjacent(w, bytes, rp, lo, hi);
                }
                lemma_span_split_bounds(bytes, chunk.start as int, chunk.stop as int);
            }
            let mut chunk = chunk;
            let splitpoint = chunk.argmin(self.bytes);
            proof {
                assert(lo < splitpoint <= hi);
            }
            let ghost l1 = splits@.len() as int;
            let ghost sp0 = splits@;
            let ghost left_b = pieces_of(left.view_in(self.nodes), left.stamps());
            let ghost wb = pieces_of(w, tree2.stamps());
            proof {
                assert(w[rp] == chunk_view);
                assert(wb.take(rp) =~= left_b);
                lemma_first_lowest(w, tree2.stamps(), bytes, rp);
                assert(splitpoint == span_split(bytes, wb[rp].0, wb[rp].1));
            }
            if splitpoint >= upper_bound {
                proof {
                    assert(!good);
                    lemma_rec_fails(bytes, min, max, pieces_of(v, cur_st), lower as int, upper_bound as int, rp);
                }
                return None;
            }
            let mut prev_offset = lower;
            if splitpoint - lower > self.max_size {
                proof {
                    assert(left.view_in(self.nodes) == w.subrange(0, rp));
                    if good {
                        assert(rp > 0);
                    }
                }
                assert(splitpoint - lower < upper_bound - lower_bound);
                match self.split_recursive(left, lower, splitpoint, splits) {
                    Some(p) => {
                        prev_offset = p;
                    },
                    None => {
                        proof {
                            assert forall|k| #[trigger] left.key_seq().contains(k) implies ks0.contains(k) || !m0.contains_key(k) by {
                                let i = choose|i: int| 0 <= i < left.key_seq().len() && left.key_seq()[i] == k;
                                assert(ks2[i] == k);
                                assert(ks2.contains(k));
                            }
                            lemma_frame_step(m0, m3, node_map(self.nodes), ks0, left.key_seq());
                            assert(!good);
                            lemma_rec_left_fails(
                                bytes,
                                min,
                                max,
                                pieces_of(v, cur_st),
                                lower as int,
                                upper_bound as int,
                                wb,
                                rp,
                                splitpoint as int,
                            );
                        }
                        return None;
                    },
                }
            }
            let ghost m4 = node_map(self.nodes);
            let ghost l2 = splits@.len() as int;
            proof {
                lemma_wf_keys(right, nodes3);
                if splitpoint - lower > max {
                    assert forall|k| #[trigger] left.key_seq().contains(k) implies ks0.contains(k) || !m0.contains_key(k) by {
                        let i = choose|i: int| 0 <= i < left.key_seq().len() && left.key_seq()[i] == k;
                        assert(ks2[i] == k);
                        assert(ks2.contains(k));
                    }
                    lemma_frame_step(m0, m3, m4, ks0, left.key_seq());
                    assert forall|k| #[trigger] right.key_seq().contains(k) implies node_map(self.nodes).contains_key(k)
                        && node_map(self.nodes)[k] == node_map(nodes3)[k] by {
                        lemma_unchanged_at(m3, m4, left.key_seq(), k);
                    }
                    lemma_wf_frame(right, nodes3, self.nodes);
                }
                assert forall|k| #[trigger] right.key_seq().contains(k) implies ks0.contains(k) || !m0.contains_key(k) by {
                    let i = choose|i: int| 0 <= i < right.key_seq().len() && right.key_seq()[i] == k;
                    assert(ks2[i + rp + 1] == k);
                    assert(ks2.contains(k));
                }
            }
            let ghost sp1 = splits@;
            proof {
                assert(sp1.subrange(0, l1) == sp0);
                if splitpoint - lower <= max {
                    assert(sp1.subrange(l1, l2) =~= Seq::<Chunk>::empty());
                }
                assert(tiles(sp1.subrange(l1, l2), bytes, lower as int, prev_offset as int));
                assert(sizes_within(sp1.subrange(l1, l2), min, max));
            }
            let piece = vstd::slice::slice_subrange(self.bytes, prev_offset, splitpoint);
            splits.push(Chunk::new(piece, prev_offset));
            proof {
                assert(splits@.subrange(0, sp1.len() as int) =~= sp1);
                let cs = splits@;
                let inner = ends_of(sp1.subrange(l1, l2));
                let done = ends_of(sp0.subrange(s0.len() as int, l1));
                let done2 = ends_of(cs.subrange(s0.len() as int, cs.len() as int));
                assert(cs[l2].end() == splitpoint);
                assert(done2 =~= done + inner.push(splitpoint as int)) by {
                    assert forall|i: int| 0 <= i < done2.len() implies done2[i] == (done + inner.push(
                        splitpoint as int,
                    ))[i] by {
                        if i < l1 - s0.len() {
                            assert(cs[i + s0.len()] == sp0[i + s0.len()]);
                        } else if i < l2 - s0.len() {
                            assert(cs[i + s0.len()] == sp1[i + s0.len()]);
                        }
                    }
                }
                if splitpoint - lower <= max {
                    assert(inner =~= Seq::<int>::empty());
                }
                lemma_rec_advance(
                    bytes,
                    min,
                    max,
                    ps0,
                    lower0,
                    done,
                    done2,
                    pieces_of(v, cur_st),
                    wb,
                    rp,
                    splitpoint as int,
                    inner,
                    prev_offset as int,
                    lower as int,
                    upper_bound as int,
                );
                assert(pieces_of(right.view_in(self.nodes), right.stamps()) =~= wb.skip(rp + 1));
                lemma_splits_step(
                    sp0,
                    sp1,
                    splits@,
                    s0.len() as int,
                    bytes,
                    lower0,
                    lower as int,
                    prev_offset as int,
                    splitpoint as int,
                    min,
                    max,
                );
            }
            if upper_bound - splitpoint > self.max_size {
                cur = right;
                lower = splitpoint;
            } else {
                return Some(splitpoint);
            }
        }
    }

    /// One round of cutting from `out_offset`, which lies more than
    /// `max_size` bytes before the end: scans up to the horizon, trims the
    /// spans to where a cut may fall, cuts at the lowest one, cuts the
    /// stretch before it again where that is longer than `max_size`, and
    /// appends the chunks up to the cut.
    #[verifier::rlimit(100)]
    #[verifier::spinoff_prover]
    fn round(&mut self, chunks: &mut Vec<Chunk<'a>>) -> (ok: bool)
        requires
            old(self).wf(),
            old(self).supported(),
            old(self).out_offset + old(self).max_size < old(self).bytes@.len(),
        ensures
            !ok ==> !top_cuts(
                old(self).bytes@,
                old(self).min_size as int,
                old(self).max_size as int,
                old(self).horizon as int,
                old(self).pieces(),
                old(self).scan_offset as int,
                old(self).out_offset as int,
            ).1,
            old(self).min_size >= SCAN_SPAN ==> ok,
            ok ==> {
                &&& final(self).wf()
                &&& final(self).supported()
                &&& final(self).bytes@ == old(self).bytes@
                &&& final(self).min_size == old(self).min_size
                &&& final(self).max_size == old(self).max_size
                &&& final(self).horizon == old(self).horizon
                &&& old(self).out_offset < final(self).out_offset
                &&& final(self).out_offset + final(self).min_size <= final(self).bytes@.len()
                &&& old(chunks)@.len() < final(chunks)@.len()
                &&& final(chunks)@.subrange(0, old(chunks)@.len() as int) == old(chunks)@
                &&& tiles(
                    final(chunks)@.subrange(old(chunks)@.len() as int, final(chunks)@.len() as int),
                    old(self).bytes@,
                    old(self).out_offset as int,
                    final(self).out_offset as int,
                )
                &&& sizes_within(
                    final(chunks)@.subrange(old(chunks)@.len() as int, final(chunks)@.len() as int),
                    old(self).min_size as int,
                    old(self).max_size as int,
                )
                &&& top_cuts(
                    old(self).bytes@,
                    old(self).min_size as int,
                    old(self).max_size as int,
                    old(self).horizon as int,
                    old(self).pieces(),
                    old(self).scan_offset as int,
                    old(self).out_offset as int,
                ) == glue_top(
                    ends_of(final(chunks)@.subrange(old(chunks)@.len() as int, final(chunks)@.len() as int)),
                    top_cuts(
                        final(self).bytes@,
                        final(self).min_size as int,
                        final(self).max_size as int,
                        final(self).horizon as int,
                        final(self).pieces(),
                        final(self).scan_offset as int,
                        final(self).out_offset as int,
                    ),
                )
            },
    {
        let bytes = self.bytes;
        let is_less = |a: &MinChunk, b: &MinChunk| -> (r: bool)
            requires
                a.is_scored(),
                b.is_scored(),
            ensures
                r == (a.rank() < b.rank()),
            { a.is_less(b, bytes) };
        let ghost len = bytes@.len() as int;
        let ghost min = self.min_size as int;
        let ghost max = self.max_size as int;
        let ghost hz = self.horizon as int;
        let ghost l0 = chunks@.len() as int;
        let max_read = (self.out_offset + self.horizon).min(self.bytes.len());
        let ghost scan0 = self.scan_offset as int;
        let ghost out = self.out_offset as int;
        let ghost mut partial = false;
        let ghost big: bool = self.min_size >= SCAN_SPAN;
        let ghost a = self.front();
        let ghost g = len - min;
        proof {
            if big {
                assert(self.covered());
            }
        }
        let ghost ps_h = self.pieces();
        let ghost scan_h = self.scan_offset as int;
        proof {
            lemma_view_len(self.tree, self.nodes);
        }
        while max_read > self.scan_offset
            invariant
                bytes@ == self.bytes@,
                len == bytes@.len(),
                min == self.min_size,
                max == self.max_size,
                self.min_size == old(self).min_size,
                self.max_size == old(self).max_size,
                self.horizon == old(self).horizon,
                self.out_offset == out,
                self.supported(),
                compares_by_rank(is_less),
                max_read <= len,
                max_read == capped(out + hz, len),
                scan0 <= self.scan_offset,
                self.scan_offset <= max_read,
                self.tree.wf(self.nodes),
                self.tree.ordered(self.nodes),
                node_map(self.nodes).dom().len() <= self.scan_offset,
                out + max < len,
                node_map(self.nodes).dom().len() * SCAN_SPAN <= self.scan_offset + out + SCAN_SPAN + (
                if partial {
                    SCAN_SPAN
                } else {
                    0
                }),
                partial ==> self.scan_offset == max_read,
                scanned(self.pieces(), self.scan_offset as int, max_read as int) == scanned(
                    ps_h,
                    scan_h,
                    max_read as int,
                ),
                ({
                    let v = self.tree.view_in(self.nodes);
                    &&& spans_ok(v, bytes@)
                    &&& sorted(v)
                    &&& v.len() > 0 ==> v.last().stop <= self.scan_offset
                }),
                big == (min >= SCAN_SPAN),
                g == len - min,
                big ==> a <= out + min,
                big ==> {
                    let v = self.tree.view_in(self.nodes);
                    &&& in_order(v, g)
                    &&& v.len() > 0 ==> v[0].start == a
                    &&& v.len() == 0 ==> self.scan_offset == a
                    &&& v.len() > 0 && v.last().stop < self.scan_offset ==> v.last().stop >= g
                },
            decreases max_read - self.scan_offset,
        {
            let chunk_size = (max_read - self.scan_offset).min(SCAN_SPAN);
            let mut min_chunk = MinChunk::new(self.scan_offset, self.scan_offset + chunk_size);
            min_chunk.eval(bytes);
            let ghost v1 = self.tree.view_in(self.nodes);
            let ghost st1 = self.tree.stamps();
            proof {
                assert(pieces_of(v1, st1) == self.pieces());
                lemma_wf_keys(self.tree, self.nodes);
                lemma_view_len(self.tree, self.nodes);
            }
            self.tree.push_back(min_chunk, &mut self.nodes, is_less);
            proof {
                lemma_push_span(v1, min_chunk, self.scan_offset as int, bytes@);
                if big {
                    lemma_push_span_in_order(v1, min_chunk, g, self.scan_offset as int, bytes@);
                }
                assert(self.pieces() =~= pieces_of(v1, st1).push(
                    (self.scan_offset as int, self.scan_offset + chunk_size, next_stamp(st1)),
                ));
                assert(stamps_of(pieces_of(v1, st1)) =~= st1);
            }
            proof {
                if chunk_size < SCAN_SPAN {
                    partial = true;
                }
            }
            self.scan_offset += chunk_size;
        }
        let ghost v = self.tree.view_in(self.nodes);
        let ghost vst = self.tree.stamps();
        let ghost scan_end = self.scan_offset as int;
        proof {
            assert(scan_end == capped(out + hz, len));
            assert(pieces_of(v, vst) == scanned(ps_h, scan_h, max_read as int));
        }
        let mut tree = CartTree::default();
        core::mem::swap(&mut tree, &mut self.tree);
        let ghost m1 = node_map(self.nodes);
        let ghost nodes1 = self.nodes;
        proof {
            lemma_wf_keys(tree, self.nodes);
        }
        self.trim_tree(&mut tree, self.out_offset, self.bytes.len());
        let ghost w = tree.view_in(self.nodes);
        let ghost wst = tree.stamps();
        let ghost ks2 = tree.key_seq();
        let ghost tree2 = tree;
        let ghost nodes2 = self.nodes;
        let ghost lo = out + min;
        let ghost hi = len - min;
        proof {
            lemma_view_len(tree2, nodes2);
            lemma_wf_keys(tree2, nodes2);
            assert(pieces_of(w, wst).len() == w.len());
            assert(pieces_of(v, vst) == scanned(ps_h, scan_h, max_read as int));
        }
        proof {
            if big {
                assert(v.len() > 0) by {
                    if v.len() == 0 {
                        assert(self.scan_offset == a);
                    }
                }
                assert(span_ok(v[v.len() - 1], bytes@));
                assert(w.len() > 0);
                assert(w[w.len() - 1].stop == capped(out + hz, len - min)) by {
                    if v[v.len() - 1].stop < scan_end {
                        assert(v[v.len() - 1].stop >= len - min);
                    }
                }
            }
        }
        if tree.is_empty() {
            proof {
                assert(!big);
                lemma_top_fails(bytes@, min, max, hz, ps_h, scan_h, out, 0);
            }
            return false;
        }
        let (left, chunk, right) = tree.split_min(&mut self.nodes).unwrap();
        let ghost m3 = node_map(self.nodes);
        let ghost nodes3 = self.nodes;
        let ghost rp = tree2.root_pos();
        proof {
            lemma_round_parts(w, bytes@, rp, lo, hi);
            if big {
                lemma_round_parts_adjacent(w, bytes@, rp, lo, w[w.len() - 1].stop as int);
            }
            lemma_span_split_bounds(bytes@, chunk.start as int, chunk.stop as int);
        }
        let ghost m = chunk;
        let mut chunk = chunk;
        let splitpoint = chunk.argmin(self.bytes);
        proof {
            assert(lo < splitpoint <= hi);
        }
        let ghost l1 = chunks@.len() as int;
        let ghost sp0 = chunks@;
        let ghost left_b = pieces_of(left.view_in(self.nodes), left.stamps());
        let ghost wb = pieces_of(w, wst);
        proof {
            assert(w[rp] == m);
            assert(wb.take(rp) =~= left_b);
            lemma_first_lowest(w, wst, bytes@, rp);
            assert(splitpoint == span_split(bytes@, wb[rp].0, wb[rp].1));
        }
        if splitpoint >= self.bytes.len() {
            proof {
                assert(!big);
                lemma_top_fails(bytes@, min, max, hz, ps_h, scan_h, out, rp);
            }
            return false;
        }
        let mut prev_offset = self.out_offset;
        if splitpoint - self.out_offset > self.max_size {
            proof {
                assert(left.view_in(self.nodes) == w.subrange(0, rp));
                if big {
                    assert(rp > 0);
                }
            }
            match self.split_recursive(left, self.out_offset, splitpoint, chunks) {
                Some(p) => {
                    prev_offset = p;
                },
                None => {
                    proof {
                        assert(!big);
                        lemma_top_left_fails(bytes@, min, max, hz, ps_h, scan_h, out, wb, rp, splitpoint as int);
                    }
                    return false;
                },
            }
        }
        let ghost m4 = node_map(self.nodes);
        let ghost l2 = chunks@.len() as int;
        let ghost sp1 = chunks@;
        proof {
            lemma_wf_keys(right, nodes3);
            if splitpoint - out > max {
                assert forall|k| #[trigger] right.key_seq().contains(k) implies node_map(self.nodes).contains_key(k)
                    && node_map(self.nodes)[k] == node_map(nodes3)[k] by {
                    lemma_unchanged_at(m3, m4, left.key_seq(), k);
                }
                lemma_wf_frame(right, nodes3, self.nodes);
            } else {
                assert(sp1.subrange(l1, l2) =~= Seq::<Chunk>::empty());
            }
            assert(sp1.subrange(0, l1) == sp0);
            assert(sp0.subrange(0, l1) =~= sp0);
        }
        let piece = vstd::slice::slice_subrange(self.bytes, prev_offset, splitpoint);
        chunks.push(Chunk::new(piece, prev_offset));
        proof {
            assert(chunks@.subrange(0, sp1.len() as int) =~= sp1);
            let cs = chunks@;
            let inner = ends_of(sp1.subrange(l1, l2));
            assert(cs[l2].end() == splitpoint);
            assert(ends_of(cs.subrange(l0, cs.len() as int)) =~= inner.push(splitpoint as int)) by {
                assert forall|i: int| 0 <= i < cs.len() - l0 implies ends_of(cs.subrange(l0, cs.len() as int))[i] == inner.push(splitpoint as int)[i] by {
                    if i + l0 < l2 {
                        assert(cs[i + l0] == sp1[i + l0]);
                    }
                }
            }
            if splitpoint - out <= max {
                assert(inner =~= Seq::<int>::empty());
            }
            let t0 = top_cuts(bytes@, min, max, hz, ps_h, scan_h, out);
            assert(Seq::<int>::empty() + t0.0 =~= t0.0);
            assert(Seq::<int>::empty() + inner.push(splitpoint as int) =~= inner.push(splitpoint as int));
            assert(wb == trimmed(scanned(ps_h, scan_h, capped(out + hz, len)), out + min, len - min));
            assert(first_lowest(bytes@, wb, rp));
            assert(splitpoint == span_split(bytes@, wb[rp].0, wb[rp].1));
            lemma_top_advance(
                bytes@,
                min,
                max,
                hz,
                ps_h,
                scan_h,
                out,
                Seq::<int>::empty(),
                inner.push(splitpoint as int),
                ps_h,
                scan_h,
                out,
                wb,
                rp,
                splitpoint as int,
                inner,
                prev_offset as int,
            );
            lemma_splits_step(
                sp0,
                sp1,
                chunks@,
                l0,
                bytes@,
                out,
                out,
                prev_offset as int,
                splitpoint as int,
                min,
                max,
            );
        }
        self.out_offset = splitpoint;
        self.tree = right;
        proof {
            assert(self.pieces() =~= pieces_of(w, wst).skip(rp + 1));
            if big {
                lemma_round_done_covered(*self, v, w, rp, m, len, min, max, out);
            }
            lemma_round_done(*self, w, rp, len);
        }
        true
    }

    /// Cuts the rest of the input into chunks and returns them in order, or
    /// `None` where a round of the search finds no span to cut in (which
    /// never happens with a `min_size` of at least `SCAN_SPAN`).  The chunks
    /// follow one another to the end of the input, and they end exactly at
    /// the cuts that `top_cuts` describes from the chunker's spans, scan and
    /// position.
    #[verifier::rlimit(100)]
    #[verifier::spinoff_prover]
    pub fn try_chunks(&mut self) -> (res: Option<Vec<Chunk<'a>>>)
        requires
            old(self).wf(),
            old(self).supported(),
        ensures
            (res is Some) == old(self).runs_through(),
            old(self).min_len() >= SCAN_SPAN ==> res is Some,
            res matches Some(v) ==> {
                &&& final(self).wf()
                &&& final(self).input() == old(self).input()
                &&& final(self).min_len() == old(self).min_len()
                &&& final(self).max_len() == old(self).max_len()
                &&& final(self).horizon_len() == old(self).horizon_len()
                &&& final(self).out_pos() == old(self).input().len()
                &&& tiles(v@, old(self).input(), old(self).out_pos(), old(self).input().len() as int)
                &&& forall|i: int|
                    0 <= i < v@.len() ==> 1 <= (#[trigger] v@[i]).bytes().len() <= old(self).max_len()
                &&& v@.len() > 1 ==> sizes_within(v@, old(self).min_len(), old(self).max_len())
                &&& top_cuts(
                    old(self).input(),
                    old(self).min_len(),
                    old(self).max_len(),
                    old(self).horizon_len(),
                    old(self).pieces(),
                    old(self).scan_pos(),
                    old(self).out_pos(),
                ) == (ends_of(v@), true)
            },
    {
        let bytes = self.bytes;
        let ghost out0 = self.out_offset as int;
        let ghost len = bytes@.len() as int;
        let ghost min = self.min_size as int;
        let ghost max = self.max_size as int;
        let ghost hz = self.horizon as int;
        let mut chunks: Vec<Chunk<'a>> = Vec::new();
        let ghost ps00 = self.pieces();
        let ghost scan00 = self.scan_offset as int;
        proof {
            let t0 = top_cuts(bytes@, min, max, hz, ps00, scan00, out0);
            assert(ends_of(chunks@) + t0.0 =~= t0.0);
        }
        while self.out_offset < self.bytes.len()
            invariant
                self.wf(),
                self.supported(),
                bytes@ == self.bytes@,
                bytes@ == old(self).bytes@,
                len == bytes@.len(),
                min == self.min_size,
                max == self.max_size,
                self.min_size == old(self).min_size,
                self.max_size == old(self).max_size,
                self.horizon == old(self).horizon,
                out0 == old(self).out_offset,
                out0 <= self.out_offset,
                tiles(chunks@, bytes@, out0, self.out_offset as int),
                sizes_within(chunks@, min, max),
                chunks@.len() > 0 ==> self.out_offset + min <= len,
                chunks@.len() > 0 ==> len > max,
                hz == self.horizon,
                ps00 == old(self).pieces(),
                scan00 == old(self).scan_offset,
                top_cuts(bytes@, min, max, hz, ps00, scan00, out0) == glue_top(
                    ends_of(chunks@),
                    top_cuts(bytes@, min, max, hz, self.pieces(), self.scan_offset as int, self.out_offset as int),
                ),
            decreases len - self.out_offset,
        {
            if self.out_offset + self.max_size >= self.bytes.len() {
                let piece = vstd::slice::slice_subrange(self.bytes, self.out_offset, self.bytes.len());
                let ghost before = chunks@;
                let ghost self_ps = self.pieces();
                let ghost self_scan = self.scan_offset as int;
                let ghost out_last = self.out_offset as int;
                chunks.push(Chunk::new(piece, self.out_offset));
                proof {
                    let c = chunks@.subrange(before.len() as int, chunks@.len() as int);
                    assert(chunks@ =~= before + c);
                    assert(tiles(c, bytes@, self.out_offset as int, len));
                    lemma_tiles_append(before, c, bytes@, out0, self.out_offset as int, len);
                }
                self.out_offset = self.bytes.len();
                proof {
                    assert(chunks@.subrange(0, before.len() as int) =~= before);
                    assert(ends_of(chunks@) =~= ends_of(before) + seq![len]);
                    assert(top_cuts(
                        old(self).input(),
                        old(self).min_len(),
                        old(self).max_len(),
                        old(self).horizon_len(),
                        old(self).pieces(),
                        old(self).scan_pos(),
                        old(self).out_pos(),
                    ) == (ends_of(chunks@), true)) by {
                        lemma_top_tail(bytes@, min, max, hz, self_ps, self_scan, out_last);
                    }
                    assert(chunks@.len() > 1 ==> sizes_within(chunks@, min, max)) by {
                        if chunks@.len() > 1 {
                            assert forall|i: int| 0 <= i < chunks@.len() implies min <= (#[trigger] chunks@[i]).bytes().len() <= max by {
                                if i < chunks@.len() - 1 {
                                    assert(chunks@[i] == before[i]);
                                }
                            }
                        }
                    }
                }
                return Some(chunks);
            }
            let ghost l0 = chunks@.len() as int;
            let ghost before = chunks@;
            let ghost out1 = self.out_offset as int;
            if !self.round(&mut chunks) {
                proof {
                    assert(old(self).scan_pos() == scan00 && old(self).out_pos() == out0);
                }
                return None;
            }
            proof {
                let add = chunks@.subrange(l0, chunks@.len() as int);
                assert(chunks@ =~= before + add);
                lemma_chunks_step(
                    before,
                    add,
                    bytes@,
                    out0,
                    out1,
                    self.out_offset as int,
                    min,
                    max,
                    top_cuts(bytes@, min, max, hz, ps00, scan00, out0),
                    top_cuts(bytes@, min, max, hz, self.pieces(), self.scan_offset as int, self.out_offset as int),
                );
            }
        }
        proof {
            lemma_top_tail(bytes@, min, max, hz, self.pieces(), self.scan_offset as int, self.out_offset as int);
            let t = top_cuts(bytes@, min, max, hz, self.pieces(), self.scan_offset as int, self.out_offset as int);
            assert(ends_of(chunks@) + t.0 =~= ends_of(chunks@));
            assert(top_cuts(
                old(self).input(),
                old(self).min_len(),
                old(self).max_len(),
                old(self).horizon_len(),
                old(self).pieces(),
                old(self).scan_pos(),
                old(self).out_pos(),
            ) == (ends_of(chunks@), true));
        }
        Some(chunks)
    }

    /// Cuts the rest of the input into chunks and returns them in order, on
    /// settings where every round finds a span to cut in: any with a
    /// `min_size` of at least `SCAN_SPAN`, and otherwise those that
    /// `runs_through` names.  The chunks follow one another to the end of the
    /// input, and they end exactly at the cuts that `top_cuts` describes from
    /// the chunker's spans, scan and position.
    pub fn chunks(&mut self) -> (chunks: Vec<Chunk<'a>>)
        requires
            old(self).wf(),
            old(self).supported(),
            old(self).min_len() >= SCAN_SPAN || old(self).runs_through(),
        ensures
            final(self).wf(),
            final(self).input() == old(self).input(),
            final(self).min_len() == old(self).min_len(),
            final(self).max_len() == old(self).max_len(),
            final(self).horizon_len() == old(self).horizon_len(),
            final(self).out_pos() == old(self).input().len(),
            tiles(chunks@, old(self).input(), old(self).out_pos(), old(self).input().len() as int),
            forall|i: int|
                0 <= i < chunks@.len() ==> 1 <= (#[trigger] chunks@[i]).bytes().len()
                    <= old(self).max_len(),
            chunks@.len() > 1 ==> sizes_within(chunks@, old(self).min_len(), old(self).max_len()),
            top_cuts(
                old(self).input(),
                old(self).min_len(),
                old(self).max_len(),
                old(self).horizon_len(),
                old(self).pieces(),
                old(self).scan_pos(),
                old(self).out_pos(),
            ) == (ends_of(chunks@), true),
    {
        match self.try_chunks() {
            Some(v) => v,
            None => Vec::new(),
        }
    }
}


impl<'a> SliceRecMinCdcHash4<'a> {
    /// A chunker with at most `max_size` bytes left to cut runs through: the
    /// rest is one chunk, or nothing when nothing is left.
    pub proof fn law_short_rest_runs_through(&self)
        requires
            self.out_pos() + self.max_len() >= self.input().len(),
        ensures
            self.runs_through(),
    {
        lemma_top_tail(
            self.input(),
            self.min_len(),
            self.max_len(),
            self.horizon_len(),
            self.pieces(),
            self.scan_pos(),
            self.out_pos(),
        );
    }
}

} // verus!
