//! The shape of a Cartesian tree laid over a sequence, described by positions.
//!
//! Position `i` is the `i`-th element of the sequence.  Its subtree covers the
//! positions `lo[i] .. hi[i]`; `lc`, `rc` and `par` give the positions of its
//! children and parent, with `-1` standing for "none".
use vstd::prelude::*;

verus! {

pub ghost struct Shape {
    pub lo: Seq<int>,
    pub hi: Seq<int>,
    pub par: Seq<int>,
    pub lc: Seq<int>,
    pub rc: Seq<int>,
    pub rt: int,
}

/// Local conditions on the node at position `i` of a shape over `n` positions.
pub open spec fn node_ok(s: Shape, n: int, i: int) -> bool {
    &&& 0 <= s.lo[i] <= i < s.hi[i] <= n
    &&& (s.lc[i] == -1) == (s.lo[i] == i)
    &&& s.lc[i] != -1 ==> {
        &&& s.lo[i] <= s.lc[i] < i
        &&& s.par[s.lc[i]] == i
        &&& s.lo[s.lc[i]] == s.lo[i]
        &&& s.hi[s.lc[i]] == i
    }
    &&& (s.rc[i] == -1) == (s.hi[i] == i + 1)
    &&& s.rc[i] != -1 ==> {
        &&& i < s.rc[i] < s.hi[i]
        &&& s.par[s.rc[i]] == i
        &&& s.lo[s.rc[i]] == i + 1
        &&& s.hi[s.rc[i]] == s.hi[i]
    }
    &&& (s.par[i] == -1) == (i == s.rt)
    &&& s.par[i] != -1 ==> {
        &&& 0 <= s.par[i] < n
        &&& (s.lc[s.par[i]] == i || s.rc[s.par[i]] == i)
    }
}

/// Subtrees nest: a position inside the subtree of `i` has its own subtree
/// inside that of `i`, on the side of `i` where it lies; two subtrees are
/// disjoint or one holds the other; no two positions share a subtree.
pub open spec fn nest_ok(s: Shape, i: int, j: int) -> bool {
    &&& (s.lo[i] <= j < s.hi[i] ==> s.lo[i] <= s.lo[j] && s.hi[j] <= s.hi[i])
    &&& (s.lo[i] <= j < i ==> s.hi[j] <= i)
    &&& (i < j < s.hi[i] ==> i < s.lo[j])
    &&& (s.hi[i] <= s.lo[j] || s.hi[j] <= s.lo[i] || (s.lo[i] <= s.lo[j] && s.hi[j] <= s.hi[i])
        || (s.lo[j] <= s.lo[i] && s.hi[i] <= s.hi[j]))
    &&& (s.lo[i] == s.lo[j] && s.hi[i] == s.hi[j] ==> i == j)
}

/// `s` is the shape of a tree over `n` positions.
pub open spec fn shape_ok(s: Shape, n: int) -> bool {
    &&& s.lo.len() == n
    &&& s.hi.len() == n
    &&& s.par.len() == n
    &&& s.lc.len() == n
    &&& s.rc.len() == n
    &&& (n == 0 ==> s.rt == -1)
    &&& (n > 0 ==> 0 <= s.rt < n && s.lo[s.rt] == 0 && s.hi[s.rt] == n)
    &&& forall|i: int| 0 <= i < n ==> #[trigger] node_ok(s, n, i)
    &&& forall|i: int, j: int| 0 <= i < n && 0 <= j < n ==> #[trigger] nest_ok(s, i, j)
}

/// `a` comes no later than `b` in the order by rank, then by stamp.
pub open spec fn lex_le(a: (u32, int), b: (u32, int)) -> bool {
    a.0 < b.0 || (a.0 == b.0 && a.1 <= b.1)
}

/// Every position holds a key (a rank and a stamp) that comes no later than
/// the keys in its subtree.
pub open spec fn heap_ok(s: Shape, r: Seq<(u32, int)>) -> bool {
    forall|i: int, j: int|
        0 <= i < r.len() && #[trigger] s.lo[i] <= j < s.hi[i] ==> lex_le(r[i], #[trigger] r[j])
}

/// The shape over no position.
pub open spec fn empty_shape() -> Shape {
    Shape { lo: seq![], hi: seq![], par: seq![], lc: seq![], rc: seq![], rt: -1 }
}

/// The empty shape is a shape, and trivially ordered.
pub proof fn lemma_empty_shape()
    ensures
        shape_ok(empty_shape(), 0),
        heap_ok(empty_shape(), seq![]),
{
}

// ----------------------------------------------------------------------------
// Appending at the back.
//
// `pi` is the position under which the new last element hangs (or -1 when it
// becomes the root); `li` is the former child of `pi` on the right spine that
// becomes the left child of the new element (or -1).
/// The end of the subtree of `i` once an element is appended under `pi`.
pub open spec fn back_hi(s: Shape, n: int, pi: int, i: int) -> int {
    if s.hi[i] == n && i <= pi {
        n + 1
    } else {
        s.hi[i]
    }
}

/// The shape once an element is appended under `pi`, taking `li` as its
/// left child.
pub open spec fn push_back_shape(s: Shape, n: int, pi: int, li: int) -> Shape {
    Shape {
        lo: s.lo.push(pi + 1),
        hi: Seq::new(n as nat, |i: int| back_hi(s, n, pi, i)).push(n + 1),
        par: (if li == -1 { s.par } else { s.par.update(li, n) }).push(pi),
        lc: s.lc.push(li),
        rc: (if pi == -1 { s.rc } else { s.rc.update(pi, n) }).push(-1),
        rt: if pi == -1 { n } else { s.rt },
    }
}

/// Where the appended element can hang: `pi` is on the right spine (or -1),
/// and `li` is the child of `pi` covering everything after `pi` (or -1 when
/// `pi` is the last position).
pub open spec fn back_slot(s: Shape, n: int, pi: int, li: int) -> bool {
    &&& -1 <= pi < n
    &&& (pi != -1 ==> s.hi[pi] == n)
    &&& (li == -1 ==> pi == n - 1)
    &&& (li != -1 ==> 0 <= li < n && s.par[li] == pi && s.lo[li] == pi + 1 && s.hi[li] == n)
}

/// Appending in a slot of the right spine gives a shape.
pub proof fn lemma_push_back_shape(s: Shape, n: int, pi: int, li: int)
    requires
        shape_ok(s, n),
        back_slot(s, n, pi, li),
    ensures
        shape_ok(push_back_shape(s, n, pi, li), n + 1),
{
    let t = push_back_shape(s, n, pi, li);
    assert forall|i: int| 0 <= i < n + 1 implies #[trigger] node_ok(t, n + 1, i) by {
        if i < n {
            assert(node_ok(s, n, i));
            if s.par[i] != -1 {
                assert(node_ok(s, n, s.par[i]));
            }
            if s.lc[i] != -1 {
                assert(node_ok(s, n, s.lc[i]));
            }
            if s.rc[i] != -1 {
                assert(node_ok(s, n, s.rc[i]));
                if pi != -1 {
                    assert(nest_ok(s, s.rc[i], pi));
                    assert(nest_ok(s, i, pi));
                }
            }
            if li != -1 {
                assert(node_ok(s, n, li));
            }
            if pi != -1 {
                assert(node_ok(s, n, pi));
            }
        } else {
            if li != -1 {
                assert(node_ok(s, n, li));
            }
            if pi != -1 {
                assert(node_ok(s, n, pi));
            }
        }
    }
    assert forall|i: int, j: int| 0 <= i < n + 1 && 0 <= j < n + 1 implies #[trigger] nest_ok(
        t,
        i,
        j,
    ) by {
        if i < n && j < n {
            assert(nest_ok(s, i, j));
            assert(node_ok(s, n, i));
            assert(node_ok(s, n, j));
            if pi != -1 {
                assert(nest_ok(s, i, pi));
                assert(nest_ok(s, j, pi));
                assert(nest_ok(s, pi, j));
            }
        } else if i == n && j < n {
            assert(node_ok(s, n, j));
            if li != -1 {
                assert(nest_ok(s, li, j));
            }
        } else if i < n && j == n {
            assert(node_ok(s, n, i));
            if pi != -1 {
                assert(nest_ok(s, i, pi));
            }
        }
    }
    if n > 0 && pi != -1 {
        assert(node_ok(s, n, s.rt));
        assert(nest_ok(s, s.rt, pi));
    }
}


/// Appending a rank no lower than its parent's and lower than the rank of
/// every position after the parent keeps the shape ordered.
pub proof fn lemma_push_back_heap(s: Shape, n: int, pi: int, li: int, r: Seq<(u32, int)>, v: (u32, int))
    requires
        shape_ok(s, n),
        back_slot(s, n, pi, li),
        heap_ok(s, r),
        r.len() == n,
        pi != -1 ==> lex_le(r[pi], v),
        forall|j: int| pi < j < n ==> !lex_le(#[trigger] r[j], v),
    ensures
        heap_ok(push_back_shape(s, n, pi, li), r.push(v)),
{
    let t = push_back_shape(s, n, pi, li);
    let r2 = r.push(v);
    assert forall|i: int, j: int|
        0 <= i < r2.len() && #[trigger] t.lo[i] <= j < t.hi[i] implies lex_le(r2[i], #[trigger] r2[j]) by {
        if i < n {
            assert(node_ok(s, n, i));
            if j == n {
                assert(lex_le(r[i], r[pi]));
            }
        } else {
            if j < n {
                assert(!lex_le(r[j], v));
            }
        }
    }
}

// ----------------------------------------------------------------------------
// Removing the last position.
/// The shape once the last position is removed, its left child taking
/// its place.
pub open spec fn pop_back_shape(s: Shape, n: int) -> Shape {
    let q = n - 1;
    let c = s.lc[q];
    let p = s.par[q];
    Shape {
        lo: s.lo.take(q),
        hi: Seq::new(q as nat, |i: int| if s.hi[i] == n { q } else { s.hi[i] }),
        par: Seq::new(q as nat, |i: int| if s.par[i] == q { p } else { s.par[i] }),
        lc: s.lc.take(q),
        rc: Seq::new(q as nat, |i: int| if s.rc[i] == q { c } else { s.rc[i] }),
        rt: if s.rt == q { c } else { s.rt },
    }
}

/// Removing the last position gives a shape, ordered when it was.
pub proof fn lemma_pop_back_shape(s: Shape, n: int, r: Seq<(u32, int)>)
    requires
        shape_ok(s, n),
        n > 0,
        r.len() == n,
    ensures
        shape_ok(pop_back_shape(s, n), n - 1),
        heap_ok(s, r) ==> heap_ok(pop_back_shape(s, n), r.take(n - 1)),
{
    let t = pop_back_shape(s, n);
    let q = n - 1;
    assert(node_ok(s, n, q));
    let p = s.par[q];
    let c = s.lc[q];
    if p != -1 {
        assert(node_ok(s, n, p));
    }
    if c != -1 {
        assert(node_ok(s, n, c));
    }
    assert forall|i: int| 0 <= i < q implies #[trigger] node_ok(t, q, i) by {
        assert(node_ok(s, n, i));
        assert(nest_ok(s, i, q));
        if s.par[i] != -1 {
            assert(node_ok(s, n, s.par[i]));
        }
        if s.lc[i] != -1 {
            assert(node_ok(s, n, s.lc[i]));
        }
        if s.rc[i] != -1 {
            assert(node_ok(s, n, s.rc[i]));
        }
    }
    assert forall|i: int, j: int| 0 <= i < q && 0 <= j < q implies #[trigger] nest_ok(t, i, j) by {
        assert(nest_ok(s, i, j));
        assert(nest_ok(s, i, q));
        assert(nest_ok(s, j, q));
        assert(node_ok(s, n, i));
        assert(node_ok(s, n, j));
    }
    if q > 0 {
        if s.rt == q {
            assert(node_ok(t, q, c));
        } else {
            assert(nest_ok(s, s.rt, q));
        }
    }
    let r2 = r.take(q);
    if heap_ok(s, r) {
        assert forall|i: int, j: int|
            0 <= i < r2.len() && #[trigger] t.lo[i] <= j < t.hi[i] implies lex_le(r2[i], #[trigger] r2[j]) by {
            assert(node_ok(s, n, i));
            assert(lex_le(r[i], r[j]));
        }
    }
}

// ----------------------------------------------------------------------------
// The subtree of position `q`, covering `a .. b`, as a shape of its own.
/// The position `x` moved down by `a`, keeping -1 for none.
pub open spec fn shifted(x: int, a: int) -> int {
    if x == -1 {
        -1
    } else {
        x - a
    }
}

/// The subtree of `q`, covering `a .. b`, as a shape over `b - a` positions.
pub open spec fn sub_shape(s: Shape, a: int, b: int, q: int) -> Shape {
    Shape {
        lo: Seq::new((b - a) as nat, |j: int| s.lo[j + a] - a),
        hi: Seq::new((b - a) as nat, |j: int| s.hi[j + a] - a),
        par: Seq::new((b - a) as nat, |j: int| if j + a == q { -1 } else { s.par[j + a] - a }),
        lc: Seq::new((b - a) as nat, |j: int| shifted(s.lc[j + a], a)),
        rc: Seq::new((b - a) as nat, |j: int| shifted(s.rc[j + a], a)),
        rt: q - a,
    }
}

/// The subtree of a position is a shape of its own, ordered when the
/// whole is, and its root ranks no higher than any position in it.
pub proof fn lemma_sub_shape(s: Shape, n: int, q: int, r: Seq<(u32, int)>)
    requires
        shape_ok(s, n),
        0 <= q < n,
        r.len() == n,
    ensures
        shape_ok(sub_shape(s, s.lo[q], s.hi[q], q), s.hi[q] - s.lo[q]),
        heap_ok(s, r) ==> heap_ok(sub_shape(s, s.lo[q], s.hi[q], q), r.subrange(s.lo[q], s.hi[q])),
        heap_ok(s, r) ==> forall|j: int| s.lo[q] <= j < s.hi[q] ==> lex_le(r[q], #[trigger] r[j]),
{
    let a = s.lo[q];
    let b = s.hi[q];
    let m = b - a;
    let t = sub_shape(s, a, b, q);
    assert(node_ok(s, n, q));
    assert forall|j: int| 0 <= j < m implies #[trigger] node_ok(t, m, j) by {
        let i = j + a;
        assert(node_ok(s, n, i));
        assert(nest_ok(s, q, i));
        if s.par[i] != -1 && i != q {
            let p = s.par[i];
            assert(node_ok(s, n, p));
            assert(nest_ok(s, q, p));
            assert(nest_ok(s, p, q));
            assert(nest_ok(s, p, i));
            if p < a || p >= b {
                if p < q {
                    assert(nest_ok(s, p, q));
                } else {
                    assert(nest_ok(s, p, q));
                }
            }
        }
        if s.lc[i] != -1 {
            assert(node_ok(s, n, s.lc[i]));
        }
        if s.rc[i] != -1 {
            assert(node_ok(s, n, s.rc[i]));
        }
    }
    assert forall|j: int, k: int| 0 <= j < m && 0 <= k < m implies #[trigger] nest_ok(t, j, k) by {
        assert(nest_ok(s, j + a, k + a));
    }
    let r2 = r.subrange(a, b);
    if heap_ok(s, r) {
        assert forall|i: int, j: int|
            0 <= i < r2.len() && #[trigger] t.lo[i] <= j < t.hi[i] implies lex_le(r2[i], #[trigger] r2[j]) by {
            assert(t.lo[i] == s.lo[i + a] - a);
            assert(t.hi[i] == s.hi[i + a] - a);
            assert(s.lo[i + a] <= j + a < s.hi[i + a]);
            assert(node_ok(t, m, i));
            assert(lex_le(r[i + a], r[j + a]));
            assert(r2[i] == r[i + a] && r2[j] == r[j + a]);
        }
    }
}


// ----------------------------------------------------------------------------
// Removing the first position; every other position moves down by one.
/// The shape once the first position is removed, its right child taking
/// its place.
pub open spec fn pop_front_shape(s: Shape, n: int) -> Shape {
    let c = s.rc[0];
    let p = s.par[0];
    Shape {
        lo: Seq::new((n - 1) as nat, |j: int| if s.lo[j + 1] == 0 { 0 } else { s.lo[j + 1] - 1 }),
        hi: Seq::new((n - 1) as nat, |j: int| s.hi[j + 1] - 1),
        par: Seq::new(
            (n - 1) as nat,
            |j: int|
                if s.par[j + 1] == 0 {
                    shifted(p, 1)
                } else {
                    shifted(s.par[j + 1], 1)
                },
        ),
        lc: Seq::new(
            (n - 1) as nat,
            |j: int|
                if s.lc[j + 1] == 0 {
                    shifted(c, 1)
                } else {
                    shifted(s.lc[j + 1], 1)
                },
        ),
        rc: Seq::new((n - 1) as nat, |j: int| shifted(s.rc[j + 1], 1)),
        rt: if s.rt == 0 { shifted(c, 1) } else { s.rt - 1 },
    }
}

/// Removing the first position gives a shape, ordered when it was.
pub proof fn lemma_pop_front_shape(s: Shape, n: int, r: Seq<(u32, int)>)
    requires
        shape_ok(s, n),
        n > 0,
        r.len() == n,
    ensures
        shape_ok(pop_front_shape(s, n), n - 1),
        heap_ok(s, r) ==> heap_ok(pop_front_shape(s, n), r.subrange(1, n)),
{
    let t = pop_front_shape(s, n);
    let m = n - 1;
    assert(node_ok(s, n, 0));
    let p = s.par[0];
    let c = s.rc[0];
    if p != -1 {
        assert(node_ok(s, n, p));
    }
    if c != -1 {
        assert(node_ok(s, n, c));
    }
    assert forall|j: int| 0 <= j < m implies #[trigger] node_ok(t, m, j) by {
        let i = j + 1;
        assert(node_ok(s, n, i));
        assert(nest_ok(s, i, 0));
        assert(nest_ok(s, 0, i));
        if s.par[i] != -1 {
            assert(node_ok(s, n, s.par[i]));
        }
        if s.lc[i] != -1 {
            assert(node_ok(s, n, s.lc[i]));
            assert(nest_ok(s, s.lc[i], 0));
        }
        if s.rc[i] != -1 {
            assert(node_ok(s, n, s.rc[i]));
        }
    }
    assert forall|j: int, k: int| 0 <= j < m && 0 <= k < m implies #[trigger] nest_ok(t, j, k) by {
        assert(nest_ok(s, j + 1, k + 1));
        assert(nest_ok(s, j + 1, 0));
        assert(nest_ok(s, k + 1, 0));
        assert(node_ok(s, n, j + 1));
        assert(node_ok(s, n, k + 1));
    }
    if m > 0 {
        if s.rt == 0 {
            assert(node_ok(t, m, c - 1));
        } else {
            assert(nest_ok(s, s.rt, 0));
        }
    }
    let r2 = r.subrange(1, n);
    if heap_ok(s, r) {
        assert forall|i: int, j: int|
            0 <= i < r2.len() && #[trigger] t.lo[i] <= j < t.hi[i] implies lex_le(r2[i], #[trigger] r2[j]) by {
            assert(node_ok(s, n, i + 1));
            assert(node_ok(t, m, i));
            assert(s.lo[i + 1] <= j + 1 < s.hi[i + 1]);
            assert(lex_le(r[i + 1], r[j + 1]));
            assert(r2[i] == r[i + 1] && r2[j] == r[j + 1]);
        }
    }
}

// ----------------------------------------------------------------------------
// Prepending at the front; every old position moves up by one.
//
// `pi` is the position under which the new first element hangs (or -1 when it
// becomes the root); `ri` is the former child of `pi` on the left spine that
// becomes the right child of the new element (or -1).
/// Where the subtree that the prepended element takes as its right child
/// ends: at `pi`, or at the end when the element becomes the root.
pub open spec fn front_end(n: int, pi: int) -> int {
    if pi == -1 {
        n
    } else {
        pi
    }
}

/// The shape once an element is prepended under `pi`, taking `ri` as its
/// right child.
pub open spec fn push_front_shape(s: Shape, n: int, pi: int, ri: int) -> Shape {
    let e = front_end(n, pi);
    Shape {
        lo: seq![0int] + Seq::new(
            n as nat,
            |i: int|
                if s.lo[i] == 0 && i >= e {
                    0
                } else {
                    s.lo[i] + 1
                },
        ),
        hi: seq![e + 1] + Seq::new(n as nat, |i: int| s.hi[i] + 1),
        par: seq![shifted(pi, -1)] + Seq::new(
            n as nat,
            |i: int|
                if i == ri {
                    0
                } else {
                    shifted(s.par[i], -1)
                },
        ),
        lc: seq![-1int] + Seq::new(
            n as nat,
            |i: int|
                if i == pi {
                    0
                } else {
                    shifted(s.lc[i], -1)
                },
        ),
        rc: seq![shifted(ri, -1)] + Seq::new(n as nat, |i: int| shifted(s.rc[i], -1)),
        rt: if pi == -1 { 0 } else { s.rt + 1 },
    }
}

/// Where the prepended element can hang: `pi` is on the left spine (or -1),
/// and `ri` is the child of `pi` covering everything before `pi` (or -1 when
/// nothing lies before the new element's parent).
pub open spec fn front_slot(s: Shape, n: int, pi: int, ri: int) -> bool {
    &&& -1 <= pi < n
    &&& (pi != -1 ==> s.lo[pi] == 0)
    &&& (ri == -1 ==> front_end(n, pi) == 0)
    &&& (ri != -1 ==> 0 <= ri < n && s.par[ri] == pi && s.lo[ri] == 0 && s.hi[ri] == front_end(n, pi))
}

#[verifier::rlimit(30)]
#[verifier::spinoff_prover]
proof fn lemma_push_front_nodes(s: Shape, n: int, pi: int, ri: int)
    requires
        shape_ok(s, n),
        front_slot(s, n, pi, ri),
    ensures
        forall|k: int| 0 <= k < n + 1 ==> #[trigger] node_ok(push_front_shape(s, n, pi, ri), n + 1, k),
{
    let t = push_front_shape(s, n, pi, ri);
    let e = front_end(n, pi);
    if ri != -1 {
        assert(node_ok(s, n, ri));
    }
    if pi != -1 {
        assert(node_ok(s, n, pi));
    }
    assert forall|k: int| 0 <= k < n + 1 implies #[trigger] node_ok(t, n + 1, k) by {
        if k > 0 {
            let i = k - 1;
            assert(node_ok(s, n, i));
            if s.par[i] != -1 {
                assert(node_ok(s, n, s.par[i]));
            }
            if s.lc[i] != -1 {
                assert(node_ok(s, n, s.lc[i]));
                if pi != -1 {
                    assert(nest_ok(s, s.lc[i], pi));
                    assert(nest_ok(s, i, pi));
                }
            }
            if s.rc[i] != -1 {
                assert(node_ok(s, n, s.rc[i]));
            }
        }
    }
}

proof fn lemma_push_front_nest(s: Shape, n: int, pi: int, ri: int)
    requires
        shape_ok(s, n),
        front_slot(s, n, pi, ri),
    ensures
        forall|k: int, l: int| 0 <= k < n + 1 && 0 <= l < n + 1 ==> #[trigger] nest_ok(push_front_shape(s, n, pi, ri), k, l),
{
    let t = push_front_shape(s, n, pi, ri);
    let e = front_end(n, pi);
    if ri != -1 {
        assert(node_ok(s, n, ri));
    }
    if pi != -1 {
        assert(node_ok(s, n, pi));
    }
    assert forall|k: int, l: int| 0 <= k < n + 1 && 0 <= l < n + 1 implies #[trigger] nest_ok(
        t,
        k,
        l,
    ) by {
        if k > 0 && l > 0 {
            assert(nest_ok(s, k - 1, l - 1));
            assert(node_ok(s, n, k - 1));
            assert(node_ok(s, n, l - 1));
            if pi != -1 {
                assert(nest_ok(s, k - 1, pi));
                assert(nest_ok(s, l - 1, pi));
                assert(nest_ok(s, pi, l - 1));
                assert(nest_ok(s, pi, k - 1));
            }
        } else if k == 0 && l > 0 {
            assert(node_ok(s, n, l - 1));
            if ri != -1 {
                assert(nest_ok(s, ri, l - 1));
            }
            if pi != -1 {
                assert(nest_ok(s, pi, l - 1));
            }
        } else if k > 0 && l == 0 {
            assert(node_ok(s, n, k - 1));
            if pi != -1 {
                assert(nest_ok(s, k - 1, pi));
            }
            if ri != -1 {
                assert(nest_ok(s, ri, k - 1));
            }
        }
    }
}

/// Prepending in a slot of the left spine gives a shape.
pub proof fn lemma_push_front_shape(s: Shape, n: int, pi: int, ri: int)
    requires
        shape_ok(s, n),
        front_slot(s, n, pi, ri),
    ensures
        shape_ok(push_front_shape(s, n, pi, ri), n + 1),
{
    let t = push_front_shape(s, n, pi, ri);
    lemma_push_front_nodes(s, n, pi, ri);
    lemma_push_front_nest(s, n, pi, ri);
    if n > 0 && pi != -1 {
        assert(node_ok(s, n, s.rt));
        assert(nest_ok(s, s.rt, pi));
    }
    assert(node_ok(t, n + 1, t.rt));
}

/// Prepending a rank no lower than its parent's and lower than the rank of
/// every position before the parent keeps the shape ordered.
pub proof fn lemma_push_front_heap(s: Shape, n: int, pi: int, ri: int, r: Seq<(u32, int)>, v: (u32, int))
    requires
        shape_ok(s, n),
        front_slot(s, n, pi, ri),
        heap_ok(s, r),
        r.len() == n,
        pi != -1 ==> lex_le(r[pi], v),
        forall|j: int| 0 <= j < front_end(n, pi) ==> !lex_le(#[trigger] r[j], v),
    ensures
        heap_ok(push_front_shape(s, n, pi, ri), seq![v] + r),
{
    let t = push_front_shape(s, n, pi, ri);
    lemma_push_front_shape(s, n, pi, ri);
    if pi != -1 {
        assert(node_ok(s, n, pi));
    }
    let r2 = seq![v] + r;
    assert forall|k: int, l: int|
        0 <= k < r2.len() && #[trigger] t.lo[k] <= l < t.hi[k] implies lex_le(r2[k], #[trigger] r2[l]) by {
        assert(node_ok(t, n + 1, k));
        if k > 0 {
            assert(node_ok(s, n, k - 1));
            if l > 0 {
                assert(s.lo[k - 1] <= l - 1 < s.hi[k - 1]);
                assert(lex_le(r[k - 1], r[l - 1]));
            } else {
                assert(lex_le(r[k - 1], r[pi]));
            }
        } else if l > 0 {
            assert(!lex_le(r[l - 1], v));
        }
    }
}

// ----------------------------------------------------------------------------
// One shape per order.

/// The position just before the subtree of `i` holds `i` in its own subtree.
pub proof fn lemma_lo_ancestor(s: Shape, n: int, i: int)
    requires
        shape_ok(s, n),
        0 <= i < n,
        s.lo[i] > 0,
    ensures
        s.lo[s.lo[i] - 1] <= i < s.hi[s.lo[i] - 1],
    decreases n - (s.hi[i] - s.lo[i]),
{
    assert(node_ok(s, n, i));
    let p = s.par[i];
    assert(node_ok(s, n, p));
    if s.lc[p] == i {
        lemma_lo_ancestor(s, n, p);
        assert(nest_ok(s, s.lo[i] - 1, p));
    }
}

/// The position just after the subtree of `i` holds `i` in its own subtree.
pub proof fn lemma_hi_ancestor(s: Shape, n: int, i: int)
    requires
        shape_ok(s, n),
        0 <= i < n,
        s.hi[i] < n,
    ensures
        s.lo[s.hi[i]] <= i < s.hi[s.hi[i]],
    decreases n - (s.hi[i] - s.lo[i]),
{
    assert(node_ok(s, n, i));
    let p = s.par[i];
    assert(node_ok(s, n, p));
    if s.rc[p] == i {
        lemma_hi_ancestor(s, n, p);
        assert(nest_ok(s, s.hi[i], p));
    }
}

/// Two shapes over the same keys, no two of them equal, that both keep every
/// key no later than those below it are the same shape.
pub proof fn lemma_shape_unique(s: Shape, t: Shape, n: int, r: Seq<(u32, int)>)
    requires
        shape_ok(s, n),
        shape_ok(t, n),
        r.len() == n,
        heap_ok(s, r),
        heap_ok(t, r),
        forall|i: int, j: int| 0 <= i < n && 0 <= j < n && i != j ==> #[trigger] r[i] != #[trigger] r[j],
    ensures
        s == t,
{
    assert forall|i: int| 0 <= i < n implies #[trigger] s.lo[i] == t.lo[i] by {
        assert(node_ok(s, n, i));
        assert(node_ok(t, n, i));
        if s.lo[i] < t.lo[i] {
            let k = t.lo[i] - 1;
            lemma_lo_ancestor(t, n, i);
            assert(lex_le(r[k], r[i]));
            assert(lex_le(r[i], r[k]));
        } else if t.lo[i] < s.lo[i] {
            let k = s.lo[i] - 1;
            lemma_lo_ancestor(s, n, i);
            assert(lex_le(r[k], r[i]));
            assert(lex_le(r[i], r[k]));
        }
    }
    assert forall|i: int| 0 <= i < n implies #[trigger] s.hi[i] == t.hi[i] by {
        assert(node_ok(s, n, i));
        assert(node_ok(t, n, i));
        if s.hi[i] > t.hi[i] {
            let k = t.hi[i];
            lemma_hi_ancestor(t, n, i);
            assert(lex_le(r[k], r[i]));
            assert(lex_le(r[i], r[k]));
        } else if t.hi[i] > s.hi[i] {
            let k = s.hi[i];
            lemma_hi_ancestor(s, n, i);
            assert(lex_le(r[k], r[i]));
            assert(lex_le(r[i], r[k]));
        }
    }
    assert forall|i: int| 0 <= i < n implies #[trigger] s.lc[i] == t.lc[i] by {
        assert(node_ok(s, n, i));
        assert(node_ok(t, n, i));
        if s.lc[i] != -1 {
            let a = s.lc[i];
            let b = t.lc[i];
            assert(s.lo[b] == t.lo[b] && s.hi[b] == t.hi[b]);
            assert(nest_ok(s, a, b));
        }
    }
    assert forall|i: int| 0 <= i < n implies #[trigger] s.rc[i] == t.rc[i] by {
        assert(node_ok(s, n, i));
        assert(node_ok(t, n, i));
        if s.rc[i] != -1 {
            let a = s.rc[i];
            let b = t.rc[i];
            assert(s.lo[b] == t.lo[b] && s.hi[b] == t.hi[b]);
            assert(nest_ok(s, a, b));
        }
    }
    if n > 0 {
        assert(s.lo[t.rt] == t.lo[t.rt] && s.hi[t.rt] == t.hi[t.rt]);
        assert(nest_ok(s, s.rt, t.rt));
    }
    assert forall|i: int| 0 <= i < n implies #[trigger] s.par[i] == t.par[i] by {
        assert(node_ok(s, n, i));
        assert(node_ok(t, n, i));
        if s.par[i] != -1 {
            let p = s.par[i];
            assert(node_ok(t, n, p));
            assert(s.lc[p] == t.lc[p] && s.rc[p] == t.rc[p]);
        }
    }
    assert(s.lo =~= t.lo);
    assert(s.hi =~= t.hi);
    assert(s.lc =~= t.lc);
    assert(s.rc =~= t.rc);
    assert(s.par =~= t.par);
}

} // verus!
