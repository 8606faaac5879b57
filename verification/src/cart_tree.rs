//! A Cartesian tree over a sequence of spans whose nodes live in a slot map.
//!
//! The tree keeps the spans in sequence order (linked through `prev` and
//! `next`) and, at the same time, as a tree whose in-order walk is that
//! sequence and in which no node ranks above the nodes below it.  Several
//! trees may share one `CartNodes` map.
use vstd::prelude::*;
use crate::arena::{node_map, CartNodeKey, CartNodes};
use crate::recursive::MinChunk;
use crate::shape::{
    lex_le,
    back_slot, empty_shape, front_end, front_slot, heap_ok, lemma_empty_shape, lemma_pop_back_shape,
    lemma_pop_front_shape, lemma_push_back_heap, lemma_push_back_shape, lemma_push_front_heap,
    lemma_push_front_shape, lemma_shape_unique,
    lemma_sub_shape, nest_ok, node_ok, shifted, pop_back_shape, pop_front_shape, push_back_shape, push_front_shape,
    shape_ok, sub_shape, Shape,
};

verus! {

/// A node: a span, its place in the tree and its neighbours in the sequence.
#[derive(Clone, Copy)]
pub struct CartNode {
    value: MinChunk,
    left: Option<CartNodeKey>,
    right: Option<CartNodeKey>,
    parent: Option<CartNodeKey>,
    prev: Option<CartNodeKey>,
    next: Option<CartNodeKey>,
}

/// The key at position `j` of `ks`, or `None` when `j` is no position of it.
pub open spec fn key_at(ks: Seq<CartNodeKey>, j: int) -> Option<CartNodeKey> {
    if 0 <= j < ks.len() {
        Some(ks[j])
    } else {
        None
    }
}

/// The node at position `i` links to its children, parent and neighbours.
pub closed spec fn link_ok(ks: Seq<CartNodeKey>, s: Shape, node: CartNode, i: int) -> bool {
    &&& node.left == key_at(ks, s.lc[i])
    &&& node.right == key_at(ks, s.rc[i])
    &&& node.parent == key_at(ks, s.par[i])
    &&& node.prev == key_at(ks, i - 1)
    &&& node.next == key_at(ks, i + 1)
}

/// `m` holds the node at position `i`, linked as `s` says.
pub closed spec fn link_holds(ks: Seq<CartNodeKey>, s: Shape, m: Map<CartNodeKey, CartNode>, i: int) -> bool {
    m.contains_key(ks[i]) && link_ok(ks, s, m[ks[i]], i)
}

/// `m` holds every node of the sequence `ks`, linked as `s` says.
pub closed spec fn links_ok(ks: Seq<CartNodeKey>, s: Shape, m: Map<CartNodeKey, CartNode>) -> bool {
    forall|i: int| 0 <= i < ks.len() ==> #[trigger] link_holds(ks, s, m, i)
}

impl CartNode {
    /// The span that the node holds.
    pub closed spec fn span(self) -> MinChunk {
        self.value
    }
}

/// The spans held under `ks`, in order.
pub open spec fn values_of(ks: Seq<CartNodeKey>, m: Map<CartNodeKey, CartNode>) -> Seq<MinChunk> {
    Seq::new(ks.len(), |i: int| m[ks[i]].span())
}

/// The ranks of the spans held under `ks`, in order.
pub closed spec fn ranks_of(ks: Seq<CartNodeKey>, m: Map<CartNodeKey, CartNode>) -> Seq<u32> {
    Seq::new(ks.len(), |i: int| m[ks[i]].value.rank())
}

/// `f` compares two scored spans by rank.
pub open spec fn compares_by_rank<F: Fn(&MinChunk, &MinChunk) -> bool>(f: F) -> bool {
    &&& forall|a: &MinChunk, b: &MinChunk|
        a.is_scored() && b.is_scored() ==> #[trigger] f.requires((a, b))
    &&& forall|a: &MinChunk, b: &MinChunk, r: bool|
        a.is_scored() && b.is_scored() && #[trigger] f.ensures((a, b), r) ==> r == (a.rank()
            < b.rank())
}

/// What `after` holds under every key of `before` outside `owned` is what
/// `before` held there.
pub open spec fn unchanged_outside(
    before: Map<CartNodeKey, CartNode>,
    after: Map<CartNodeKey, CartNode>,
    owned: Seq<CartNodeKey>,
) -> bool {
    forall|k: CartNodeKey|
        before.contains_key(k) && !owned.contains(k) ==> #[trigger] after.contains_key(k)
            && after[k] == before[k]
}

/// A Cartesian tree: `root`, `first` and `last` are keys into a `CartNodes`
/// map that the caller passes to each operation.
pub struct CartTree {
    root: Option<CartNodeKey>,
    first: Option<CartNodeKey>,
    last: Option<CartNodeKey>,
    keys: Ghost<Seq<CartNodeKey>>,
    shape: Ghost<Shape>,
    stamps: Ghost<Seq<int>>,
}

/// The largest of `st`, or 0 when it is empty.
pub open spec fn seq_max(st: Seq<int>) -> int
    decreases st.len(),
{
    if st.len() == 0 {
        0
    } else {
        let m = seq_max(st.drop_last());
        if st.last() > m {
            st.last()
        } else {
            m
        }
    }
}

/// The stamp that a span gets when it joins a tree whose spans carry the
/// stamps `st`: one more than the largest of them.
pub open spec fn next_stamp(st: Seq<int>) -> int {
    seq_max(st) + 1
}

/// Every stamp of `st` comes before `next_stamp(st)`.
pub proof fn lemma_next_stamp(st: Seq<int>)
    ensures
        forall|i: int| 0 <= i < st.len() ==> #[trigger] st[i] < next_stamp(st),
    decreases st.len(),
{
    if st.len() > 0 {
        lemma_next_stamp(st.drop_last());
        assert forall|i: int| 0 <= i < st.len() implies #[trigger] st[i] < next_stamp(st) by {
            if i < st.len() - 1 {
                assert(st[i] == st.drop_last()[i]);
            }
        }
    }
}

/// Ranks paired with stamps.
pub open spec fn zip_keys(r: Seq<u32>, st: Seq<int>) -> Seq<(u32, int)> {
    Seq::new(r.len(), |i: int| (r[i], st[i]))
}

impl CartTree {
    #[verifier::type_invariant]
    spec fn inv(self) -> bool {
        let ks = self.keys@;
        let n = ks.len() as int;
        &&& shape_ok(self.shape@, n)
        &&& self.stamps@.len() == n
        &&& ks.no_duplicates()
        &&& self.root == key_at(ks, self.shape@.rt)
        &&& self.first == key_at(ks, 0)
        &&& self.last == key_at(ks, n - 1)
    }

    /// The keys of the tree's nodes, in sequence order.
    pub closed spec fn key_seq(self) -> Seq<CartNodeKey> {
        self.keys@
    }

    /// The position of the root in the sequence.
    pub closed spec fn root_pos(self) -> int {
        self.shape@.rt
    }

    /// The stamps of the tree's spans, in sequence order: each span gets one
    /// when it joins the tree, later than those of the spans already there.
    /// Among spans of equal rank, the one with the earliest stamp stands
    /// highest in the tree.
    pub closed spec fn stamps(self) -> Seq<int> {
        self.stamps@
    }

    /// The position of the root's left child in the sequence, or -1 when the
    /// root has none (or the tree is empty).
    pub closed spec fn root_left(self) -> int {
        if self.keys@.len() == 0 {
            -1
        } else {
            self.shape@.lc[self.shape@.rt]
        }
    }

    /// The position of the root's right child in the sequence, or -1 when
    /// the root has none (or the tree is empty).
    pub closed spec fn root_right(self) -> int {
        if self.keys@.len() == 0 {
            -1
        } else {
            self.shape@.rc[self.shape@.rt]
        }
    }

    /// The tree's spans, in sequence order, as `nodes` holds them.
    pub open spec fn view_in(self, nodes: CartNodes) -> Seq<MinChunk> {
        values_of(self.key_seq(), node_map(nodes))
    }

    /// `nodes` holds the tree: every node is in place and linked as the
    /// shape says.
    pub closed spec fn wf(self, nodes: CartNodes) -> bool {
        let m = node_map(nodes);
        &&& self.inv()
        &&& m.dom().finite()
        &&& m.dom().len() < u32::MAX
        &&& links_ok(self.keys@, self.shape@, m)
    }

    /// Every span of the tree is scored, and none ranks above the spans
    /// below it in the tree.
    pub closed spec fn ordered(self, nodes: CartNodes) -> bool {
        let m = node_map(nodes);
        let ks = self.keys@;
        &&& heap_ok(self.shape@, zip_keys(ranks_of(ks, m), self.stamps@))
        &&& self.stamps@.no_duplicates()
        &&& forall|i: int| 0 <= i < ks.len() ==> (#[trigger] m[ks[i]]).value.is_scored()
    }
}

/// The node under `k` with its parent link replaced.
fn set_parent(nodes: &mut CartNodes, k: CartNodeKey, p: Option<CartNodeKey>)
    requires
        node_map(*old(nodes)).contains_key(k),
    ensures
        node_map(*final(nodes)) == node_map(*old(nodes)).insert(
            k,
            CartNode { parent: p, ..node_map(*old(nodes))[k] },
        ),
{
    let mut node = *nodes.get(k).unwrap();
    node.parent = p;
    nodes.set(k, node);
}

fn set_left(nodes: &mut CartNodes, k: CartNodeKey, l: Option<CartNodeKey>)
    requires
        node_map(*old(nodes)).contains_key(k),
    ensures
        node_map(*final(nodes)) == node_map(*old(nodes)).insert(
            k,
            CartNode { left: l, ..node_map(*old(nodes))[k] },
        ),
{
    let mut node = *nodes.get(k).unwrap();
    node.left = l;
    nodes.set(k, node);
}

fn set_right(nodes: &mut CartNodes, k: CartNodeKey, r: Option<CartNodeKey>)
    requires
        node_map(*old(nodes)).contains_key(k),
    ensures
        node_map(*final(nodes)) == node_map(*old(nodes)).insert(
            k,
            CartNode { right: r, ..node_map(*old(nodes))[k] },
        ),
{
    let mut node = *nodes.get(k).unwrap();
    node.right = r;
    nodes.set(k, node);
}

fn set_prev(nodes: &mut CartNodes, k: CartNodeKey, p: Option<CartNodeKey>)
    requires
        node_map(*old(nodes)).contains_key(k),
    ensures
        node_map(*final(nodes)) == node_map(*old(nodes)).insert(
            k,
            CartNode { prev: p, ..node_map(*old(nodes))[k] },
        ),
{
    let mut node = *nodes.get(k).unwrap();
    node.prev = p;
    nodes.set(k, node);
}

fn set_next(nodes: &mut CartNodes, k: CartNodeKey, n: Option<CartNodeKey>)
    requires
        node_map(*old(nodes)).contains_key(k),
    ensures
        node_map(*final(nodes)) == node_map(*old(nodes)).insert(
            k,
            CartNode { next: n, ..node_map(*old(nodes))[k] },
        ),
{
    let mut node = *nodes.get(k).unwrap();
    node.next = n;
    nodes.set(k, node);
}

proof fn lemma_push_back_link_at(
    ks: Seq<CartNodeKey>,
    s: Shape,
    m0: Map<CartNodeKey, CartNode>,
    m1: Map<CartNodeKey, CartNode>,
    m2: Map<CartNodeKey, CartNode>,
    m3: Map<CartNodeKey, CartNode>,
    m4: Map<CartNodeKey, CartNode>,
    pi: int,
    li: int,
    x: CartNodeKey,
    value: MinChunk,
    i: int,
)
    requires
        0 <= i <= ks.len(),
        ks.push(x).no_duplicates(),
        shape_ok(s, ks.len() as int),
        ks.no_duplicates(),
        links_ok(ks, s, m0),
        back_slot(s, ks.len() as int, pi, li),
        !m0.contains_key(x),
        m1 == m0.insert(
            x,
            CartNode {
                value,
                left: key_at(ks, li),
                right: None,
                parent: key_at(ks, pi),
                prev: key_at(ks, ks.len() - 1),
                next: None,
            },
        ),
        m2 == if li != -1 {
            m1.insert(ks[li], CartNode { parent: Some(x), ..m1[ks[li]] })
        } else {
            m1
        },
        m3 == if pi != -1 {
            m2.insert(ks[pi], CartNode { right: Some(x), ..m2[ks[pi]] })
        } else {
            m2
        },
        m4 == if ks.len() > 0 {
            m3.insert(ks[ks.len() - 1], CartNode { next: Some(x), ..m3[ks[ks.len() - 1]] })
        } else {
            m3
        },
    ensures
        link_holds(ks.push(x), push_back_shape(s, ks.len() as int, pi, li), m4, i),
{
    reveal(link_ok);
    let n = ks.len() as int;
    let ks2 = ks.push(x);
    let t = push_back_shape(s, n, pi, li);
    if i < n {
        assert(link_holds(ks, s, m0, i));
        assert(node_ok(s, n, i));
        let k = ks[i];
        assert(ks2[i] == k);
        assert(m1[k] == m0[k]);
        if li != -1 {
            assert(node_ok(s, n, li));
            assert(link_holds(ks, s, m0, li));
        }
        if pi != -1 {
            assert(node_ok(s, n, pi));
            assert(link_holds(ks, s, m0, pi));
        }
        if i != li && li != -1 {
            assert(ks[i] != ks[li]);
        }
        if i != pi && pi != -1 {
            assert(ks[i] != ks[pi]);
        }
        if i != n - 1 {
            assert(ks[i] != ks[n - 1]);
        }
        assert(key_at(ks2, s.lc[i]) == key_at(ks, s.lc[i]));
        assert(key_at(ks2, s.rc[i]) == key_at(ks, s.rc[i]));
        assert(key_at(ks2, s.par[i]) == key_at(ks, s.par[i]));
        assert(key_at(ks2, i - 1) == key_at(ks, i - 1));
        if i + 1 < n {
            assert(key_at(ks2, i + 1) == key_at(ks, i + 1));
        }
    } else {
        assert(ks2[i] == x);
        if li != -1 {
            assert(link_holds(ks, s, m0, li));
            assert(ks[li] != x);
        }
        if pi != -1 {
            assert(link_holds(ks, s, m0, pi));
            assert(ks[pi] != x);
        }
        if n > 0 {
            assert(link_holds(ks, s, m0, n - 1));
            assert(ks[n - 1] != x);
        }
    }
}

/// The links after appending `x` behind position `pi`, taking `li` as its
/// left child.
proof fn lemma_push_back_links(
    ks: Seq<CartNodeKey>,
    s: Shape,
    m0: Map<CartNodeKey, CartNode>,
    m1: Map<CartNodeKey, CartNode>,
    m2: Map<CartNodeKey, CartNode>,
    m3: Map<CartNodeKey, CartNode>,
    m4: Map<CartNodeKey, CartNode>,
    pi: int,
    li: int,
    x: CartNodeKey,
    value: MinChunk,
)
    requires
        shape_ok(s, ks.len() as int),
        ks.no_duplicates(),
        links_ok(ks, s, m0),
        back_slot(s, ks.len() as int, pi, li),
        !m0.contains_key(x),
        m1 == m0.insert(
            x,
            CartNode {
                value,
                left: key_at(ks, li),
                right: None,
                parent: key_at(ks, pi),
                prev: key_at(ks, ks.len() - 1),
                next: None,
            },
        ),
        m2 == if li != -1 {
            m1.insert(ks[li], CartNode { parent: Some(x), ..m1[ks[li]] })
        } else {
            m1
        },
        m3 == if pi != -1 {
            m2.insert(ks[pi], CartNode { right: Some(x), ..m2[ks[pi]] })
        } else {
            m2
        },
        m4 == if ks.len() > 0 {
            m3.insert(ks[ks.len() - 1], CartNode { next: Some(x), ..m3[ks[ks.len() - 1]] })
        } else {
            m3
        },
    ensures
        ks.push(x).no_duplicates(),
        links_ok(ks.push(x), push_back_shape(s, ks.len() as int, pi, li), m4),
        values_of(ks.push(x), m4) == values_of(ks, m0).push(value),
        ranks_of(ks.push(x), m4) == ranks_of(ks, m0).push(value.rank()),
        m4.dom() == m0.dom().insert(x),
{
    reveal(link_ok);
    let n = ks.len() as int;
    let ks2 = ks.push(x);
    let t = push_back_shape(s, n, pi, li);
    assert(ks2.no_duplicates()) by {
        assert forall|i: int, j: int| 0 <= i < j < ks2.len() implies ks2[i] != ks2[j] by {
            if j == n {
                assert(link_holds(ks, s, m0, i));
            }
        }
    }
    assert forall|i: int| 0 <= i < n implies m4[#[trigger] ks2[i]].value == m0[ks[i]].value && m4.contains_key(ks2[i]) by {
        assert(link_holds(ks, s, m0, i));
    }
    assert forall|i: int| 0 <= i < ks2.len() implies #[trigger] link_holds(ks2, t, m4, i) by {
        lemma_push_back_link_at(ks, s, m0, m1, m2, m3, m4, pi, li, x, value, i);
    }
    assert(ranks_of(ks2, m4) =~= ranks_of(ks, m0).push(value.rank()));
    assert(values_of(ks2, m4) =~= values_of(ks, m0).push(value));
    if li != -1 {
        assert(link_holds(ks, s, m0, li));
    }
    if pi != -1 {
        assert(link_holds(ks, s, m0, pi));
    }
    if n > 0 {
        assert(link_holds(ks, s, m0, n - 1));
    }
    assert(m4.dom() =~= m0.dom().insert(x));
}

proof fn lemma_pop_back_link_at(
    ks: Seq<CartNodeKey>,
    s: Shape,
    m0: Map<CartNodeKey, CartNode>,
    m4: Map<CartNodeKey, CartNode>,
    i: int,
)
    requires
        ks.len() > 0,
        shape_ok(s, ks.len() as int),
        ks.no_duplicates(),
        links_ok(ks, s, m0),
        0 <= i < ks.len() - 1,
        ({
            let n = ks.len() as int;
            let q = n - 1;
            let c = s.lc[q];
            let p = s.par[q];
            let m1 = m0.remove(ks[q]);
            let m2 = if q > 0 { m1.insert(ks[q - 1], CartNode { next: None, ..m1[ks[q - 1]] }) } else { m1 };
            let m3 = if p != -1 { m2.insert(ks[p], CartNode { right: key_at(ks, c), ..m2[ks[p]] }) } else { m2 };
            m4 == if c != -1 { m3.insert(ks[c], CartNode { parent: key_at(ks, p), ..m3[ks[c]] }) } else { m3 }
        }),
    ensures
        link_holds(ks.drop_last(), pop_back_shape(s, ks.len() as int), m4, i),
        m4[ks.drop_last()[i]].value == m0[ks[i]].value,
{
    reveal(link_ok);
    let n = ks.len() as int;
    let q = n - 1;
    let c = s.lc[q];
    let p = s.par[q];
    let ks2 = ks.drop_last();
    let t = pop_back_shape(s, n);
    assert(node_ok(s, n, q));
    assert(node_ok(s, n, i));
    assert(link_holds(ks, s, m0, i));
    assert(ks2[i] == ks[i]);
    assert(ks[i] != ks[q]);
    if p != -1 {
        assert(node_ok(s, n, p));
        assert(link_holds(ks, s, m0, p));
        assert(ks[p] != ks[q]);
        if i != p {
            assert(ks[i] != ks[p]);
        }
    }
    if c != -1 {
        assert(node_ok(s, n, c));
        assert(link_holds(ks, s, m0, c));
        assert(ks[c] != ks[q]);
        if i != c {
            assert(ks[i] != ks[c]);
        }
    }
    if q > 0 {
        assert(link_holds(ks, s, m0, q - 1));
        if i != q - 1 {
            assert(ks[i] != ks[q - 1]);
        }
    }
    if s.par[i] != -1 {
        assert(node_ok(s, n, s.par[i]));
    }
    if s.lc[i] != -1 {
        assert(node_ok(s, n, s.lc[i]));
    }
    if s.rc[i] != -1 {
        assert(node_ok(s, n, s.rc[i]));
    }
    assert(key_at(ks2, s.lc[i]) == key_at(ks, s.lc[i]));
    assert(key_at(ks2, i - 1) == key_at(ks, i - 1));
    if s.rc[i] != q {
        assert(key_at(ks2, s.rc[i]) == key_at(ks, s.rc[i]));
    } else {
        assert(key_at(ks2, c) == key_at(ks, c));
    }
    if s.par[i] != q {
        assert(key_at(ks2, s.par[i]) == key_at(ks, s.par[i]));
    } else {
        assert(key_at(ks2, p) == key_at(ks, p));
    }
    if i + 1 < q {
        assert(key_at(ks2, i + 1) == key_at(ks, i + 1));
    }
}

proof fn lemma_pop_front_link_at(
    ks: Seq<CartNodeKey>,
    s: Shape,
    m0: Map<CartNodeKey, CartNode>,
    m4: Map<CartNodeKey, CartNode>,
    j: int,
)
    requires
        ks.len() > 0,
        shape_ok(s, ks.len() as int),
        ks.no_duplicates(),
        links_ok(ks, s, m0),
        0 <= j < ks.len() - 1,
        ({
            let n = ks.len() as int;
            let c = s.rc[0];
            let p = s.par[0];
            let m1 = m0.remove(ks[0]);
            let m2 = if n > 1 { m1.insert(ks[1], CartNode { prev: None, ..m1[ks[1]] }) } else { m1 };
            let m3 = if p != -1 { m2.insert(ks[p], CartNode { left: key_at(ks, c), ..m2[ks[p]] }) } else { m2 };
            m4 == if c != -1 { m3.insert(ks[c], CartNode { parent: key_at(ks, p), ..m3[ks[c]] }) } else { m3 }
        }),
    ensures
        link_holds(ks.drop_first(), pop_front_shape(s, ks.len() as int), m4, j),
        m4[ks.drop_first()[j]].value == m0[ks[j + 1]].value,
{
    reveal(link_ok);
    let n = ks.len() as int;
    let c = s.rc[0];
    let p = s.par[0];
    let i = j + 1;
    let ks2 = ks.drop_first();
    let t = pop_front_shape(s, n);
    assert(node_ok(s, n, 0));
    assert(node_ok(s, n, i));
    assert(link_holds(ks, s, m0, i));
    assert(ks2[j] == ks[i]);
    assert(ks[i] != ks[0]);
    if p != -1 {
        assert(node_ok(s, n, p));
        assert(link_holds(ks, s, m0, p));
        assert(ks[p] != ks[0]);
        if i != p {
            assert(ks[i] != ks[p]);
        }
    }
    if c != -1 {
        assert(node_ok(s, n, c));
        assert(link_holds(ks, s, m0, c));
        assert(ks[c] != ks[0]);
        if i != c {
            assert(ks[i] != ks[c]);
        }
    }
    if n > 1 {
        assert(link_holds(ks, s, m0, 1));
        if i != 1 {
            assert(ks[i] != ks[1]);
        }
    }
    if s.par[i] != -1 {
        assert(node_ok(s, n, s.par[i]));
    }
    if s.lc[i] != -1 {
        assert(node_ok(s, n, s.lc[i]));
    }
    if s.rc[i] != -1 {
        assert(node_ok(s, n, s.rc[i]));
    }
    assert(key_at(ks2, shifted(s.rc[i], 1)) == key_at(ks, s.rc[i]));
    if s.lc[i] != 0 {
        assert(key_at(ks2, shifted(s.lc[i], 1)) == key_at(ks, s.lc[i]));
    } else {
        assert(key_at(ks2, shifted(c, 1)) == key_at(ks, c));
    }
    if s.par[i] != 0 {
        assert(key_at(ks2, shifted(s.par[i], 1)) == key_at(ks, s.par[i]));
    } else {
        assert(key_at(ks2, shifted(p, 1)) == key_at(ks, p));
    }
    if j > 0 {
        assert(key_at(ks2, j - 1) == key_at(ks, i - 1));
    }
    assert(key_at(ks2, j + 1) == key_at(ks, i + 1));
}

proof fn lemma_push_front_link_at(
    ks: Seq<CartNodeKey>,
    s: Shape,
    m0: Map<CartNodeKey, CartNode>,
    m4: Map<CartNodeKey, CartNode>,
    pi: int,
    ri: int,
    x: CartNodeKey,
    value: MinChunk,
    k: int,
)
    requires
        shape_ok(s, ks.len() as int),
        ks.no_duplicates(),
        (seq![x] + ks).no_duplicates(),
        links_ok(ks, s, m0),
        front_slot(s, ks.len() as int, pi, ri),
        !m0.contains_key(x),
        0 <= k <= ks.len(),
        ({
            let m1 = m0.insert(
                x,
                CartNode {
                    value,
                    left: None,
                    right: key_at(ks, ri),
                    parent: key_at(ks, pi),
                    prev: None,
                    next: key_at(ks, 0),
                },
            );
            let m2 = if ri != -1 { m1.insert(ks[ri], CartNode { parent: Some(x), ..m1[ks[ri]] }) } else { m1 };
            let m3 = if pi != -1 { m2.insert(ks[pi], CartNode { left: Some(x), ..m2[ks[pi]] }) } else { m2 };
            m4 == if ks.len() > 0 { m3.insert(ks[0], CartNode { prev: Some(x), ..m3[ks[0]] }) } else { m3 }
        }),
    ensures
        link_holds(seq![x] + ks, push_front_shape(s, ks.len() as int, pi, ri), m4, k),
        k > 0 ==> m4[(seq![x] + ks)[k]].value == m0[ks[k - 1]].value,
        k == 0 ==> m4[(seq![x] + ks)[k]].value == value,
{
    reveal(link_ok);
    let n = ks.len() as int;
    let ks2 = seq![x] + ks;
    let t = push_front_shape(s, n, pi, ri);
    if ri != -1 {
        assert(node_ok(s, n, ri));
        assert(link_holds(ks, s, m0, ri));
        assert(ks[ri] != x);
    }
    if pi != -1 {
        assert(node_ok(s, n, pi));
        assert(link_holds(ks, s, m0, pi));
        assert(ks[pi] != x);
    }
    if n > 0 {
        assert(link_holds(ks, s, m0, 0));
        assert(ks[0] != x);
    }
    if k == 0 {
        assert(ks2[0] == x);
        assert(key_at(ks2, shifted(ri, -1)) == key_at(ks, ri));
        assert(key_at(ks2, shifted(pi, -1)) == key_at(ks, pi));
        assert(key_at(ks2, 1) == key_at(ks, 0));
    } else {
        let i = k - 1;
        assert(ks2[k] == ks[i]);
        assert(node_ok(s, n, i));
        assert(link_holds(ks, s, m0, i));
        if ri != -1 && i != ri {
            assert(ks[i] != ks[ri]);
        }
        if pi != -1 && i != pi {
            assert(ks[i] != ks[pi]);
        }
        if i != 0 {
            assert(ks[i] != ks[0]);
        }
        if s.par[i] != -1 {
            assert(node_ok(s, n, s.par[i]));
        }
        if s.lc[i] != -1 {
            assert(node_ok(s, n, s.lc[i]));
        }
        if s.rc[i] != -1 {
            assert(node_ok(s, n, s.rc[i]));
        }
        assert(key_at(ks2, shifted(s.lc[i], -1)) == key_at(ks, s.lc[i]));
        assert(key_at(ks2, shifted(s.rc[i], -1)) == key_at(ks, s.rc[i]));
        assert(key_at(ks2, shifted(s.par[i], -1)) == key_at(ks, s.par[i]));
        assert(key_at(ks2, k + 1) == key_at(ks, i + 1));
        if i > 0 {
            assert(key_at(ks2, k - 1) == key_at(ks, i - 1));
        }
    }
}

/// The map after cutting the tree at its root `r`.
#[verifier::opaque]
pub closed spec fn split_map(
    ks: Seq<CartNodeKey>,
    s: Shape,
    m0: Map<CartNodeKey, CartNode>,
) -> Map<CartNodeKey, CartNode> {
    let n = ks.len() as int;
    let r = s.rt;
    let c = s.lc[r];
    let d = s.rc[r];
    let m1 = m0.remove(ks[r]);
    let m2 = if r > 0 { m1.insert(ks[r - 1], CartNode { next: None, ..m1[ks[r - 1]] }) } else { m1 };
    let m3 = if r + 1 < n { m2.insert(ks[r + 1], CartNode { prev: None, ..m2[ks[r + 1]] }) } else { m2 };
    let m4 = if c != -1 { m3.insert(ks[c], CartNode { parent: None, ..m3[ks[c]] }) } else { m3 };
    if d != -1 { m4.insert(ks[d], CartNode { parent: None, ..m4[ks[d]] }) } else { m4 }
}

/// What the map holds after the cut, under a key other than the root's.
proof fn lemma_split_map_at(ks: Seq<CartNodeKey>, s: Shape, m0: Map<CartNodeKey, CartNode>, i: int)
    requires
        ks.len() > 0,
        shape_ok(s, ks.len() as int),
        ks.no_duplicates(),
        links_ok(ks, s, m0),
        0 <= i < ks.len(),
        i != s.rt,
    ensures
        split_map(ks, s, m0).contains_key(ks[i]),
        split_map(ks, s, m0)[ks[i]] == (CartNode {
            next: if i == s.rt - 1 { None } else { m0[ks[i]].next },
            prev: if i == s.rt + 1 { None } else { m0[ks[i]].prev },
            parent: if i == s.lc[s.rt] || i == s.rc[s.rt] { None } else { m0[ks[i]].parent },
            ..m0[ks[i]]
        }),
{
    reveal(split_map);
    let n = ks.len() as int;
    let r = s.rt;
    let c = s.lc[r];
    let d = s.rc[r];
    assert(node_ok(s, n, r));
    assert(link_holds(ks, s, m0, i));
    assert(ks[i] != ks[r]);
    if r > 0 {
        assert(link_holds(ks, s, m0, r - 1));
        if i != r - 1 {
            assert(ks[i] != ks[r - 1]);
        }
    }
    if r + 1 < n {
        assert(link_holds(ks, s, m0, r + 1));
        if i != r + 1 {
            assert(ks[i] != ks[r + 1]);
        }
    }
    if c != -1 {
        assert(node_ok(s, n, c));
        assert(link_holds(ks, s, m0, c));
        if i != c {
            assert(ks[i] != ks[c]);
        }
    }
    if d != -1 {
        assert(node_ok(s, n, d));
        assert(link_holds(ks, s, m0, d));
        if i != d {
            assert(ks[i] != ks[d]);
        }
    }
}

/// The map after the cut holds what it held before under keys outside the
/// tree, and nothing under the root's key.
proof fn lemma_split_map_dom(ks: Seq<CartNodeKey>, s: Shape, m0: Map<CartNodeKey, CartNode>)
    requires
        ks.len() > 0,
        shape_ok(s, ks.len() as int),
        ks.no_duplicates(),
        links_ok(ks, s, m0),
    ensures
        split_map(ks, s, m0).dom() == m0.dom().remove(ks[s.rt]),
        unchanged_outside(m0, split_map(ks, s, m0), ks),
{
    reveal(split_map);
    let n = ks.len() as int;
    let r = s.rt;
    let c = s.lc[r];
    let d = s.rc[r];
    let m = split_map(ks, s, m0);
    assert(node_ok(s, n, r));
    if r > 0 {
        assert(link_holds(ks, s, m0, r - 1));
    }
    if r + 1 < n {
        assert(link_holds(ks, s, m0, r + 1));
    }
    if c != -1 {
        assert(node_ok(s, n, c));
        assert(link_holds(ks, s, m0, c));
    }
    if d != -1 {
        assert(node_ok(s, n, d));
        assert(link_holds(ks, s, m0, d));
    }
    assert(m.dom() =~= m0.dom().remove(ks[r]));
    assert forall|k: CartNodeKey| m0.contains_key(k) && !ks.contains(k) implies #[trigger] m.contains_key(k)
        && m[k] == m0[k] by {
        assert(ks.contains(ks[r]));
        if r > 0 {
            assert(ks.contains(ks[r - 1]));
        }
        if r + 1 < n {
            assert(ks.contains(ks[r + 1]));
        }
        if c != -1 {
            assert(ks.contains(ks[c]));
        }
        if d != -1 {
            assert(ks.contains(ks[d]));
        }
    }
}

/// The node at position `i` of a tree cut at its root, seen as position
/// `i - a` of the part `a .. b` whose own root is at `q`.
proof fn lemma_split_link_at(
    ks: Seq<CartNodeKey>,
    s: Shape,
    m0: Map<CartNodeKey, CartNode>,
    a: int,
    b: int,
    q: int,
    i: int,
)
    requires
        ks.len() > 0,
        shape_ok(s, ks.len() as int),
        ks.no_duplicates(),
        links_ok(ks, s, m0),
        (a == 0 && b == s.rt && q == s.lc[s.rt]) || (a == s.rt + 1 && b == ks.len() && q
            == s.rc[s.rt]),
        q != -1,
        a <= i < b,
    ensures
        link_holds(ks.subrange(a, b), sub_shape(s, a, b, q), split_map(ks, s, m0), i - a),
        split_map(ks, s, m0)[ks[i]].value == m0[ks[i]].value,
{
    reveal(link_ok);
    let n = ks.len() as int;
    let r = s.rt;
    let ks2 = ks.subrange(a, b);
    let t = sub_shape(s, a, b, q);
    assert(node_ok(s, n, r));
    assert(node_ok(s, n, q));
    assert(node_ok(s, n, i));
    assert(nest_ok(s, q, i));
    assert(nest_ok(s, r, i));
    assert(link_holds(ks, s, m0, i));
    lemma_split_map_at(ks, s, m0, i);
    assert(ks2[i - a] == ks[i]);
    if s.par[i] != -1 {
        assert(node_ok(s, n, s.par[i]));
        assert(nest_ok(s, q, s.par[i]));
        assert(nest_ok(s, s.par[i], q));
    }
    if s.lc[i] != -1 {
        assert(node_ok(s, n, s.lc[i]));
        assert(nest_ok(s, q, s.lc[i]));
    }
    if s.rc[i] != -1 {
        assert(node_ok(s, n, s.rc[i]));
        assert(nest_ok(s, q, s.rc[i]));
    }
    assert(key_at(ks2, shifted(s.lc[i], a)) == key_at(ks, s.lc[i]));
    assert(key_at(ks2, shifted(s.rc[i], a)) == key_at(ks, s.rc[i]));
    if i != q {
        assert(key_at(ks2, s.par[i] - a) == key_at(ks, s.par[i]));
    }
    if i - 1 >= a {
        assert(key_at(ks2, i - 1 - a) == key_at(ks, i - 1));
    }
    if i + 1 < b {
        assert(key_at(ks2, i + 1 - a) == key_at(ks, i + 1));
    }
}

impl Clone for CartTree {
    /// The same keys: both copies name the same nodes of the map.
    fn clone(&self) -> (copy: CartTree)
        ensures
            copy == *self,
    {
        proof {
            use_type_invariant(self);
        }
        CartTree {
            root: self.root,
            first: self.first,
            last: self.last,
            keys: self.keys,
            shape: self.shape,
            stamps: self.stamps,
        }
    }
}

impl Default for CartTree {
    fn default() -> (t: CartTree)
        ensures
            t.key_seq() == Seq::<CartNodeKey>::empty(),
            t.stamps() == Seq::<int>::empty(),
            forall|nodes: CartNodes|
                node_map(nodes).dom().finite() && node_map(nodes).dom().len() < u32::MAX
                    ==> #[trigger] t.wf(nodes),
            forall|nodes: CartNodes| #[trigger] t.view_in(nodes) == Seq::<MinChunk>::empty(),
            forall|nodes: CartNodes| #[trigger] t.ordered(nodes),
    {
        proof {
            lemma_empty_shape();
        }
        let t = CartTree {
            root: None,
            first: None,
            last: None,
            keys: Ghost(Seq::empty()),
            shape: Ghost(empty_shape()),
            stamps: Ghost(Seq::empty()),
        };
        assert forall|nodes: CartNodes| #[trigger] t.view_in(nodes) == Seq::<MinChunk>::empty() by {
            assert(t.view_in(nodes) =~= Seq::<MinChunk>::empty());
        }
        assert forall|nodes: CartNodes| #[trigger] t.ordered(nodes) by {
            assert(ranks_of(t.keys@, node_map(nodes)) =~= Seq::<u32>::empty());
        }
        t
    }
}

impl CartTree {
    /// Whether the tree holds no node.
    pub fn is_empty(&self) -> (r: bool)
        ensures
            r == (self.key_seq().len() == 0),
    {
        proof {
            use_type_invariant(self);
        }
        self.root.is_none()
    }

    /// Appends `value` at the end of the sequence.  The nodes on the right
    /// spine that rank above `value` become its left subtree.
    #[verifier::rlimit(40)]
    #[verifier::spinoff_prover]
    pub fn push_back(
        &mut self,
        value: MinChunk,
        nodes: &mut CartNodes,
        is_less: impl Fn(&MinChunk, &MinChunk) -> bool,
    )
        requires
            old(self).wf(*old(nodes)),
            node_map(*old(nodes)).dom().len() + 2 < u32::MAX,
            forall|j: int|
                0 <= j < old(self).view_in(*old(nodes)).len() ==> is_less.requires(
                    (&value, &#[trigger] old(self).view_in(*old(nodes))[j]),
                ),
        ensures
            final(self).wf(*final(nodes)),
            final(self).view_in(*final(nodes)) == old(self).view_in(*old(nodes)).push(value),
            old(self).ordered(*old(nodes)) && value.is_scored() && compares_by_rank(is_less) ==> {
                &&& final(self).ordered(*final(nodes))
                &&& final(self).root_pos() == if old(self).view_in(*old(nodes)).len() == 0
                    || value.rank() < old(self).view_in(*old(nodes))[old(self).root_pos()].rank() {
                    old(self).view_in(*old(nodes)).len() as int
                } else {
                    old(self).root_pos()
                }
                &&& final(self).root_pos() == old(self).view_in(*old(nodes)).len()
                    ==> final(self).root_left() == old(self).root_pos()
            },
            final(self).key_seq().drop_last() == old(self).key_seq(),
            final(self).stamps() == old(self).stamps().push(next_stamp(old(self).stamps())),
            !node_map(*old(nodes)).contains_key(final(self).key_seq().last()),
            node_map(*final(nodes)).dom() == node_map(*old(nodes)).dom().insert(
                final(self).key_seq().last(),
            ),
            node_map(*final(nodes)).dom().len() == node_map(*old(nodes)).dom().len() + 1,
            unchanged_outside(node_map(*old(nodes)), node_map(*final(nodes)), old(self).key_seq()),
    {
        proof {
            use_type_invariant(&*self);
        }
        let ghost m0 = node_map(*nodes);
        let ghost ks = self.keys@;
        let ghost s = self.shape@;
        let ghost n = ks.len() as int;
        let ghost r = ranks_of(ks, m0);
        let ghost st = self.stamps@;
        let ghost tv = next_stamp(st);
        let ghost ord = self.ordered(*nodes) && value.is_scored() && compares_by_rank(is_less);
        let mut parent = self.last;
        let mut left: Option<CartNodeKey> = None;
        proof {
            if n > 0 {
                assert(node_ok(s, n, n - 1));
            }
        }
        let ghost mut pi: int = n - 1;
        assert forall|j: int| 0 <= j < n implies is_less.requires(
            (&value, &#[trigger] values_of(ks, m0)[j]),
        ) by {
            assert(self.view_in(*nodes)[j] == values_of(ks, m0)[j]);
        }
        let ghost mut li: int = -1;
        loop
            invariant
                node_map(*nodes) == m0,
                self.wf(*nodes),
                ks == self.keys@,
                s == self.shape@,
                n == ks.len(),
                r == ranks_of(ks, m0),
                st == self.stamps@,
                shape_ok(s, n),
                ks.no_duplicates(),
                ord == (self.ordered(*nodes) && value.is_scored() && compares_by_rank(is_less)),
                forall|j: int|
                    0 <= j < n ==> is_less.requires((&value, &#[trigger] values_of(ks, m0)[j])),
                back_slot(s, n, pi, li),
                parent == key_at(ks, pi),
                left == key_at(ks, li),
                ord ==> forall|j: int| pi < j < n ==> value.rank() < #[trigger] r[j],
            ensures
                back_slot(s, n, pi, li),
                parent == key_at(ks, pi),
                left == key_at(ks, li),
                ord ==> forall|j: int| pi < j < n ==> value.rank() < #[trigger] r[j],
                ord && pi != -1 ==> r[pi] <= value.rank(),
            decreases pi + 1,
        {
            match parent {
                None => {
                    break ;
                },
                Some(pk) => {
                    assert(link_holds(ks, s, m0, pi));
                    let pnode = nodes.get(pk).unwrap();
                    assert(r[pi] == pnode.value.rank());
                    assert(values_of(ks, m0)[pi] == pnode.value);
                    if !is_less(&value, &pnode.value) {
                        break ;
                    }
                    left = parent;
                    parent = pnode.parent;
                    proof {
                        assert(node_ok(s, n, pi));
                        let p = s.par[pi];
                        if p != -1 {
                            assert(node_ok(s, n, p));
                        }
                        if ord {
                            assert forall|j: int| p < j < n implies value.rank() < #[trigger] r[j] by {
                                if j < s.lo[pi] {
                                } else if j < pi {
                                    assert(s.lo[pi] <= j < s.hi[pi]);
                                    assert(lex_le(zip_keys(r, st)[pi], zip_keys(r, st)[j]));
                                }
                            }
                        }
                        li = pi;
                        pi = p;
                    }
                },
            }
        }
        proof {
            lemma_push_back_shape(s, n, pi, li);
            if pi == -1 && n > 0 {
                assert(node_ok(s, n, li));
                assert(li == s.rt);
            }
            lemma_next_stamp(st);
            if ord {
                let zk = zip_keys(r, st);
                if pi != -1 {
                    assert(st[pi] < tv);
                }
                assert((st.push(tv)).no_duplicates()) by {
                    let ss = st.push(tv);
                    assert forall|x: int, y: int| 0 <= x < y < ss.len() implies ss[x] != ss[y] by {
                        if ss.len() - 1 == y || x == 0 {
                        }
                    }
                }
                lemma_push_back_heap(s, n, pi, li, zk, (value.rank(), tv));
                assert(zip_keys(r.push(value.rank()), st.push(tv)) =~= zk.push((value.rank(), tv)));
                if n > 0 {
                    assert(node_ok(s, n, s.rt));
                    if pi != -1 {
                        assert(s.lo[s.rt] <= pi < s.hi[s.rt]);
                        assert(lex_le(zip_keys(r, st)[s.rt], zip_keys(r, st)[pi]));
                    }
                    assert(values_of(ks, m0)[s.rt].rank() == r[s.rt]);
                }
            }
        }
        let ghost t = push_back_shape(s, n, pi, li);
        let node = nodes.insert(
            CartNode { value, left, right: None, parent, prev: self.last, next: None },
        );
        let ghost m1 = node_map(*nodes);
        if let Some(l) = left {
            assert(link_holds(ks, s, m0, li));
            set_parent(nodes, l, Some(node));
        }
        let ghost m2 = node_map(*nodes);
        let root = match parent {
            Some(p) => {
                assert(link_holds(ks, s, m0, pi));
                set_right(nodes, p, Some(node));
                self.root
            },
            None => Some(node),
        };
        let ghost m3 = node_map(*nodes);
        let first = match self.last {
            Some(l) => {
                assert(link_holds(ks, s, m0, n - 1));
                set_next(nodes, l, Some(node));
                self.first
            },
            None => Some(node),
        };
        let ghost ks2 = ks.push(node);
        let ghost m4 = node_map(*nodes);
        proof {
            assert(m1 == m0.insert(node, CartNode { value, left: key_at(ks, li), right: None, parent: key_at(ks, pi), prev: key_at(ks, n - 1), next: None }));
            lemma_push_back_links(ks, s, m0, m1, m2, m3, m4, pi, li, node, value);
            assert(ks2.drop_last() =~= ks);
            if ord {
                assert forall|i: int| 0 <= i < ks2.len() implies (#[trigger] m4[ks2[i]]).value.is_scored() by {
                    assert(values_of(ks2, m4)[i] == m4[ks2[i]].value);
                    if i < n {
                        assert(values_of(ks, m0)[i] == m0[ks[i]].value);
                    }
                }
            }
        }
        *self = CartTree {
            root,
            first,
            last: Some(node),
            keys: Ghost(ks2),
            shape: Ghost(t),
            stamps: Ghost(st.push(tv)),
        };
    }

    /// Removes the last span of the sequence and returns it; its left
    /// subtree takes its place under its parent.
    #[verifier::spinoff_prover]
    pub fn pop_back(&mut self, nodes: &mut CartNodes) -> (r: Option<MinChunk>)
        requires
            old(self).wf(*old(nodes)),
        ensures
            final(self).wf(*final(nodes)),
            old(self).ordered(*old(nodes)) ==> final(self).ordered(*final(nodes)),
            old(self).view_in(*old(nodes)).len() == 0 ==> r is None && *final(self) == *old(self)
                && *final(nodes) == *old(nodes),
            old(self).view_in(*old(nodes)).len() > 0 ==> {
                &&& r == Some(old(self).view_in(*old(nodes)).last())
                &&& final(self).view_in(*final(nodes)) == old(self).view_in(
                    *old(nodes),
                ).drop_last()
                &&& final(self).key_seq() == old(self).key_seq().drop_last()
                &&& final(self).stamps() == old(self).stamps().drop_last()
                &&& old(self).root_pos() != old(self).key_seq().len() - 1 ==> final(self).root_pos()
                    == old(self).root_pos()
                &&& old(self).root_pos() == old(self).key_seq().len() - 1 && old(self).root_left()
                    != -1 ==> final(self).root_pos() == old(self).root_left()
                &&& node_map(*final(nodes)).dom() == node_map(*old(nodes)).dom().remove(
                    old(self).key_seq().last(),
                )
                &&& node_map(*final(nodes)).dom().len() == node_map(*old(nodes)).dom().len() - 1
            },
            unchanged_outside(node_map(*old(nodes)), node_map(*final(nodes)), old(self).key_seq()),
    {
        proof {
            use_type_invariant(&*self);
        }
        let ghost m0 = node_map(*nodes);
        let ghost ks = self.keys@;
        let ghost s = self.shape@;
        let ghost n = ks.len() as int;
        let ghost ord = self.ordered(*nodes);
        let ghost st = self.stamps@;
        let last = match self.last {
            None => {
                return None;
            },
            Some(k) => k,
        };
        proof {
            assert(link_holds(ks, s, m0, n - 1));
            assert(node_ok(s, n, n - 1));
            reveal(link_ok);
        }
        let node = match nodes.remove(last) {
            None => {
                return None;
            },
            Some(node) => node,
        };
        let ghost q = n - 1;
        let ghost c = s.lc[q];
        let ghost p = s.par[q];
        let ghost m1 = node_map(*nodes);
        let new_last = node.prev;
        let first = match node.prev {
            Some(k) => {
                assert(m1.contains_key(k)) by {
                    assert(link_holds(ks, s, m0, q - 1));
                }
                set_next(nodes, k, None);
                self.first
            },
            None => None,
        };
        let ghost m2 = node_map(*nodes);
        let root = match node.parent {
            Some(k) => {
                assert(m2.contains_key(k)) by {
                    assert(node_ok(s, n, p));
                    assert(link_holds(ks, s, m0, p));
                }
                set_right(nodes, k, node.left);
                self.root
            },
            None => node.left,
        };
        let ghost m3 = node_map(*nodes);
        if let Some(k) = node.left {
            assert(m3.contains_key(k)) by {
                assert(node_ok(s, n, c));
                assert(link_holds(ks, s, m0, c));
            }
            set_parent(nodes, k, node.parent);
        }
        let ghost m4 = node_map(*nodes);
        let ghost ks2 = ks.drop_last();
        let ghost t = pop_back_shape(s, n);
        proof {
            let r0 = ranks_of(ks, m0);
            lemma_pop_back_shape(s, n, zip_keys(r0, st));
            assert forall|i: int| 0 <= i < ks2.len() implies #[trigger] link_holds(ks2, t, m4, i) by {
                lemma_pop_back_link_at(ks, s, m0, m4, i);
            }
            assert forall|i: int| 0 <= i < ks2.len() implies m4[#[trigger] ks2[i]].value == m0[ks[i]].value by {
                lemma_pop_back_link_at(ks, s, m0, m4, i);
            }
            assert(ranks_of(ks2, m4) =~= r0.take(q));
            assert(zip_keys(ranks_of(ks2, m4), st.drop_last()) =~= zip_keys(r0, st).take(q));
            assert(st.drop_last().no_duplicates() || !st.no_duplicates()) by {
                if st.no_duplicates() {
                    assert forall|x: int, y: int| 0 <= x < y < q implies st.drop_last()[x] != st.drop_last()[y] by {
                        assert(st[x] != st[y]);
                    }
                }
            }
            if ord {
                assert forall|i: int| 0 <= i < ks2.len() implies (#[trigger] m4[ks2[i]]).value.is_scored() by {
                    lemma_pop_back_link_at(ks, s, m0, m4, i);
                    assert(m0[ks[i]].value.is_scored());
                }
            }
            assert(values_of(ks2, m4) =~= values_of(ks, m0).drop_last());
            assert(m4.dom() =~= m0.dom().remove(ks[q]));
            assert(ks2.no_duplicates()) by {
                assert forall|i: int, j: int| 0 <= i < j < ks2.len() implies ks2[i] != ks2[j] by {
                    assert(ks[i] != ks[j]);
                }
            }
            if q > 0 {
                assert(node_ok(t, q, t.rt));
            }
            assert(m4.dom().len() < u32::MAX) by {
                assert(link_holds(ks, s, m0, q));
            }
            assert forall|k: CartNodeKey| m0.contains_key(k) && !ks.contains(k) implies #[trigger] m4.contains_key(k)
                && m4[k] == m0[k] by {
                if q > 0 {
                    assert(ks.contains(ks[q - 1]));
                }
                if p != -1 {
                    assert(ks.contains(ks[p]));
                }
                if c != -1 {
                    assert(ks.contains(ks[c]));
                }
                assert(ks.contains(ks[q]));
            }
        }
        *self = CartTree { root, first, last: new_last, keys: Ghost(ks2), shape: Ghost(t), stamps: Ghost(st.drop_last()) };
        Some(node.value)
    }

    /// Removes the first span of the sequence and returns it; its right
    /// subtree takes its place under its parent.
    #[verifier::spinoff_prover]
    pub fn pop_front(&mut self, nodes: &mut CartNodes) -> (r: Option<MinChunk>)
        requires
            old(self).wf(*old(nodes)),
        ensures
            final(self).wf(*final(nodes)),
            old(self).ordered(*old(nodes)) ==> final(self).ordered(*final(nodes)),
            old(self).view_in(*old(nodes)).len() == 0 ==> r is None && *final(self) == *old(self)
                && *final(nodes) == *old(nodes),
            old(self).view_in(*old(nodes)).len() > 0 ==> {
                &&& r == Some(old(self).view_in(*old(nodes))[0])
                &&& final(self).view_in(*final(nodes)) == old(self).view_in(
                    *old(nodes),
                ).drop_first()
                &&& final(self).key_seq() == old(self).key_seq().drop_first()
                &&& final(self).stamps() == old(self).stamps().drop_first()
                &&& old(self).root_pos() != 0 ==> final(self).root_pos() == old(self).root_pos() - 1
                &&& old(self).root_pos() == 0 && old(self).root_right() != -1 ==> final(self).root_pos()
                    == old(self).root_right() - 1
                &&& node_map(*final(nodes)).dom() == node_map(*old(nodes)).dom().remove(
                    old(self).key_seq()[0],
                )
                &&& node_map(*final(nodes)).dom().len() == node_map(*old(nodes)).dom().len() - 1
            },
            unchanged_outside(node_map(*old(nodes)), node_map(*final(nodes)), old(self).key_seq()),
    {
        proof {
            use_type_invariant(&*self);
        }
        let ghost m0 = node_map(*nodes);
        let ghost ks = self.keys@;
        let ghost s = self.shape@;
        let ghost n = ks.len() as int;
        let ghost ord = self.ordered(*nodes);
        let ghost st = self.stamps@;
        let first = match self.first {
            None => {
                return None;
            },
            Some(k) => k,
        };
        proof {
            assert(link_holds(ks, s, m0, 0));
            assert(node_ok(s, n, 0));
            reveal(link_ok);
        }
        let node = match nodes.remove(first) {
            None => {
                return None;
            },
            Some(node) => node,
        };
        let ghost c = s.rc[0];
        let ghost p = s.par[0];
        let ghost m1 = node_map(*nodes);
        let new_first = node.next;
        let last = match node.next {
            Some(k) => {
                assert(m1.contains_key(k)) by {
                    assert(link_holds(ks, s, m0, 1));
                }
                set_prev(nodes, k, None);
                self.last
            },
            None => None,
        };
        let ghost m2 = node_map(*nodes);
        let root = match node.parent {
            Some(k) => {
                assert(m2.contains_key(k)) by {
                    assert(node_ok(s, n, p));
                    assert(link_holds(ks, s, m0, p));
                }
                set_left(nodes, k, node.right);
                self.root
            },
            None => node.right,
        };
        let ghost m3 = node_map(*nodes);
        if let Some(k) = node.right {
            assert(m3.contains_key(k)) by {
                assert(node_ok(s, n, c));
                assert(link_holds(ks, s, m0, c));
            }
            set_parent(nodes, k, node.parent);
        }
        let ghost m4 = node_map(*nodes);
        let ghost ks2 = ks.drop_first();
        let ghost t = pop_front_shape(s, n);
        proof {
            let r0 = ranks_of(ks, m0);
            lemma_pop_front_shape(s, n, zip_keys(r0, st));
            assert forall|j: int| 0 <= j < ks2.len() implies #[trigger] link_holds(ks2, t, m4, j) by {
                lemma_pop_front_link_at(ks, s, m0, m4, j);
            }
            assert forall|j: int| 0 <= j < ks2.len() implies m4[#[trigger] ks2[j]].value == m0[ks[j + 1]].value by {
                lemma_pop_front_link_at(ks, s, m0, m4, j);
            }
            assert(ranks_of(ks2, m4) =~= r0.subrange(1, n));
            assert(zip_keys(ranks_of(ks2, m4), st.drop_first()) =~= zip_keys(r0, st).subrange(1, n));
            assert(st.drop_first().no_duplicates() || !st.no_duplicates()) by {
                if st.no_duplicates() {
                    assert forall|x: int, y: int| 0 <= x < y < n - 1 implies st.drop_first()[x] != st.drop_first()[y] by {
                        assert(st[x + 1] != st[y + 1]);
                    }
                }
            }
            if ord {
                assert forall|j: int| 0 <= j < ks2.len() implies (#[trigger] m4[ks2[j]]).value.is_scored() by {
                    lemma_pop_front_link_at(ks, s, m0, m4, j);
                    assert(m0[ks[j + 1]].value.is_scored());
                }
            }
            assert(values_of(ks2, m4) =~= values_of(ks, m0).drop_first());
            assert(m4.dom() =~= m0.dom().remove(ks[0])) by {
                if n > 1 {
                    assert(link_holds(ks, s, m0, 1));
                }
                if p != -1 {
                    assert(link_holds(ks, s, m0, p));
                }
                if c != -1 {
                    assert(link_holds(ks, s, m0, c));
                }
            }
            assert(ks2.no_duplicates()) by {
                assert forall|i: int, j: int| 0 <= i < j < ks2.len() implies ks2[i] != ks2[j] by {
                    assert(ks[i + 1] != ks[j + 1]);
                }
            }
            if n > 1 {
                assert(node_ok(t, n - 1, t.rt));
            }
            assert forall|k: CartNodeKey| m0.contains_key(k) && !ks.contains(k) implies #[trigger] m4.contains_key(k)
                && m4[k] == m0[k] by {
                if n > 1 {
                    assert(ks.contains(ks[1]));
                }
                if p != -1 {
                    assert(ks.contains(ks[p]));
                }
                if c != -1 {
                    assert(ks.contains(ks[c]));
                }
                assert(ks.contains(ks[0]));
            }
        }
        *self = CartTree { root, first: new_first, last, keys: Ghost(ks2), shape: Ghost(t), stamps: Ghost(st.drop_first()) };
        Some(node.value)
    }

    /// Prepends `value` at the start of the sequence.  The nodes on the left
    /// spine that rank above `value` become its right subtree.
    #[verifier::rlimit(40)]
    #[verifier::spinoff_prover]
    pub fn push_front(
        &mut self,
        value: MinChunk,
        nodes: &mut CartNodes,
        is_less: impl Fn(&MinChunk, &MinChunk) -> bool,
    )
        requires
            old(self).wf(*old(nodes)),
            node_map(*old(nodes)).dom().len() + 2 < u32::MAX,
            forall|j: int|
                0 <= j < old(self).view_in(*old(nodes)).len() ==> is_less.requires(
                    (&value, &#[trigger] old(self).view_in(*old(nodes))[j]),
                ),
        ensures
            final(self).wf(*final(nodes)),
            final(self).view_in(*final(nodes)) == seq![value] + old(self).view_in(*old(nodes)),
            old(self).ordered(*old(nodes)) && value.is_scored() && compares_by_rank(is_less) ==> {
                &&& final(self).ordered(*final(nodes))
                &&& final(self).root_pos() == if old(self).view_in(*old(nodes)).len() == 0
                    || value.rank() < old(self).view_in(*old(nodes))[old(self).root_pos()].rank() {
                    0
                } else {
                    old(self).root_pos() + 1
                }
                &&& final(self).root_pos() == 0 ==> final(self).root_right() == if old(self).view_in(
                    *old(nodes),
                ).len() == 0 {
                    -1
                } else {
                    old(self).root_pos() + 1
                }
            },
            final(self).key_seq().drop_first() == old(self).key_seq(),
            final(self).stamps() == seq![next_stamp(old(self).stamps())] + old(self).stamps(),
            !node_map(*old(nodes)).contains_key(final(self).key_seq()[0]),
            node_map(*final(nodes)).dom() == node_map(*old(nodes)).dom().insert(
                final(self).key_seq()[0],
            ),
            node_map(*final(nodes)).dom().len() == node_map(*old(nodes)).dom().len() + 1,
            unchanged_outside(node_map(*old(nodes)), node_map(*final(nodes)), old(self).key_seq()),
    {
        proof {
            use_type_invariant(&*self);
        }
        let ghost m0 = node_map(*nodes);
        let ghost ks = self.keys@;
        let ghost s = self.shape@;
        let ghost n = ks.len() as int;
        let ghost r = ranks_of(ks, m0);
        let ghost st = self.stamps@;
        let ghost tv = next_stamp(st);
        let ghost ord = self.ordered(*nodes) && value.is_scored() && compares_by_rank(is_less);
        let mut parent = self.first;
        let mut right: Option<CartNodeKey> = None;
        let ghost mut pi: int = if n > 0 { 0 } else { -1 };
        assert forall|j: int| 0 <= j < n implies is_less.requires(
            (&value, &#[trigger] values_of(ks, m0)[j]),
        ) by {
            assert(self.view_in(*nodes)[j] == values_of(ks, m0)[j]);
        }
        let ghost mut ri: int = -1;
        proof {
            if n > 0 {
                assert(node_ok(s, n, 0));
            }
        }
        loop
            invariant
                node_map(*nodes) == m0,
                self.wf(*nodes),
                ks == self.keys@,
                s == self.shape@,
                n == ks.len(),
                r == ranks_of(ks, m0),
                st == self.stamps@,
                shape_ok(s, n),
                ks.no_duplicates(),
                ord == (self.ordered(*nodes) && value.is_scored() && compares_by_rank(is_less)),
                forall|j: int|
                    0 <= j < n ==> is_less.requires((&value, &#[trigger] values_of(ks, m0)[j])),
                front_slot(s, n, pi, ri),
                parent == key_at(ks, pi),
                right == key_at(ks, ri),
                ord ==> forall|j: int| 0 <= j < front_end(n, pi) ==> value.rank() < #[trigger] r[j],
            ensures
                front_slot(s, n, pi, ri),
                parent == key_at(ks, pi),
                right == key_at(ks, ri),
                ord ==> forall|j: int| 0 <= j < front_end(n, pi) ==> value.rank() < #[trigger] r[j],
                ord && pi != -1 ==> r[pi] <= value.rank(),
            decreases (if pi == -1 { 0 } else { n - pi }),
        {
            match parent {
                None => {
                    break ;
                },
                Some(pk) => {
                    assert(link_holds(ks, s, m0, pi));
                    let pnode = nodes.get(pk).unwrap();
                    assert(r[pi] == pnode.value.rank());
                    assert(values_of(ks, m0)[pi] == pnode.value);
                    if !is_less(&value, &pnode.value) {
                        break ;
                    }
                    right = parent;
                    parent = pnode.parent;
                    proof {
                        reveal(link_ok);
                        assert(node_ok(s, n, pi));
                        let p = s.par[pi];
                        if p != -1 {
                            assert(node_ok(s, n, p));
                        }
                        if ord {
                            assert forall|j: int| 0 <= j < front_end(n, p) implies value.rank() < #[trigger] r[j] by {
                                if j > pi {
                                    assert(s.lo[pi] <= j < s.hi[pi]);
                                    assert(lex_le(zip_keys(r, st)[pi], zip_keys(r, st)[j]));
                                }
                            }
                        }
                        ri = pi;
                        pi = p;
                    }
                },
            }
        }
        proof {
            lemma_push_front_shape(s, n, pi, ri);
            if pi == -1 && n > 0 {
                assert(node_ok(s, n, ri));
                assert(ri == s.rt);
            }
            lemma_next_stamp(st);
            if ord {
                let zk = zip_keys(r, st);
                if pi != -1 {
                    assert(st[pi] < tv);
                }
                assert((seq![tv] + st).no_duplicates()) by {
                    let ss = seq![tv] + st;
                    assert forall|x: int, y: int| 0 <= x < y < ss.len() implies ss[x] != ss[y] by {
                        if ss.len() - 1 == y || x == 0 {
                        }
                    }
                }
                lemma_push_front_heap(s, n, pi, ri, zk, (value.rank(), tv));
                assert(zip_keys(seq![value.rank()] + r, seq![tv] + st) =~= seq![(value.rank(), tv)] + zk);
                if n > 0 {
                    assert(node_ok(s, n, s.rt));
                    if pi != -1 {
                        assert(s.lo[s.rt] <= pi < s.hi[s.rt]);
                        assert(lex_le(zip_keys(r, st)[s.rt], zip_keys(r, st)[pi]));
                    }
                    assert(values_of(ks, m0)[s.rt].rank() == r[s.rt]);
                }
            }
        }
        let ghost t = push_front_shape(s, n, pi, ri);
        let node = nodes.insert(
            CartNode { value, left: None, right, parent, prev: None, next: self.first },
        );
        if let Some(k) = right {
            assert(link_holds(ks, s, m0, ri));
            set_parent(nodes, k, Some(node));
        }
        let root = match parent {
            Some(k) => {
                assert(link_holds(ks, s, m0, pi));
                set_left(nodes, k, Some(node));
                self.root
            },
            None => Some(node),
        };
        let last = match self.first {
            Some(k) => {
                assert(link_holds(ks, s, m0, 0));
                set_prev(nodes, k, Some(node));
                self.last
            },
            None => Some(node),
        };
        let ghost ks2 = seq![node] + ks;
        let ghost m4 = node_map(*nodes);
        proof {
            assert(ks2.no_duplicates()) by {
                assert forall|i: int, j: int| 0 <= i < j < ks2.len() implies ks2[i] != ks2[j] by {
                    if i == 0 {
                        assert(link_holds(ks, s, m0, j - 1));
                    }
                }
            }
            assert forall|k: int| 0 <= k < ks2.len() implies #[trigger] link_holds(ks2, t, m4, k) by {
                lemma_push_front_link_at(ks, s, m0, m4, pi, ri, node, value, k);
            }
            assert forall|k: int| 0 < k < ks2.len() implies m4[#[trigger] ks2[k]].value == m0[ks[k - 1]].value by {
                lemma_push_front_link_at(ks, s, m0, m4, pi, ri, node, value, k);
            }
            lemma_push_front_link_at(ks, s, m0, m4, pi, ri, node, value, 0);
            assert(ranks_of(ks2, m4) =~= seq![value.rank()] + r);
            if ord {
                assert forall|k: int| 0 <= k < ks2.len() implies (#[trigger] m4[ks2[k]]).value.is_scored() by {
                    lemma_push_front_link_at(ks, s, m0, m4, pi, ri, node, value, k);
                    if k > 0 {
                        assert(m0[ks[k - 1]].value.is_scored());
                    }
                }
            }
            assert(values_of(ks2, m4) =~= seq![value] + values_of(ks, m0));
            assert(m4.dom() =~= m0.dom().insert(node)) by {
                if ri != -1 {
                    assert(link_holds(ks, s, m0, ri));
                }
                if pi != -1 {
                    assert(link_holds(ks, s, m0, pi));
                }
                if n > 0 {
                    assert(link_holds(ks, s, m0, 0));
                }
            }
            assert(ks2.drop_first() =~= ks);
            assert(node_ok(t, n + 1, t.rt));
            assert(node_ok(t, n + 1, 0));
            if n > 0 {
                assert(node_ok(t, n + 1, n));
            }
        }
        *self = CartTree { root, first: Some(node), last, keys: Ghost(ks2), shape: Ghost(t), stamps: Ghost(seq![tv] + st) };
    }

    /// Takes the root out of the tree and returns the trees of the spans
    /// before and after it, with the root's span between them.
    #[verifier::rlimit(40)]
    #[verifier::spinoff_prover]
    pub fn split_min(self, nodes: &mut CartNodes) -> (r: Option<(CartTree, MinChunk, CartTree)>)
        requires
            self.wf(*old(nodes)),
        ensures
            self.view_in(*old(nodes)).len() == 0 ==> r is None && *final(nodes) == *old(nodes),
            self.view_in(*old(nodes)).len() > 0 ==> (r matches Some((left, value, right)) && {
                let rp = self.root_pos();
                let before = self.view_in(*old(nodes));
                &&& 0 <= rp < before.len()
                &&& value == before[rp]
                &&& self.ordered(*old(nodes)) ==> forall|j: int|
                    0 <= j < before.len() ==> value.rank() <= #[trigger] before[j].rank()
                &&& left.wf(*final(nodes))
                &&& right.wf(*final(nodes))
                &&& self.ordered(*old(nodes)) ==> left.ordered(*final(nodes)) && right.ordered(
                    *final(nodes),
                )
                &&& left.view_in(*final(nodes)) == before.subrange(0, rp)
                &&& right.view_in(*final(nodes)) == before.subrange(rp + 1, before.len() as int)
                &&& left.key_seq() == self.key_seq().subrange(0, rp)
                &&& left.stamps() == self.stamps().subrange(0, rp)
                &&& right.stamps() == self.stamps().subrange(rp + 1, before.len() as int)
                &&& self.ordered(*old(nodes)) ==> forall|j: int|
                    0 <= j < before.len() && j != rp ==> (value.rank() < #[trigger] before[j].rank() || (
                    value.rank() == before[j].rank() && self.stamps()[rp] < self.stamps()[j]))
                &&& right.key_seq() == self.key_seq().subrange(rp + 1, before.len() as int)
                &&& forall|k| #[trigger] left.key_seq().contains(k) ==> !right.key_seq().contains(k)
                &&& node_map(*final(nodes)).dom() == node_map(*old(nodes)).dom().remove(
                    self.key_seq()[rp],
                )
                &&& node_map(*final(nodes)).dom().len() == node_map(*old(nodes)).dom().len() - 1
            }),
            unchanged_outside(node_map(*old(nodes)), node_map(*final(nodes)), self.key_seq()),
    {
        proof {
            use_type_invariant(&self);
        }
        let ghost m0 = node_map(*nodes);
        let ghost ks = self.keys@;
        let ghost s = self.shape@;
        let ghost n = ks.len() as int;
        let ghost ord = self.ordered(*nodes);
        let ghost st = self.stamps@;
        let root = match self.root {
            None => {
                return None;
            },
            Some(k) => k,
        };
        let ghost rt = s.rt;
        let ghost c = s.lc[rt];
        let ghost d = s.rc[rt];
        proof {
            reveal(link_ok);
            assert(link_holds(ks, s, m0, rt));
            assert(node_ok(s, n, rt));
            if c != -1 {
                assert(node_ok(s, n, c));
                assert(link_holds(ks, s, m0, c));
            }
            if d != -1 {
                assert(node_ok(s, n, d));
                assert(link_holds(ks, s, m0, d));
            }
            if rt > 0 {
                assert(link_holds(ks, s, m0, rt - 1));
            }
            if rt + 1 < n {
                assert(link_holds(ks, s, m0, rt + 1));
            }
            lemma_sub_shape(s, n, rt, zip_keys(ranks_of(ks, m0), st));
        }
        let m = match nodes.remove(root) {
            None => {
                return None;
            },
            Some(m) => m,
        };
        let ghost ksl = ks.subrange(0, rt);
        let ghost ksr = ks.subrange(rt + 1, n);
        let ghost tl = if c != -1 { sub_shape(s, 0, rt, c) } else { empty_shape() };
        let ghost tr = if d != -1 { sub_shape(s, rt + 1, n, d) } else { empty_shape() };
        proof {
            lemma_empty_shape();
            let r0 = ranks_of(ks, m0);
            if c != -1 {
                lemma_sub_shape(s, n, c, zip_keys(r0, st));
                assert(node_ok(tl, rt, tl.rt));
            }
            if d != -1 {
                lemma_sub_shape(s, n, d, zip_keys(r0, st));
                assert(node_ok(tr, n - rt - 1, tr.rt));
            }
            assert(ksl.no_duplicates()) by {
                assert forall|i: int, j: int| 0 <= i < j < ksl.len() implies ksl[i] != ksl[j] by {
                    assert(ks[i] != ks[j]);
                }
            }
            assert(ksr.no_duplicates()) by {
                assert forall|i: int, j: int| 0 <= i < j < ksr.len() implies ksr[i] != ksr[j] by {
                    assert(ks[i + rt + 1] != ks[j + rt + 1]);
                }
            }
        }
        let left = if m.left.is_none() {
            CartTree::default()
        } else {
            CartTree { root: m.left, first: self.first, last: m.prev, keys: Ghost(ksl), shape: Ghost(tl), stamps: Ghost(st.subrange(0, rt)) }
        };
        let right = if m.right.is_none() {
            CartTree::default()
        } else {
            CartTree { root: m.right, first: m.next, last: self.last, keys: Ghost(ksr), shape: Ghost(tr), stamps: Ghost(st.subrange(rt + 1, n)) }
        };
        let ghost m1 = node_map(*nodes);
        if let Some(k) = m.prev {
            set_next(nodes, k, None);
        }
        if let Some(k) = m.next {
            set_prev(nodes, k, None);
        }
        if let Some(k) = m.left {
            set_parent(nodes, k, None);
        }
        if let Some(k) = m.right {
            set_parent(nodes, k, None);
        }
        let ghost m5 = node_map(*nodes);
        proof {
            assert(m5 == split_map(ks, s, m0)) by {
                reveal(split_map);
            }
            lemma_split_map_dom(ks, s, m0);
            let r0 = ranks_of(ks, m0);
            if c != -1 {
                assert forall|j: int| 0 <= j < ksl.len() implies #[trigger] link_holds(ksl, tl, m5, j) by {
                    lemma_split_link_at(ks, s, m0, 0, rt, c, j);
                }
                assert forall|j: int| 0 <= j < ksl.len() implies m5[#[trigger] ksl[j]].value == m0[ks[j]].value by {
                    lemma_split_link_at(ks, s, m0, 0, rt, c, j);
                }
            }
            if d != -1 {
                assert forall|j: int| 0 <= j < ksr.len() implies #[trigger] link_holds(ksr, tr, m5, j) by {
                    lemma_split_link_at(ks, s, m0, rt + 1, n, d, j + rt + 1);
                }
                assert forall|j: int| 0 <= j < ksr.len() implies m5[#[trigger] ksr[j]].value == m0[ks[j + rt + 1]].value by {
                    lemma_split_link_at(ks, s, m0, rt + 1, n, d, j + rt + 1);
                }
            }
            assert(left.key_seq() =~= ksl);
            assert(right.key_seq() =~= ksr);
            assert(left.stamps() =~= st.subrange(0, rt));
            assert(right.stamps() =~= st.subrange(rt + 1, n));
            assert forall|k| #[trigger] left.key_seq().contains(k) implies !right.key_seq().contains(k) by {
                if right.key_seq().contains(k) {
                    let i = choose|i: int| 0 <= i < ksl.len() && ksl[i] == k;
                    let j = choose|j: int| 0 <= j < ksr.len() && ksr[j] == k;
                    assert(ks[i] == ks[j + rt + 1]);
                }
            }
            assert(ranks_of(ksl, m5) =~= r0.subrange(0, rt));
            assert(ranks_of(ksr, m5) =~= r0.subrange(rt + 1, n));
            assert(zip_keys(ranks_of(ksl, m5), st.subrange(0, rt)) =~= zip_keys(r0, st).subrange(0, rt));
            assert(zip_keys(ranks_of(ksr, m5), st.subrange(rt + 1, n)) =~= zip_keys(r0, st).subrange(rt + 1, n));
            if st.no_duplicates() {
                let sl = st.subrange(0, rt);
                assert forall|x: int, y: int| 0 <= x < y < sl.len() implies #[trigger] sl[x] != #[trigger] sl[y] by {
                    assert(st[x] != st[y]);
                }
                let sr = st.subrange(rt + 1, n);
                assert forall|x: int, y: int| 0 <= x < y < sr.len() implies #[trigger] sr[x] != #[trigger] sr[y] by {
                    assert(st[x + rt + 1] != st[y + rt + 1]);
                }
            }
            assert(values_of(ksl, m5) =~= values_of(ks, m0).subrange(0, rt));
            assert(values_of(ksr, m5) =~= values_of(ks, m0).subrange(rt + 1, n));
            if ord {
                assert forall|j: int| 0 <= j < n implies m.value.rank() <= #[trigger] values_of(ks, m0)[j].rank() by {
                    assert(s.lo[rt] <= j < s.hi[rt]);
                    assert(lex_le(zip_keys(r0, st)[rt], zip_keys(r0, st)[j]));
                }
                assert forall|j: int| 0 <= j < n && j != rt implies (m.value.rank()
                    < #[trigger] values_of(ks, m0)[j].rank() || (m.value.rank() == values_of(ks, m0)[j].rank()
                    && st[rt] < st[j])) by {
                    assert(s.lo[rt] <= j < s.hi[rt]);
                    assert(lex_le(zip_keys(r0, st)[rt], zip_keys(r0, st)[j]));
                    assert(st[rt] != st[j]);
                }
                if c != -1 {
                    assert forall|j: int| 0 <= j < ksl.len() implies (#[trigger] m5[ksl[j]]).value.is_scored() by {
                        lemma_split_link_at(ks, s, m0, 0, rt, c, j);
                        assert(m0[ks[j]].value.is_scored());
                    }
                }
                if d != -1 {
                    assert forall|j: int| 0 <= j < ksr.len() implies (#[trigger] m5[ksr[j]]).value.is_scored() by {
                        lemma_split_link_at(ks, s, m0, rt + 1, n, d, j + rt + 1);
                        assert(m0[ks[j + rt + 1]].value.is_scored());
                    }
                }
            }
        }
        Some((left, m.value, right))
    }

    /// The span at the root: one of lowest rank.
    pub fn min<'a>(&self, nodes: &'a CartNodes) -> (r: Option<&'a MinChunk>)
        requires
            self.wf(*nodes),
        ensures
            (r is Some) == (self.view_in(*nodes).len() > 0),
            r matches Some(v) ==> {
                let vals = self.view_in(*nodes);
                &&& 0 <= self.root_pos() < vals.len()
                &&& *v == vals[self.root_pos()]
                &&& self.ordered(*nodes) ==> forall|j: int|
                    0 <= j < vals.len() ==> v.rank() <= #[trigger] vals[j].rank()
            },
    {
        proof {
            use_type_invariant(self);
        }
        let ghost m0 = node_map(*nodes);
        let ghost ks = self.keys@;
        let ghost s = self.shape@;
        let ghost n = ks.len() as int;
        match self.root {
            None => None,
            Some(k) => {
                proof {
                    assert(link_holds(ks, s, m0, s.rt));
                    assert(node_ok(s, n, s.rt));
                    let r0 = ranks_of(ks, m0);
                    if self.ordered(*nodes) {
                        assert forall|j: int| 0 <= j < n implies m0[ks[s.rt]].value.rank() <= #[trigger] values_of(ks, m0)[j].rank() by {
                            assert(s.lo[s.rt] <= j < s.hi[s.rt]);
                            assert(lex_le(zip_keys(r0, self.stamps@)[s.rt], zip_keys(r0, self.stamps@)[j]));
                        }
                    }
                }
                match nodes.get(k) {
                    Some(node) => Some(&node.value),
                    None => None,
                }
            },
        }
    }

    /// The first span of the sequence.
    pub fn first<'a>(&self, nodes: &'a CartNodes) -> (r: Option<&'a MinChunk>)
        requires
            self.wf(*nodes),
        ensures
            (r is Some) == (self.view_in(*nodes).len() > 0),
            r matches Some(v) ==> *v == self.view_in(*nodes)[0],
    {
        proof {
            use_type_invariant(self);
        }
        match self.first {
            None => None,
            Some(k) => {
                proof {
                    assert(link_holds(self.keys@, self.shape@, node_map(*nodes), 0));
                }
                match nodes.get(k) {
                    Some(node) => Some(&node.value),
                    None => None,
                }
            },
        }
    }

    /// The last span of the sequence.
    pub fn last<'a>(&self, nodes: &'a CartNodes) -> (r: Option<&'a MinChunk>)
        requires
            self.wf(*nodes),
        ensures
            (r is Some) == (self.view_in(*nodes).len() > 0),
            r matches Some(v) ==> *v == self.view_in(*nodes).last(),
    {
        proof {
            use_type_invariant(self);
        }
        match self.last {
            None => None,
            Some(k) => {
                proof {
                    assert(link_holds(
                        self.keys@,
                        self.shape@,
                        node_map(*nodes),
                        self.keys@.len() - 1,
                    ));
                }
                match nodes.get(k) {
                    Some(node) => Some(&node.value),
                    None => None,
                }
            },
        }
    }

    /// The number of spans, counted along the sequence.
    pub fn len(&self, nodes: &CartNodes) -> (l: usize)
        requires
            self.wf(*nodes),
        ensures
            l == self.view_in(*nodes).len(),
            self.key_seq().no_duplicates(),
            node_map(*nodes).dom() == self.key_seq().to_set() ==> l == node_map(*nodes).dom().len(),
    {
        proof {
            use_type_invariant(self);
        }
        let ghost m0 = node_map(*nodes);
        let ghost ks = self.keys@;
        let ghost s = self.shape@;
        let ghost n = ks.len() as int;
        proof {
            ks.unique_seq_to_set();
            assert(ks.to_set().subset_of(m0.dom())) by {
                assert forall|k: CartNodeKey| ks.to_set().contains(k) implies m0.dom().contains(k) by {
                    let i = choose|i: int| 0 <= i < ks.len() && ks[i] == k;
                    assert(link_holds(ks, s, m0, i));
                }
            }
            vstd::set_lib::lemma_len_subset(ks.to_set(), m0.dom());
        }
        let mut cur = self.first;
        let mut l: usize = 0;
        loop
            invariant
                m0 == node_map(*nodes),
                self.wf(*nodes),
                ks == self.keys@,
                s == self.shape@,
                n == ks.len(),
                n < u32::MAX,
                0 <= l <= n,
                cur == key_at(ks, l as int),
            ensures
                l == n,
            decreases n - l,
        {
            match cur {
                None => {
                    break ;
                },
                Some(k) => {
                    proof {
                        assert(link_holds(ks, s, m0, l as int));
                        reveal(link_ok);
                    }
                    match nodes.get(k) {
                        None => {
                            break ;
                        },
                        Some(node) => {
                            cur = node.next;
                            l += 1;
                        },
                    }
                },
            }
        }
        l
    }
}

/// A map that holds a tree holds each of its keys, which are all distinct,
/// and is finite and short of `u32::MAX` entries.
pub proof fn lemma_wf_keys(t: CartTree, nodes: CartNodes)
    requires
        t.wf(nodes),
    ensures
        t.key_seq().no_duplicates(),
        t.stamps().len() == t.key_seq().len(),
        forall|k| #[trigger] t.key_seq().contains(k) ==> node_map(nodes).contains_key(k),
        node_map(nodes).dom().finite(),
        node_map(nodes).dom().len() < u32::MAX,
{
    assert forall|k| #[trigger] t.key_seq().contains(k) implies node_map(nodes).contains_key(k) by {
        let i = choose|i: int| 0 <= i < t.key_seq().len() && t.key_seq()[i] == k;
        assert(link_holds(t.keys@, t.shape@, node_map(nodes), i));
    }
}

/// The tree holds as many spans as it has keys.
pub proof fn lemma_view_len(t: CartTree, nodes: CartNodes)
    ensures
        t.view_in(nodes).len() == t.key_seq().len(),
{
}

/// A tree that one map holds is held the same way by any map that keeps
/// its nodes: operations on other trees sharing the map leave it intact.
pub proof fn lemma_wf_frame(t: CartTree, a: CartNodes, b: CartNodes)
    requires
        t.wf(a),
        node_map(b).dom().finite(),
        node_map(b).dom().len() < u32::MAX,
        forall|k: CartNodeKey|
            t.key_seq().contains(k) ==> #[trigger] node_map(b).contains_key(k) && node_map(b)[k]
                == node_map(a)[k],
    ensures
        t.wf(b),
        t.view_in(b) == t.view_in(a),
        t.ordered(b) == t.ordered(a),
{
    let ks = t.keys@;
    let ma = node_map(a);
    let mb = node_map(b);
    assert forall|i: int| 0 <= i < ks.len() implies #[trigger] link_holds(ks, t.shape@, mb, i) by {
        assert(link_holds(ks, t.shape@, ma, i));
        assert(ks.contains(ks[i]));
    }
    assert forall|i: int| 0 <= i < ks.len() implies mb[#[trigger] ks[i]] == ma[ks[i]] by {
        assert(ks.contains(ks[i]));
        assert(mb.contains_key(ks[i]));
    }
    assert(ranks_of(ks, mb) =~= ranks_of(ks, ma));
    assert(values_of(ks, mb) =~= values_of(ks, ma));
}

} // verus!

verus! {

/// The root of a tree holds a span of lowest rank: no span of the tree ranks
/// below it.
pub proof fn law_root_is_minimum(t: CartTree, nodes: CartNodes)
    requires
        t.wf(nodes),
        t.ordered(nodes),
        t.view_in(nodes).len() > 0,
    ensures
        0 <= t.root_pos() < t.view_in(nodes).len(),
        forall|j: int|
            0 <= j < t.view_in(nodes).len() ==> t.view_in(nodes)[t.root_pos()].rank()
                <= #[trigger] t.view_in(nodes)[j].rank(),
{
    let ks = t.keys@;
    let s = t.shape@;
    let m = node_map(nodes);
    let n = ks.len() as int;
    let r = ranks_of(ks, m);
    assert(node_ok(s, n, s.rt));
    assert forall|j: int| 0 <= j < n implies values_of(ks, m)[s.rt].rank() <= #[trigger] values_of(ks, m)[j].rank() by {
        assert(s.lo[s.rt] <= j < s.hi[s.rt]);
        assert(lex_le(zip_keys(r, t.stamps@)[s.rt], zip_keys(r, t.stamps@)[j]));
    }
}

/// Two ordered trees with the same keys, stamps and spans are linked alike:
/// their maps hold the same node under each of their keys.
proof fn lemma_same_nodes(t0: CartTree, n0: CartNodes, t2: CartTree, n2: CartNodes)
    requires
        t0.wf(n0),
        t2.wf(n2),
        t0.ordered(n0),
        t2.ordered(n2),
        t0.key_seq() == t2.key_seq(),
        t0.stamps() == t2.stamps(),
        t0.view_in(n0) == t2.view_in(n2),
    ensures
        forall|k: CartNodeKey|
            #[trigger] t0.key_seq().contains(k) ==> node_map(n0).contains_key(k) && node_map(n2).contains_key(k)
                && node_map(n0)[k] == node_map(n2)[k],
{
    let ks = t0.keys@;
    let n = ks.len() as int;
    let m0 = node_map(n0);
    let m2 = node_map(n2);
    assert(ranks_of(ks, m0) =~= ranks_of(ks, m2)) by {
        assert forall|i: int| 0 <= i < n implies #[trigger] ranks_of(ks, m0)[i] == ranks_of(ks, m2)[i] by {
            assert(link_holds(ks, t0.shape@, m0, i));
            assert(link_holds(ks, t2.shape@, m2, i));
            assert(t2.key_seq() == ks);
            assert(values_of(ks, m0)[i] == m0[ks[i]].span());
            assert(values_of(ks, m2)[i] == m2[ks[i]].span());
            assert(m0[ks[i]].span() == m2[ks[i]].span());
        }
    }
    let r = zip_keys(ranks_of(ks, m0), t0.stamps@);
    assert(zip_keys(ranks_of(ks, m2), t2.stamps@) == r);
    assert forall|i: int, j: int| 0 <= i < n && 0 <= j < n && i != j implies #[trigger] r[i] != #[trigger] r[j] by {
        assert(t0.stamps@[i] != t0.stamps@[j]);
    }
    lemma_shape_unique(t0.shape@, t2.shape@, n, r);
    assert forall|k: CartNodeKey| #[trigger] t0.key_seq().contains(k) implies node_map(n0).contains_key(k) && node_map(n2).contains_key(k)
        && node_map(n0)[k] == node_map(n2)[k] by {
        let i = choose|i: int| 0 <= i < n && ks[i] == k;
        assert(link_holds(ks, t0.shape@, m0, i));
        assert(link_holds(ks, t2.shape@, m2, i));
        assert(t2.key_seq() == ks);
        assert(values_of(ks, m0)[i] == m0[ks[i]].span());
        assert(values_of(ks, m2)[i] == m2[ks[i]].span());
        assert(m0[ks[i]].span() == m2[ks[i]].span());
        assert(link_ok(ks, t0.shape@, m0[k], i));
        assert(link_ok(ks, t0.shape@, m2[k], i));
    }
}

/// Appending a span at the back and then taking the last span off gives that
/// span back and leaves the tree's sequence, its root, its keys, its stamps
/// and the whole map, every node with its links, as they were.  The premises
/// are what `push_back` (on an ordered tree, with a scored span and the rank
/// comparison) and then `pop_back` ensure of the states they leave.
pub proof fn law_push_back_pop_back(
    t0: CartTree,
    n0: CartNodes,
    v: MinChunk,
    t1: CartTree,
    n1: CartNodes,
    r: Option<MinChunk>,
    t2: CartTree,
    n2: CartNodes,
)
    requires
        t1.view_in(n1) == t0.view_in(n0).push(v),
        t1.key_seq().drop_last() == t0.key_seq(),
        !node_map(n0).contains_key(t1.key_seq().last()),
        node_map(n1).dom() == node_map(n0).dom().insert(t1.key_seq().last()),
        t1.view_in(n1).len() > 0 ==> {
            &&& r == Some(t1.view_in(n1).last())
            &&& t2.view_in(n2) == t1.view_in(n1).drop_last()
            &&& t2.key_seq() == t1.key_seq().drop_last()
            &&& node_map(n2).dom() == node_map(n1).dom().remove(t1.key_seq().last())
            &&& t1.root_pos() != t1.key_seq().len() - 1 ==> t2.root_pos() == t1.root_pos()
            &&& t1.root_pos() == t1.key_seq().len() - 1 && t1.root_left() != -1 ==> t2.root_pos()
                == t1.root_left()
            &&& t2.stamps() == t1.stamps().drop_last()
        },
        t1.stamps() == t0.stamps().push(next_stamp(t0.stamps())),
        unchanged_outside(node_map(n0), node_map(n1), t0.key_seq()),
        unchanged_outside(node_map(n1), node_map(n2), t1.key_seq()),
        t0.wf(n0),
        t0.ordered(n0),
        t2.wf(n2),
        t2.ordered(n2),
        t1.root_pos() == if t0.view_in(n0).len() == 0 || v.rank() < t0.view_in(n0)[t0.root_pos()].rank() {
            t0.view_in(n0).len() as int
        } else {
            t0.root_pos()
        },
        t1.root_pos() == t0.view_in(n0).len() ==> t1.root_left() == t0.root_pos(),
    ensures
        r == Some(v),
        t2.view_in(n2) == t0.view_in(n0),
        t2.key_seq() == t0.key_seq(),
        node_map(n2).dom() == node_map(n0).dom(),
        t0.view_in(n0).len() > 0 ==> t2.root_pos() == t0.root_pos(),
        t2.stamps() == t0.stamps(),
        node_map(n2) == node_map(n0),
{
    if t0.keys@.len() > 0 {
        assert(node_ok(t0.shape@, t0.keys@.len() as int, t0.shape@.rt));
    }
    assert(t0.view_in(n0).push(v).drop_last() =~= t0.view_in(n0));
    assert(node_map(n0).dom().insert(t1.key_seq().last()).remove(t1.key_seq().last()) =~= node_map(
        n0,
    ).dom());
    assert(t0.stamps().push(next_stamp(t0.stamps())).drop_last() =~= t0.stamps());
    lemma_same_nodes(t0, n0, t2, n2);
    let new_key = t1.key_seq().last();
    assert(t1.key_seq() =~= t0.key_seq().push(new_key));
    assert forall|k: CartNodeKey| #[trigger] node_map(n0).contains_key(k) implies node_map(n2)[k]
        == node_map(n0)[k] by {
        if !t0.key_seq().contains(k) {
            assert(!t1.key_seq().contains(k));
        }
    }
    assert(node_map(n2) =~= node_map(n0));
}

/// `i` is the earliest position of lowest rank in `v`.
pub open spec fn earliest_lowest(v: Seq<MinChunk>, i: int) -> bool {
    &&& 0 <= i < v.len()
    &&& forall|j: int| 0 <= j < v.len() ==> v[i].rank() <= #[trigger] v[j].rank()
    &&& forall|j: int| 0 <= j < i ==> v[i].rank() < #[trigger] v[j].rank()
}

/// Appending keeps the earliest span of lowest rank at the root: when the
/// root of the tree is its earliest lowest span, it still is once `push_back`
/// (on an ordered tree, with a scored span and the rank comparison) has
/// appended a span.  The premises are what `push_back` ensures.
pub proof fn law_push_back_keeps_earliest_root(
    t0: CartTree,
    n0: CartNodes,
    v: MinChunk,
    t1: CartTree,
    n1: CartNodes,
)
    requires
        t0.view_in(n0).len() > 0 ==> earliest_lowest(t0.view_in(n0), t0.root_pos()),
        t1.view_in(n1) == t0.view_in(n0).push(v),
        t1.root_pos() == if t0.view_in(n0).len() == 0 || v.rank() < t0.view_in(n0)[t0.root_pos()].rank() {
            t0.view_in(n0).len() as int
        } else {
            t0.root_pos()
        },
    ensures
        earliest_lowest(t1.view_in(n1), t1.root_pos()),
{
    let a = t0.view_in(n0);
    let b = t1.view_in(n1);
    let n = a.len() as int;
    assert forall|j: int| 0 <= j < n implies #[trigger] b[j] == a[j] by {}
    assert(b[n] == v);
}

/// Prepending a span at the front and then taking the first span off gives
/// that span back and leaves the tree's sequence, its root, its keys, its
/// stamps and the whole map, every node with its links, as they were.  The
/// premises are what `push_front` (on an ordered tree, with a scored span and
/// the rank comparison) and then `pop_front` ensure of the states they leave.
pub proof fn law_push_front_pop_front(
    t0: CartTree,
    n0: CartNodes,
    v: MinChunk,
    t1: CartTree,
    n1: CartNodes,
    r: Option<MinChunk>,
    t2: CartTree,
    n2: CartNodes,
)
    requires
        t1.view_in(n1) == seq![v] + t0.view_in(n0),
        t1.key_seq().drop_first() == t0.key_seq(),
        !node_map(n0).contains_key(t1.key_seq()[0]),
        node_map(n1).dom() == node_map(n0).dom().insert(t1.key_seq()[0]),
        t1.view_in(n1).len() > 0 ==> {
            &&& r == Some(t1.view_in(n1)[0])
            &&& t2.view_in(n2) == t1.view_in(n1).drop_first()
            &&& t2.key_seq() == t1.key_seq().drop_first()
            &&& node_map(n2).dom() == node_map(n1).dom().remove(t1.key_seq()[0])
            &&& t1.root_pos() != 0 ==> t2.root_pos() == t1.root_pos() - 1
            &&& t1.root_pos() == 0 && t1.root_right() != -1 ==> t2.root_pos() == t1.root_right() - 1
            &&& t2.stamps() == t1.stamps().drop_first()
        },
        t1.stamps() == seq![next_stamp(t0.stamps())] + t0.stamps(),
        unchanged_outside(node_map(n0), node_map(n1), t0.key_seq()),
        unchanged_outside(node_map(n1), node_map(n2), t1.key_seq()),
        t0.wf(n0),
        t0.ordered(n0),
        t2.wf(n2),
        t2.ordered(n2),
        t1.root_pos() == if t0.view_in(n0).len() == 0 || v.rank() < t0.view_in(n0)[t0.root_pos()].rank() {
            0
        } else {
            t0.root_pos() + 1
        },
        t1.root_pos() == 0 ==> t1.root_right() == if t0.view_in(n0).len() == 0 {
            -1
        } else {
            t0.root_pos() + 1
        },
    ensures
        r == Some(v),
        t2.view_in(n2) == t0.view_in(n0),
        t2.key_seq() == t0.key_seq(),
        node_map(n2).dom() == node_map(n0).dom(),
        t0.view_in(n0).len() > 0 ==> t2.root_pos() == t0.root_pos(),
        t2.stamps() == t0.stamps(),
        node_map(n2) == node_map(n0),
{
    if t0.keys@.len() > 0 {
        assert(node_ok(t0.shape@, t0.keys@.len() as int, t0.shape@.rt));
    }
    assert((seq![v] + t0.view_in(n0)).drop_first() =~= t0.view_in(n0));
    assert(node_map(n0).dom().insert(t1.key_seq()[0]).remove(t1.key_seq()[0]) =~= node_map(
        n0,
    ).dom());
    assert((seq![next_stamp(t0.stamps())] + t0.stamps()).drop_first() =~= t0.stamps());
    lemma_same_nodes(t0, n0, t2, n2);
    let new_key = t1.key_seq()[0];
    assert(t1.key_seq() =~= seq![new_key] + t0.key_seq());
    assert forall|k: CartNodeKey| #[trigger] node_map(n0).contains_key(k) implies node_map(n2)[k]
        == node_map(n0)[k] by {
        if !t0.key_seq().contains(k) {
            assert(!t1.key_seq().contains(k));
        }
    }
    assert(node_map(n2) =~= node_map(n0));
}

/// The spans before the root, the root's span and the spans after it make up
/// the tree's sequence again, and their keys make up its keys.  The premises
/// are what `split_min` ensures of the trees it returns.
pub proof fn law_split_rejoins(
    t: CartTree,
    n0: CartNodes,
    left: CartTree,
    v: MinChunk,
    right: CartTree,
    n1: CartNodes,
)
    requires
        0 <= t.root_pos() < t.view_in(n0).len(),
        v == t.view_in(n0)[t.root_pos()],
        left.view_in(n1) == t.view_in(n0).subrange(0, t.root_pos()),
        right.view_in(n1) == t.view_in(n0).subrange(t.root_pos() + 1, t.view_in(n0).len() as int),
        left.key_seq() == t.key_seq().subrange(0, t.root_pos()),
        right.key_seq() == t.key_seq().subrange(t.root_pos() + 1, t.key_seq().len() as int),
    ensures
        left.view_in(n1) + seq![v] + right.view_in(n1) == t.view_in(n0),
        left.key_seq() + seq![t.key_seq()[t.root_pos()]] + right.key_seq() == t.key_seq(),
{
    let s = t.view_in(n0);
    let rp = t.root_pos();
    assert(s.subrange(0, rp) + seq![s[rp]] + s.subrange(rp + 1, s.len() as int) =~= s);
    let ks = t.key_seq();
    assert(ks.len() == s.len());
    assert(ks.subrange(0, rp) + seq![ks[rp]] + ks.subrange(rp + 1, ks.len() as int) =~= ks);
}

} // verus!
