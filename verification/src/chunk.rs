//! A chunk of the input: a slice of it and where the slice starts.
use vstd::prelude::*;

verus! {

/// A slice of the input and the position where it starts.
pub struct Chunk<'a> {
    data: &'a [u8],
    offset: usize,
}

impl<'a> Chunk<'a> {
    /// The bytes of the chunk.
    pub closed spec fn bytes(self) -> Seq<u8> {
        self.data@
    }

    /// Where the chunk starts in the input.
    pub closed spec fn start(self) -> int {
        self.offset as int
    }

    /// Where the chunk ends in the input.
    pub open spec fn end(self) -> int {
        self.start() + self.bytes().len()
    }

    /// The chunk of bytes `data` that starts at `offset`.
    pub fn new(data: &'a [u8], offset: usize) -> (c: Self)
        ensures
            c.bytes() == data@,
            c.start() == offset,
    {
        Chunk { data, offset }
    }

    /// The bytes of the chunk.
    pub fn data(&self) -> (r: &'a [u8])
        ensures
            r@ == self.bytes(),
    {
        self.data
    }

    /// Where the chunk starts in the input.
    pub fn offset(&self) -> (r: usize)
        ensures
            r == self.start(),
    {
        self.offset
    }

    /// The number of bytes in the chunk.
    pub fn len(&self) -> (r: usize)
        ensures
            r == self.bytes().len(),
    {
        self.data.len()
    }
}

/// The chunks follow one another from `from` to `to`, and each holds the
/// bytes of `input` where it stands.
pub open spec fn tiles(cs: Seq<Chunk>, input: Seq<u8>, from: int, to: int) -> bool {
    &&& cs.len() == 0 ==> from == to
    &&& cs.len() > 0 ==> cs[0].start() == from && cs.last().end() == to
    &&& forall|i: int| 0 <= i < cs.len() - 1 ==> #[trigger] cs[i].end() == cs[i + 1].start()
    &&& forall|i: int|
        0 <= i < cs.len() ==> 0 <= (#[trigger] cs[i]).start() && cs[i].end() <= input.len()
            && cs[i].bytes() == input.subrange(cs[i].start(), cs[i].end())
}

/// The bytes of the chunks, one after the other.
pub open spec fn joined(cs: Seq<Chunk>) -> Seq<u8>
    decreases cs.len(),
{
    if cs.len() == 0 {
        Seq::empty()
    } else {
        cs[0].bytes() + joined(cs.drop_first())
    }
}

/// The chunks after the first tile the rest of the stretch.
proof fn lemma_tiles_rest(cs: Seq<Chunk>, input: Seq<u8>, from: int, to: int)
    requires
        tiles(cs, input, from, to),
        cs.len() > 0,
    ensures
        tiles(cs.drop_first(), input, cs[0].end(), to),
{
    let rest = cs.drop_first();
    assert forall|i: int| 0 <= i < rest.len() - 1 implies #[trigger] rest[i].end()
        == rest[i + 1].start() by {
        assert(cs[i + 1].end() == cs[i + 2].start());
    }
    assert forall|i: int| 0 <= i < rest.len() implies 0 <= (#[trigger] rest[i]).start()
        && rest[i].end() <= input.len() && rest[i].bytes() == input.subrange(
        rest[i].start(),
        rest[i].end(),
    ) by {
        assert(rest[i] == cs[i + 1]);
    }
    if cs.len() > 1 {
        assert(cs[0].end() == cs[1].start());
    }
}

/// Chunks that tile a stretch of the input give back exactly that stretch
/// when their bytes are put one after the other.
pub proof fn lemma_tiles_joined(cs: Seq<Chunk>, input: Seq<u8>, from: int, to: int)
    requires
        tiles(cs, input, from, to),
        0 <= from,
        to <= input.len(),
    ensures
        from <= to,
        joined(cs) == input.subrange(from, to),
    decreases cs.len(),
{
    if cs.len() == 0 {
        assert(input.subrange(from, to) =~= Seq::<u8>::empty());
    } else {
        let rest = cs.drop_first();
        let e0 = cs[0].end();
        lemma_tiles_rest(cs, input, from, to);
        assert(0 <= cs[0].start() && cs[0].end() <= input.len() && cs[0].bytes() == input.subrange(
            cs[0].start(),
            cs[0].end(),
        ));
        lemma_tiles_joined(rest, input, e0, to);
        assert(joined(cs) == cs[0].bytes() + joined(rest));
        assert(input.subrange(from, to) =~= input.subrange(from, e0) + input.subrange(e0, to));
    }
}

/// Tiles of two neighbouring stretches tile the two together.
pub proof fn lemma_tiles_append(a: Seq<Chunk>, b: Seq<Chunk>, input: Seq<u8>, x: int, y: int, z: int)
    requires
        tiles(a, input, x, y),
        tiles(b, input, y, z),
    ensures
        tiles(a + b, input, x, z),
{
    let c = a + b;
    assert forall|i: int| 0 <= i < c.len() - 1 implies #[trigger] c[i].end() == c[i + 1].start() by {
        if i < a.len() - 1 {
            assert(a[i].end() == a[i + 1].start());
        } else if i == a.len() - 1 {
        } else {
            let k = i - a.len();
            assert(b[k].end() == b[k + 1].start());
        }
    }
    assert forall|i: int| 0 <= i < c.len() implies 0 <= (#[trigger] c[i]).start() && c[i].end()
        <= input.len() && c[i].bytes() == input.subrange(c[i].start(), c[i].end()) by {
        if i < a.len() {
            assert(c[i] == a[i]);
        } else {
            assert(c[i] == b[i - a.len()]);
        }
    }
}

/// Non-empty chunks that tile an empty stretch are no chunks at all: once the
/// input is cut to its end, nothing more comes out.
pub proof fn law_nothing_left(cs: Seq<Chunk>, input: Seq<u8>, p: int)
    requires
        tiles(cs, input, p, p),
        forall|i: int| 0 <= i < cs.len() ==> 1 <= (#[trigger] cs[i]).bytes().len(),
    ensures
        cs.len() == 0,
{
    if cs.len() > 0 {
        assert forall|k: int| 0 <= k < cs.len() implies cs[k].start() >= p + k by {
            lemma_tiles_advance(cs, input, p, p, k);
        }
        assert(cs[cs.len() - 1].start() >= p + cs.len() - 1);
        assert(1 <= cs[cs.len() - 1].bytes().len());
    }
}

/// The `k`-th of non-empty tiling chunks starts at least `k` bytes in.
proof fn lemma_tiles_advance(cs: Seq<Chunk>, input: Seq<u8>, from: int, to: int, k: int)
    requires
        tiles(cs, input, from, to),
        forall|i: int| 0 <= i < cs.len() ==> 1 <= (#[trigger] cs[i]).bytes().len(),
        0 <= k < cs.len(),
    ensures
        cs[k].start() >= from + k,
    decreases k,
{
    if k > 0 {
        lemma_tiles_advance(cs, input, from, to, k - 1);
        assert(cs[k - 1].end() == cs[k].start());
        assert(1 <= cs[k - 1].bytes().len());
    }
}

} // verus!
