use mothcdc::chunk::Chunk;
use mothcdc::recursive::SliceRecMinCdcHash4;
use mothcdc::window::{argmin_hashed_windows, DEFAULT_ADDEND, DEFAULT_MULTIPLIER};

fn xorshift(seed: u64, n: usize) -> Vec<u8> {
    let mut s = seed | 1;
    let mut out = Vec::with_capacity(n);
    for _ in 0..n {
        s ^= s << 13;
        s ^= s >> 7;
        s ^= s << 17;
        out.push((s >> 33) as u8);
    }
    out
}

/// The chunks follow one another from `from` to the end of `data`, hold its
/// bytes, and keep within the size bounds.
fn check_chunks(chunks: &[Chunk], data: &[u8], from: usize, min: usize, max: usize) {
    let mut next = from;
    for c in chunks {
        assert_eq!(c.offset(), next);
        assert_eq!(c.len(), c.data().len());
        assert!(c.len() >= 1 && c.len() <= max);
        if chunks.len() > 1 {
            assert!(c.len() >= min);
        }
        assert_eq!(c.data(), &data[c.offset()..c.offset() + c.len()]);
        next += c.len();
    }
    assert_eq!(next, data.len());
    let mut joined = Vec::new();
    for c in chunks {
        joined.extend_from_slice(c.data());
    }
    assert_eq!(&joined[..], &data[from..]);
}

fn cut(data: &[u8], min: usize, max: usize, horizon: usize) -> Vec<(usize, usize)> {
    let mut chunker = SliceRecMinCdcHash4::new(data, min, max, horizon);
    let chunks = chunker.chunks();
    check_chunks(&chunks, data, 0, min, max);
    assert!(chunker.chunks().is_empty());
    chunks.iter().map(|c| (c.offset(), c.len())).collect()
}

#[test]
fn empty_input_gives_no_chunk() {
    let data: Vec<u8> = Vec::new();
    let mut chunker = SliceRecMinCdcHash4::new(&data, 4096, 12288, 12288);
    assert!(chunker.chunks().is_empty());
}

#[test]
fn short_input_is_one_chunk() {
    let data = xorshift(1, 100);
    assert_eq!(cut(&data, 4096, 12288, 12288), vec![(0, 100)]);
    let data = xorshift(2, 12288);
    assert_eq!(cut(&data, 4096, 12288, 12288), vec![(0, 12288)]);
}

#[test]
fn random_input_round_trips() {
    let data = xorshift(3, 1 << 20);
    let chunks = cut(&data, 4096, 12288, 12288);
    assert!(chunks.len() > 80);
}

#[test]
fn wide_horizon_cuts_recursively_and_round_trips() {
    let data = xorshift(4, 1 << 20);
    let chunks = cut(&data, 2048, 14336, 4 * 14336);
    assert!(chunks.len() > 70);
    let narrow = cut(&data, 4096, 12288, 65536);
    assert!(narrow.len() > 80);
}

#[test]
fn constant_and_periodic_inputs_round_trip() {
    cut(&vec![0u8; 300_000], 4096, 12288, 12288);
    cut(&vec![0xabu8; 300_000], 2048, 14336, 3 * 14336);
    let period = xorshift(9, 777);
    let mut periodic = Vec::new();
    while periodic.len() < 300_000 {
        periodic.extend_from_slice(&period);
    }
    cut(&periodic, 4096, 12288, 2 * 12288);
}

#[test]
fn the_same_content_gets_the_same_boundaries() {
    let data = xorshift(5, 400_000);
    let first = cut(&data, 4096, 12288, 12288);
    let again = cut(&data, 4096, 12288, 12288);
    assert_eq!(first, again);
    // Behind an unrelated prefix, most boundaries of the same content return.
    let mut shifted = xorshift(6, 5000);
    shifted.extend_from_slice(&data);
    let later: Vec<usize> = cut(&shifted, 4096, 12288, 12288)
        .iter()
        .map(|&(o, l)| o + l)
        .filter(|&e| e > 5000)
        .map(|e| e - 5000)
        .collect();
    let ends: Vec<usize> = first.iter().map(|&(o, l)| o + l).collect();
    let shared = ends.iter().filter(|e| later.contains(e)).count();
    assert!(shared * 2 > ends.len());
}

#[test]
fn cutting_resumes_where_it_stopped() {
    let data = xorshift(7, 100_000);
    let mut chunker = SliceRecMinCdcHash4::new(&data, 4096, 12288, 12288);
    let all = chunker.chunks();
    assert!(chunker.chunks().is_empty());
    let mut copy = SliceRecMinCdcHash4::new(&data, 4096, 12288, 12288);
    let again = copy.clone().chunks();
    assert_eq!(all.len(), again.len());
}

#[test]
fn first_cut_ends_the_lowest_window_of_the_best_span() {
    // With the horizon at `max`, the first round scans 1024-byte spans up to
    // `max` and keeps those between `min` and `max`; it cuts right after the
    // lowest window of the earliest lowest-scoring span.
    let (min, max) = (4096usize, 12288usize);
    for seed in 20..30u64 {
        let data = xorshift(seed, 60_000);
        let mut best: Option<(u32, usize)> = None;
        for b in (min / 1024)..(max / 1024) {
            let span = &data[b * 1024..(b + 1) * 1024];
            let (at, score) = argmin_hashed_windows(span, DEFAULT_MULTIPLIER, DEFAULT_ADDEND);
            if best.map_or(true, |(s, _)| score < s) {
                best = Some((score, b * 1024 + at + 4));
            }
        }
        let expected = best.unwrap().1;
        let chunks = cut(&data, min, max, max);
        assert_eq!(chunks[0], (0, expected));
    }
}

#[test]
fn tiny_sizes_on_inputs_of_one_chunk() {
    let data = [0u8; 12];
    let mut chunker = SliceRecMinCdcHash4::new(&data, 4, 12, 12);
    let chunks = chunker.chunks();
    assert_eq!(chunks.len(), 1);
    assert_eq!((chunks[0].offset(), chunks[0].data()), (0, &data[..]));
    let empty: [u8; 0] = [];
    let mut chunker = SliceRecMinCdcHash4::new(&empty, 4, 12, 12);
    assert!(chunker.chunks().is_empty());
}

#[test]
fn an_input_of_max_bytes_is_one_chunk() {
    let data = xorshift(31, 3000);
    assert_eq!(cut(&data, 1024, 3000, 3000), vec![(0, 3000)]);
}

#[test]
fn a_narrowed_front_span_loses_ties() {
    // On constant input every span scores the same.  The first round cuts
    // after the first window of its first span; in the second round the span
    // narrowed to start at `out + min` is the newest in the tree and loses
    // the tie to the next full span.
    let data = vec![0u8; 40_000];
    let chunks = cut(&data, 4096, 12288, 12288);
    assert_eq!(chunks[0], (0, 4100));
    assert_eq!(chunks[1], (4100, 5120));
}

#[test]
fn ties_on_constant_input_go_to_the_span_that_joined_first() {
    // The second round holds the span narrowed to start at 2052 and the
    // short span 3072 .. 3076 that the scan laid down before it was
    // narrowed; both score the same, and the older one wins.
    let data = vec![0u8; 6000];
    assert_eq!(
        cut(&data, 1024, 2048, 2048),
        vec![(0, 1028), (1028, 2048), (3076, 1028), (4104, 1896)]
    );
}

#[test]
fn small_sizes_cut_sixteen_zero_bytes_in_two() {
    let data = [0u8; 16];
    assert_eq!(cut(&data, 4, 8, 8), vec![(0, 8), (8, 8)]);
}

#[test]
fn small_sizes_on_constant_input() {
    // Each round scans eight bytes past the last cut, narrows that span to
    // start four bytes in, and cuts after its first window.
    let data = vec![0u8; 100];
    let mut expected: Vec<(usize, usize)> = (0..12).map(|i| (8 * i, 8)).collect();
    expected.push((96, 4));
    assert_eq!(cut(&data, 4, 8, 8), expected);
}

#[test]
fn a_search_left_without_spans_gives_none() {
    // The first round scans the whole input as one span, cuts after eight
    // bytes and takes that span; the second round has nothing left to scan.
    let data = [0u8; 40];
    let mut chunker = SliceRecMinCdcHash4::new(&data, 4, 8, 100);
    assert!(chunker.try_chunks().is_none());
}

#[test]
fn try_chunks_gives_what_chunks_gives() {
    let data = xorshift(5, 60_000);
    let mut a = SliceRecMinCdcHash4::new(&data, 4096, 12288, 12288);
    let mut b = SliceRecMinCdcHash4::new(&data, 4096, 12288, 12288);
    let from_try: Vec<(usize, usize)> = a.try_chunks().unwrap().iter().map(|c| (c.offset(), c.len())).collect();
    let plain: Vec<(usize, usize)> = b.chunks().iter().map(|c| (c.offset(), c.len())).collect();
    assert_eq!(from_try, plain);
}

#[test]
fn large_minimum_sizes_always_run_through() {
    for seed in 1..6u64 {
        let data = xorshift(seed, 50_000);
        let mut chunker = SliceRecMinCdcHash4::new(&data, 1024, 2048, 4096);
        let chunks = chunker.try_chunks().unwrap();
        check_chunks(&chunks, &data, 0, 1024, 2048);
    }
}
