use mothcdc::arena::CartNodes;
use mothcdc::cart_tree::CartTree;
use mothcdc::recursive::MinChunk;

fn xorshift(seed: u64, n: usize) -> Vec<u8> {
    let mut s = seed | 1;
    let mut out = Vec::with_capacity(n);
    for _ in 0..n {
        s ^= s << 13;
        s ^= s >> 7;
        s ^= s << 17;
        out.push((s >> 33) as u8);
    }
    out
}

/// Scored spans of 100 bytes each over `data`.
fn spans(data: &[u8], count: usize) -> Vec<MinChunk> {
    (0..count)
        .map(|i| {
            let mut c = MinChunk::new(i * 100, i * 100 + 100);
            c.eval(data);
            c
        })
        .collect()
}

fn score(c: &MinChunk, data: &[u8]) -> u32 {
    let mut c = *c;
    c.eval(data)
}

fn starts(tree: &CartTree, nodes: &mut CartNodes) -> Vec<usize> {
    let mut copy = tree.clone();
    let mut out = Vec::new();
    let mut scratch = nodes.clone();
    while let Some(c) = copy.pop_front(&mut scratch) {
        out.push(c.start());
    }
    out
}

#[test]
fn empty_tree() {
    let nodes = CartNodes::default();
    let tree = CartTree::default();
    assert!(tree.is_empty());
    assert_eq!(tree.len(&nodes), 0);
    assert!(tree.min(&nodes).is_none());
    assert!(tree.first(&nodes).is_none());
    assert!(tree.last(&nodes).is_none());
}

#[test]
fn push_back_keeps_order_and_minimum() {
    let data = xorshift(11, 5000);
    let all = spans(&data, 40);
    let mut nodes = CartNodes::default();
    let mut tree = CartTree::default();
    for c in &all {
        tree.push_back(*c, &mut nodes, |a: &MinChunk, b: &MinChunk| a.is_less(b, &data));
    }
    assert!(!tree.is_empty());
    assert_eq!(tree.len(&nodes), 40);
    assert_eq!(tree.first(&nodes).unwrap().start(), 0);
    assert_eq!(tree.last(&nodes).unwrap().start(), 3900);
    let lowest = all.iter().map(|c| score(c, &data)).min().unwrap();
    let m = tree.min(&nodes).unwrap();
    assert_eq!(score(m, &data), lowest);
    // Appending only: the root is the earliest span of lowest score.
    let earliest = all.iter().position(|c| score(c, &data) == lowest).unwrap();
    assert_eq!(m.start(), earliest * 100);
    assert_eq!(starts(&tree, &mut nodes), (0..40).map(|i| i * 100).collect::<Vec<_>>());
}

#[test]
fn push_front_keeps_order_and_minimum() {
    let data = xorshift(12, 5000);
    let all = spans(&data, 30);
    let mut nodes = CartNodes::default();
    let mut tree = CartTree::default();
    for c in all.iter().rev() {
        tree.push_front(*c, &mut nodes, |a: &MinChunk, b: &MinChunk| a.is_less(b, &data));
    }
    assert_eq!(tree.len(&nodes), 30);
    assert_eq!(tree.first(&nodes).unwrap().start(), 0);
    assert_eq!(tree.last(&nodes).unwrap().start(), 2900);
    let lowest = all.iter().map(|c| score(c, &data)).min().unwrap();
    assert_eq!(score(tree.min(&nodes).unwrap(), &data), lowest);
    assert_eq!(starts(&tree, &mut nodes), (0..30).map(|i| i * 100).collect::<Vec<_>>());
}

#[test]
fn push_back_then_pop_back_gives_the_value_back() {
    let data = xorshift(13, 3000);
    let all = spans(&data, 20);
    let mut nodes = CartNodes::default();
    let mut tree = CartTree::default();
    for c in &all[..19] {
        tree.push_back(*c, &mut nodes, |a: &MinChunk, b: &MinChunk| a.is_less(b, &data));
    }
    let before = starts(&tree, &mut nodes);
    tree.push_back(all[19], &mut nodes, |a: &MinChunk, b: &MinChunk| a.is_less(b, &data));
    let back = tree.pop_back(&mut nodes).unwrap();
    assert_eq!((back.start(), back.stop()), (1900, 2000));
    assert_eq!(starts(&tree, &mut nodes), before);
    assert_eq!(tree.len(&nodes), 19);
}

#[test]
fn push_front_then_pop_front_gives_the_value_back() {
    let data = xorshift(14, 3000);
    let all = spans(&data, 20);
    let mut nodes = CartNodes::default();
    let mut tree = CartTree::default();
    for c in &all[1..] {
        tree.push_back(*c, &mut nodes, |a: &MinChunk, b: &MinChunk| a.is_less(b, &data));
    }
    let before = starts(&tree, &mut nodes);
    tree.push_front(all[0], &mut nodes, |a: &MinChunk, b: &MinChunk| a.is_less(b, &data));
    let front = tree.pop_front(&mut nodes).unwrap();
    assert_eq!((front.start(), front.stop()), (0, 100));
    assert_eq!(starts(&tree, &mut nodes), before);
}

#[test]
fn pops_drain_in_order_and_keep_the_minimum() {
    let data = xorshift(15, 6000);
    let all = spans(&data, 50);
    let mut nodes = CartNodes::default();
    let mut tree = CartTree::default();
    for c in &all {
        tree.push_back(*c, &mut nodes, |a: &MinChunk, b: &MinChunk| a.is_less(b, &data));
    }
    let mut lo = 0;
    let mut hi = 50;
    while lo < hi {
        let rest = &all[lo..hi];
        let lowest = rest.iter().map(|c| score(c, &data)).min().unwrap();
        assert_eq!(score(tree.min(&nodes).unwrap(), &data), lowest);
        if (lo + hi) % 2 == 0 {
            assert_eq!(tree.pop_front(&mut nodes).unwrap().start(), lo * 100);
            lo += 1;
        } else {
            assert_eq!(tree.pop_back(&mut nodes).unwrap().start(), (hi - 1) * 100);
            hi -= 1;
        }
        assert_eq!(tree.len(&nodes), hi - lo);
    }
    assert!(tree.is_empty());
    assert!(tree.pop_front(&mut nodes).is_none());
    assert!(tree.pop_back(&mut nodes).is_none());
}

#[test]
fn split_min_cuts_around_the_root() {
    let data = xorshift(16, 5000);
    let all = spans(&data, 40);
    let mut nodes = CartNodes::default();
    let mut tree = CartTree::default();
    for c in &all {
        tree.push_back(*c, &mut nodes, |a: &MinChunk, b: &MinChunk| a.is_less(b, &data));
    }
    let root = tree.min(&nodes).unwrap().start();
    let (left, m, right) = tree.split_min(&mut nodes).unwrap();
    assert_eq!(m.start(), root);
    let k = root / 100;
    assert_eq!(left.len(&nodes), k);
    assert_eq!(right.len(&nodes), 40 - k - 1);
    assert_eq!(starts(&left, &mut nodes), (0..k).map(|i| i * 100).collect::<Vec<_>>());
    assert_eq!(
        starts(&right, &mut nodes),
        (k + 1..40).map(|i| i * 100).collect::<Vec<_>>()
    );
    // Each part is a tree of its own whose root is its minimum.
    if k > 0 {
        let lowest = all[..k].iter().map(|c| score(c, &data)).min().unwrap();
        assert_eq!(score(left.min(&nodes).unwrap(), &data), lowest);
    }
    if k + 1 < 40 {
        let lowest = all[k + 1..].iter().map(|c| score(c, &data)).min().unwrap();
        assert_eq!(score(right.min(&nodes).unwrap(), &data), lowest);
    }
    assert!(CartTree::default().split_min(&mut nodes).is_none());
}

#[test]
fn trees_share_one_map() {
    let data = xorshift(17, 5000);
    let all = spans(&data, 20);
    let mut nodes = CartNodes::default();
    let mut a = CartTree::default();
    let mut b = CartTree::default();
    for c in &all[..10] {
        a.push_back(*c, &mut nodes, |x: &MinChunk, y: &MinChunk| x.is_less(y, &data));
    }
    for c in &all[10..] {
        b.push_front(*c, &mut nodes, |x: &MinChunk, y: &MinChunk| x.is_less(y, &data));
    }
    assert_eq!(a.len(&nodes), 10);
    assert_eq!(b.len(&nodes), 10);
    a.pop_back(&mut nodes);
    assert_eq!(b.first(&nodes).unwrap().start(), 1900);
    assert_eq!(b.last(&nodes).unwrap().start(), 1000);
}

#[test]
fn any_comparator_orders_the_tree() {
    // Unscored spans, compared by where they start: the root is the span
    // that starts first, whatever its place in the sequence.
    let starts_in_order = [30usize, 10, 40, 70, 50, 90, 20, 60];
    let mut nodes = CartNodes::default();
    let mut tree = CartTree::default();
    for &s in &starts_in_order {
        tree.push_back(MinChunk::new(s, s + 5), &mut nodes, |a: &MinChunk, b: &MinChunk| {
            a.start() < b.start()
        });
    }
    assert_eq!(tree.len(&nodes), 8);
    assert_eq!(tree.min(&nodes).unwrap().start(), 10);
    assert_eq!(tree.first(&nodes).unwrap().start(), 30);
    assert_eq!(tree.last(&nodes).unwrap().start(), 60);
    tree.push_front(MinChunk::new(5, 8), &mut nodes, |a: &MinChunk, b: &MinChunk| {
        a.start() < b.start()
    });
    assert_eq!(tree.min(&nodes).unwrap().start(), 5);
    let (left, m, right) = tree.split_min(&mut nodes).unwrap();
    assert_eq!(m.start(), 5);
    assert!(left.is_empty());
    assert_eq!(right.len(&nodes), 8);
    assert_eq!(right.min(&nodes).unwrap().start(), 10);
}

#[test]
fn pushing_a_lower_span_and_popping_it_keeps_the_minimum() {
    // Every span over zeros scores the same; a span over random bytes scores
    // lower.  Pushing it and popping it again leaves the same span at the root.
    let zeros = vec![0u8; 5000];
    let all = spans(&zeros, 20);
    let mut nodes = CartNodes::default();
    let mut tree = CartTree::default();
    for c in &all {
        tree.push_back(*c, &mut nodes, |a: &MinChunk, b: &MinChunk| a.is_less(b, &zeros));
    }
    let before = tree.min(&nodes).unwrap().start();
    assert_eq!(before, 0);
    let random = xorshift(3, 100);
    let mut low = MinChunk::new(7, 99);
    assert!(low.eval(&random) < score(&all[0], &zeros));
    tree.push_back(low, &mut nodes, |a: &MinChunk, b: &MinChunk| a.is_less(b, &zeros));
    assert_eq!(tree.min(&nodes).unwrap().start(), 7);
    assert_eq!(tree.pop_back(&mut nodes).unwrap().start(), 7);
    assert_eq!(tree.min(&nodes).unwrap().start(), before);
    tree.push_front(low, &mut nodes, |a: &MinChunk, b: &MinChunk| a.is_less(b, &zeros));
    assert_eq!(tree.min(&nodes).unwrap().start(), 7);
    assert_eq!(tree.pop_front(&mut nodes).unwrap().start(), 7);
    assert_eq!(tree.min(&nodes).unwrap().start(), before);
    assert_eq!(tree.len(&nodes), 20);
}
