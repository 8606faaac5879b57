use mothcdc::recursive::MinChunk;
use mothcdc::window::{argmin_hashed_windows, DEFAULT_ADDEND, DEFAULT_MULTIPLIER};

fn xorshift(seed: u64, n: usize) -> Vec<u8> {
    let mut s = seed | 1;
    let mut out = Vec::with_capacity(n);
    for _ in 0..n {
        s ^= s << 13;
        s ^= s >> 7;
        s ^= s << 17;
        out.push((s >> 33) as u8);
    }
    out
}

#[test]
fn new_span_has_its_bounds() {
    let c = MinChunk::new(10, 20);
    assert_eq!(c.start(), 10);
    assert_eq!(c.stop(), 20);
}

#[test]
fn eval_is_the_lowest_window_score() {
    let data = xorshift(3, 2000);
    let mut c = MinChunk::new(100, 900);
    let expected = argmin_hashed_windows(&data[100..900], DEFAULT_MULTIPLIER, DEFAULT_ADDEND);
    assert_eq!(c.eval(&data), expected.1);
    // Known now: the same answer again, whatever the bytes.
    assert_eq!(c.eval(&[]), expected.1);
}

#[test]
fn argmin_cuts_after_the_lowest_window() {
    let data = xorshift(4, 2000);
    let mut c = MinChunk::new(300, 1300);
    let expected = argmin_hashed_windows(&data[300..1300], DEFAULT_MULTIPLIER, DEFAULT_ADDEND);
    assert_eq!(c.argmin(&data), 300 + expected.0 + 4);
}

#[test]
fn a_span_too_short_for_a_window_is_cut_at_its_end() {
    let data = xorshift(5, 100);
    let mut c = MinChunk::new(40, 43);
    assert_eq!(c.argmin(&data), 43);
    assert_eq!(c.eval(&data), u32::MAX);
}

#[test]
fn clamp_narrows_or_drops() {
    let c = MinChunk::new(100, 200);
    let inside = c.clamp(120, 150).unwrap();
    assert_eq!((inside.start(), inside.stop()), (120, 150));
    let left = c.clamp(0, 130).unwrap();
    assert_eq!((left.start(), left.stop()), (100, 130));
    let right = c.clamp(180, 1000).unwrap();
    assert_eq!((right.start(), right.stop()), (180, 200));
    let whole = c.clamp(0, 1000).unwrap();
    assert_eq!((whole.start(), whole.stop()), (100, 200));
    assert!(c.clamp(0, 100).is_none());
    assert!(c.clamp(200, 300).is_none());
    assert!(c.clamp(150, 150).is_none());
}

#[test]
fn clamp_forgets_the_score() {
    let data = xorshift(6, 1000);
    let mut c = MinChunk::new(0, 1000);
    let whole = c.eval(&data);
    let mut narrowed = c.clamp(500, 1000).unwrap();
    let expected = argmin_hashed_windows(&data[500..1000], DEFAULT_MULTIPLIER, DEFAULT_ADDEND).1;
    assert_eq!(narrowed.eval(&data), expected);
    assert!(whole <= expected);
}

#[test]
fn is_less_compares_scores() {
    let data = xorshift(7, 4000);
    let a = MinChunk::new(0, 1000);
    let b = MinChunk::new(1000, 2000);
    let sa = argmin_hashed_windows(&data[0..1000], DEFAULT_MULTIPLIER, DEFAULT_ADDEND).1;
    let sb = argmin_hashed_windows(&data[1000..2000], DEFAULT_MULTIPLIER, DEFAULT_ADDEND).1;
    assert_eq!(a.is_less(&b, &data), sa < sb);
    assert_eq!(b.is_less(&a, &data), sb < sa);
    let mut ka = a;
    ka.eval(&data);
    assert_eq!(ka.is_less(&b, &data), sa < sb);
    assert_eq!(b.is_less(&ka, &data), sb < sa);
    let mut kb = b;
    kb.eval(&data);
    assert_eq!(ka.is_less(&kb, &data), sa < sb);
    assert!(!ka.is_less(&ka, &data));
}

#[test]
fn is_less_is_a_strict_weak_order_on_spans() {
    let data = xorshift(11, 4000);
    let spans: Vec<MinChunk> = (0..12).map(|i| MinChunk::new(i * 300, i * 300 + 250)).collect();
    let mut scored = spans.clone();
    for c in scored.iter_mut().step_by(2) {
        c.eval(&data);
    }
    for a in &scored {
        assert!(!a.is_less(a, &data));
        for b in &scored {
            let ab = a.is_less(b, &data);
            if ab {
                assert!(!b.is_less(a, &data));
            }
            for c in &scored {
                if ab && b.is_less(c, &data) {
                    assert!(a.is_less(c, &data));
                }
                let ab_eq = !ab && !b.is_less(a, &data);
                let bc_eq = !b.is_less(c, &data) && !c.is_less(b, &data);
                if ab_eq && bc_eq {
                    assert!(!a.is_less(c, &data) && !c.is_less(a, &data));
                }
            }
        }
    }
}
