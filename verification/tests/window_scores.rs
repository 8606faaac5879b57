use mothcdc::window::{argmin_hashed_windows, DEFAULT_ADDEND, DEFAULT_MULTIPLIER};

fn xorshift(seed: u64, n: usize) -> Vec<u8> {
    let mut s = seed | 1;
    let mut out = Vec::with_capacity(n);
    for _ in 0..n {
        s ^= s << 13;
        s ^= s >> 7;
        s ^= s << 17;
        out.push((s >> 33) as u8);
    }
    out
}

fn hash(bytes: &[u8], j: usize, mult: u32, add: u32) -> u32 {
    let x = u32::from_le_bytes([bytes[j], bytes[j + 1], bytes[j + 2], bytes[j + 3]]);
    x.wrapping_mul(mult).wrapping_add(add)
}

fn scan(bytes: &[u8], mult: u32, add: u32) -> (usize, u32) {
    let mut best = (0usize, hash(bytes, 0, mult, add));
    for j in 1..bytes.len() - 3 {
        let h = hash(bytes, j, mult, add);
        if h < best.1 {
            best = (j, h);
        }
    }
    best
}

#[test]
fn too_short_for_a_window() {
    assert_eq!(argmin_hashed_windows(&[], 3, 5), (0, u32::MAX));
    assert_eq!(argmin_hashed_windows(&[1, 2, 3], 3, 5), (0, u32::MAX));
}

#[test]
fn single_window_is_read_little_endian() {
    // 0x04030201 * 1 + 0 = 0x04030201.
    assert_eq!(argmin_hashed_windows(&[1, 2, 3, 4], 1, 0), (0, 0x0403_0201));
    // 0x04030201 * 2 + 7 = 0x08060409.
    assert_eq!(argmin_hashed_windows(&[1, 2, 3, 4], 2, 7), (0, 0x0806_0409));
}

#[test]
fn lowest_window_wins() {
    // Windows: 0x00000001, 0x00000000, 0x01000000.
    assert_eq!(argmin_hashed_windows(&[1, 0, 0, 0, 0, 1], 1, 0), (1, 0));
}

#[test]
fn earliest_of_equal_windows_wins() {
    // Every window of a constant run scores the same: the first one wins.
    assert_eq!(argmin_hashed_windows(&[7; 64], 1, 0), (0, 0x0707_0707));
    let data = [9, 0, 0, 0, 0, 9, 0, 0, 0, 0, 9];
    assert_eq!(argmin_hashed_windows(&data, 1, 0), (1, 0));
}

#[test]
fn the_score_wraps() {
    // 0xffffffff * 2 + 3 wraps to 1.
    assert_eq!(argmin_hashed_windows(&[0xff; 4], 2, 3), (0, 1));
}

#[test]
fn matches_a_plain_scan_on_random_data() {
    for seed in 1..20u64 {
        let data = xorshift(seed, 3000);
        assert_eq!(
            argmin_hashed_windows(&data, DEFAULT_MULTIPLIER, DEFAULT_ADDEND),
            scan(&data, DEFAULT_MULTIPLIER, DEFAULT_ADDEND)
        );
    }
}
