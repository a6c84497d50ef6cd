use idirfein_server::block_size::get_ideal_block_size;

fn in_floating_point(file_size: u64) -> u32 {
    let root = (file_size as f64).sqrt();
    let rounded = (root / 8.0).round() * 8.0;
    rounded as u32
}

#[test]
fn small_files_have_no_blocks() {
    assert_eq!(get_ideal_block_size(0), 0);
    assert_eq!(get_ideal_block_size(15), 0);
    assert_eq!(get_ideal_block_size(16), 8);
}

#[test]
fn block_size_is_the_rounded_root() {
    assert_eq!(get_ideal_block_size(143), 8);
    assert_eq!(get_ideal_block_size(144), 16);
    assert_eq!(get_ideal_block_size(1_000_000), 1000);
    assert_eq!(get_ideal_block_size(4_000_000_000), 63248);
}

#[test]
fn largest_block_size_is_the_largest_number() {
    assert_eq!(get_ideal_block_size(u64::MAX), u32::MAX);
    assert_eq!(get_ideal_block_size((1 << 63) - 1), in_floating_point((1 << 63) - 1));
}

#[test]
fn rounding_follows_floating_point_up_to_the_thresholds() {
    let mut eighth: u64 = 0;
    while eighth < 0x2000_0000 {
        let middle: u128 = 8 * eighth as u128 + 4;
        let square: u128 = middle * middle;
        let mut offset: u128 = 0;
        while offset <= 3000 {
            for size in [square.wrapping_sub(offset), square + offset] {
                if size <= u64::MAX as u128 {
                    let size = size as u64;
                    assert_eq!(get_ideal_block_size(size), in_floating_point(size), "{}", size);
                }
            }
            offset = if offset < 4 { offset + 1 } else { offset * 2 - 1 };
        }
        eighth = eighth + 1 + eighth / 300;
    }
}

#[test]
fn rounding_follows_floating_point_everywhere() {
    let mut state: u64 = 0x9e37_79b9_7f4a_7c15;
    for round in 0..20_000u32 {
        state = state.wrapping_mul(6364136223846793005).wrapping_add(1442695040888963407);
        let size = state >> (round % 64);
        assert_eq!(get_ideal_block_size(size), in_floating_point(size), "{}", size);
    }
}

#[test]
fn rounding_follows_floating_point_at_powers_of_two() {
    for exponent in 0..64u32 {
        let power = 1u64 << exponent;
        for size in [power - 1, power, power + 1, power | (power >> 1), power.wrapping_sub(1025)] {
            assert_eq!(get_ideal_block_size(size), in_floating_point(size), "{}", size);
        }
    }
}

#[test]
fn larger_files_never_get_smaller_blocks() {
    let mut last = 0;
    for step in 0..5_000u64 {
        let size = step * step * step;
        let block = get_ideal_block_size(size);
        assert!(block >= last);
        assert_eq!(block % 8, 0);
        last = block;
    }
}

#[test]
fn block_size_is_nearest_to_the_root_up_to_rounding() {
    let last = (1u64 << 52) + (1 << 29) + 14;
    for size in [1 << 52, (1 << 52) + 1, last - 1, last] {
        let block = get_ideal_block_size(size) as u64;
        assert_eq!(block, 1 << 26);
        assert!((block - 4) * (block - 4) <= size && size < (block + 4) * (block + 4));
    }
    assert_eq!(get_ideal_block_size(last + 1), (1 << 26) + 8);
    assert!(((1u64 << 26) + 4) * ((1 << 26) + 4) > last + 1);
}
