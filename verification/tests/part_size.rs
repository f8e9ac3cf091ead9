use glacier_stream::util::{part_size_for_size, MAX_PARTS, MAX_PART_SIZE, MIN_PART_SIZE};

#[test]
fn test_part_size_for_size() {
    assert_eq!(part_size_for_size(0), 1024 * 1024);
    assert_eq!(part_size_for_size(1024 * 1024), 1024 * 1024);
    assert_eq!(part_size_for_size(1024 * 1024 + 1), 1024 * 1024);
    assert_eq!(part_size_for_size(1024 * 1024 * 10000), 1024 * 1024 * 10000);
}

#[test]
fn test_part_size_2() {
    let size = 257 * 1024 * 1024 * 1024; // 257 GiB
    let part_size = part_size_for_size(size);
    let num_parts = size / part_size;
    assert!(num_parts <= 10000, "Number of parts {} exceeds limit for size", num_parts);
}

#[test]
fn part_size_rounds_up_to_a_power_of_two() {
    // 10 GiB needs parts of at least 1073742 bytes: the next power of two is 2 MiB.
    let size = 10 * 1024 * 1024 * 1024u64;
    assert_eq!(part_size_for_size(size), 2 * 1024 * 1024);
    assert_eq!(part_size_for_size(1024 * 1024 * 10000 + 1), 2 * 1024 * 1024);
}

#[test]
fn part_size_keeps_parts_within_limit() {
    for size in [1u64, 5_000_000_000, 1 << 40, 1 << 50, u64::MAX - 9999] {
        let p = part_size_for_size(size);
        assert!(p.is_power_of_two());
        assert!(p >= 1024 * 1024);
        assert!((size as u128) <= 10000u128 * p as u128);
    }
}

#[test]
fn part_sizes_are_ones_glacier_accepts() {
    // Glacier takes 1 MiB times a power of two, up to 4 GiB.
    for size in [0u64, 1024 * 1024 * 9999, 1024 * 1024 * 10001, MAX_PARTS * MAX_PART_SIZE] {
        let p = part_size_for_size(size);
        assert!(p.is_power_of_two() && p >= MIN_PART_SIZE && p <= MAX_PART_SIZE);
    }
    assert_eq!(part_size_for_size(MAX_PARTS * MAX_PART_SIZE), MAX_PART_SIZE);
}
