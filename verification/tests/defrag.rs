use aoc::defrag::{neighbours, neighbours_wrapping, Bit, Disk, NUM_BLOCKS, SET_CHAR, UNSET_CHAR};

/// The knot hash of a text, as 32 hexadecimal digits.
fn knot_hash(input: &str) -> String {
    let mut lengths: Vec<usize> = input.bytes().map(|b| b as usize).collect();
    lengths.extend_from_slice(&[17, 31, 73, 47, 23]);
    let mut list: Vec<u8> = (0..=255).collect();
    let mut pos = 0usize;
    let mut skip = 0usize;
    for _ in 0..64 {
        for &len in &lengths {
            for i in 0..len / 2 {
                list.swap((pos + i) % 256, (pos + len - 1 - i) % 256);
            }
            pos = (pos + len + skip) % 256;
            skip += 1;
        }
    }
    list.chunks(16)
        .map(|block| format!("{:02x}", block.iter().fold(0u8, |acc, b| acc ^ b)))
        .collect()
}

fn disk_from(key: &str) -> Disk {
    let hashes: Vec<String> = (0..NUM_BLOCKS)
        .map(|i| knot_hash(format!("{}-{}", key, i).as_str()))
        .collect();
    Disk::from_hashes(&hashes).unwrap()
}

/// A disk drawn with `#` for used bits, padded with free bits.
fn disk_of(picture: &[&str]) -> Disk {
    let mut rows = vec![vec![Bit::new(false); NUM_BLOCKS]; NUM_BLOCKS];
    for (r, line) in picture.iter().enumerate() {
        for (c, ch) in line.chars().enumerate() {
            rows[r][c] = Bit::new(ch == '#');
        }
    }
    Disk::from_bits(&rows).unwrap()
}

#[test]
fn test_used_blocks() {
    let disk = disk_from("flqrgnkx");
    assert_eq!(disk.used(), 8108);
}

#[test]
fn test_regions() {
    let disk = disk_from("flqrgnkx");
    let regions = disk.regions();
    assert_eq!(regions, 1242);
}

#[test]
fn knot_hash_helper_matches_known_hashes() {
    assert_eq!(knot_hash(""), "a2582a3a0e66e6e86e3812dcb672a272");
    assert_eq!(knot_hash("AoC 2017"), "33efeb34ea91902bb2f59c9920caa6cd");
}

#[test]
fn first_rows_of_example_disk() {
    let disk = disk_from("flqrgnkx");
    let expected = ["##.#.#..", ".#.#.#.#", "....#.#.", "#.#.##.#", ".##.#...", "##..#..#", ".#...#..", "##.#.##."];
    for (r, line) in expected.iter().enumerate() {
        for (c, ch) in line.chars().enumerate() {
            assert_eq!(disk.bit((r, c)).is_set(), ch == '#');
            assert_eq!(disk.bit((r, c)).symbol(), ch);
        }
    }
}

#[test]
fn bits_are_free_used_or_in_a_region() {
    let free = Bit::new(false);
    assert!(!free.is_set());
    assert_eq!(free.region(), Some(0));
    assert_eq!(free.symbol(), '.');
    assert_eq!(free.symbol(), UNSET_CHAR);
    let used = Bit::new(true);
    assert!(used.is_set());
    assert_eq!(used.region(), None);
    assert_eq!(used.symbol(), SET_CHAR);
    assert_eq!(Bit::default().region(), Some(0));
    let mut bit = Bit::new(false);
    bit.set();
    assert_eq!(bit.region(), None);
    bit.set_region(37);
    assert!(bit.is_set());
    assert_eq!(bit.region(), Some(37));
    assert_eq!(bit.symbol(), '7');
    bit.set_region(isize::MAX as usize);
    assert_eq!(bit.region(), Some(isize::MAX as usize));
    bit.set_region(0);
    assert!(!bit.is_set());
    bit.set();
    bit.unset();
    assert!(!bit.is_set());
    assert_eq!(bit.region(), Some(0));
}

#[test]
fn hex_digits_give_four_bits() {
    for n in 0..16u8 {
        let bits = Bit::from_hex(n);
        for i in 0..4 {
            assert_eq!(bits[i].is_set(), n & (1 << (3 - i)) != 0);
            assert_eq!(bits[i].region(), if bits[i].is_set() { None } else { Some(0) });
        }
    }
    let e: Vec<bool> = Bit::from_hex(0xe).iter().map(|b| b.is_set()).collect();
    assert_eq!(e, vec![true, true, true, false]);
    let one: Vec<bool> = Bit::from_hex(1).iter().map(|b| b.is_set()).collect();
    assert_eq!(one, vec![false, false, false, true]);
}

#[test]
fn neighbours_stay_inside_the_grid() {
    assert_eq!(neighbours(128, (5, 7)), vec![(4, 7), (6, 7), (5, 6), (5, 8)]);
    assert_eq!(neighbours(128, (0, 0)), vec![(1, 0), (0, 1)]);
    assert_eq!(neighbours(128, (127, 127)), vec![(126, 127), (127, 126)]);
    assert_eq!(neighbours(128, (0, 127)), vec![(1, 127), (0, 126)]);
    assert_eq!(neighbours(1, (0, 0)), vec![]);
    assert_eq!(neighbours_wrapping(128, (5, 7)), vec![(4, 7), (6, 7), (5, 6), (5, 8)]);
    assert_eq!(neighbours_wrapping(128, (127, 127)), vec![(126, 127), (0, 127), (127, 126), (127, 0)]);
    assert_eq!(neighbours_wrapping(1, (1, 1)), vec![(0, 1), (0, 1), (1, 0), (1, 0)]);
}

#[test]
fn an_empty_disk_has_no_regions() {
    let disk = disk_of(&[]);
    assert_eq!(disk.used(), 0);
    assert_eq!(disk.regions(), 0);
}

#[test]
fn a_full_disk_is_one_region() {
    let rows = vec![vec![Bit::new(true); NUM_BLOCKS]; NUM_BLOCKS];
    let mut disk = Disk::from_bits(&rows).unwrap();
    assert_eq!(disk.used(), NUM_BLOCKS * NUM_BLOCKS);
    assert_eq!(disk.regions(), 1);
    assert_eq!(disk.label_regions(), 1);
    assert_eq!(disk.bit((127, 127)).region(), Some(1));
    assert_eq!(disk.regions(), 0);
}

#[test]
fn regions_do_not_join_across_corners() {
    let mut disk = disk_of(&["#.#", ".#.", "#.##", "...#", "####"]);
    assert_eq!(disk.used(), 11);
    assert_eq!(disk.regions(), 5);
    let copy = disk.clone();
    assert_eq!(disk.label_regions(), 5);
    assert_eq!(copy.bit((0, 0)).region(), None);
    let label = |r: usize, c: usize| disk.bit((r, c)).region();
    assert_eq!(label(0, 0), Some(1));
    assert_eq!(label(0, 2), Some(2));
    assert_eq!(label(1, 1), Some(3));
    assert_eq!(label(2, 0), Some(4));
    assert_eq!(label(2, 2), Some(5));
    for cell in [(2, 3), (3, 3), (4, 3), (4, 2), (4, 1), (4, 0)] {
        assert_eq!(label(cell.0, cell.1), Some(5));
    }
    assert_eq!(label(0, 1), Some(0));
    assert_eq!(disk.used(), 11);
}

#[test]
fn bits_with_a_region_are_walls() {
    let mut disk = disk_of(&["#####"]);
    disk.bit_mut((0, 2)).set_region(9);
    assert_eq!(disk.regions(), 2);
    disk.bit_mut((0, 2)).set();
    assert_eq!(disk.regions(), 1);
    disk.bit_mut((0, 2)).unset();
    assert_eq!(disk.regions(), 2);
    assert_eq!(disk.used(), 4);
}

#[test]
fn disks_need_the_right_shape() {
    assert!(Disk::from_bits(&vec![]).is_none());
    assert!(Disk::from_bits(&vec![vec![Bit::new(true); NUM_BLOCKS]; NUM_BLOCKS - 1]).is_none());
    let mut rows = vec![vec![Bit::new(true); NUM_BLOCKS]; NUM_BLOCKS];
    rows[77].pop();
    assert!(Disk::from_bits(&rows).is_none());
    let good = vec![String::from("0123456789abcdefABCDEF0123456789"); NUM_BLOCKS];
    let disk = Disk::from_hashes(&good).unwrap();
    // The digits of a row have 64 set binary digits in all.
    assert_eq!(disk.used(), NUM_BLOCKS * 64);
    assert!(!disk.bit((0, 0)).is_set());
    assert!(disk.bit((0, 7)).is_set());
    assert!(Disk::from_hashes(&good[1..]).is_none());
    let mut bad = good.clone();
    bad[5] = String::from("0123456789abcdefABCDEF012345678g");
    assert!(Disk::from_hashes(&bad).is_none());
    bad[5] = String::from("0123456789abcdefABCDEF012345678");
    assert!(Disk::from_hashes(&bad).is_none());
}
