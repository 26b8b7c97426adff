use hexmap::{fill_bytes, get_pad_counts, is_seg_range_set, SEGMENT_BYTES};

fn empty_map() -> Vec<u8> {
    vec![0u8; SEGMENT_BYTES as usize]
}

fn marked(map: &Vec<u8>, p: u32) -> bool {
    map[(p / 8) as usize] & (0x80u8 >> (p % 8)) != 0
}

#[test]
fn fill_aligned_three_bytes() {
    let mut map = empty_map();
    fill_bytes(&mut map, 0, 24);
    assert_eq!(&map[..4], &[0xFF, 0xFF, 0xFF, 0x00]);
    assert!(map[4..].iter().all(|b| *b == 0));
}

#[test]
fn fill_single_leading_bit_then_full_byte() {
    let mut map = empty_map();
    fill_bytes(&mut map, 7, 9);
    assert_eq!(map[0], 0b0000_0001);
    assert_eq!(map[1], 0xFF);
    assert!(map[2..].iter().all(|b| *b == 0));
}

#[test]
fn fill_leading_and_trailing_share_a_byte() {
    assert_eq!((4, 0, 4), get_pad_counts(4, 8));
    let mut map = empty_map();
    fill_bytes(&mut map, 4, 8);
    assert_eq!(map[0], 0b0000_1111);
    assert_eq!(map[1], 0b1111_0000);
}

#[test]
fn fill_inside_one_byte() {
    let mut map = empty_map();
    fill_bytes(&mut map, 2, 3);
    assert_eq!(map[0], 0b0011_1000);
}

#[test]
fn query_next_to_filled_run_is_clear() {
    let mut map = empty_map();
    fill_bytes(&mut map, 0, 24);
    assert!(!is_seg_range_set(&map, 24, 1));
    assert!(is_seg_range_set(&map, 23, 1));
}

#[test]
fn query_overrun_part_is_not_checked() {
    let mut map = empty_map();
    fill_bytes(&mut map, 0, 4096);
    assert!(!is_seg_range_set(&map, 0x1000, 0xFFFF));
    assert!(is_seg_range_set(&map, 0x0FFF, 1));
}

#[test]
fn two_adjacent_fills_then_queries() {
    let mut map = empty_map();
    fill_bytes(&mut map, 0, 8);
    fill_bytes(&mut map, 8, 8);
    assert!(is_seg_range_set(&map, 0, 16));
    assert!(!is_seg_range_set(&map, 16, 8));
}

#[test]
fn fill_wraps_to_segment_start() {
    let mut map = empty_map();
    fill_bytes(&mut map, 0xFFF8, 0x18);
    assert_eq!(map[8191], 0xFF);
    assert_eq!(&map[..3], &[0xFF, 0xFF, 0x00]);
    assert!(!is_seg_range_set(&map, 16, 0xFFE0));
    /* the wrapped part is not seen by a query from the old start */
    let mut tail_only = empty_map();
    fill_bytes(&mut tail_only, 0xFFFF, 9);
    assert_eq!(tail_only[8191], 0x01);
    assert_eq!(tail_only[0], 0xFF);
    assert!(is_seg_range_set(&tail_only, 0xFFFF, 9));
    assert!(!is_seg_range_set(&tail_only, 0xFFF0, 15));
}

#[test]
fn fill_whole_segment() {
    let mut map = empty_map();
    fill_bytes(&mut map, 0, 0xFFFF);
    assert!(map[..8191].iter().all(|b| *b == 0xFF));
    assert_eq!(map[8191], 0xFE);
    fill_bytes(&mut map, 1, 0xFFFF);
    assert!(map.iter().all(|b| *b == 0xFF));
}

#[test]
fn zero_length_changes_nothing() {
    let mut map = empty_map();
    fill_bytes(&mut map, 13, 0);
    assert!(map.iter().all(|b| *b == 0));
    assert_eq!((0, 0, 0), get_pad_counts(13, 0));
    map[1] = 0xFF;
    assert!(!is_seg_range_set(&map, 8, 0));
}

#[test]
fn refilling_gives_same_bitmap() {
    for &(start, len) in &[(0u16, 24u16), (7, 9), (4, 8), (3, 70), (0xFFF0, 0x40)] {
        let mut once = empty_map();
        once[5] = 0b1010_0101;
        fill_bytes(&mut once, start, len);
        let mut twice = once.clone();
        fill_bytes(&mut twice, start, len);
        assert_eq!(once, twice);
    }
}

#[test]
fn fill_keeps_bits_and_touches_only_its_run() {
    let mut map = empty_map();
    map[0] = 0b1000_0001;
    map[100] = 0x5A;
    let before = map.clone();
    fill_bytes(&mut map, 21, 30);
    for p in 0u32..0x10000 {
        let covered = (21..51).contains(&p);
        assert_eq!(marked(&map, p), marked(&before, p) || covered, "position {p}");
    }
}

#[test]
fn fill_then_query_same_run() {
    for &(start, len) in &[(0u16, 1u16), (5, 2), (9, 17), (0xFFFF, 1), (0xFFFE, 0x100)] {
        let mut map = empty_map();
        fill_bytes(&mut map, start, len);
        assert!(is_seg_range_set(&map, start, len));
    }
}

#[test]
fn pad_counts_add_up_to_length() {
    for start in [0u16, 1, 5, 7, 8, 12, 0xFFF9] {
        for len in [0u16, 1, 3, 7, 8, 9, 15, 16, 17, 100] {
            let (lead, full, trail) = get_pad_counts(start, len);
            assert_eq!(lead + full * 8 + trail, len);
            assert!(lead < 8 && trail < 8);
        }
    }
    assert_eq!((3, 12, 5), get_pad_counts(5, 3 + 96 + 5));
}
