use pozzo::bits::{highest_power_of_two_at_most, lowbit, select_in_word};
use pozzo::scan::{
    apply_keep_masks, build_u16_actions, initial_keep_masks_for_three, pack_u16_action, scan_chunk_words,
    scan_delete_block_u16, scan_delete_range_u16, SCAN_LARGE_DELETION_WORD_DIVISOR, SCAN_SMALL_DELETION_WORD_DIVISOR, SCAN_THRESHOLD,
};
use pozzo::sieve::{LuckySieve, Refusal, SieveError};

fn numbers(sieve: &LuckySieve) -> Vec<u64> {
    (1..=sieve.alive).map(|rank| sieve.select(rank).unwrap() * 2 - 1).collect()
}

#[test]
fn a_fresh_sieve_holds_the_odd_numbers() {
    let sieve = LuckySieve::new(10).unwrap();
    assert_eq!(numbers(&sieve), vec![1, 3, 5, 7, 9, 11, 13, 15, 17, 19]);
    assert_eq!(sieve.n_odds, 10);
    assert_eq!(sieve.bits, vec![0x3FF]);
    assert_eq!(sieve.value_limit(), 19);
    assert_eq!(sieve.memory_bytes(), 24);
}

#[test]
fn select_has_nothing_outside_the_places() {
    let sieve = LuckySieve::new(10).unwrap();
    assert_eq!(sieve.select(0), None);
    assert_eq!(sieve.select(11), None);
    assert_eq!(sieve.select(u64::MAX), None);
    assert_eq!(sieve.select(10), Some(10));
}

#[test]
fn sieves_end_anywhere_in_a_word() {
    for n_odds in [1_u64, 63, 64, 65, 127, 128, 129, 1000] {
        let sieve = LuckySieve::new(n_odds).unwrap();
        assert_eq!(sieve.bits.len() as u64, n_odds.div_ceil(64));
        assert_eq!(sieve.alive, n_odds);
        assert_eq!(sieve.select(n_odds), Some(n_odds));
        assert_eq!(sieve.select(n_odds + 1), None);
        assert_eq!(sieve.value_limit(), 2 * n_odds - 1);
    }
}

#[test]
fn an_empty_sieve_is_refused() {
    assert!(matches!(LuckySieve::new(0), Err(SieveError::EmptySieve)));
}

#[test]
fn a_sieve_that_memory_cannot_hold_is_refused() {
    assert!(matches!(LuckySieve::new(u64::MAX), Err(SieveError::Bitset { words: 0x400_0000_0000_0000, .. })));
}

#[test]
fn the_allocator_decides_what_comes_of_a_sieve() {
    let cause = || Vec::<u64>::new().try_reserve(usize::MAX).unwrap_err();
    let refusal = |words| Refusal { words, cause: cause() };
    assert!(matches!(
        LuckySieve::in_room(100, Err(refusal(2)), Ok(Vec::new())),
        Err(SieveError::Bitset { words: 2, cause: why }) if why == cause()
    ));
    assert!(matches!(
        LuckySieve::in_room(100, Err(refusal(2)), Err(refusal(3))),
        Err(SieveError::Bitset { words: 2, .. })
    ));
    assert!(matches!(
        LuckySieve::in_room(100, Ok(Vec::new()), Err(refusal(3))),
        Err(SieveError::Tree { words: 3, cause: why }) if why == cause()
    ));
    let made = LuckySieve::in_room(100, Ok(Vec::new()), Ok(Vec::new())).unwrap();
    let fresh = LuckySieve::new(100).unwrap();
    assert_eq!(made.bits, fresh.bits);
    assert_eq!(made.tree, fresh.tree);
    assert_eq!((made.n_odds, made.alive), (100, 100));
}

#[test]
fn the_first_passes_of_the_sieve() {
    let mut sieve = LuckySieve::new(24).unwrap();
    assert_eq!(sieve.delete_every(3), 8);
    assert_eq!(numbers(&sieve), vec![1, 3, 7, 9, 13, 15, 19, 21, 25, 27, 31, 33, 37, 39, 43, 45]);
    assert_eq!(sieve.delete_every(7), 2);
    assert_eq!(numbers(&sieve), vec![1, 3, 7, 9, 13, 15, 21, 25, 27, 31, 33, 37, 43, 45]);
    assert_eq!(sieve.delete_every(9), 1);
    assert_eq!(numbers(&sieve), vec![1, 3, 7, 9, 13, 15, 21, 25, 31, 33, 37, 43, 45]);
    assert_eq!(sieve.delete_every(13), 1);
    assert_eq!(numbers(&sieve), vec![1, 3, 7, 9, 13, 15, 21, 25, 31, 33, 37, 43]);
    assert_eq!(sieve.delete_every(15), 0);
    assert_eq!(sieve.alive, 12);
}

#[test]
fn deleting_in_parts_is_deleting_at_once() {
    let mut at_once = LuckySieve::new(1000).unwrap();
    let mut in_parts = LuckySieve::new(1000).unwrap();
    assert_eq!(at_once.delete_every(7), 142);
    in_parts.delete_multiples(7, 142, 100);
    in_parts.delete_multiples(7, 100, 1);
    in_parts.delete_multiples(7, 1, 0);
    assert_eq!(in_parts.bits, at_once.bits);
    assert_eq!(in_parts.tree, at_once.tree);
    assert_eq!(in_parts.alive, 858);
}

#[test]
fn deleting_every_first_number_empties_the_sieve() {
    let mut sieve = LuckySieve::new(200).unwrap();
    assert_eq!(sieve.delete_every(1), 200);
    assert_eq!(sieve.alive, 0);
    assert_eq!(sieve.select(1), None);
    assert_eq!(sieve.bits, vec![0, 0, 0, 0]);
}

#[test]
fn clearing_twice_is_clearing_once() {
    let mut sieve = LuckySieve::new(70).unwrap();
    sieve.clear(66);
    sieve.clear(66);
    assert_eq!(sieve.alive, 69);
    assert_eq!(sieve.select(65), Some(65));
    assert_eq!(sieve.select(66), Some(67));
    assert_eq!(sieve.prefix_word_count(0), 0);
    assert_eq!(sieve.prefix_word_count(1), 64);
    assert_eq!(sieve.prefix_word_count(2), 69);
}

#[test]
fn the_tree_follows_the_bits() {
    let mut sieve = LuckySieve::new(500).unwrap();
    sieve.delete_every(5);
    let tree = sieve.tree.clone();
    for node in sieve.tree.iter_mut() {
        *node = 99;
    }
    sieve.rebuild_tree();
    assert_eq!(sieve.tree, tree);
}

#[test]
fn rebuilding_in_blocks_is_rebuilding_at_once() {
    let mut sieve = LuckySieve::new(1000).unwrap();
    sieve.delete_every(3);
    let tree = sieve.tree.clone();
    let words = sieve.bits.len();
    for node in sieve.tree.iter_mut() {
        *node = 0;
    }
    sieve.rebuild_counts(0, 5);
    sieve.rebuild_counts(5, words);
    assert_eq!(sieve.tree[1], sieve.bits[0].count_ones() as u64);
    sieve.rebuild_sums(1, 4);
    sieve.rebuild_sums(4, words + 1);
    assert_eq!(sieve.tree, tree);
}

#[test]
fn bits_of_numbers() {
    assert_eq!(lowbit(0), 0);
    assert_eq!(lowbit(1), 1);
    assert_eq!(lowbit(12), 4);
    assert_eq!(lowbit(usize::MAX), 1);
    assert_eq!(highest_power_of_two_at_most(0), 0);
    assert_eq!(highest_power_of_two_at_most(1), 1);
    assert_eq!(highest_power_of_two_at_most(1023), 512);
    assert_eq!(highest_power_of_two_at_most(1024), 1024);
    assert_eq!(highest_power_of_two_at_most(usize::MAX), 1 << (usize::BITS - 1));
    assert_eq!(select_in_word(0b1011_0100, 1), 2);
    assert_eq!(select_in_word(0b1011_0100, 3), 5);
    assert_eq!(select_in_word(0b1011_0100, 4), 7);
    assert_eq!(select_in_word(u64::MAX, 64), 63);
    assert_eq!(select_in_word(1 << 63, 1), 63);
}

#[test]
fn masks_for_every_third_bit() {
    let masks = initial_keep_masks_for_three();
    assert_eq!(masks, [0xB6DB_6DB6_DB6D_B6DB, 0xDB6D_B6DB_6DB6_DB6D, 0x6DB6_DB6D_B6DB_6DB6]);
    for index in 0..192_u32 {
        let bit = masks[(index / 64) as usize] >> (index % 64) & 1;
        assert_eq!(bit == 1, (index + 1) % 3 != 0);
    }
    let mut words = vec![u64::MAX, 0xF0, u64::MAX, u64::MAX];
    apply_keep_masks(&mut words, 5, masks);
    assert_eq!(words, vec![masks[2], 0xF0 & masks[0], masks[1], masks[2]]);
}

#[test]
fn actions_pack_what_is_left() {
    // Of five set bits the third goes, and two more have been counted after it.
    assert_eq!(pack_u16_action(3, 0, 0b11111), 0b11011 | 1 << 16 | 2 << 21);
    assert_eq!(pack_u16_action(3, 2, 0b11111), 0b10110 | 2 << 16 | 1 << 21);
    assert_eq!(pack_u16_action(1, 0, 0xFFFF), 16 << 16);
    assert_eq!(pack_u16_action(7, 6, 0), 6 << 21);
    assert_eq!(pack_u16_action(2048, 2047, 0x8001), 0x8000 | 1 << 16 | 1 << 21);
    let actions = build_u16_actions(3);
    assert_eq!(actions.len(), 3 * 65_536);
    assert_eq!(actions[2 * 65_536 + 0b11111], pack_u16_action(3, 2, 0b11111));
    assert!(build_u16_actions(0).is_empty());
}

#[test]
fn a_scan_of_a_run_goes_on_from_its_phase() {
    let actions = build_u16_actions(4);
    let mut words = vec![0xFF_u64, 1 << 63];
    assert_eq!(scan_delete_range_u16(&mut words, 3, 4, &actions), 3);
    assert_eq!(words, vec![0b1110_1110, 0]);
    let mut first = vec![0xFF_u64];
    let mut second = vec![1_u64 << 63];
    assert_eq!(scan_delete_block_u16(&mut first, 3, 4, &actions), (2, 3));
    assert_eq!(scan_delete_block_u16(&mut second, 3, 4, &actions), (1, 0));
    assert_eq!((first[0], second[0]), (0b1110_1110, 0));
    assert_eq!(scan_delete_range_u16(&mut [], 1, 4, &actions), 0);
}

#[test]
fn a_scan_may_be_cut_anywhere() {
    let words: Vec<u64> = (1..20_u64).map(|i| i.wrapping_mul(0x9E37_79B9_7F4A_7C15)).collect();
    let actions = build_u16_actions(11);
    let mut whole = words.clone();
    let (deleted, phase) = scan_delete_block_u16(&mut whole, 5, 11, &actions);
    for cut in 0..words.len() {
        let mut parts = words.clone();
        let (first, second) = parts.split_at_mut(cut);
        let (a, between) = scan_delete_block_u16(first, 5, 11, &actions);
        let (b, end) = scan_delete_block_u16(second, between, 11, &actions);
        assert_eq!((a + b, end), (deleted, phase));
        assert_eq!(parts, whole);
    }
}

#[test]
fn scans_are_split_evenly() {
    assert_eq!(scan_chunk_words(10, 3), 4);
    assert_eq!(scan_chunk_words(10, 0), 10);
    assert_eq!(scan_chunk_words(10, 100), 1);
    assert_eq!(scan_chunk_words(0, 4), 0);
    let mut sieve = LuckySieve::new(640).unwrap();
    sieve.delete_every(3);
    let ranges = sieve.scan_ranges(3, 7);
    let starts: Vec<u64> = ranges.iter().map(|range| range.start_rank_mod).collect();
    assert_eq!(
        starts,
        vec![0, sieve.prefix_word_count(4) % 7, sieve.prefix_word_count(8) % 7]
    );
}

#[test]
fn scans_and_points_agree_for_any_number_of_threads() {
    for threads in [0, 1, 2, 3, 7, 64] {
        for step in [1_u64, 2, 3, 10, 100] {
            let mut points = LuckySieve::new(3000).unwrap();
            let mut scan = LuckySieve::new(3000).unwrap();
            points.delete_every(5);
            scan.delete_every(5);
            let expected = scan.alive / step;
            assert_eq!(scan.delete_every_by_scan(step, expected, threads), points.delete_every(step));
            assert_eq!(scan.bits, points.bits);
            assert_eq!(scan.tree, points.tree);
            assert_eq!(scan.alive, points.alive);
        }
    }
}

#[test]
fn masks_and_points_agree_on_a_fresh_sieve() {
    for n_odds in [1_u64, 2, 3, 64, 100, 1000] {
        let mut points = LuckySieve::new(n_odds).unwrap();
        let mut masked = LuckySieve::new(n_odds).unwrap();
        let deleted = masked.delete_initial_every_three();
        assert_eq!(deleted, points.delete_every(3));
        masked.finish_scan(deleted);
        assert_eq!(masked.bits, points.bits);
        assert_eq!(masked.tree, points.tree);
        assert_eq!(masked.alive, points.alive);
    }
}

#[test]
fn small_sieves_are_not_scanned() {
    let mut sieve = LuckySieve::new(1000).unwrap();
    assert!(!sieve.should_scan_delete(3, 333, SCAN_THRESHOLD));
    assert_eq!(sieve.scan_deletion_word_divisor(), SCAN_SMALL_DELETION_WORD_DIVISOR);
    assert_eq!(sieve.delete_every_with_scan(3, 2, SCAN_THRESHOLD), 333);
    assert_eq!(sieve.alive, 667);
}

#[test]
fn large_sieves_are_scanned_while_it_pays() {
    let mut sieve = LuckySieve::new(64_000_000).unwrap();
    assert!(sieve.should_scan_delete(3, 250_000, SCAN_THRESHOLD));
    assert!(!sieve.should_scan_delete(3, 249_999, SCAN_THRESHOLD));
    assert!(sieve.should_scan_delete(511, 250_000, SCAN_THRESHOLD));
    assert!(!sieve.should_scan_delete(512, 250_000, SCAN_THRESHOLD));
    assert!(sieve.should_scan_delete(2048, 250_000, u64::MAX));
    assert!(!sieve.should_scan_delete(2049, 250_000, u64::MAX));
    assert_eq!(sieve.delete_every_with_scan(3, 4, SCAN_THRESHOLD), 21_333_333);
    assert_eq!(sieve.alive, 42_666_667);
    assert_eq!(sieve.select(3), Some(4));
    assert_eq!(sieve.select(42_666_667), Some(64_000_000));
    assert_eq!(SCAN_LARGE_DELETION_WORD_DIVISOR, 16);
}
