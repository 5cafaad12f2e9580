use unrar_core::table::PLACEMENT_QUOTA;
use unrar_core::{AdaptiveSymbolTable, BitInput, Unpack};

#[test]
fn test_corr_huff_output() {
    let data: Vec<u8> = Vec::new();
    let mut unpack = Unpack::new(BitInput::new(&data), 1, 0);
    unpack.corr_huff();
    let mut i: usize = 0;
    while i < 5 {
        println!(
            "rank {} holds {:#04x}, counter {} = {}",
            i,
            unpack.table().lookup(i as u8),
            i,
            unpack.table().counter(i as u8)
        );
        i += 1;
    }
    let mut rank: usize = 0;
    while rank < 256 {
        assert_eq!(unpack.table().lookup(rank as u8), rank as u8);
        assert_eq!(unpack.table().counter(rank as u8), 0);
        rank += 1;
    }
}

#[test]
fn fresh_table_is_in_identity_order() {
    let table = AdaptiveSymbolTable::new();
    let mut rank: usize = 0;
    while rank < 256 {
        assert_eq!(table.lookup(rank as u8), rank as u8);
        assert_eq!(table.counter(rank as u8), 0);
        rank += 1;
    }
}

#[test]
fn promote_counts_the_literal_and_swaps_it_to_its_count() {
    let mut table = AdaptiveSymbolTable::new();
    // literal 7 at rank 7: count 1, changes places with rank 1
    table.promote(7);
    assert_eq!(table.counter(7), 1);
    assert_eq!(table.lookup(1), 7);
    assert_eq!(table.lookup(7), 1);
    // literal 7 now at rank 1: count 2, changes places with rank 2
    table.promote(1);
    assert_eq!(table.counter(7), 2);
    assert_eq!(table.lookup(2), 7);
    assert_eq!(table.lookup(1), 2);
    assert_eq!(table.lookup(7), 1);
    // literal 1 at rank 7: count 1, changes places with rank 1
    table.promote(7);
    assert_eq!(table.counter(1), 1);
    assert_eq!(table.lookup(1), 1);
    assert_eq!(table.lookup(7), 2);
    assert_eq!(table.lookup(0), 0);
    assert_eq!(table.counter(0), 0);
}

#[test]
fn promote_of_a_literal_at_its_own_count_leaves_the_order() {
    let mut table = AdaptiveSymbolTable::new();
    table.promote(1);
    assert_eq!(table.counter(1), 1);
    let mut rank: usize = 0;
    while rank < 256 {
        assert_eq!(table.lookup(rank as u8), rank as u8);
        rank += 1;
    }
}

#[test]
fn correct_resets_after_promotions() {
    let mut table = AdaptiveSymbolTable::new();
    table.promote(200);
    table.promote(3);
    table.promote(1);
    table.promote(200);
    // literal 3 was decoded twice and stands at rank 2; literal 200 at rank 3
    assert_eq!(table.lookup(2), 3);
    assert_eq!(table.lookup(3), 200);
    assert_eq!(table.lookup(200), 2);
    assert_eq!(table.counter(3), 2);
    table.correct();
    let mut rank: usize = 0;
    while rank < 256 {
        assert_eq!(table.lookup(rank as u8), rank as u8);
        assert_eq!(table.counter(rank as u8), 0);
        rank += 1;
    }
}

#[test]
fn counter_above_the_quota_corrects_the_table() {
    let mut table = AdaptiveSymbolTable::new();
    // literal 0 is promoted where it stands: after k promotions it has
    // count k and stands at rank k
    let mut k: u8 = 0;
    while k < PLACEMENT_QUOTA {
        table.promote(k);
        k += 1;
        assert_eq!(table.counter(0), k);
        assert_eq!(table.lookup(k), 0);
    }
    assert_eq!(table.counter(0), 0xA1);
    assert_eq!(table.lookup(0), 1);
    // one more takes the count above the quota
    table.promote(PLACEMENT_QUOTA);
    let mut rank: usize = 0;
    while rank < 256 {
        assert_eq!(table.lookup(rank as u8), rank as u8);
        assert_eq!(table.counter(rank as u8), 0);
        rank += 1;
    }
}

#[test]
fn promotions_keep_every_literal_in_the_table() {
    let mut table = AdaptiveSymbolTable::new();
    let mut step: usize = 0;
    while step < 5000 {
        table.promote(((step * 37 + step / 7) % 256) as u8);
        step += 1;
    }
    let mut seen: Vec<bool> = vec![false; 256];
    let mut rank: usize = 0;
    while rank < 256 {
        let literal: usize = table.lookup(rank as u8) as usize;
        assert!(!seen[literal]);
        seen[literal] = true;
        assert!(table.counter(rank as u8) <= PLACEMENT_QUOTA);
        rank += 1;
    }
}
