use ftl::block::{Block, BlockState};
use ftl::config::PAGES_PER_BLOCK;

#[test]
fn new_block_is_erased_and_empty() {
    let b = Block::new(3);
    assert_eq!(b.id(), 3);
    assert_eq!(b.state(), BlockState::Erased);
    assert_eq!(b.cursor(), 0);
    assert_eq!(b.valid_count(), 0);
    assert_eq!(b.erase_count(), 0);
    assert_eq!(b.pages(), PAGES_PER_BLOCK);
    assert_eq!(b.invalid_counter(), PAGES_PER_BLOCK);
    assert!(!b.full());
    assert!(b.no_valid_pages());
    for offset in 0..PAGES_PER_BLOCK {
        assert_eq!(b.lba_at(offset), None);
    }
}

#[test]
fn block_with_pages_has_that_many_slots() {
    let b = Block::with_pages(0, 4);
    assert_eq!(b.pages(), 4);
    assert_eq!(b.invalid_counter(), 4);
    assert_eq!(b.lba_at(3), None);
}

#[test]
fn next_page_address_is_id_times_pages_plus_cursor() {
    let mut b = Block::with_pages(7, 4);
    assert_eq!(b.get_physical_for_following_page(), 28);
    b.open();
    b.write_one_page(100);
    assert_eq!(b.get_physical_for_following_page(), 29);
    b.write_one_page(101);
    b.write_one_page(102);
    assert_eq!(b.get_physical_for_following_page(), 31);
    let big = Block::new(2);
    assert_eq!(big.get_physical_for_following_page(), 2056);
}

#[test]
fn write_one_page_records_and_advances() {
    let mut b = Block::with_pages(1, 3);
    b.open();
    assert_eq!(b.state(), BlockState::Open);
    b.write_one_page(42);
    assert_eq!(b.cursor(), 1);
    assert_eq!(b.valid_count(), 1);
    assert_eq!(b.invalid_counter(), 2);
    assert_eq!(b.lba_at(0), Some(42));
    assert_eq!(b.lba_at(1), None);
    assert_eq!(b.state(), BlockState::Open);
    assert!(!b.full());
    assert!(!b.no_valid_pages());
}

#[test]
fn last_page_makes_the_block_written() {
    let mut b = Block::with_pages(0, 2);
    b.open();
    b.write_one_page(9);
    assert_eq!(b.state(), BlockState::Open);
    b.write_one_page(8);
    assert_eq!(b.state(), BlockState::Written);
    assert!(b.full());
    assert_eq!(b.cursor(), 2);
    assert_eq!(b.valid_count(), 2);
    assert_eq!(b.invalid_counter(), 0);
    assert_eq!(b.lba_at(0), Some(9));
    assert_eq!(b.lba_at(1), Some(8));
}

#[test]
fn invalidate_page_clears_one_slot() {
    let mut b = Block::with_pages(0, 3);
    b.open();
    b.write_one_page(5);
    b.write_one_page(6);
    b.invalidate_page(0);
    assert_eq!(b.lba_at(0), None);
    assert_eq!(b.lba_at(1), Some(6));
    assert_eq!(b.valid_count(), 1);
    assert_eq!(b.cursor(), 2);
    assert_eq!(b.state(), BlockState::Open);
    assert_eq!(b.invalid_counter(), 2);
}

#[test]
fn erase_resets_cursor_and_counts_the_erasure() {
    let mut b = Block::with_pages(0, 2);
    b.open();
    b.write_one_page(1);
    b.write_one_page(2);
    b.invalidate_page(0);
    b.invalidate_page(1);
    assert!(b.no_valid_pages());
    b.erase();
    assert_eq!(b.state(), BlockState::Erased);
    assert_eq!(b.cursor(), 0);
    assert_eq!(b.valid_count(), 0);
    assert_eq!(b.erase_count(), 1);
    assert_eq!(b.lba_at(0), None);
    assert_eq!(b.lba_at(1), None);
    b.open();
    b.write_one_page(3);
    b.write_one_page(4);
    b.invalidate_page(0);
    b.invalidate_page(1);
    b.erase();
    assert_eq!(b.erase_count(), 2);
    assert_eq!(b.id(), 0);
}
