use ftl::config::{Config, ALL_BLOCKS, ALL_PAGES, CAPACITY, FREE_BLOCKS, INVALID_PAGE_ID};
use ftl::config::{PAGES_PER_BLOCK, PAGE_SIZE};

#[test]
fn standard_config_is_the_fixed_topology() {
    let c = Config::standard();
    assert_eq!(c.blocks, 16384);
    assert_eq!(c.pages_per_block, 1028);
    assert_eq!(c.free_blocks, 5);
    assert_eq!(c.blocks, ALL_BLOCKS);
    assert_eq!(c.pages_per_block, PAGES_PER_BLOCK);
    assert_eq!(c.free_blocks, FREE_BLOCKS);
    assert!(c.is_valid());
    assert_eq!(c.total_pages(), 16842752);
    assert_eq!(c.total_pages(), ALL_PAGES);
    assert_eq!(INVALID_PAGE_ID, usize::MAX);
}

#[test]
fn config_validity_edges() {
    let ok = Config { blocks: 4, pages_per_block: 1, free_blocks: 2 };
    assert!(ok.is_valid());
    assert!(!Config { blocks: 3, pages_per_block: 1, free_blocks: 2 }.is_valid());
    assert!(!Config { blocks: 4, pages_per_block: 0, free_blocks: 2 }.is_valid());
    assert!(!Config { blocks: 4, pages_per_block: 1, free_blocks: 1 }.is_valid());
    assert!(!Config { blocks: 1, pages_per_block: 1, free_blocks: 2 }.is_valid());
    assert!(!Config { blocks: usize::MAX, pages_per_block: 2, free_blocks: 2 }.is_valid());
    assert!(!Config { blocks: usize::MAX, pages_per_block: 1, free_blocks: 2 }.is_valid());
    assert!(Config { blocks: usize::MAX - 1, pages_per_block: 1, free_blocks: 2 }.is_valid());
}

#[test]
fn any_spare_up_to_all_pages_is_admitted() {
    let c = Config { blocks: 8, pages_per_block: 4, free_blocks: 2 };
    assert!(c.is_valid());
    assert_eq!(c.total_pages(), 32);
    assert!(c.admits_spare(0));
    assert!(c.admits_spare(12));
    assert!(c.admits_spare(32));
    assert!(!c.admits_spare(33));
    let std = Config::standard();
    assert!(std.admits_spare(0));
    assert!(std.admits_spare(16842752));
    assert!(!std.admits_spare(16842753));
}

#[test]
fn margin_exceeds_reserve_and_one_block() {
    let c = Config { blocks: 8, pages_per_block: 4, free_blocks: 2 };
    assert!(!c.has_margin(0));
    assert!(!c.has_margin(12));
    assert!(c.has_margin(13));
    assert!(c.has_margin(32));
    let std = Config::standard();
    assert!(!std.has_margin(6168));
    assert!(std.has_margin(6169));
    assert!(std.has_margin(1178992));
}

#[test]
fn capacity_is_pages_times_page_size() {
    assert_eq!(CAPACITY, 68987912192);
    assert_eq!(CAPACITY, ALL_PAGES as u64 * PAGE_SIZE as u64);
}
