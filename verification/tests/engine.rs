use ftl::block::BlockState;
use ftl::config::{Config, ALL_BLOCKS, FREE_BLOCKS, PAGES_PER_BLOCK};
use ftl::ftl::{Ftl, WriteError};

fn small() -> Ftl {
    let config = Config { blocks: 8, pages_per_block: 4, free_blocks: 2 };
    assert!(config.is_valid());
    assert!(config.admits_spare(13));
    assert!(config.has_margin(13));
    Ftl::with_config(config, 13)
}

/// Checks on the running engine what the invariant states: both maps agree,
/// valid counts are the numbers of occupied slots, states fit the cursors,
/// only the two open roles are open, and the pools have the right sizes.
fn assert_consistent(fw: &Ftl) {
    let config = fw.config();
    let pages = config.pages_per_block;
    let mut mapped = 0;
    for lba in 0..fw.logical_size() {
        if let Some(page) = fw.lookup(lba) {
            mapped += 1;
            assert!(page < config.blocks * pages);
            let block = fw.block(page / pages);
            assert_eq!(block.lba_at(page % pages), Some(lba));
            assert!(block.state() != BlockState::Erased);
        }
    }
    let mut valid = 0;
    let mut erased = 0;
    let mut written = 0;
    for id in 0..config.blocks {
        let block = fw.block(id);
        assert_eq!(block.id(), id);
        assert_eq!(block.pages(), pages);
        let mut occupied = 0;
        for offset in 0..pages {
            if let Some(lba) = block.lba_at(offset) {
                occupied += 1;
                assert!(offset < block.cursor());
                assert!(lba < fw.logical_size());
                assert_eq!(fw.lookup(lba), Some(id * pages + offset));
            }
        }
        assert_eq!(block.valid_count(), occupied);
        assert_eq!(block.invalid_counter(), pages - occupied);
        assert!(block.valid_count() <= block.cursor());
        valid += occupied;
        match block.state() {
            BlockState::Erased => {
                assert_eq!(block.cursor(), 0);
                assert_eq!(occupied, 0);
                erased += 1;
            }
            BlockState::Open => {
                assert!(block.cursor() < pages);
                assert!(id == fw.host_open_block() || id == fw.gc_open_block());
            }
            BlockState::Written => {
                assert_eq!(block.cursor(), pages);
                if id != fw.host_open_block() && id != fw.gc_open_block() {
                    written += 1;
                }
            }
        }
    }
    assert_eq!(valid, mapped);
    assert!(fw.host_open_block() != fw.gc_open_block());
    assert_eq!(fw.free_len(), erased);
    assert_eq!(fw.full_len(), written);
    assert_eq!(fw.free_len() + fw.full_len() + 2, config.blocks);
    assert!(fw.free_len() >= config.free_blocks);
}

#[test]
fn writes_one_block() {
    let mut fw = Ftl::new_with_op(7);
    assert_eq!(fw.write(PAGES_PER_BLOCK), Ok(true));
    assert_eq!(fw.lookup(PAGES_PER_BLOCK), Some(0));
}

#[test]
fn writes_more_than_one_block() {
    let mut fw = Ftl::new_with_op(7);
    assert_eq!(fw.write(PAGES_PER_BLOCK * 2), Ok(true));
    assert_eq!(fw.lookup(PAGES_PER_BLOCK * 2), Some(0));
}

#[test]
fn writes_two_capacities_seq() {
    let mut fw = Ftl::new_with_op(7);

    assert_eq!(fw.write(fw.get_max_lba() - 1), Ok(true));
    assert_eq!(fw.write(fw.get_max_lba() - 1), Ok(true));
    let lba = fw.get_max_lba() - 1;
    assert_eq!(fw.lookup(lba), Some(1));
    assert_eq!(fw.block(0).lba_at(0), None);
    assert_eq!(fw.block(0).lba_at(1), Some(lba));
    assert_eq!(fw.block(0).valid_count(), 1);
}

#[test]
fn default_engine_has_no_logical_space() {
    let mut fw = Ftl::default();
    assert_eq!(fw.logical_size(), 0);
    assert_eq!(fw.config(), Config::standard());
    assert_eq!(fw.host_open_block(), 0);
    assert_eq!(fw.gc_open_block(), 1);
    assert_eq!(fw.free_len(), ALL_BLOCKS - 2);
    assert_eq!(fw.full_len(), 0);
    assert_eq!(fw.block(0).state(), BlockState::Open);
    assert_eq!(fw.block(1).state(), BlockState::Open);
    assert_eq!(fw.block(2).state(), BlockState::Erased);
    assert_eq!(fw.block(ALL_BLOCKS - 1).state(), BlockState::Erased);
    assert_eq!(fw.write(0), Err(WriteError::OutOfRange));
}

#[test]
fn seven_percent_leaves_the_rest_addressable() {
    let fw = Ftl::new_with_op(7);
    assert_eq!(fw.logical_size(), 15663760);
    assert_eq!(fw.get_max_lba(), 15663759);
    assert_eq!(fw.free_len(), 16382);
    assert!(fw.free_len() >= FREE_BLOCKS);
    assert_eq!(fw.lookup(0), None);
    assert_eq!(fw.lookup(15663759), None);
}

#[test]
fn whole_percentages_at_the_edges() {
    let all = Ftl::new_with_op(100);
    assert_eq!(all.logical_size(), 0);
    let one = Ftl::new_with_op(1);
    assert_eq!(one.logical_size(), 16842752 - 168427);
}

#[test]
fn first_write_goes_to_block_zero_offset_zero() {
    let mut fw = Ftl::new_with_op(7);
    assert_eq!(fw.write(0), Ok(true));
    assert_eq!(fw.lookup(0), Some(0));
    assert_eq!(fw.block(0).lba_at(0), Some(0));
    assert_eq!(fw.block(0).valid_count(), 1);
    assert_eq!(fw.block(0).cursor(), 1);
    assert_eq!(fw.host_open_block(), 0);
}

#[test]
fn rewrite_leaves_one_mapping() {
    let mut fw = Ftl::new_with_op(7);
    assert_eq!(fw.write(5), Ok(true));
    assert_eq!(fw.lookup(5), Some(0));
    assert_eq!(fw.block(0).valid_count(), 1);
    assert_eq!(fw.write(5), Ok(true));
    assert_eq!(fw.lookup(5), Some(1));
    assert_eq!(fw.block(0).lba_at(0), None);
    assert_eq!(fw.block(0).lba_at(1), Some(5));
    assert_eq!(fw.block(0).valid_count(), 1);
    assert_eq!(fw.block(0).cursor(), 2);
}

#[test]
fn host_block_is_written_at_its_last_page_and_replaced_at_the_next_write() {
    let mut fw = Ftl::new_with_op(7);
    for lba in 0..PAGES_PER_BLOCK {
        assert_eq!(fw.block(0).state(), BlockState::Open);
        assert_eq!(fw.write(lba), Ok(true));
        assert_eq!(fw.lookup(lba), Some(lba));
    }
    assert_eq!(fw.block(0).state(), BlockState::Written);
    assert_eq!(fw.block(0).valid_count(), PAGES_PER_BLOCK);
    assert_eq!(fw.host_open_block(), 0);
    assert_eq!(fw.full_len(), 0);
    assert_eq!(fw.free_len(), ALL_BLOCKS - 2);
    assert_eq!(fw.block(2).state(), BlockState::Erased);

    assert_eq!(fw.write(PAGES_PER_BLOCK), Ok(true));
    assert_eq!(fw.host_open_block(), 2);
    assert_eq!(fw.block(2).state(), BlockState::Open);
    assert_eq!(fw.block(0).state(), BlockState::Written);
    assert_eq!(fw.full_len(), 1);
    assert_eq!(fw.free_len(), ALL_BLOCKS - 3);
    assert_eq!(fw.lookup(PAGES_PER_BLOCK), Some(2 * PAGES_PER_BLOCK));
    assert_eq!(fw.block(2).lba_at(0), Some(PAGES_PER_BLOCK));
    assert_eq!(fw.gc_open_block(), 1);
}

#[test]
fn write_past_the_end_is_refused_and_changes_nothing() {
    let mut fw = Ftl::new_with_op(7);
    assert_eq!(fw.write(3), Ok(true));
    let size = fw.logical_size();
    assert_eq!(fw.write(size), Err(WriteError::OutOfRange));
    assert_eq!(fw.write(usize::MAX), Err(WriteError::OutOfRange));
    assert_eq!(fw.logical_size(), size);
    assert_eq!(fw.lookup(3), Some(0));
    assert_eq!(fw.block(0).cursor(), 1);
    assert_eq!(fw.block(0).valid_count(), 1);
    assert_eq!(fw.host_open_block(), 0);
    assert_eq!(fw.gc_open_block(), 1);
    assert_eq!(fw.free_len(), ALL_BLOCKS - 2);
    assert_eq!(fw.full_len(), 0);
    assert_eq!(fw.write(size - 1), Ok(true));
}

#[test]
fn small_engine_starts_well_formed() {
    let fw = small();
    assert_eq!(fw.logical_size(), 19);
    assert_eq!(fw.get_max_lba(), 18);
    assert_eq!(fw.free_len(), 6);
    assert_eq!(fw.full_len(), 0);
    assert_consistent(&fw);
}

#[test]
fn old_page_in_another_block_is_found_by_division() {
    let mut fw = small();
    for lba in 0..6 {
        assert_eq!(fw.write(lba), Ok(true));
    }
    assert_eq!(fw.host_open_block(), 2);
    assert_eq!(fw.lookup(5), Some(9));
    assert_eq!(fw.block(2).lba_at(1), Some(5));
    assert_eq!(fw.block(2).valid_count(), 2);
    assert_eq!(fw.write(5), Ok(true));
    assert_eq!(fw.lookup(5), Some(10));
    assert_eq!(fw.block(2).lba_at(1), None);
    assert_eq!(fw.block(2).lba_at(2), Some(5));
    assert_eq!(fw.block(2).valid_count(), 2);
    assert_eq!(fw.write(1), Ok(true));
    assert_eq!(fw.lookup(1), Some(11));
    assert_eq!(fw.block(0).lba_at(1), None);
    assert_eq!(fw.block(0).valid_count(), 3);
    assert_eq!(fw.block(2).valid_count(), 3);
    assert_eq!(fw.block(2).state(), BlockState::Written);
    assert_consistent(&fw);
}

#[test]
fn collecting_an_empty_victim_only_erases_it() {
    let mut fw = small();
    for _ in 0..5 {
        assert_eq!(fw.write(0), Ok(true));
    }
    assert_eq!(fw.full_len(), 1);
    assert_eq!(fw.block(0).valid_count(), 0);
    assert_eq!(fw.free_len(), 5);
    fw.gc();
    assert_eq!(fw.full_len(), 0);
    assert_eq!(fw.free_len(), 6);
    assert_eq!(fw.block(0).state(), BlockState::Erased);
    assert_eq!(fw.block(0).erase_count(), 1);
    assert_eq!(fw.block(0).cursor(), 0);
    assert_eq!(fw.block(1).cursor(), 0);
    assert_eq!(fw.lookup(0), Some(8));
    assert_consistent(&fw);
}

#[test]
fn collecting_copies_valid_pages_forward() {
    let mut fw = small();
    for lba in 0..4 {
        assert_eq!(fw.write(lba), Ok(true));
    }
    assert_eq!(fw.write(1), Ok(true));
    assert_eq!(fw.full_len(), 1);
    assert_eq!(fw.block(0).valid_count(), 3);
    fw.gc();
    assert_eq!(fw.block(0).state(), BlockState::Erased);
    assert_eq!(fw.block(0).valid_count(), 0);
    assert_eq!(fw.block(0).erase_count(), 1);
    assert_eq!(fw.gc_open_block(), 1);
    assert_eq!(fw.block(1).cursor(), 3);
    assert_eq!(fw.block(1).valid_count(), 3);
    assert_eq!(fw.block(1).lba_at(0), Some(0));
    assert_eq!(fw.block(1).lba_at(1), Some(2));
    assert_eq!(fw.block(1).lba_at(2), Some(3));
    assert_eq!(fw.lookup(0), Some(4));
    assert_eq!(fw.lookup(2), Some(5));
    assert_eq!(fw.lookup(3), Some(6));
    assert_eq!(fw.lookup(1), Some(8));
    assert_eq!(fw.free_len(), 6);
    assert_eq!(fw.full_len(), 0);
    assert_consistent(&fw);
}

#[test]
fn collecting_replaces_a_full_target() {
    let mut fw = small();
    for lba in 0..9 {
        assert_eq!(fw.write(lba), Ok(true));
    }
    assert_eq!(fw.full_len(), 2);
    assert_eq!(fw.free_len(), 4);
    fw.gc();
    assert_eq!(fw.gc_open_block(), 1);
    assert_eq!(fw.block(1).state(), BlockState::Written);
    assert_eq!(fw.full_len(), 1);
    assert_eq!(fw.free_len(), 5);
    assert_consistent(&fw);
    fw.gc();
    assert_eq!(fw.gc_open_block(), 4);
    assert_eq!(fw.block(4).state(), BlockState::Written);
    assert_eq!(fw.block(4).lba_at(0), Some(4));
    assert_eq!(fw.block(2).state(), BlockState::Erased);
    assert_eq!(fw.full_len(), 1);
    assert_eq!(fw.free_len(), 5);
    assert_eq!(fw.lookup(4), Some(16));
    assert_eq!(fw.lookup(0), Some(4));
    assert_consistent(&fw);
}

#[test]
fn free_pool_is_replenished_inside_write() {
    let mut fw = small();
    let mut collected = false;
    for round in 0..40 {
        for lba in 0..fw.logical_size() {
            assert_eq!(fw.write(lba), Ok(true));
            assert!(fw.free_len() >= 2);
            assert_consistent(&fw);
        }
        for id in 0..8 {
            if fw.block(id).erase_count() > 0 {
                collected = true;
            }
        }
        assert!(round < 1 || collected);
    }
    assert!(collected);
    for lba in 0..fw.logical_size() {
        assert!(fw.lookup(lba).is_some());
    }
}

#[test]
fn scattered_rewrites_keep_every_address_resolvable() {
    let config = Config { blocks: 12, pages_per_block: 5, free_blocks: 3 };
    assert!(config.is_valid());
    assert!(config.has_margin(21));
    let mut fw = Ftl::with_config(config, 21);
    assert_eq!(fw.logical_size(), 39);
    let mut state: u64 = 7;
    let mut written = vec![false; 39];
    for _ in 0..5000 {
        state = state.wrapping_mul(6364136223846793005).wrapping_add(1442695040888963407);
        let lba = ((state >> 33) % 39) as usize;
        assert_eq!(fw.write(lba), Ok(true));
        written[lba] = true;
        assert!(fw.free_len() >= 3);
        assert_consistent(&fw);
        for other in 0..39 {
            assert_eq!(fw.lookup(other).is_some(), written[other]);
        }
    }
}

#[test]
fn smallest_margin_still_terminates() {
    let config = Config { blocks: 4, pages_per_block: 1, free_blocks: 2 };
    assert!(config.is_valid());
    assert!(!config.has_margin(3));
    assert!(config.has_margin(4));
    let mut fw = Ftl::with_config(config, 4);
    assert_eq!(fw.logical_size(), 0);
    assert!(fw.has_margin());
    assert_eq!(fw.write(0), Err(WriteError::OutOfRange));
    let config = Config { blocks: 6, pages_per_block: 2, free_blocks: 2 };
    assert!(config.has_margin(7));
    let mut fw = Ftl::with_config(config, 7);
    assert_eq!(fw.logical_size(), 5);
    for i in 0..2000 {
        assert_eq!(fw.write((i * 3) % 5), Ok(true));
        assert_consistent(&fw);
    }
}

#[test]
fn repeated_write_of_one_address_leaks_nothing() {
    let mut fw = small();
    for lba in 0..19 {
        assert_eq!(fw.write(lba), Ok(true));
    }
    for _ in 0..200 {
        assert_eq!(fw.write(7), Ok(true));
        let mut valid = 0;
        let mut holders = 0;
        for id in 0..8 {
            valid += fw.block(id).valid_count();
            for offset in 0..4 {
                if fw.block(id).lba_at(offset) == Some(7) {
                    holders += 1;
                }
            }
        }
        assert_eq!(valid, 19);
        assert_eq!(holders, 1);
        assert_consistent(&fw);
    }
}

#[test]
fn last_but_one_address_twice() {
    let mut fw = small();
    let lba = fw.logical_size() - 2;
    assert_eq!(fw.write(lba), Ok(true));
    assert_eq!(fw.lookup(lba), Some(0));
    assert_eq!(fw.write(lba), Ok(true));
    assert_eq!(fw.lookup(lba), Some(1));
    assert_eq!(fw.block(0).lba_at(0), None);
    assert_eq!(fw.block(0).valid_count(), 1);
    assert_consistent(&fw);
}

#[test]
fn target_with_exact_room_is_kept() {
    let config = Config { blocks: 6, pages_per_block: 2, free_blocks: 2 };
    assert!(config.is_valid());
    assert!(config.has_margin(7));
    let mut fw = Ftl::with_config(config, 7);
    assert_eq!(fw.write(0), Ok(true));
    assert_eq!(fw.write(1), Ok(true));
    assert_eq!(fw.write(0), Ok(true));
    fw.gc();
    assert_eq!(fw.gc_open_block(), 1);
    assert_eq!(fw.block(1).cursor(), 1);
    assert_eq!(fw.write(2), Ok(true));
    assert_eq!(fw.write(2), Ok(true));
    assert_eq!(fw.block(2).lba_at(0), Some(0));
    assert_eq!(fw.block(2).lba_at(1), None);
    assert_eq!(fw.free_len(), 3);
    assert_eq!(fw.full_len(), 1);
    fw.gc();
    assert_eq!(fw.gc_open_block(), 1);
    assert_eq!(fw.free_len(), 4);
    assert_eq!(fw.full_len(), 0);
    assert_eq!(fw.block(1).state(), BlockState::Written);
    assert_eq!(fw.block(1).lba_at(0), Some(1));
    assert_eq!(fw.block(1).lba_at(1), Some(0));
    assert_eq!(fw.block(4).state(), BlockState::Erased);
    assert_eq!(fw.block(2).state(), BlockState::Erased);
    assert_eq!(fw.lookup(0), Some(3));
    assert_eq!(fw.lookup(1), Some(2));
    assert_eq!(fw.lookup(2), Some(6));
    assert_consistent(&fw);
}

#[test]
fn full_target_is_replaced_only_for_a_valid_page() {
    let config = Config { blocks: 6, pages_per_block: 2, free_blocks: 2 };
    let mut fw = Ftl::with_config(config, 7);
    for lba in [0, 1, 2, 3, 2] {
        assert_eq!(fw.write(lba), Ok(true));
    }
    assert_eq!(fw.full_len(), 2);
    assert_eq!(fw.free_len(), 2);
    fw.gc();
    assert_eq!(fw.gc_open_block(), 1);
    assert_eq!(fw.block(1).state(), BlockState::Written);
    assert_eq!(fw.free_len(), 3);
    assert_eq!(fw.full_len(), 1);
    fw.gc();
    assert_eq!(fw.gc_open_block(), 4);
    assert_eq!(fw.block(4).cursor(), 1);
    assert_eq!(fw.block(4).lba_at(0), Some(3));
    assert_eq!(fw.block(1).state(), BlockState::Written);
    assert_eq!(fw.free_len(), 3);
    assert_eq!(fw.full_len(), 1);
    assert_eq!(fw.lookup(3), Some(8));
    assert_consistent(&fw);
}

#[test]
fn zero_percent_leaves_every_page_addressable() {
    let mut fw = Ftl::new_with_op(0);
    assert_eq!(fw.logical_size(), 16842752);
    assert_eq!(fw.get_max_lba(), 16842751);
    assert!(!fw.has_margin());
    assert_eq!(fw.host_open_block(), 0);
    assert_eq!(fw.gc_open_block(), 1);
    assert_eq!(fw.free_len(), ALL_BLOCKS - 2);
    assert_eq!(fw.full_len(), 0);
    assert_eq!(fw.block(0).state(), BlockState::Open);
    assert_eq!(fw.block(1).state(), BlockState::Open);
    assert_eq!(fw.block(2).state(), BlockState::Erased);
    assert_eq!(fw.block(ALL_BLOCKS - 1).state(), BlockState::Erased);
    assert_eq!(fw.lookup(0), None);
    assert_eq!(fw.lookup(16842751), None);
    assert!(fw.ready_to_write());
    assert_eq!(fw.write(16842751), Ok(true));
    assert_eq!(fw.lookup(16842751), Some(0));
    assert_eq!(fw.write(16842752), Err(WriteError::OutOfRange));
}

#[test]
fn logical_size_follows_the_floor_formula() {
    let mut last = 16842752 + 1;
    for op in [0, 1, 7, 50, 99, 100] {
        let fw = Ftl::new_with_op(op);
        assert_eq!(fw.logical_size(), 16842752 - 16842752 * op / 100);
        assert!(fw.logical_size() < last);
        last = fw.logical_size();
        assert_eq!(fw.has_margin(), op >= 1);
        assert_eq!(fw.free_len(), ALL_BLOCKS - 2);
        assert_eq!(fw.full_len(), 0);
        assert_eq!(fw.host_open_block(), 0);
        assert_eq!(fw.gc_open_block(), 1);
    }
    assert_eq!(Ftl::new_with_op(99).logical_size(), 168428);
}

#[test]
fn engine_without_margin_serves_writes_until_it_must_collect() {
    let config = Config { blocks: 8, pages_per_block: 4, free_blocks: 2 };
    assert!(config.admits_spare(0));
    assert!(!config.has_margin(0));
    let mut fw = Ftl::with_config(config, 0);
    assert_eq!(fw.logical_size(), 32);
    assert!(!fw.has_margin());
    let mut served = 0;
    while fw.ready_to_write() {
        assert_eq!(fw.write(served), Ok(true));
        served += 1;
        assert_consistent(&fw);
    }
    assert_eq!(served, 20);
    assert_eq!(fw.free_len(), 2);
    assert_eq!(fw.full_len(), 4);
    assert_eq!(fw.host_open_block(), 5);
    assert_eq!(fw.block(5).state(), BlockState::Written);
    assert_eq!(fw.block(1).cursor(), 0);
}

#[test]
fn engine_with_margin_is_always_ready() {
    let mut fw = small();
    assert!(fw.has_margin());
    for i in 0..500 {
        assert!(fw.ready_to_write());
        assert_eq!(fw.write((i * 7) % 19), Ok(true));
    }
}
