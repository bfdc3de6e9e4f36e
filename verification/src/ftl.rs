//! The engine: the translation table, the block arena, the two pools and the
//! two open blocks, with host writes and garbage collection.

use std::collections::VecDeque;
use vstd::prelude::*;
use crate::arith::{div_rem, page_at, lemma_page_at_split, lemma_split_page_at};
use crate::block::{entries, lemma_occupied_none, Block, BlockState, BlockView};
use crate::config::{Addr, BlockId, Config, PageId};
use crate::config::{ALL_BLOCKS, ALL_PAGES, FREE_BLOCKS, INVALID_PAGE_ID, PAGES_PER_BLOCK};
use crate::model::FtlView;

verus! {

/// A pool as a sequence of block indices.
pub open spec fn ids(raw: Seq<usize>) -> Seq<nat> {
    Seq::new(raw.len(), |i: int| raw[i] as nat)
}

/// The blocks of an arena as mathematical values.
pub open spec fn block_views(blocks: Seq<Block>) -> Seq<BlockView> {
    Seq::new(blocks.len(), |b: int| blocks[b]@)
}

/// Why a write was refused.
#[derive(Clone, Copy, Debug, PartialEq, Eq, Structural)]
pub enum WriteError {
    /// The logical address is not below the logical size.
    OutOfRange,
}

pub struct Ftl {
    l2p: Vec<PageId>,
    logical_size: Addr,
    host_open_block_idx: BlockId,
    host_gc_open_block_idx: BlockId,
    free_blocks: VecDeque<BlockId>,
    full_blocks: VecDeque<BlockId>,
    all_blocks: Vec<Block>,
    config: Config,
}

impl View for Ftl {
    type V = FtlView;

    closed spec fn view(&self) -> FtlView {
        FtlView {
            pages: self.config.pages_per_block as nat,
            threshold: self.config.free_blocks as nat,
            l2p: entries(self.l2p@),
            blocks: block_views(self.all_blocks@),
            free: ids(self.free_blocks@),
            full: ids(self.full_blocks@),
            host: self.host_open_block_idx as nat,
            gc: self.host_gc_open_block_idx as nat,
        }
    }
}

impl Ftl {
    pub const INIT_HOST_OPEN_BLOCK: BlockId = 0;

    pub const INIT_GC_OPEN_BLOCK: BlockId = 1;

    /// The fields agree with each other and with the shape, and every page
    /// has an address.
    pub closed spec fn repr(&self) -> bool {
        &&& self.config.valid()
        &&& self.logical_size == self.l2p@.len()
        &&& self.all_blocks@.len() == self.config.blocks
    }

    /// The engine while `victim`, if any, is under collection.
    pub open spec fn inv_with(&self, victim: Option<nat>) -> bool {
        self.repr() && self@.inv_with(victim)
    }

    /// The engine between the steps of an operation.
    pub open spec fn inv(&self) -> bool {
        self.repr() && self@.inv()
    }

    /// The engine as every caller sees it.
    pub open spec fn wf(&self) -> bool {
        self.repr() && self@.wf()
    }

    /// An engine of the fixed topology with no logical space.
    pub fn default() -> (ftl: Self)
        ensures
            ftl.wf(),
            ftl@ == FtlView::initial(
                ALL_BLOCKS as nat,
                PAGES_PER_BLOCK as nat,
                FREE_BLOCKS as nat,
                0,
            ),
    {
        Self::with_config(Config::standard(), ALL_PAGES)
    }

    /// An engine of the fixed topology that withholds `op` percent of its
    /// pages, rounded down, from the logical space.
    pub fn new_with_op(op: usize) -> (ftl: Self)
        requires
            op <= 100,
        ensures
            ftl.wf(),
            ftl@.roomy() == (op >= 1),
            ftl@ == FtlView::initial(
                ALL_BLOCKS as nat,
                PAGES_PER_BLOCK as nat,
                FREE_BLOCKS as nat,
                (ALL_PAGES - ALL_PAGES * op / 100) as nat,
            ),
    {
        let op_pages: usize = ALL_PAGES * op / 100;
        Self::with_config(Config::standard(), op_pages)
    }

    /// An engine of the given shape that withholds `spare` pages from the
    /// logical space: blocks 0 and 1 are open, all others free, nothing is
    /// mapped.
    pub fn with_config(config: Config, spare: usize) -> (ftl: Self)
        requires
            config.valid(),
            config.admits(spare as nat),
        ensures
            ftl.wf(),
            ftl@.roomy() == config.margin(spare as nat),
            ftl@ == FtlView::initial(
                config.blocks as nat,
                config.pages_per_block as nat,
                config.free_blocks as nat,
                (config.pages() - spare) as nat,
            ),
    {
        let total: usize = config.total_pages();
        let logical_size: usize = total - spare;
        let pages: usize = config.pages_per_block;
        let mut all_blocks: Vec<Block> = Vec::new();
        let mut b: usize = 0;
        while b < config.blocks
            invariant
                b <= config.blocks,
                pages >= 1,
                all_blocks@.len() == b,
                forall|j: int|
                    0 <= j < b ==> (#[trigger] all_blocks@[j])@ == BlockView::fresh(
                        j as nat,
                        pages as nat,
                    ),
            decreases config.blocks - b,
        {
            all_blocks.push(Block::with_pages(b, pages));
            b += 1;
        }
        proof {
            BlockView::lemma_fresh_wf(0, pages as nat);
            BlockView::lemma_fresh_wf(1, pages as nat);
        }
        all_blocks[Self::INIT_HOST_OPEN_BLOCK].open();
        all_blocks[Self::INIT_GC_OPEN_BLOCK].open();
        let mut free_blocks: VecDeque<BlockId> = VecDeque::new();
        let mut f: usize = 2;
        while f < config.blocks
            invariant
                2 <= f <= config.blocks,
                free_blocks@.len() == f - 2,
                forall|i: int| 0 <= i < f - 2 ==> #[trigger] free_blocks@[i] == i + 2,
            decreases config.blocks - f,
        {
            free_blocks.push_back(f);
            f += 1;
        }
        let full_blocks: VecDeque<BlockId> = VecDeque::new();
        let l2p: Vec<PageId> = vec![INVALID_PAGE_ID; logical_size];
        let ftl = Ftl {
            l2p,
            logical_size,
            host_open_block_idx: Self::INIT_HOST_OPEN_BLOCK,
            host_gc_open_block_idx: Self::INIT_GC_OPEN_BLOCK,
            free_blocks,
            full_blocks,
            all_blocks,
            config,
        };
        proof {
            let init = FtlView::initial(
                config.blocks as nat,
                pages as nat,
                config.free_blocks as nat,
                logical_size as nat,
            );
            assert(ftl@.l2p =~= init.l2p);
            assert(ftl@.blocks =~= init.blocks);
            assert(ftl@.free =~= init.free);
            assert(ftl@.full =~= init.full);
            FtlView::lemma_initial_wf(
                config.blocks as nat,
                pages as nat,
                config.free_blocks as nat,
                logical_size as nat,
            );
        }
        ftl
    }

    /// The largest logical address.
    pub fn get_max_lba(&self) -> (max: Addr)
        requires
            self.wf(),
            self@.logical_size() >= 1,
        ensures
            max == self@.logical_size() - 1,
    {
        self.logical_size - 1
    }

    /// Whether the logical space leaves collection enough spare pages to
    /// serve every write.
    pub fn has_margin(&self) -> (ok: bool)
        requires
            self.wf(),
        ensures
            ok == self@.roomy(),
    {
        let total: usize = self.config.total_pages();
        proof {
            assert((self.config.free_blocks + 1) * self.config.pages_per_block
                <= self.config.blocks * self.config.pages_per_block) by (nonlinear_arith)
                requires
                    self.config.free_blocks + 1 <= self.config.blocks,
            ;
        }
        let reserve: usize = (self.config.free_blocks + 1) * self.config.pages_per_block;
        self.logical_size < total - reserve
    }

    /// A test that a write can be served, for callers that cannot reason
    /// about collection: the engine has its margin, or this write needs no
    /// collection.
    pub fn ready_to_write(&self) -> (ok: bool)
        requires
            self.wf(),
        ensures
            ok == (self@.roomy() || !self@.needs_collection()),
            ok ==> self@.can_write(),
    {
        self.has_margin() || !self.all_blocks[self.host_open_block_idx].full()
            || self.free_blocks.len() > self.config.free_blocks
    }

    /// Number of logical addresses.
    pub fn logical_size(&self) -> (size: Addr)
        requires
            self.wf(),
        ensures
            size == self@.logical_size(),
    {
        self.logical_size
    }

    /// The shape the engine was built with.
    pub fn config(&self) -> (config: Config)
        requires
            self.wf(),
        ensures
            config.valid(),
            config.blocks == self@.blocks.len(),
            config.pages_per_block == self@.pages,
            config.free_blocks == self@.threshold,
    {
        self.config
    }

    /// The physical address `lba` maps to, if it is mapped.
    pub fn lookup(&self, lba: PageId) -> (page: Option<PageId>)
        requires
            self.wf(),
            lba < self@.logical_size(),
        ensures
            match page {
                Some(p) => self@.l2p[lba as int] == Some(p as nat),
                None => self@.l2p[lba as int].is_none(),
            },
    {
        let raw: usize = self.l2p[lba];
        if raw == INVALID_PAGE_ID {
            None
        } else {
            Some(raw)
        }
    }

    /// The block with index `id`.
    pub fn block(&self, id: BlockId) -> (block: &Block)
        requires
            self.wf(),
            id < self@.blocks.len(),
        ensures
            block@ == self@.blocks[id as int],
    {
        &self.all_blocks[id]
    }

    pub fn free_len(&self) -> (len: usize)
        ensures
            len == self@.free.len(),
    {
        self.free_blocks.len()
    }

    pub fn full_len(&self) -> (len: usize)
        ensures
            len == self@.full.len(),
    {
        self.full_blocks.len()
    }

    pub fn host_open_block(&self) -> (id: BlockId)
        ensures
            id == self@.host,
    {
        self.host_open_block_idx
    }

    pub fn gc_open_block(&self) -> (id: BlockId)
        ensures
            id == self@.gc,
    {
        self.host_gc_open_block_idx
    }

    /// Takes the oldest free block out of its pool.
    fn get_next_free_block(&mut self) -> (id: BlockId)
        requires
            old(self)@.free.len() >= 1,
        ensures
            id == old(self)@.free[0],
            final(self)@ == (FtlView { free: old(self)@.free.drop_first(), ..old(self)@ }),
            final(self).repr() == old(self).repr(),
    {
        let id: usize = self.free_blocks.pop_front().unwrap();
        proof {
            assert(self@.free =~= old(self)@.free.drop_first());
        }
        id
    }

    /// Puts a written block at the back of the full pool.
    fn put_full_block(&mut self, block_id: BlockId)
        ensures
            final(self)@ == (FtlView { full: old(self)@.full.push(block_id as nat), ..old(self)@ }),
            final(self).repr() == old(self).repr(),
    {
        self.full_blocks.push_back(block_id);
        proof {
            assert(self@.full =~= old(self)@.full.push(block_id as nat));
        }
    }

    /// Puts an erased block at the back of the free pool.
    fn put_empty_block(&mut self, block_id: BlockId)
        ensures
            final(self)@ == (FtlView { free: old(self)@.free.push(block_id as nat), ..old(self)@ }),
            final(self).repr() == old(self).repr(),
    {
        self.free_blocks.push_back(block_id);
        proof {
            assert(self@.free =~= old(self)@.free.push(block_id as nat));
        }
    }

    /// Takes the oldest full block out of its pool.
    fn get_next_full_block(&mut self) -> (id: BlockId)
        requires
            old(self)@.full.len() >= 1,
        ensures
            id == old(self)@.full[0],
            final(self)@ == old(self)@.detach(),
            final(self).repr() == old(self).repr(),
    {
        let id: usize = self.full_blocks.pop_front().unwrap();
        proof {
            assert(self@.full =~= old(self)@.full.drop_first());
        }
        id
    }

    /// Opens an erased block for writing.
    fn open_block(&mut self, block_id: BlockId)
        requires
            old(self).repr(),
            block_id < old(self)@.blocks.len(),
            old(self)@.blocks[block_id as int].wf(),
            old(self)@.blocks[block_id as int].state == BlockState::Erased,
        ensures
            final(self)@ == (FtlView {
                blocks: old(self)@.blocks.update(
                    block_id as int,
                    old(self)@.blocks[block_id as int].opened(),
                ),
                ..old(self)@
            }),
            final(self).repr(),
    {
        self.all_blocks[block_id].open();
        proof {
            assert(self@.blocks =~= old(self)@.blocks.update(
                block_id as int,
                old(self)@.blocks[block_id as int].opened(),
            ));
        }
    }
}


impl Ftl {
    /// Retires the written open block named by `for_gc` to the full pool and
    /// opens the oldest free block in its place.
    fn rotate(&mut self, for_gc: bool, Ghost(victim): Ghost<Option<nat>>)
        requires
            old(self).inv_with(victim),
            old(self)@.blocks[old(self)@.open_block(for_gc) as int].state == BlockState::Written,
            old(self)@.free.len() >= 1,
        ensures
            final(self)@ == old(self)@.rotate(for_gc),
            final(self).inv_with(victim),
    {
        proof {
            self@.lemma_rotate(for_gc, victim);
            assert(self@.free.contains(self@.free[0]));
        }
        let done: usize = if for_gc {
            self.host_gc_open_block_idx
        } else {
            self.host_open_block_idx
        };
        self.put_full_block(done);
        let next: usize = self.get_next_free_block();
        self.open_block(next);
        if for_gc {
            self.host_gc_open_block_idx = next;
        } else {
            self.host_open_block_idx = next;
        }
    }

    /// Moves the valid page that holds `lba`, at `offset` of `victim`, to the
    /// collection target.
    fn relocate(&mut self, victim: BlockId, offset: PageId, lba: PageId)
        requires
            old(self).inv_with(Some(victim as nat)),
            offset < old(self)@.pages,
            old(self)@.blocks[victim as int].slots[offset as int] == Some(lba as nat),
            old(self)@.blocks[old(self)@.gc as int].state == BlockState::Open,
        ensures
            final(self)@ == old(self)@.relocate(lba as nat),
            final(self).inv_with(Some(victim as nat)),
    {
        let ghost pre = self@;
        let ghost mid = pre.invalidate(lba as nat);
        let gc: usize = self.host_gc_open_block_idx;
        proof {
            assert(pre.blocks[victim as int].slots[offset as int].is_some());
            assert(pre.l2p[lba as int] == Some(page_at(victim as nat, offset as nat, pre.pages)));
            lemma_split_page_at(victim as nat, offset as nat, pre.pages);
            pre.lemma_invalidate(lba as nat, Some(victim as nat));
            mid.lemma_program(mid.gc, lba as nat, Some(victim as nat));
            assert(mid.blocks[gc as int] == pre.blocks[gc as int]);
            assert(pre.blocks[gc as int].wf());
            assert(pre.blocks[victim as int].wf());
        }
        let page: usize = self.all_blocks[gc].get_physical_for_following_page();
        self.l2p[lba] = page;
        self.all_blocks[gc].write_one_page(lba);
        self.all_blocks[victim].invalidate_page(offset);
        proof {
            let post = mid.program(mid.gc, lba as nat);
            assert(self@.l2p =~= post.l2p);
            assert(self@.blocks =~= post.blocks);
        }
    }

    /// One cycle of garbage collection: the oldest full block is emptied into
    /// the collection target, erased, and put at the back of the free pool.
    ///
    /// An unmapped slot of the victim is passed over. For a valid page, a
    /// full target is first retired to the full pool and the oldest free
    /// block opened in its place; that happens at most once in a cycle, and
    /// only if the target has no room for all the victim holds.
    pub fn gc(&mut self)
        requires
            old(self).inv(),
            old(self)@.collectable(),
        ensures
            final(self).inv(),
            final(self)@ == old(self)@.collect(),
    {
        proof {
            self@.lemma_detach();
            self@.lemma_collect();
        }
        let victim: usize = self.get_next_full_block();
        let ghost s0 = self@;
        if self.all_blocks[victim].no_valid_pages() {
            proof {
                assert(s0.blocks[victim as int].wf());
            }
            self.all_blocks[victim].erase();
            proof {
                assert(self@.blocks =~= s0.blocks.update(
                    victim as int,
                    s0.blocks[victim as int].erased(),
                ));
            }
            self.put_empty_block(victim);
            return;
        }
        let pages: usize = self.config.pages_per_block;
        let mut offset: usize = 0;
        proof {
            s0.lemma_copy_forward(victim as nat, 0);
        }
        while offset < pages
            invariant
                offset <= pages,
                pages == s0.pages,
                s0.inv_with(Some(victim as nat)),
                s0.free.len() >= 1 || s0.blocks[victim as int].valid + s0.blocks[s0.gc as int].cursor
                    <= s0.pages,
                self.repr(),
                self@ == s0.copy_forward(victim as nat, offset as nat),
                s0.copying(self@, victim as nat, offset as nat),
            decreases pages - offset,
        {
            let ghost before = self@;
            proof {
                s0.lemma_copy_step(before, victim as nat, offset as nat);
                assert(before.blocks[before.gc as int].wf());
                assert(before.blocks[victim as int].wf());
            }
            match self.all_blocks[victim].lba_at(offset) {
                Some(lba) => {
                    if self.all_blocks[self.host_gc_open_block_idx].full() {
                        self.rotate(true, Ghost(Some(victim as nat)));
                    }
                    proof {
                        assert(self@.blocks[self@.gc as int].wf());
                        assert(self@.blocks[victim as int] == before.blocks[victim as int]);
                    }
                    self.relocate(victim, offset, lba);
                },
                None => {},
            }
            offset += 1;
        }
        proof {
            let s = self@;
            lemma_occupied_none(s.blocks[victim as int].slots);
            assert(s.blocks[victim as int].wf());
        }
        let ghost s = self@;
        self.all_blocks[victim].erase();
        proof {
            assert(self@.blocks =~= s.blocks.update(
                victim as int,
                s.blocks[victim as int].erased(),
            ));
        }
        self.put_empty_block(victim);
    }

    /// Writes one page of the host at the logical address `lba`.
    ///
    /// An address at or beyond the logical size is refused and nothing
    /// changes. Otherwise the write succeeds: a full host block is replaced,
    /// the free pool is replenished by collection, the page that held `lba`
    /// before is invalidated, and `lba` is written to the host's open block.
    ///
    /// The engine must be one whose free pool collection can replenish. An
    /// engine with its margin of spare pages always is; of any other,
    /// `ready_to_write` tells whether this write needs no collection.
    pub fn write(&mut self, lba: usize) -> (r: Result<bool, WriteError>)
        requires
            old(self).wf(),
            old(self)@.can_write(),
        ensures
            final(self).wf(),
            lba >= old(self)@.logical_size() ==> r == Err::<bool, WriteError>(WriteError::OutOfRange)
                && *final(self) == *old(self),
            lba < old(self)@.logical_size() ==> r == Ok::<bool, WriteError>(true) && final(self)@
                == old(self)@.write(lba as nat),
    {
        if lba >= self.logical_size {
            return Err(WriteError::OutOfRange);
        }
        proof {
            self@.lemma_staged();
            self@.lemma_prepare();
            self@.lemma_write(lba as nat);
            assert(self@.blocks[self@.host as int].wf());
        }
        if self.all_blocks[self.host_open_block_idx].full() {
            self.rotate(false, Ghost(None));
        }
        let ghost goal = old(self)@.prepare();
        let ghost mut cycles: nat = choose|cycles: nat| self@.replenishes_in(cycles);
        while self.free_blocks.len() < self.config.free_blocks
            invariant
                self.inv(),
                self@.free.len() >= 1,
                self@.replenishes_in(cycles),
                self@.replenish_in(cycles) == goal,
            decreases cycles,
        {
            proof {
                self@.lemma_collect_under_threshold();
            }
            self.gc();
            proof {
                cycles = (cycles - 1) as nat;
            }
        }
        proof {
            assert(self@ == goal);
        }
        let pages: usize = self.config.pages_per_block;
        let old_page: usize = self.l2p[lba];
        let ghost cleared = if goal.l2p[lba as int].is_some() {
            goal.invalidate(lba as nat)
        } else {
            goal
        };
        if old_page != INVALID_PAGE_ID {
            proof {
                goal.lemma_invalidate(lba as nat, None);
                lemma_page_at_split(old_page as nat, goal.blocks.len(), goal.pages);
            }
            let (block_id, page_id) = div_rem(old_page, pages);
            self.all_blocks[block_id].invalidate_page(page_id);
        }
        let host: usize = self.host_open_block_idx;
        proof {
            assert(self@.blocks[host as int] == cleared.blocks[host as int]);
            assert(cleared.blocks[host as int].state == BlockState::Open);
            if goal.l2p[lba as int].is_some() {
                assert(cleared.inv());
            }
            cleared.lemma_program(cleared.host, lba as nat, None);
            assert(cleared.blocks[host as int].wf());
        }
        let page: usize = self.all_blocks[host].get_physical_for_following_page();
        self.l2p[lba] = page;
        self.all_blocks[host].write_one_page(lba);
        proof {
            let post = cleared.program(cleared.host, lba as nat);
            assert(self@.l2p =~= post.l2p);
            assert(self@.blocks =~= post.blocks);
        }
        Ok(true)
    }
}

} // verus!
