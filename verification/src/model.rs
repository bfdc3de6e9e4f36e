//! The engine as a mathematical state machine: its state, the invariant that
//! ties the translation table to the reverse maps and the pools to the block
//! states, and the steps that writing and collecting are made of.

use vstd::prelude::*;
use crate::arith::{block_of, offset_of, page_at};
use crate::arith::{lemma_page_at_bound, lemma_page_at_split, lemma_split_page_at};
use crate::block::{occupied, BlockState, BlockView};
use crate::block::{lemma_occupied_none, lemma_occupied_update};
use crate::pool::{lemma_drop_first_contains, lemma_drop_first_no_duplicates};
use crate::pool::{lemma_push_contains, lemma_push_no_duplicates};

verus! {

/// Sum of the valid counts of a sequence of blocks.
pub open spec fn total_valid(blocks: Seq<BlockView>) -> nat
    decreases blocks.len(),
{
    if blocks.len() == 0 {
        0
    } else {
        total_valid(blocks.drop_last()) + blocks.last().valid
    }
}

pub proof fn lemma_total_valid_update(blocks: Seq<BlockView>, i: int, b: BlockView)
    requires
        0 <= i < blocks.len(),
    ensures
        total_valid(blocks.update(i, b)) + blocks[i].valid == total_valid(blocks) + b.valid,
    decreases blocks.len(),
{
    let t = blocks.update(i, b);
    if i == blocks.len() - 1 {
        assert(t.drop_last() =~= blocks.drop_last());
    } else {
        assert(t.drop_last() =~= blocks.drop_last().update(i, b));
        lemma_total_valid_update(blocks.drop_last(), i, b);
    }
}

pub proof fn lemma_total_valid_zero(blocks: Seq<BlockView>)
    requires
        forall|i: int| 0 <= i < blocks.len() ==> (#[trigger] blocks[i]).valid == 0,
    ensures
        total_valid(blocks) == 0,
    decreases blocks.len(),
{
    if blocks.len() > 0 {
        lemma_total_valid_zero(blocks.drop_last());
    }
}

/// Distinct blocks that are all completely valid hold together as many valid
/// pages as their number times the block size, and the array holds no fewer.
pub proof fn lemma_total_valid_lower(blocks: Seq<BlockView>, ids: Seq<nat>, pages: nat)
    requires
        ids.no_duplicates(),
        forall|i: int| 0 <= i < ids.len() ==> (#[trigger] ids[i]) < blocks.len(),
        forall|i: int| 0 <= i < ids.len() ==> blocks[(#[trigger] ids[i]) as int].valid == pages,
    ensures
        total_valid(blocks) >= ids.len() * pages,
    decreases blocks.len(),
{
    if blocks.len() == 0 {
        if ids.len() > 0 {
            assert(ids[0] < blocks.len());
        }
        assert(ids.len() * pages == 0) by (nonlinear_arith)
            requires
                ids.len() == 0,
        ;
    } else {
        let last = (blocks.len() - 1) as nat;
        let rest = blocks.drop_last();
        if ids.contains(last) {
            let k = choose|k: int| 0 <= k < ids.len() && ids[k] == last;
            let others = ids.remove(k);
            assert forall|i: int| 0 <= i < others.len() implies (#[trigger] others[i]) < rest.len()
                && rest[others[i] as int].valid == pages by {
                let j = if i < k { i } else { i + 1 };
                assert(others[i] == ids[j]);
                assert(ids[j] != ids[k]);
            }
            assert(others.no_duplicates()) by {
                assert forall|i: int, j: int|
                    0 <= i < others.len() && 0 <= j < others.len() && i != j implies others[i]
                    != others[j] by {
                    let i2 = if i < k { i } else { i + 1 };
                    let j2 = if j < k { j } else { j + 1 };
                    assert(others[i] == ids[i2]);
                    assert(others[j] == ids[j2]);
                }
            }
            lemma_total_valid_lower(rest, others, pages);
            assert(blocks.last().valid == pages) by {
                assert(blocks[ids[k] as int].valid == pages);
            }
            assert(ids.len() * pages == others.len() * pages + pages) by (nonlinear_arith)
                requires
                    ids.len() == others.len() + 1,
            ;
        } else {
            assert forall|i: int| 0 <= i < ids.len() implies (#[trigger] ids[i]) < rest.len()
                && rest[ids[i] as int].valid == pages by {
                assert(ids.contains(ids[i]));
            }
            lemma_total_valid_lower(rest, ids, pages);
        }
    }
}

/// The state of an engine.
pub struct FtlView {
    /// Pages per block.
    pub pages: nat,
    /// Size the free pool is replenished to.
    pub threshold: nat,
    /// Logical address to physical address, where mapped.
    pub l2p: Seq<Option<nat>>,
    pub blocks: Seq<BlockView>,
    /// Erased blocks, oldest first.
    pub free: Seq<nat>,
    /// Written blocks, oldest first.
    pub full: Seq<nat>,
    /// Block that takes host writes.
    pub host: nat,
    /// Block that takes the pages collection copies forward.
    pub gc: nat,
}

impl FtlView {
    pub open spec fn logical_size(self) -> nat {
        self.l2p.len()
    }

    /// The pool of erased blocks is at its threshold.
    pub open spec fn replenished(self) -> bool {
        self.free.len() >= self.threshold
    }

    /// Blocks are not empty, the reserve lets a collection target be
    /// replaced, and both open blocks exist beside the reserve.
    pub open spec fn shape_ok(self) -> bool {
        &&& self.pages >= 1
        &&& self.threshold >= 2
        &&& self.blocks.len() >= self.threshold + 2
    }

    /// The logical space leaves more spare pages than the reserve and one
    /// further block hold. Collection under the threshold then always finds
    /// garbage, whatever was written.
    pub open spec fn roomy(self) -> bool {
        self.l2p.len() + (self.threshold + 1) * self.pages < self.blocks.len() * self.pages
    }

    pub open spec fn blocks_ok(self) -> bool {
        forall|b: int|
            0 <= b < self.blocks.len() ==> {
                &&& (#[trigger] self.blocks[b]).wf()
                &&& self.blocks[b].pages() == self.pages
                &&& self.blocks[b].id == b
            }
    }

    /// Each block is in exactly one place: the free pool, the full pool, one
    /// of the two open roles, or under collection as `victim`; and its state
    /// fits the place.
    pub open spec fn roles_ok(self, victim: Option<nat>) -> bool {
        let n = self.blocks.len();
        &&& self.host < n
        &&& self.gc < n
        &&& self.host != self.gc
        &&& self.blocks[self.host as int].state != BlockState::Erased
        &&& self.blocks[self.gc as int].state != BlockState::Erased
        &&& self.free.no_duplicates()
        &&& self.full.no_duplicates()
        &&& forall|i: int|
            0 <= i < self.free.len() ==> {
                &&& (#[trigger] self.free[i]) < n
                &&& self.free[i] != self.host
                &&& self.free[i] != self.gc
                &&& self.blocks[self.free[i] as int].state == BlockState::Erased
            }
        &&& forall|i: int|
            0 <= i < self.full.len() ==> {
                &&& (#[trigger] self.full[i]) < n
                &&& self.full[i] != self.host
                &&& self.full[i] != self.gc
                &&& self.blocks[self.full[i] as int].state == BlockState::Written
            }
        &&& match victim {
            Some(v) => {
                &&& v < n
                &&& v != self.host
                &&& v != self.gc
                &&& !self.free.contains(v)
                &&& !self.full.contains(v)
                &&& self.blocks[v as int].state == BlockState::Written
                &&& self.free.len() + self.full.len() + 3 == n
            },
            None => self.free.len() + self.full.len() + 2 == n,
        }
        &&& forall|b: nat|
            b < n ==> b == self.host || b == self.gc || victim == Some(b) || self.free.contains(b)
                || #[trigger] self.full.contains(b)
    }

    /// The translation table and the reverse maps say the same: a logical
    /// address maps to a page exactly when that page holds the address.
    pub open spec fn maps_ok(self) -> bool {
        &&& forall|lba: int|
            0 <= lba < self.l2p.len() && (#[trigger] self.l2p[lba]).is_some() ==> {
                let page = self.l2p[lba].unwrap();
                &&& page < self.blocks.len() * self.pages
                &&& self.blocks[block_of(page, self.pages) as int].slots[offset_of(
                    page,
                    self.pages,
                ) as int] == Some(lba as nat)
            }
        &&& forall|b: int, o: int|
            0 <= b < self.blocks.len() && 0 <= o < self.pages && (
            #[trigger] self.blocks[b].slots[o]).is_some() ==> {
                let lba = self.blocks[b].slots[o].unwrap();
                &&& lba < self.l2p.len()
                &&& self.l2p[lba as int] == Some(page_at(b as nat, o as nat, self.pages))
            }
    }

    /// No valid page is unaccounted for.
    pub open spec fn counts_ok(self) -> bool {
        total_valid(self.blocks) == occupied(self.l2p)
    }

    /// The invariant while `victim`, if any, is under collection.
    pub open spec fn inv_with(self, victim: Option<nat>) -> bool {
        &&& self.shape_ok()
        &&& self.blocks_ok()
        &&& self.roles_ok(victim)
        &&& self.maps_ok()
        &&& self.counts_ok()
    }

    /// The invariant between operations.
    pub open spec fn inv(self) -> bool {
        self.inv_with(None)
    }

    /// The state every caller sees: the invariant holds and the free pool is
    /// at its threshold.
    pub open spec fn wf(self) -> bool {
        self.inv() && self.replenished()
    }

    /// A new engine: blocks 0 and 1 open for the host and for collection, all
    /// others erased and free in ascending order, nothing mapped.
    pub open spec fn initial(blocks: nat, pages: nat, threshold: nat, logical_size: nat) -> FtlView {
        FtlView {
            pages,
            threshold,
            l2p: Seq::new(logical_size, |i: int| None),
            blocks: Seq::new(
                blocks,
                |b: int|
                    if b < 2 {
                        BlockView::fresh(b as nat, pages).opened()
                    } else {
                        BlockView::fresh(b as nat, pages)
                    },
            ),
            free: Seq::new((blocks - 2) as nat, |i: int| (i + 2) as nat),
            full: Seq::empty(),
            host: 0,
            gc: 1,
        }
    }

    pub proof fn lemma_initial_wf(blocks: nat, pages: nat, threshold: nat, logical_size: nat)
        requires
            pages >= 1,
            threshold >= 2,
            blocks >= threshold + 2,
        ensures
            Self::initial(blocks, pages, threshold, logical_size).wf(),
    {
        let s = Self::initial(blocks, pages, threshold, logical_size);
        assert forall|b: int| 0 <= b < s.blocks.len() implies (#[trigger] s.blocks[b]).wf()
            && s.blocks[b].pages() == pages && s.blocks[b].id == b && s.blocks[b].valid == 0 by {
            BlockView::lemma_fresh_wf(b as nat, pages);
        }
        assert forall|b: nat| b < blocks implies b == s.host || b == s.gc || s.free.contains(b)
            || #[trigger] s.full.contains(b) by {
            if b >= 2 {
                assert(s.free[b - 2] == b);
            }
        }
        lemma_total_valid_zero(s.blocks);
        lemma_occupied_none(s.l2p);
    }
}


/// The steps.
impl FtlView {
    /// The open block named by `for_gc`.
    pub open spec fn open_block(self, for_gc: bool) -> nat {
        if for_gc {
            self.gc
        } else {
            self.host
        }
    }

    /// A full open block goes to the back of the full pool, and the oldest
    /// free block is opened in its place.
    pub open spec fn rotate(self, for_gc: bool) -> FtlView {
        let next = self.free[0];
        FtlView {
            full: self.full.push(self.open_block(for_gc)),
            host: if for_gc {
                self.host
            } else {
                next
            },
            gc: if for_gc {
                next
            } else {
                self.gc
            },
            free: self.free.drop_first(),
            blocks: self.blocks.update(next as int, self.blocks[next as int].opened()),
            ..self
        }
    }

    /// The page that holds `lba` loses it, and `lba` is unmapped.
    pub open spec fn invalidate(self, lba: nat) -> FtlView {
        let page = self.l2p[lba as int].unwrap();
        let b = block_of(page, self.pages);
        let o = offset_of(page, self.pages);
        FtlView {
            l2p: self.l2p.update(lba as int, None),
            blocks: self.blocks.update(b as int, self.blocks[b as int].invalidated(o)),
            ..self
        }
    }

    /// `lba` is written to the next page of the open block `target` and
    /// mapped there.
    pub open spec fn program(self, target: nat, lba: nat) -> FtlView {
        FtlView {
            l2p: self.l2p.update(lba as int, Some(self.blocks[target as int].next_page())),
            blocks: self.blocks.update(target as int, self.blocks[target as int].programmed(lba)),
            ..self
        }
    }

    /// The oldest full block leaves the full pool to be collected.
    pub open spec fn detach(self) -> FtlView {
        FtlView { full: self.full.drop_first(), ..self }
    }

    /// The collected block is erased and joins the back of the free pool.
    pub open spec fn reclaim(self, victim: nat) -> FtlView {
        FtlView {
            blocks: self.blocks.update(victim as int, self.blocks[victim as int].erased()),
            free: self.free.push(victim),
            ..self
        }
    }

    /// A step that leaves the table and every reverse map as they were keeps
    /// them in agreement.
    pub proof fn lemma_maps_frame(self, t: FtlView)
        requires
            self.maps_ok(),
            t.l2p == self.l2p,
            t.pages == self.pages,
            t.blocks.len() == self.blocks.len(),
            forall|b: int|
                0 <= b < self.blocks.len() ==> (#[trigger] t.blocks[b]).slots
                    == self.blocks[b].slots,
        ensures
            t.maps_ok(),
    {
        assert forall|a: int| 0 <= a < t.l2p.len() && (#[trigger] t.l2p[a]).is_some() implies {
            let p2 = t.l2p[a].unwrap();
            &&& p2 < t.blocks.len() * t.pages
            &&& t.blocks[block_of(p2, t.pages) as int].slots[offset_of(p2, t.pages) as int]
                == Some(a as nat)
        } by {
            let p2 = self.l2p[a].unwrap();
            if self.pages > 0 {
                lemma_page_at_split(p2, self.blocks.len(), self.pages);
            } else {
                assert(self.blocks.len() * self.pages == 0) by (nonlinear_arith)
                    requires
                        self.pages == 0,
                ;
            }
        }
        assert forall|b2: int, o2: int|
            0 <= b2 < t.blocks.len() && 0 <= o2 < t.pages && (
            #[trigger] t.blocks[b2].slots[o2]).is_some() implies {
            let a = t.blocks[b2].slots[o2].unwrap();
            &&& a < t.l2p.len()
            &&& t.l2p[a as int] == Some(page_at(b2 as nat, o2 as nat, t.pages))
        } by {
            assert(t.blocks[b2].slots == self.blocks[b2].slots);
            assert(self.blocks[b2].slots[o2].is_some());
        }
    }

    pub proof fn lemma_rotate(self, for_gc: bool, victim: Option<nat>)
        requires
            self.inv_with(victim),
            self.blocks[self.open_block(for_gc) as int].state == BlockState::Written,
            self.free.len() >= 1,
        ensures
            self.rotate(for_gc).inv_with(victim),
    {
        let t = self.rotate(for_gc);
        let next = self.free[0];
        let done = self.open_block(for_gc);
        let n = self.blocks.len();
        assert(self.free.contains(next));
        assert(self.blocks[next as int].wf());
        assert(t.blocks_ok());
        lemma_drop_first_no_duplicates(self.free);
        assert(!self.full.contains(done)) by {
            if self.full.contains(done) {
                let i = choose|i: int| 0 <= i < self.full.len() && self.full[i] == done;
                assert(self.full[i] != done);
            }
        }
        lemma_push_no_duplicates(self.full, done);
        assert forall|i: int| 0 <= i < t.free.len() implies {
            &&& (#[trigger] t.free[i]) < n
            &&& t.free[i] != t.host
            &&& t.free[i] != t.gc
            &&& t.blocks[t.free[i] as int].state == BlockState::Erased
        } by {
            assert(t.free[i] == self.free[i + 1]);
            assert(t.free.contains(t.free[i]));
        }
        assert forall|i: int| 0 <= i < t.full.len() implies {
            &&& (#[trigger] t.full[i]) < n
            &&& t.full[i] != t.host
            &&& t.full[i] != t.gc
            &&& t.blocks[t.full[i] as int].state == BlockState::Written
        } by {
            if i < self.full.len() {
                assert(t.full[i] == self.full[i]);
            }
        }
        match victim {
            Some(v) => {
                lemma_drop_first_contains(self.free, v);
                lemma_push_contains(self.full, done, v);
            },
            None => {},
        }
        assert forall|b: nat| b < n implies b == t.host || b == t.gc || victim == Some(b)
            || t.free.contains(b) || #[trigger] t.full.contains(b) by {
            lemma_drop_first_contains(self.free, b);
            lemma_push_contains(self.full, done, b);
            assert(b == self.host || b == self.gc || victim == Some(b) || self.free.contains(b)
                || self.full.contains(b));
        }
        assert(t.roles_ok(victim));
        self.lemma_maps_frame(t);
        lemma_total_valid_update(self.blocks, next as int, self.blocks[next as int].opened());
    }

    pub proof fn lemma_invalidate(self, lba: nat, victim: Option<nat>)
        requires
            self.inv_with(victim),
            lba < self.l2p.len(),
            self.l2p[lba as int].is_some(),
        ensures
            self.invalidate(lba).inv_with(victim),
            self.l2p[lba as int].unwrap() < self.blocks.len() * self.pages,
            self.blocks[block_of(self.l2p[lba as int].unwrap(), self.pages) as int].valid >= 1,
    {
        let t = self.invalidate(lba);
        let page = self.l2p[lba as int].unwrap();
        let b = block_of(page, self.pages);
        let o = offset_of(page, self.pages);
        lemma_page_at_split(page, self.blocks.len(), self.pages);
        assert(self.blocks[b as int].wf());
        self.blocks[b as int].lemma_invalidated_wf(o);
        assert(t.blocks_ok());
        assert(t.roles_ok(victim));
        assert forall|a: int| 0 <= a < t.l2p.len() && (#[trigger] t.l2p[a]).is_some() implies {
            let p2 = t.l2p[a].unwrap();
            &&& p2 < t.blocks.len() * t.pages
            &&& t.blocks[block_of(p2, t.pages) as int].slots[offset_of(p2, t.pages) as int]
                == Some(a as nat)
        } by {
            let p2 = self.l2p[a].unwrap();
            lemma_page_at_split(p2, self.blocks.len(), self.pages);
        }
        assert forall|b2: int, o2: int|
            0 <= b2 < t.blocks.len() && 0 <= o2 < t.pages && (
            #[trigger] t.blocks[b2].slots[o2]).is_some() implies {
            let a = t.blocks[b2].slots[o2].unwrap();
            &&& a < t.l2p.len()
            &&& t.l2p[a as int] == Some(page_at(b2 as nat, o2 as nat, t.pages))
        } by {
            assert(self.blocks[b2].slots[o2].is_some());
            lemma_split_page_at(b2 as nat, o2 as nat, self.pages);
        }
        lemma_total_valid_update(self.blocks, b as int, self.blocks[b as int].invalidated(o));
        lemma_occupied_update(self.l2p, lba as int, None);
    }

    pub proof fn lemma_program(self, target: nat, lba: nat, victim: Option<nat>)
        requires
            self.inv_with(victim),
            target == self.host || target == self.gc,
            self.blocks[target as int].state == BlockState::Open,
            lba < self.l2p.len(),
            self.l2p[lba as int].is_none(),
        ensures
            self.program(target, lba).inv_with(victim),
            self.blocks[target as int].next_page() < self.blocks.len() * self.pages,
    {
        let t = self.program(target, lba);
        let old_block = self.blocks[target as int];
        let c = old_block.cursor;
        assert(old_block.wf());
        old_block.lemma_programmed_wf(lba);
        lemma_page_at_bound(target, c, self.blocks.len(), self.pages);
        lemma_split_page_at(target, c, self.pages);
        assert(old_block.next_page() == page_at(target, c, self.pages));
        assert(t.blocks_ok());
        assert(t.roles_ok(victim));
        assert forall|a: int| 0 <= a < t.l2p.len() && (#[trigger] t.l2p[a]).is_some() implies {
            let p2 = t.l2p[a].unwrap();
            &&& p2 < t.blocks.len() * t.pages
            &&& t.blocks[block_of(p2, t.pages) as int].slots[offset_of(p2, t.pages) as int]
                == Some(a as nat)
        } by {
            if a != lba {
                let p2 = self.l2p[a].unwrap();
                lemma_page_at_split(p2, self.blocks.len(), self.pages);
            }
        }
        assert forall|b2: int, o2: int|
            0 <= b2 < t.blocks.len() && 0 <= o2 < t.pages && (
            #[trigger] t.blocks[b2].slots[o2]).is_some() implies {
            let a = t.blocks[b2].slots[o2].unwrap();
            &&& a < t.l2p.len()
            &&& t.l2p[a as int] == Some(page_at(b2 as nat, o2 as nat, t.pages))
        } by {
            if b2 == target && o2 == c {
            } else {
                assert(self.blocks[b2].slots[o2].is_some());
            }
        }
        lemma_total_valid_update(self.blocks, target as int, old_block.programmed(lba));
        lemma_occupied_update(self.l2p, lba as int, Some(old_block.next_page()));
    }

    pub proof fn lemma_detach(self)
        requires
            self.inv(),
            self.full.len() >= 1,
        ensures
            self.detach().inv_with(Some(self.full[0])),
    {
        let t = self.detach();
        let v = self.full[0];
        lemma_drop_first_no_duplicates(self.full);
        assert(!self.free.contains(v)) by {
            if self.free.contains(v) {
                let i = choose|i: int| 0 <= i < self.free.len() && self.free[i] == v;
                assert(self.blocks[self.free[i] as int].state == BlockState::Erased);
            }
        }
        assert forall|i: int| 0 <= i < t.full.len() implies {
            &&& (#[trigger] t.full[i]) < t.blocks.len()
            &&& t.full[i] != t.host
            &&& t.full[i] != t.gc
            &&& t.blocks[t.full[i] as int].state == BlockState::Written
        } by {
            assert(t.full[i] == self.full[i + 1]);
        }
        assert forall|b: nat| b < t.blocks.len() implies b == t.host || b == t.gc || Some(v)
            == Some(b) || t.free.contains(b) || #[trigger] t.full.contains(b) by {
            lemma_drop_first_contains(self.full, b);
            assert(b == self.host || b == self.gc || self.free.contains(b) || self.full.contains(
                b,
            ));
        }
    }

    pub proof fn lemma_reclaim(self, victim: nat)
        requires
            self.inv_with(Some(victim)),
            self.blocks[victim as int].valid == 0,
        ensures
            self.reclaim(victim).inv(),
    {
        let t = self.reclaim(victim);
        let n = self.blocks.len();
        assert(self.blocks[victim as int].wf());
        self.blocks[victim as int].lemma_erased_wf();
        assert(t.blocks_ok());
        lemma_push_no_duplicates(self.free, victim);
        assert forall|i: int| 0 <= i < t.free.len() implies {
            &&& (#[trigger] t.free[i]) < n
            &&& t.free[i] != t.host
            &&& t.free[i] != t.gc
            &&& t.blocks[t.free[i] as int].state == BlockState::Erased
        } by {
            if i < self.free.len() {
                assert(t.free[i] == self.free[i]);
            }
        }
        assert forall|i: int| 0 <= i < t.full.len() implies {
            &&& (#[trigger] t.full[i]) < n
            &&& t.full[i] != t.host
            &&& t.full[i] != t.gc
            &&& t.blocks[t.full[i] as int].state == BlockState::Written
        } by {
            assert(self.full.contains(self.full[i]));
        }
        assert forall|b: nat| b < n implies b == t.host || b == t.gc || t.free.contains(b)
            || #[trigger] t.full.contains(b) by {
            lemma_push_contains(self.free, victim, b);
            assert(b == self.host || b == self.gc || Some(victim) == Some(b) || self.free.contains(
                b,
            ) || self.full.contains(b));
        }
        assert(t.roles_ok(None));
        self.lemma_maps_frame(t);
        lemma_total_valid_update(self.blocks, victim as int, self.blocks[victim as int].erased());
    }
}

} // verus!
