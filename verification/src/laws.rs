//! What holds of every engine, stated over the model and proved from its
//! invariant and the definitions of its steps.

use vstd::prelude::*;
use crate::arith::{block_of, offset_of, page_at};
use crate::arith::{lemma_page_at_injective, lemma_page_at_split, lemma_split_page_at};
use crate::block::{lemma_occupied_same_places, occupied, BlockState};
use crate::model::{total_valid, FtlView};

verus! {

impl FtlView {
    /// The state after the writes of `lbas`, in order.
    pub open spec fn write_all(self, lbas: Seq<nat>) -> FtlView
        decreases lbas.len(),
    {
        if lbas.len() == 0 {
            self
        } else {
            self.write_all(lbas.drop_last()).write(lbas.last())
        }
    }

    /// A mapped logical address resolves to a page of the array whose
    /// reverse-map entry is that address.
    pub proof fn law_mapping_resolves(self, lba: nat)
        requires
            self.inv(),
            lba < self.logical_size(),
            self.l2p[lba as int].is_some(),
        ensures
            ({
                let page = self.l2p[lba as int].unwrap();
                let b = block_of(page, self.pages);
                let o = offset_of(page, self.pages);
                &&& b < self.blocks.len()
                &&& o < self.pages
                &&& o < self.blocks[b as int].cursor
                &&& self.blocks[b as int].state != BlockState::Erased
                &&& self.blocks[b as int].slots[o as int] == Some(lba)
            }),
    {
        let page = self.l2p[lba as int].unwrap();
        lemma_page_at_split(page, self.blocks.len(), self.pages);
        assert(self.blocks[block_of(page, self.pages) as int].wf());
    }

    /// After a write of an address within the logical space, the address
    /// resolves to a page whose reverse-map entry is that address: the page
    /// that was next in the host's open block.
    pub proof fn law_write_maps(self, lba: nat)
        requires
            self.wf(),
            self.can_write(),
            lba < self.logical_size(),
        ensures
            self.write(lba).wf(),
            self.write(lba).logical_size() == self.logical_size(),
            ({
                let post = self.write(lba);
                let page = post.l2p[lba as int].unwrap();
                &&& post.l2p[lba as int].is_some()
                &&& block_of(page, self.pages) == post.host
                &&& post.blocks[post.host as int].slots[offset_of(page, self.pages) as int]
                    == Some(lba)
            }),
    {
        self.lemma_write(lba);
        self.lemma_staged();
        let s = self.staged();
        assert(s.blocks[s.host as int].wf());
        lemma_split_page_at(s.host, s.blocks[s.host as int].cursor, self.pages);
        self.write(lba).law_mapping_resolves(lba);
    }

    /// No logical address is held by two pages, and no two logical addresses
    /// map to one page.
    pub proof fn law_single_writer(self)
        requires
            self.inv(),
        ensures
            forall|b1: int, o1: int, b2: int, o2: int|
                0 <= b1 < self.blocks.len() && 0 <= o1 < self.pages && 0 <= b2 < self.blocks.len()
                    && 0 <= o2 < self.pages && (#[trigger] self.blocks[b1].slots[o1]).is_some()
                    && self.blocks[b1].slots[o1] == #[trigger] self.blocks[b2].slots[o2] ==> b1
                    == b2 && o1 == o2,
            forall|a1: int, a2: int|
                0 <= a1 < self.l2p.len() && 0 <= a2 < self.l2p.len() && (#[trigger] self.l2p[a1]).is_some()
                    && self.l2p[a1] == #[trigger] self.l2p[a2] ==> a1 == a2,
    {
        assert forall|b1: int, o1: int, b2: int, o2: int|
            0 <= b1 < self.blocks.len() && 0 <= o1 < self.pages && 0 <= b2 < self.blocks.len() && 0
                <= o2 < self.pages && (#[trigger] self.blocks[b1].slots[o1]).is_some()
                && self.blocks[b1].slots[o1] == #[trigger] self.blocks[b2].slots[o2] implies b1
            == b2 && o1 == o2 by {
            lemma_page_at_injective(b1 as nat, o1 as nat, b2 as nat, o2 as nat, self.pages);
        }
        assert forall|a1: int, a2: int|
            0 <= a1 < self.l2p.len() && 0 <= a2 < self.l2p.len() && (#[trigger] self.l2p[a1]).is_some()
                && self.l2p[a1] == #[trigger] self.l2p[a2] implies a1 == a2 by {
            let page = self.l2p[a1].unwrap();
            lemma_page_at_split(page, self.blocks.len(), self.pages);
        }
    }

    /// A write leaves no second copy: the page that held the address before
    /// the write does not hold it after.
    pub proof fn law_write_invalidates_prior(self, lba: nat)
        requires
            self.wf(),
            self.can_write(),
            lba < self.logical_size(),
            self.l2p[lba as int].is_some(),
        ensures
            ({
                let prior = self.l2p[lba as int].unwrap();
                let post = self.write(lba);
                &&& post.l2p[lba as int] != Some(prior)
                &&& post.blocks[block_of(prior, self.pages) as int].slots[offset_of(
                    prior,
                    self.pages,
                ) as int] != Some(lba)
            }),
    {
        let prior = self.l2p[lba as int].unwrap();
        let post = self.write(lba);
        self.lemma_write(lba);
        self.lemma_staged();
        self.law_mapping_resolves(lba);
        let b = block_of(prior, self.pages);
        let o = offset_of(prior, self.pages);
        lemma_page_at_split(prior, self.blocks.len(), self.pages);
        let s = self.staged();
        let c = s.blocks[s.host as int].cursor;
        assert(self.blocks[self.host as int].wf());
        if self.blocks[self.host as int].full() {
            assert(self.free.contains(self.free[0]));
            assert(self.blocks[self.free[0] as int].wf());
        }
        lemma_split_page_at(s.host, c, self.pages);
        assert(post.l2p[lba as int] != Some(prior));
        if post.blocks[b as int].slots[o as int] == Some(lba) {
            assert(post.blocks[b as int].slots[o as int].is_some());
            assert(post.l2p[lba as int] == Some(page_at(b, o, self.pages)));
        }
    }

    /// Only the two open roles hold a block in state `Open`, the two are
    /// different blocks, and every block is in exactly one place: free, full,
    /// or one of the two roles.
    pub proof fn law_block_places(self)
        requires
            self.inv(),
        ensures
            self.host != self.gc,
            forall|b: int|
                0 <= b < self.blocks.len() && (#[trigger] self.blocks[b]).state
                    == BlockState::Open ==> b == self.host || b == self.gc,
            forall|b: nat|
                b < self.blocks.len() ==> (b == self.host || b == self.gc || self.free.contains(b)
                    || #[trigger] self.full.contains(b)),
            forall|b: nat|
                #![trigger self.free.contains(b)]
                #![trigger self.full.contains(b)]
                !(self.free.contains(b) && self.full.contains(b)) && (self.free.contains(b)
                    || self.full.contains(b) ==> b != self.host && b != self.gc),
    {
        assert forall|b: int|
            0 <= b < self.blocks.len() && (#[trigger] self.blocks[b]).state
                == BlockState::Open implies b == self.host || b == self.gc by {
            let id = b as nat;
            assert(id == self.host || id == self.gc || self.free.contains(id)
                || self.full.contains(id));
        }
    }

    /// Collection loses no data: every address the victim held valid still
    /// resolves to a page that holds it, in another block; the victim ends
    /// erased with no valid page; and the invariant is kept.
    pub proof fn law_collect_preserves(self, offset: nat)
        requires
            self.inv(),
            self.collectable(),
            offset < self.pages,
            self.blocks[self.full[0] as int].slots[offset as int].is_some(),
        ensures
            self.collect().inv(),
            self.collect().blocks[self.full[0] as int].state == BlockState::Erased,
            self.collect().blocks[self.full[0] as int].valid == 0,
            ({
                let lba = self.blocks[self.full[0] as int].slots[offset as int].unwrap();
                let post = self.collect();
                let page = post.l2p[lba as int].unwrap();
                &&& lba < post.logical_size()
                &&& post.l2p[lba as int].is_some()
                &&& block_of(page, self.pages) != self.full[0]
                &&& post.blocks[block_of(page, self.pages) as int].slots[offset_of(
                    page,
                    self.pages,
                ) as int] == Some(lba)
            }),
    {
        let lba = self.blocks[self.full[0] as int].slots[offset as int].unwrap();
        self.lemma_collect();
        assert(self.l2p[lba as int].is_some());
        assert(self.collect().l2p[lba as int].is_some());
        self.collect().law_mapping_resolves(lba);
    }

    /// The account of one cycle. The number of valid pages stays. If the
    /// target has room for all the victim holds, it stays the target, its
    /// cursor advances by that many pages, and the free pool gains the
    /// victim. Otherwise the target is replaced exactly once: it ends
    /// written and last in the full pool, the oldest free block becomes the
    /// target and takes what did not fit, and the free pool keeps its size.
    pub proof fn law_collect_account(self)
        requires
            self.inv(),
            self.collectable(),
        ensures
            total_valid(self.collect().blocks) == total_valid(self.blocks),
            self.collect().host == self.host,
            ({
                let post = self.collect();
                let k = self.blocks[self.full[0] as int].valid;
                let c = self.blocks[self.gc as int].cursor;
                if k + c <= self.pages {
                    &&& post.gc == self.gc
                    &&& post.blocks[post.gc as int].cursor == c + k
                    &&& post.free.len() == self.free.len() + 1
                    &&& post.free == self.free.push(self.full[0])
                    &&& post.full == self.full.drop_first()
                } else {
                    &&& self.free.len() >= 1
                    &&& post.gc == self.free[0]
                    &&& post.blocks[post.gc as int].cursor == k + c - self.pages
                    &&& post.blocks[self.gc as int].state == BlockState::Written
                    &&& post.full == self.full.drop_first().push(self.gc)
                    &&& post.full.last() == self.gc
                    &&& post.free.len() == self.free.len()
                    &&& post.free == self.free.drop_first().push(self.full[0])
                }
            }),
    {
        self.lemma_collect();
    }

    /// After a cycle the roles are as legal as before: the host's block is
    /// the same and is not the target, the victim is not the target, and
    /// only the two roles hold an open block.
    pub proof fn law_collect_places(self)
        requires
            self.inv(),
            self.collectable(),
        ensures
            self.collect().host == self.host,
            self.collect().host != self.collect().gc,
            self.collect().gc != self.full[0],
            forall|b: int|
                0 <= b < self.blocks.len() && (#[trigger] self.collect().blocks[b]).state
                    == BlockState::Open ==> b == self.collect().host || b == self.collect().gc,
    {
        self.lemma_collect();
        self.collect().law_block_places();
    }

    /// After a cycle the table and the reverse maps still agree both ways,
    /// so no address is valid in two pages; valid counts are the numbers of
    /// occupied slots, and nothing lies at or beyond a cursor.
    pub proof fn law_collect_agreement(self)
        requires
            self.inv(),
            self.collectable(),
        ensures
            self.collect().maps_ok(),
            self.collect().blocks_ok(),
            forall|b1: int, o1: int, b2: int, o2: int|
                0 <= b1 < self.blocks.len() && 0 <= o1 < self.pages && 0 <= b2 < self.blocks.len()
                    && 0 <= o2 < self.pages && (#[trigger] self.collect().blocks[b1].slots[o1]).is_some()
                    && self.collect().blocks[b1].slots[o1]
                    == #[trigger] self.collect().blocks[b2].slots[o2] ==> b1 == b2 && o1 == o2,
    {
        self.lemma_collect();
        self.collect().law_single_writer();
    }

    /// After a write the free pool is at its threshold.
    pub proof fn law_write_replenishes(self, lba: nat)
        requires
            self.wf(),
            self.can_write(),
            lba < self.logical_size(),
        ensures
            self.write(lba).free.len() >= self.threshold,
    {
        self.lemma_write(lba);
    }

    /// An engine with its margin of spare pages serves every write.
    pub proof fn law_roomy_serves(self)
        requires
            self.wf(),
            self.roomy(),
        ensures
            self.can_write(),
            self.staged().can_replenish(),
    {
        self.lemma_staged();
    }

    /// Any sequence of writes within the logical space keeps an engine with
    /// its margin well formed, with its margin.
    pub proof fn law_writes_keep_wf(self, lbas: Seq<nat>)
        requires
            self.wf(),
            self.roomy(),
            forall|i: int| 0 <= i < lbas.len() ==> lbas[i] < self.logical_size(),
        ensures
            self.write_all(lbas).wf(),
            self.write_all(lbas).roomy(),
            self.write_all(lbas).logical_size() == self.logical_size(),
            self.write_all(lbas).pages == self.pages,
            self.write_all(lbas).threshold == self.threshold,
            self.write_all(lbas).blocks.len() == self.blocks.len(),
        decreases lbas.len(),
    {
        if lbas.len() > 0 {
            self.law_writes_keep_wf(lbas.drop_last());
            self.write_all(lbas.drop_last()).lemma_write(lbas.last());
        }
    }

    /// Writing an address that is mapped already leaves the number of valid
    /// pages as it was: the block that held the address loses one valid
    /// page, the host's block gains one.
    pub proof fn law_rewrite_keeps_count(self, lba: nat)
        requires
            self.wf(),
            self.can_write(),
            lba < self.logical_size(),
            self.l2p[lba as int].is_some(),
        ensures
            total_valid(self.write(lba).blocks) == total_valid(self.blocks),
            occupied(self.write(lba).l2p) == occupied(self.l2p),
            ({
                let s = self.prepare();
                let owner = block_of(s.l2p[lba as int].unwrap(), self.pages);
                let post = self.write(lba);
                &&& s.l2p[lba as int].is_some()
                &&& owner != post.host ==> post.blocks[owner as int].valid + 1
                    == s.blocks[owner as int].valid
                &&& owner == post.host ==> post.blocks[owner as int].valid
                    == s.blocks[owner as int].valid
            }),
    {
        self.lemma_write(lba);
        self.lemma_prepare();
        let post = self.write(lba);
        assert forall|a: int| 0 <= a < self.l2p.len() implies post.l2p[a].is_some()
            == self.l2p[a].is_some() by {
            if a != lba {
                assert(post.l2p[a].is_some() == self.l2p[a].is_some());
            }
        }
        lemma_occupied_same_places(post.l2p, self.l2p);
        let s = self.prepare();
        assert(s.l2p[lba as int].is_some() == self.l2p[lba as int].is_some());
        s.lemma_invalidate(lba, None);
        lemma_page_at_split(s.l2p[lba as int].unwrap(), s.blocks.len(), s.pages);
    }

    /// Writing one address any number of times, at least once, leaves it
    /// mapped to exactly one page, and from the first write on the number of
    /// valid pages does not change.
    pub proof fn law_repeated_write(self, lba: nat, times: nat)
        requires
            self.wf(),
            self.roomy(),
            lba < self.logical_size(),
            times >= 1,
        ensures
            ({
                let post = self.write_all(Seq::new(times, |i: int| lba));
                &&& post.wf()
                &&& post.l2p[lba as int].is_some()
                &&& total_valid(post.blocks) == total_valid(self.write(lba).blocks)
                &&& forall|b: int, o: int|
                    0 <= b < post.blocks.len() && 0 <= o < post.pages && #[trigger] post.blocks[b].slots[o]
                        == Some(lba) ==> post.l2p[lba as int] == Some(
                        page_at(b as nat, o as nat, post.pages),
                    )
            }),
        decreases times,
    {
        let lbas = Seq::new(times, |i: int| lba);
        let shorter = Seq::new((times - 1) as nat, |i: int| lba);
        assert(lbas.drop_last() =~= shorter);
        assert(lbas.last() == lba);
        self.law_writes_keep_wf(shorter);
        let before = self.write_all(shorter);
        before.lemma_write(lba);
        if times == 1 {
            assert(before == self);
        } else {
            self.law_repeated_write(lba, (times - 1) as nat);
            before.law_rewrite_keeps_count(lba);
        }
        let post = before.write(lba);
        assert(post == self.write_all(lbas));
        assert forall|b: int, o: int|
            0 <= b < post.blocks.len() && 0 <= o < post.pages && #[trigger] post.blocks[b].slots[o]
                == Some(lba) implies post.l2p[lba as int] == Some(
            page_at(b as nat, o as nat, post.pages),
        ) by {
            assert(post.blocks[b].slots[o].is_some());
        }
    }
}

} // verus!
