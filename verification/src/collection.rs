//! One cycle of garbage collection on the model: the oldest full block is
//! emptied into the collection target, erased, and returned to the free
//! pool.

use vstd::prelude::*;
use crate::arith::{block_of, page_at, lemma_split_page_at};
use crate::block::{lemma_occupied_none, lemma_occupied_same_places, lemma_occupied_some};
use crate::block::BlockState;
use crate::model::{total_valid, FtlView};

verus! {

impl FtlView {
    /// Pages that can still be written without erasing anything, the host's
    /// open block aside: those of the free blocks and the rest of the
    /// collection target.
    pub open spec fn headroom(self) -> int {
        self.free.len() * self.pages + self.pages - self.blocks[self.gc as int].cursor
    }

    /// A cycle can run: there is a full block, and a free block to replace
    /// the target with unless the target has room for all the victim holds.
    pub open spec fn collectable(self) -> bool {
        &&& self.full.len() >= 1
        &&& self.free.len() >= 1 || self.blocks[self.full[0] as int].valid
            + self.blocks[self.gc as int].cursor <= self.pages
    }

    /// The valid page that holds `lba` moves to the collection target.
    pub open spec fn relocate(self, lba: nat) -> FtlView {
        self.invalidate(lba).program(self.gc, lba)
    }

    /// Slot `at` of the victim is handled: an unmapped slot is passed over;
    /// for a valid page a full target is replaced first, and the page is
    /// moved.
    pub open spec fn copy_step(self, victim: nat, at: nat) -> FtlView {
        match self.blocks[victim as int].slots[at as int] {
            Some(lba) => {
                if self.blocks[self.gc as int].full() {
                    self.rotate(true).relocate(lba)
                } else {
                    self.relocate(lba)
                }
            },
            None => self,
        }
    }

    /// The slots below `upto` of the victim are handled, in ascending order.
    pub open spec fn copy_forward(self, victim: nat, upto: nat) -> FtlView
        decreases upto,
    {
        if upto == 0 {
            self
        } else {
            self.copy_forward(victim, (upto - 1) as nat).copy_step(victim, (upto - 1) as nat)
        }
    }

    /// One cycle: the oldest full block is the victim; if it holds valid
    /// pages they are copied forward; it is erased and freed.
    pub open spec fn collect(self) -> FtlView {
        let victim = self.full[0];
        let s = self.detach();
        if s.blocks[victim as int].valid == 0 {
            s.reclaim(victim)
        } else {
            s.copy_forward(victim, self.pages).reclaim(victim)
        }
    }

    /// What holds of the state `s` reached from `self` when the slots below
    /// `done` of `victim` have been handled.
    pub open spec fn copying(self, s: FtlView, victim: nat, done: nat) -> bool {
        let n = self.blocks.len();
        &&& s.inv_with(Some(victim))
        &&& s.pages == self.pages
        &&& s.threshold == self.threshold
        &&& s.l2p.len() == self.l2p.len()
        &&& s.blocks.len() == n
        &&& s.host == self.host
        &&& forall|o: int|
            0 <= o < done && o < self.pages ==> (#[trigger] s.blocks[victim as int].slots[o]).is_none()
        &&& forall|o: int|
            done <= o < self.pages ==> #[trigger] s.blocks[victim as int].slots[o]
                == self.blocks[victim as int].slots[o]
        &&& forall|a: int|
            0 <= a < self.l2p.len() ==> (#[trigger] s.l2p[a]).is_some() == self.l2p[a].is_some()
        &&& forall|a: int|
            0 <= a < self.l2p.len() && self.l2p[a].is_some() && block_of(
                self.l2p[a].unwrap(),
                self.pages,
            ) != victim ==> #[trigger] s.l2p[a] == self.l2p[a]
        &&& forall|b: int|
            0 <= b < n && b != victim && b != self.gc && b != s.gc ==> #[trigger] s.blocks[b]
                == self.blocks[b]
        &&& s.headroom() + self.blocks[victim as int].valid == self.headroom()
            + s.blocks[victim as int].valid
        &&& if s.gc == self.gc {
            &&& s.free == self.free
            &&& s.full == self.full
        } else {
            &&& self.free.len() >= 1
            &&& s.gc == self.free[0]
            &&& s.free == self.free.drop_first()
            &&& s.full == self.full.push(self.gc)
            &&& 1 <= s.blocks[s.gc as int].cursor <= done
        }
    }

    /// Handling one more slot keeps what `copying` states; and where the
    /// target has to be replaced, a free block is there for it.
    pub proof fn lemma_copy_step(self, s: FtlView, victim: nat, done: nat)
        requires
            self.inv_with(Some(victim)),
            self.copying(s, victim, done),
            done < self.pages,
            self.free.len() >= 1 || self.blocks[victim as int].valid
                + self.blocks[self.gc as int].cursor <= self.pages,
        ensures
            self.copying(s.copy_step(victim, done), victim, done + 1),
            s.blocks[victim as int].slots[done as int].is_some() && s.blocks[s.gc as int].full()
                ==> s.free.len() >= 1 && s.blocks[s.gc as int].state == BlockState::Written,
    {
        let pages = self.pages;
        assert(s.blocks[s.gc as int].wf());
        assert(s.blocks[victim as int].wf());
        match s.blocks[victim as int].slots[done as int] {
            Some(lba) => {
                lemma_occupied_some(s.blocks[victim as int].slots, done as int);
                let s1 = if s.blocks[s.gc as int].full() {
                    s.rotate(true)
                } else {
                    s
                };
                if s.blocks[s.gc as int].full() {
                    assert(s.gc == self.gc);
                    assert(s.free.len() >= 1);
                    s.lemma_rotate(true, Some(victim));
                    assert(s.free.contains(s.free[0]));
                    assert(s.blocks[s.free[0] as int].wf());
                    assert(s1.blocks[s1.gc as int].cursor == 0);
                    assert((s.free.len() - 1) * pages + pages == s.free.len() * pages)
                        by (nonlinear_arith);
                    assert(s1.headroom() == s.headroom());
                    assert(s1.blocks[victim as int] == s.blocks[victim as int]);
                }
                assert(s1.inv_with(Some(victim)));
                assert(s1.l2p == s.l2p);
                assert(s1.blocks[s1.gc as int].wf());
                assert(s1.blocks[s1.gc as int].state == BlockState::Open);
                assert(s1.blocks[victim as int].slots[done as int].is_some());
                assert(s1.l2p[lba as int] == Some(page_at(victim, done, pages)));
                lemma_split_page_at(victim, done, pages);
                s1.lemma_invalidate(lba, Some(victim));
                let s2 = s1.invalidate(lba);
                assert(s2.blocks[victim as int] == s1.blocks[victim as int].invalidated(done));
                assert(s2.blocks[s2.gc as int] == s1.blocks[s1.gc as int]);
                s2.lemma_program(s2.gc, lba, Some(victim));
                let s3 = s2.program(s2.gc, lba);
                assert(s3 == s.copy_step(victim, done));
                assert(s3.blocks[victim as int] == s2.blocks[victim as int]);
                assert(s3.blocks[s3.gc as int].cursor == s1.blocks[s1.gc as int].cursor + 1);
                assert(s3.headroom() + 1 == s1.headroom());
                assert(s3.blocks[victim as int].valid + 1 == s.blocks[victim as int].valid);
                assert forall|a: int|
                    0 <= a < self.l2p.len() && self.l2p[a].is_some() && block_of(
                        self.l2p[a].unwrap(),
                        self.pages,
                    ) != victim implies #[trigger] s3.l2p[a] == self.l2p[a] by {
                    assert(s.l2p[a] == self.l2p[a]);
                }
                assert forall|a: int| 0 <= a < self.l2p.len() implies (#[trigger] s3.l2p[a]).is_some()
                    == self.l2p[a].is_some() by {
                    assert(s.l2p[a].is_some() == self.l2p[a].is_some());
                }
                assert forall|b: int|
                    0 <= b < self.blocks.len() && b != victim && b != self.gc && b
                        != s3.gc implies #[trigger] s3.blocks[b] == self.blocks[b] by {
                    assert(s.blocks[b] == self.blocks[b]);
                }
                assert forall|o: int| done + 1 <= o < self.pages implies #[trigger] s3.blocks[victim as int].slots[o]
                    == self.blocks[victim as int].slots[o] by {
                    assert(s.blocks[victim as int].slots[o] == self.blocks[victim as int].slots[o]);
                }
                assert forall|o: int| 0 <= o < done + 1 && o < self.pages implies (
                #[trigger] s3.blocks[victim as int].slots[o]).is_none() by {
                    if o < done {
                        assert(s.blocks[victim as int].slots[o].is_none());
                    }
                }
                assert(self.copying(s3, victim, done + 1));
            },
            None => {
                assert(self.copying(s, victim, done + 1));
            },
        }
    }

    pub proof fn lemma_copy_forward(self, victim: nat, upto: nat)
        requires
            self.inv_with(Some(victim)),
            upto <= self.pages,
            self.free.len() >= 1 || self.blocks[victim as int].valid
                + self.blocks[self.gc as int].cursor <= self.pages,
        ensures
            self.copying(self.copy_forward(victim, upto), victim, upto),
        decreases upto,
    {
        if upto == 0 {
            assert(self.copying(self, victim, 0));
        } else {
            let before = (upto - 1) as nat;
            self.lemma_copy_forward(victim, before);
            self.lemma_copy_step(self.copy_forward(victim, before), victim, before);
        }
    }

    /// What one cycle does: the invariant is kept; the victim ends erased,
    /// empty and last in the free pool; every mapped address stays mapped,
    /// at its page unless that page was in the victim; the host's block is
    /// not touched; the number of valid pages stays; the headroom grows by
    /// the garbage the victim held; and the target is replaced, once,
    /// exactly when it has no room for all the victim holds.
    pub proof fn lemma_collect(self)
        requires
            self.inv(),
            self.collectable(),
        ensures
            self.collect().inv(),
            self.collect().pages == self.pages,
            self.collect().threshold == self.threshold,
            self.collect().l2p.len() == self.l2p.len(),
            self.collect().blocks.len() == self.blocks.len(),
            self.collect().host == self.host,
            self.collect().blocks[self.host as int] == self.blocks[self.host as int],
            self.collect().free.len() >= self.free.len(),
            self.collect().free.last() == self.full[0],
            self.collect().blocks[self.full[0] as int].state == BlockState::Erased,
            self.collect().blocks[self.full[0] as int].valid == 0,
            total_valid(self.collect().blocks) == total_valid(self.blocks),
            forall|a: int|
                0 <= a < self.l2p.len() ==> (#[trigger] self.collect().l2p[a]).is_some()
                    == self.l2p[a].is_some(),
            forall|a: int|
                0 <= a < self.l2p.len() && self.l2p[a].is_some() && block_of(
                    self.l2p[a].unwrap(),
                    self.pages,
                ) != self.full[0] ==> #[trigger] self.collect().l2p[a] == self.l2p[a],
            self.collect().headroom() == self.headroom() + self.pages
                - self.blocks[self.full[0] as int].valid,
            forall|i: int|
                1 <= i < self.full.len() ==> self.collect().blocks[(#[trigger] self.full[i]) as int]
                    == self.blocks[self.full[i] as int],
            self.blocks[self.full[0] as int].valid + self.blocks[self.gc as int].cursor
                <= self.pages ==> {
                &&& self.collect().gc == self.gc
                &&& self.collect().blocks[self.gc as int].cursor == self.blocks[self.gc as int].cursor
                    + self.blocks[self.full[0] as int].valid
                &&& self.collect().free == self.free.push(self.full[0])
                &&& self.collect().full == self.full.drop_first()
            },
            self.blocks[self.full[0] as int].valid + self.blocks[self.gc as int].cursor
                > self.pages ==> {
                &&& self.collect().gc == self.free[0]
                &&& self.collect().blocks[self.collect().gc as int].cursor
                    == self.blocks[self.full[0] as int].valid + self.blocks[self.gc as int].cursor
                    - self.pages
                &&& self.collect().free == self.free.drop_first().push(self.full[0])
                &&& self.collect().full == self.full.drop_first().push(self.gc)
                &&& self.collect().blocks[self.gc as int].state == BlockState::Written
            },
    {
        let victim = self.full[0];
        let pages = self.pages;
        let s0 = self.detach();
        self.lemma_detach();
        assert(s0.blocks[victim as int].wf());
        assert(s0.blocks[s0.gc as int].wf());
        let s = if s0.blocks[victim as int].valid == 0 {
            s0
        } else {
            s0.copy_forward(victim, pages)
        };
        if s0.blocks[victim as int].valid == 0 {
            assert(s0.copying(s0, victim, 0));
        } else {
            s0.lemma_copy_forward(victim, pages);
            lemma_occupied_none(s.blocks[victim as int].slots);
            assert(s.blocks[victim as int].wf());
        }
        assert(s.blocks[victim as int].valid == 0);
        s.lemma_reclaim(victim);
        let t = s.reclaim(victim);
        assert(t == self.collect());
        assert((s.free.len() + 1) * pages == s.free.len() * pages + pages) by (nonlinear_arith);
        assert(t.headroom() == s.headroom() + pages);
        if s.gc != s0.gc {
            assert((s0.free.len() - 1) * pages + pages == s0.free.len() * pages)
                by (nonlinear_arith);
            assert(t.full.last() == self.gc);
        }
        assert forall|i: int| 1 <= i < self.full.len() implies t.blocks[(
        #[trigger] self.full[i]) as int] == self.blocks[self.full[i] as int] by {
            let b = self.full[i];
            assert(b != victim);
            assert(self.blocks[b as int].state == BlockState::Written);
            if s.gc != s0.gc {
                assert(self.free.contains(self.free[0]));
                assert(self.blocks[self.free[0] as int].state == BlockState::Erased);
            }
            assert(s.blocks[b as int] == s0.blocks[b as int]);
        }
        assert(t.blocks[self.host as int] == self.blocks[self.host as int]) by {
            assert(s.blocks[self.host as int] == s0.blocks[self.host as int]);
        }
        assert forall|a: int| 0 <= a < self.l2p.len() implies (#[trigger] t.l2p[a]).is_some()
            == self.l2p[a].is_some() by {
            assert(s.l2p[a].is_some() == s0.l2p[a].is_some());
        }
        lemma_occupied_same_places(t.l2p, self.l2p);
    }
}

} // verus!
