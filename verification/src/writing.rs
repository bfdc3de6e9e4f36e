//! Replenishing the free pool and writing one page on the model, with the
//! argument that collection reaches the threshold.

use vstd::prelude::*;
use crate::arith::{page_at, lemma_page_at_split};
use crate::block::{lemma_occupied_bound, BlockState, BlockView};
use crate::model::{lemma_total_valid_lower, total_valid, FtlView};

verus! {

/// Number of blocks at the head of the full pool that hold no garbage.
pub open spec fn stale_distance(blocks: Seq<BlockView>, full: Seq<nat>, pages: nat) -> nat
    decreases full.len(),
{
    if full.len() == 0 {
        0
    } else if blocks[full[0] as int].valid < pages {
        0
    } else {
        1 + stale_distance(blocks, full.drop_first(), pages)
    }
}

pub proof fn lemma_stale_distance_at(blocks: Seq<BlockView>, full: Seq<nat>, pages: nat, i: int)
    requires
        0 <= i < full.len(),
        blocks[full[i] as int].valid < pages,
    ensures
        stale_distance(blocks, full, pages) <= i,
    decreases full.len(),
{
    if i > 0 && blocks[full[0] as int].valid >= pages {
        lemma_stale_distance_at(blocks, full.drop_first(), pages, i - 1);
    }
}

pub proof fn lemma_stale_distance_frame(
    before: Seq<BlockView>,
    after: Seq<BlockView>,
    full: Seq<nat>,
    pages: nat,
)
    requires
        forall|i: int|
            0 <= i < full.len() ==> after[(#[trigger] full[i]) as int].valid
                == before[full[i] as int].valid,
    ensures
        stale_distance(after, full, pages) == stale_distance(before, full, pages),
    decreases full.len(),
{
    if full.len() > 0 {
        assert(after[full[0] as int].valid == before[full[0] as int].valid);
        let rest = full.drop_first();
        assert forall|i: int| 0 <= i < rest.len() implies after[(#[trigger] rest[i]) as int].valid
            == before[rest[i] as int].valid by {
            assert(rest[i] == full[i + 1]);
        }
        lemma_stale_distance_frame(before, after, rest, pages);
    }
}

pub proof fn lemma_stale_distance_push(blocks: Seq<BlockView>, full: Seq<nat>, x: nat, pages: nat)
    requires
        stale_distance(blocks, full, pages) < full.len(),
    ensures
        stale_distance(blocks, full.push(x), pages) == stale_distance(blocks, full, pages),
    decreases full.len(),
{
    let longer = full.push(x);
    assert(longer[0] == full[0]);
    if blocks[full[0] as int].valid >= pages {
        assert(longer.drop_first() =~= full.drop_first().push(x));
        lemma_stale_distance_push(blocks, full.drop_first(), x, pages);
    }
}

impl FtlView {
    /// Pages that are not headroom: what collection can still win back is
    /// bounded by this.
    pub open spec fn deficit(self) -> int {
        self.blocks.len() * self.pages - self.headroom()
    }

    /// While the free pool of a roomy engine is under its threshold, some
    /// full block holds garbage: the logical space is too small to fill them
    /// all.
    pub proof fn lemma_stale_exists(self)
        requires
            self.inv(),
            self.roomy(),
            !self.replenished(),
        ensures
            exists|i: int|
                0 <= i < self.full.len() && self.blocks[(#[trigger] self.full[i]) as int].valid
                    < self.pages,
    {
        let pages = self.pages;
        if forall|i: int|
            0 <= i < self.full.len() ==> self.blocks[(#[trigger] self.full[i]) as int].valid
                >= pages {
            assert forall|i: int| 0 <= i < self.full.len() implies self.blocks[(
            #[trigger] self.full[i]) as int].valid == pages by {
                let b = self.blocks[self.full[i] as int];
                assert(b.wf());
                lemma_occupied_bound(b.slots);
            }
            lemma_total_valid_lower(self.blocks, self.full, pages);
            lemma_occupied_bound(self.l2p);
            let q = self.full.len();
            let n = self.blocks.len();
            let t = self.threshold;
            assert(false) by (nonlinear_arith)
                requires
                    q * pages <= self.l2p.len(),
                    self.l2p.len() + (t + 1) * pages < n * pages,
                    q + t + 1 >= n,
                    pages >= 1,
            ;
        }
    }

    /// Under the threshold a cycle can always run, and it leaves a free
    /// block behind.
    pub proof fn lemma_collect_under_threshold(self)
        requires
            self.inv(),
            self.free.len() >= 1,
            !self.replenished(),
        ensures
            self.collectable(),
            self.collect().inv(),
            self.collect().free.len() >= 1,
            self.collect().roomy() == self.roomy(),
    {
        self.lemma_collect();
    }

    /// One cycle of a roomy engine under the threshold makes progress: the
    /// headroom grows, or it stays and the nearest block with garbage moves
    /// one place nearer to the head of the full pool.
    pub proof fn lemma_collect_progress(self)
        requires
            self.inv(),
            self.roomy(),
            self.free.len() >= 1,
            !self.replenished(),
        ensures
            0 <= self.collect().deficit() <= self.deficit(),
            self.collect().pages == self.pages,
            self.collect().deficit() == self.deficit() ==> stale_distance(
                self.collect().blocks,
                self.collect().full,
                self.pages,
            ) < stale_distance(self.blocks, self.full, self.pages),
    {
        let pages = self.pages;
        let t = self.collect();
        let victim = self.full[0];
        self.lemma_collect();
        assert(self.blocks[victim as int].wf());
        lemma_occupied_bound(self.blocks[victim as int].slots);
        assert(t.blocks[t.gc as int].wf());
        assert((t.free.len() + 1) * pages == t.free.len() * pages + pages) by (nonlinear_arith);
        assert(t.headroom() <= t.blocks.len() * pages) by (nonlinear_arith)
            requires
                t.headroom() <= (t.free.len() + 1) * pages,
                t.free.len() + 1 <= t.blocks.len(),
        ;
        if self.blocks[victim as int].valid == pages {
            self.lemma_stale_exists();
            let i = choose|i: int|
                0 <= i < self.full.len() && self.blocks[(#[trigger] self.full[i]) as int].valid
                    < pages;
            let rest = self.full.drop_first();
            assert(rest[i - 1] == self.full[i]);
            lemma_stale_distance_at(self.blocks, rest, pages, i - 1);
            assert forall|j: int| 0 <= j < rest.len() implies t.blocks[(
            #[trigger] rest[j]) as int].valid == self.blocks[rest[j] as int].valid by {
                assert(rest[j] == self.full[j + 1]);
            }
            lemma_stale_distance_frame(self.blocks, t.blocks, rest, pages);
            if t.full != rest {
                lemma_stale_distance_push(t.blocks, rest, self.gc, pages);
            }
        }
    }

    /// Whether at most `cycles` cycles of collection bring the free pool to
    /// its threshold.
    pub open spec fn replenishes_in(self, cycles: nat) -> bool
        decreases cycles,
    {
        self.replenished() || (cycles > 0 && self.collect().replenishes_in((cycles - 1) as nat))
    }

    /// Whether collection can bring the free pool to its threshold at all.
    /// Where it cannot, no write that has to collect can be served.
    pub open spec fn can_replenish(self) -> bool {
        exists|cycles: nat| self.replenishes_in(cycles)
    }

    /// Cycles of collection until the free pool is at its threshold, `cycles`
    /// at most.
    pub open spec fn replenish_in(self, cycles: nat) -> FtlView
        decreases cycles,
    {
        if self.replenished() || cycles == 0 {
            self
        } else {
            self.collect().replenish_in((cycles - 1) as nat)
        }
    }

    /// Cycles of collection until the free pool is at its threshold.
    pub open spec fn replenish(self) -> FtlView {
        self.replenish_in(choose|cycles: nat| self.replenishes_in(cycles))
    }

    /// A roomy engine can always be replenished.
    pub proof fn lemma_roomy_replenishes(self)
        requires
            self.inv(),
            self.roomy(),
            self.free.len() >= 1,
        ensures
            self.can_replenish(),
        decreases self.deficit(), stale_distance(self.blocks, self.full, self.pages),
    {
        if self.replenished() {
            assert(self.replenishes_in(0));
        } else {
            self.lemma_collect_under_threshold();
            self.lemma_collect_progress();
            self.collect().lemma_roomy_replenishes();
            let cycles = choose|cycles: nat| self.collect().replenishes_in(cycles);
            assert(self.replenishes_in(cycles + 1));
        }
    }

    /// Replenishing ends with the pool at its threshold, keeps the invariant,
    /// leaves the host's block alone and every mapped address mapped, and
    /// does nothing where the pool is at its threshold already.
    pub proof fn lemma_replenish_in(self, cycles: nat)
        requires
            self.inv(),
            self.free.len() >= 1,
            self.replenishes_in(cycles),
        ensures
            self.replenish_in(cycles).wf(),
            self.replenished() ==> self.replenish_in(cycles) == self,
            self.replenish_in(cycles).roomy() == self.roomy(),
            self.replenish_in(cycles).pages == self.pages,
            self.replenish_in(cycles).threshold == self.threshold,
            self.replenish_in(cycles).l2p.len() == self.l2p.len(),
            self.replenish_in(cycles).blocks.len() == self.blocks.len(),
            self.replenish_in(cycles).host == self.host,
            self.replenish_in(cycles).blocks[self.host as int] == self.blocks[self.host as int],
            total_valid(self.replenish_in(cycles).blocks) == total_valid(self.blocks),
            forall|a: int|
                0 <= a < self.l2p.len() ==> (#[trigger] self.replenish_in(cycles).l2p[a]).is_some()
                    == self.l2p[a].is_some(),
        decreases cycles,
    {
        if !self.replenished() {
            self.lemma_collect_under_threshold();
            self.lemma_collect();
            let t = self.collect();
            t.lemma_replenish_in((cycles - 1) as nat);
            assert forall|a: int| 0 <= a < self.l2p.len() implies (
            #[trigger] self.replenish_in(cycles).l2p[a]).is_some() == self.l2p[a].is_some() by {
                assert(t.l2p[a].is_some() == self.l2p[a].is_some());
            }
        }
    }

    /// A full host block is replaced before anything else.
    pub open spec fn staged(self) -> FtlView {
        if self.blocks[self.host as int].full() {
            self.rotate(false)
        } else {
            self
        }
    }

    /// The next write has to collect: the host's block is full, and taking
    /// a free block in its place leaves the free pool under its threshold.
    pub open spec fn needs_collection(self) -> bool {
        self.blocks[self.host as int].full() && self.free.len() <= self.threshold
    }

    /// A write can be served: the free pool can be brought to its threshold
    /// once a full host block is replaced. That is so of every roomy engine,
    /// and wherever the write has nothing to collect.
    pub open spec fn can_write(self) -> bool {
        self.roomy() || !self.needs_collection() || self.staged().can_replenish()
    }

    /// The state in which the page is written: a full host block has been
    /// replaced and the free pool replenished.
    pub open spec fn prepare(self) -> FtlView {
        self.staged().replenish()
    }

    /// One host write of `lba`: prepare, drop the old mapping if there is
    /// one, write the page to the host's open block and map `lba` there.
    pub open spec fn write(self, lba: nat) -> FtlView {
        let s = self.prepare();
        let cleared = if s.l2p[lba as int].is_some() {
            s.invalidate(lba)
        } else {
            s
        };
        cleared.program(cleared.host, lba)
    }

    /// Replacing a full host block keeps the invariant and leaves a free
    /// block; a write that can be served can replenish from there.
    pub proof fn lemma_staged(self)
        requires
            self.wf(),
        ensures
            self.staged().inv(),
            self.staged().free.len() >= 1,
            self.staged().roomy() == self.roomy(),
            self.can_write() ==> self.staged().can_replenish(),
            !self.blocks[self.host as int].full() ==> self.staged() == self,
            self.free.len() > self.threshold ==> self.staged().replenished(),
            self.staged().l2p == self.l2p,
            self.staged().pages == self.pages,
            self.staged().threshold == self.threshold,
            self.staged().blocks.len() == self.blocks.len(),
            total_valid(self.staged().blocks) == total_valid(self.blocks),
            self.staged().host == if self.blocks[self.host as int].full() {
                self.free[0]
            } else {
                self.host
            },
            self.staged().blocks[self.staged().host as int].state == BlockState::Open,
            self.staged().blocks[self.staged().host as int].cursor == if self.blocks[self.host as int].full() {
                0
            } else {
                self.blocks[self.host as int].cursor
            },
    {
        assert(self.blocks[self.host as int].wf());
        if self.blocks[self.host as int].full() {
            self.lemma_rotate(false, None);
            assert(self.free.contains(self.free[0]));
            assert(self.blocks[self.free[0] as int].wf());
        }
        if self.roomy() {
            self.staged().lemma_roomy_replenishes();
        }
        if !self.needs_collection() {
            assert(self.staged().replenishes_in(0));
        }
    }

    pub proof fn lemma_prepare(self)
        requires
            self.wf(),
            self.can_write(),
        ensures
            self.prepare().wf(),
            self.prepare().roomy() == self.roomy(),
            !self.blocks[self.host as int].full() ==> self.prepare() == self,
            self.prepare().pages == self.pages,
            self.prepare().threshold == self.threshold,
            self.prepare().l2p.len() == self.l2p.len(),
            self.prepare().blocks.len() == self.blocks.len(),
            self.prepare().host == self.staged().host,
            self.prepare().blocks[self.prepare().host as int] == self.staged().blocks[self.staged().host as int],
            self.prepare().blocks[self.prepare().host as int].state == BlockState::Open,
            total_valid(self.prepare().blocks) == total_valid(self.blocks),
            forall|a: int|
                0 <= a < self.l2p.len() ==> (#[trigger] self.prepare().l2p[a]).is_some()
                    == self.l2p[a].is_some(),
    {
        self.lemma_staged();
        let s = self.staged();
        let cycles = choose|cycles: nat| s.replenishes_in(cycles);
        s.lemma_replenish_in(cycles);
    }

    /// A write keeps the engine well formed, maps `lba` to the page that was
    /// next in the host's open block, and leaves every other address mapped
    /// or unmapped as it was.
    pub proof fn lemma_write(self, lba: nat)
        requires
            self.wf(),
            self.can_write(),
            lba < self.l2p.len(),
        ensures
            self.write(lba).wf(),
            self.write(lba).roomy() == self.roomy(),
            self.write(lba).pages == self.pages,
            self.write(lba).threshold == self.threshold,
            self.write(lba).l2p.len() == self.l2p.len(),
            self.write(lba).blocks.len() == self.blocks.len(),
            self.write(lba).host == self.staged().host,
            self.write(lba).l2p[lba as int] == Some(
                page_at(
                    self.staged().host,
                    self.staged().blocks[self.staged().host as int].cursor,
                    self.pages,
                ),
            ),
            forall|a: int|
                0 <= a < self.l2p.len() && a != lba ==> (#[trigger] self.write(lba).l2p[a]).is_some()
                    == self.l2p[a].is_some(),
    {
        self.lemma_staged();
        self.lemma_prepare();
        let s = self.prepare();
        let cleared = if s.l2p[lba as int].is_some() {
            s.invalidate(lba)
        } else {
            s
        };
        assert(s.blocks[s.host as int].wf());
        if s.l2p[lba as int].is_some() {
            s.lemma_invalidate(lba, None);
            lemma_page_at_split(s.l2p[lba as int].unwrap(), s.blocks.len(), s.pages);
        }
        assert(cleared.blocks[cleared.host as int].state == BlockState::Open);
        assert(cleared.blocks[cleared.host as int].cursor == s.blocks[s.host as int].cursor);
        cleared.lemma_program(cleared.host, lba, None);
        assert forall|a: int| 0 <= a < self.l2p.len() && a != lba implies (
        #[trigger] self.write(lba).l2p[a]).is_some() == self.l2p[a].is_some() by {
            assert(s.l2p[a].is_some() == self.l2p[a].is_some());
        }
    }
}

} // verus!
