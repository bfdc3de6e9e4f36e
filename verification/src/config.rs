//! Topology of the simulated NAND array and the tunables of the engine.

use vstd::prelude::*;

verus! {

pub type BaseType = usize;

pub type Addr = BaseType;

pub type PageId = BaseType;

pub type BlockId = BaseType;

pub type Counter = BaseType;

pub const CHANNELS: BaseType = 1;

pub const DIES: BaseType = 1;

pub const PLANES: BaseType = 4;

pub const BLOCKS: BaseType = 4096;

pub const PAGES_PER_BLOCK: BaseType = 1028;

pub const PAGE_SIZE: BaseType = 4096;

/// Size the free pool is replenished to before a page is written.
pub const FREE_BLOCKS: BaseType = 5;

pub const ALL_DIES: BaseType = 1;

pub const ALL_PLANES: BaseType = 4;

pub const ALL_BLOCKS: BaseType = 16384;

pub const ALL_PAGES: BaseType = 16842752;

/// Bytes in the array: more than 32 bits can count.
pub const CAPACITY: u64 = 68987912192;

/// Marks a table entry that holds no address.
pub const INVALID_PAGE_ID: PageId = usize::MAX;

/// The shape of one engine: how many erase blocks it has, how many pages
/// each holds, and how many erased blocks it keeps in reserve.
#[derive(Clone, Copy, Debug, PartialEq, Eq, Structural)]
pub struct Config {
    pub blocks: usize,
    pub pages_per_block: usize,
    pub free_blocks: usize,
}

impl Config {
    /// A shape on which the engine can run: blocks are not empty, the
    /// reserve leaves room for one collection target to be replaced, both
    /// open blocks exist beside the reserve, and every page has an address
    /// below the marker for "no address".
    pub open spec fn valid(self) -> bool {
        &&& self.pages_per_block >= 1
        &&& self.free_blocks >= 2
        &&& self.blocks >= self.free_blocks + 2
        &&& self.blocks * self.pages_per_block < usize::MAX
    }

    /// Number of physical pages.
    pub open spec fn pages(self) -> nat {
        (self.blocks * self.pages_per_block) as nat
    }

    /// Whether `spare` pages can be withheld from the logical space: no more
    /// than there are.
    pub open spec fn admits(self, spare: nat) -> bool {
        spare <= self.pages()
    }

    /// Whether withholding `spare` pages leaves collection enough garbage to
    /// find, whatever is written: more pages than the reserve and one
    /// further block hold.
    pub open spec fn margin(self, spare: nat) -> bool {
        (self.free_blocks + 1) * self.pages_per_block < spare
    }

    pub open spec fn standard_spec() -> Config {
        Config { blocks: ALL_BLOCKS, pages_per_block: PAGES_PER_BLOCK, free_blocks: FREE_BLOCKS }
    }

    /// The fixed topology.
    #[verifier::when_used_as_spec(standard_spec)]
    pub fn standard() -> (c: Config)
        ensures
            c == Self::standard_spec(),
            c.valid(),
            c.pages() == ALL_PAGES,
    {
        assert(16384 * 1028 == 16842752) by (nonlinear_arith);
        Config { blocks: ALL_BLOCKS, pages_per_block: PAGES_PER_BLOCK, free_blocks: FREE_BLOCKS }
    }

    pub fn is_valid(&self) -> (ok: bool)
        ensures
            ok == self.valid(),
    {
        if self.pages_per_block < 1 || self.free_blocks < 2 {
            return false;
        }
        if self.blocks < 2 || self.blocks - 2 < self.free_blocks {
            return false;
        }
        match self.blocks.checked_mul(self.pages_per_block) {
            Some(total) => total < usize::MAX,
            None => false,
        }
    }

    pub fn total_pages(&self) -> (total: usize)
        requires
            self.valid(),
        ensures
            total == self.pages(),
    {
        self.blocks * self.pages_per_block
    }

    pub fn admits_spare(&self, spare: usize) -> (ok: bool)
        requires
            self.valid(),
        ensures
            ok == self.admits(spare as nat),
    {
        spare <= self.total_pages()
    }

    pub fn has_margin(&self, spare: usize) -> (ok: bool)
        requires
            self.valid(),
        ensures
            ok == self.margin(spare as nat),
    {
        proof {
            assert((self.free_blocks + 1) * self.pages_per_block <= self.blocks * self.pages_per_block)
                by (nonlinear_arith)
                requires self.free_blocks + 1 <= self.blocks;
        }
        (self.free_blocks + 1) * self.pages_per_block < spare
    }
}

} // verus!
