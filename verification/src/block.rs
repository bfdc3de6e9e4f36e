//! The erase block: a reverse map from page offsets to logical addresses and
//! a three-state lifecycle.

use vstd::prelude::*;
use crate::config::{Addr, Counter, PageId, INVALID_PAGE_ID, PAGES_PER_BLOCK};

verus! {

#[derive(Clone, Copy, Debug, PartialEq, Eq, Structural)]
pub enum BlockState {
    Erased,
    Open,
    Written,
}

/// What a table entry stands for: nothing, or an address.
pub open spec fn entry(raw: usize) -> Option<nat> {
    if raw == INVALID_PAGE_ID {
        None
    } else {
        Some(raw as nat)
    }
}

/// A table of raw entries as a sequence of optional addresses.
pub open spec fn entries(raw: Seq<usize>) -> Seq<Option<nat>> {
    Seq::new(raw.len(), |i: int| entry(raw[i]))
}

/// How many entries of a table hold an address.
pub open spec fn occupied(s: Seq<Option<nat>>) -> nat
    decreases s.len(),
{
    if s.len() == 0 {
        0
    } else {
        occupied(s.drop_last()) + if s.last().is_some() { 1nat } else { 0nat }
    }
}

pub proof fn lemma_occupied_bound(s: Seq<Option<nat>>)
    ensures
        occupied(s) <= s.len(),
    decreases s.len(),
{
    if s.len() > 0 {
        lemma_occupied_bound(s.drop_last());
    }
}

pub proof fn lemma_occupied_update(s: Seq<Option<nat>>, i: int, v: Option<nat>)
    requires
        0 <= i < s.len(),
    ensures
        occupied(s.update(i, v)) + (if s[i].is_some() { 1int } else { 0int })
            == occupied(s) + (if v.is_some() { 1int } else { 0int }),
    decreases s.len(),
{
    let t = s.update(i, v);
    if i == s.len() - 1 {
        assert(t.drop_last() =~= s.drop_last());
    } else {
        assert(t.drop_last() =~= s.drop_last().update(i, v));
        lemma_occupied_update(s.drop_last(), i, v);
    }
}

pub proof fn lemma_occupied_none(s: Seq<Option<nat>>)
    requires
        forall|i: int| 0 <= i < s.len() ==> s[i].is_none(),
    ensures
        occupied(s) == 0,
    decreases s.len(),
{
    if s.len() > 0 {
        lemma_occupied_none(s.drop_last());
    }
}

pub proof fn lemma_occupied_some(s: Seq<Option<nat>>, i: int)
    requires
        0 <= i < s.len(),
        s[i].is_some(),
    ensures
        occupied(s) >= 1,
    decreases s.len(),
{
    if i < s.len() - 1 {
        lemma_occupied_some(s.drop_last(), i);
    }
}

/// If nothing is occupied, every entry is empty.
pub proof fn lemma_occupied_zero(s: Seq<Option<nat>>)
    requires
        occupied(s) == 0,
    ensures
        forall|i: int| 0 <= i < s.len() ==> s[i].is_none(),
{
    assert forall|i: int| 0 <= i < s.len() implies s[i].is_none() by {
        if s[i].is_some() {
            lemma_occupied_some(s, i);
        }
    }
}

/// Two tables that are occupied at the same places are occupied equally
/// often.
pub proof fn lemma_occupied_same_places(s: Seq<Option<nat>>, t: Seq<Option<nat>>)
    requires
        s.len() == t.len(),
        forall|i: int| 0 <= i < s.len() ==> s[i].is_some() == t[i].is_some(),
    ensures
        occupied(s) == occupied(t),
    decreases s.len(),
{
    if s.len() > 0 {
        lemma_occupied_same_places(s.drop_last(), t.drop_last());
    }
}

/// The erase counter after one more erasure: it stops at the largest value
/// the machine can hold.
pub open spec fn bumped(erases: nat) -> nat {
    if erases < usize::MAX {
        erases + 1
    } else {
        erases
    }
}

/// A block as a mathematical value.
pub struct BlockView {
    pub id: nat,
    pub state: BlockState,
    pub cursor: nat,
    pub valid: nat,
    pub erases: nat,
    pub slots: Seq<Option<nat>>,
}

impl BlockView {
    pub open spec fn pages(self) -> nat {
        self.slots.len()
    }

    pub open spec fn full(self) -> bool {
        self.cursor == self.pages()
    }

    /// The block invariant: the cursor is within the block, nothing lies at
    /// or beyond it, the valid count is the number of occupied slots, and the
    /// state agrees with the cursor.
    pub open spec fn wf(self) -> bool {
        &&& self.pages() >= 1
        &&& self.cursor <= self.pages()
        &&& self.valid == occupied(self.slots)
        &&& forall|i: int| self.cursor <= i < self.pages() ==> (#[trigger] self.slots[i]).is_none()
        &&& self.state == BlockState::Erased ==> self.cursor == 0
        &&& self.state == BlockState::Open ==> self.cursor < self.pages()
        &&& self.state == BlockState::Written ==> self.cursor == self.pages()
    }

    pub open spec fn fresh(id: nat, pages: nat) -> BlockView {
        BlockView {
            id,
            state: BlockState::Erased,
            cursor: 0,
            valid: 0,
            erases: 0,
            slots: Seq::new(pages, |i: int| None),
        }
    }

    pub open spec fn opened(self) -> BlockView {
        BlockView { state: BlockState::Open, ..self }
    }

    /// The block after `lba` was written at the cursor.
    pub open spec fn programmed(self, lba: nat) -> BlockView {
        BlockView {
            slots: self.slots.update(self.cursor as int, Some(lba)),
            cursor: self.cursor + 1,
            valid: self.valid + 1,
            state: if self.cursor + 1 == self.pages() {
                BlockState::Written
            } else {
                self.state
            },
            ..self
        }
    }

    /// The block after the page at `offset` lost its mapping.
    pub open spec fn invalidated(self, offset: nat) -> BlockView {
        BlockView {
            slots: self.slots.update(offset as int, None),
            valid: (self.valid - 1) as nat,
            ..self
        }
    }

    pub open spec fn erased(self) -> BlockView {
        BlockView { state: BlockState::Erased, cursor: 0, erases: bumped(self.erases), ..self }
    }

    /// Physical address of the page the next write goes to.
    pub open spec fn next_page(self) -> nat {
        self.id * self.pages() + self.cursor
    }

    pub proof fn lemma_fresh_wf(id: nat, pages: nat)
        requires
            pages >= 1,
        ensures
            Self::fresh(id, pages).wf(),
    {
        lemma_occupied_none(Self::fresh(id, pages).slots);
    }

    pub proof fn lemma_programmed_wf(self, lba: nat)
        requires
            self.wf(),
            self.state == BlockState::Open,
        ensures
            self.programmed(lba).wf(),
    {
        lemma_occupied_update(self.slots, self.cursor as int, Some(lba));
    }

    pub proof fn lemma_invalidated_wf(self, offset: nat)
        requires
            self.wf(),
            offset < self.pages(),
            self.slots[offset as int].is_some(),
        ensures
            self.invalidated(offset).wf(),
            self.valid >= 1,
    {
        lemma_occupied_update(self.slots, offset as int, None);
        lemma_occupied_some(self.slots, offset as int);
    }

    pub proof fn lemma_erased_wf(self)
        requires
            self.wf(),
            self.valid == 0,
        ensures
            self.erased().wf(),
            forall|i: int| 0 <= i < self.pages() ==> self.slots[i].is_none(),
    {
        lemma_occupied_zero(self.slots);
    }

    /// The valid count never exceeds the cursor.
    pub proof fn lemma_valid_le_cursor(self)
        requires
            self.wf(),
        ensures
            self.valid <= self.cursor,
    {
        let head = self.slots.take(self.cursor as int);
        lemma_occupied_bound(head);
        lemma_occupied_tail_empty(self.slots, self.cursor as int);
    }
}

/// Empty entries at the end of a table do not count.
pub proof fn lemma_occupied_tail_empty(s: Seq<Option<nat>>, k: int)
    requires
        0 <= k <= s.len(),
        forall|i: int| k <= i < s.len() ==> s[i].is_none(),
    ensures
        occupied(s) == occupied(s.take(k)),
    decreases s.len() - k,
{
    if k == s.len() {
        assert(s.take(k) =~= s);
    } else {
        lemma_occupied_tail_empty(s.drop_last(), k);
        assert(s.drop_last().take(k) =~= s.take(k));
    }
}


/// One erase block.
#[derive(Debug)]
pub struct Block {
    block_id: Addr,
    valid_counter: Counter,
    cursor: PageId,  // offset of the next page to write
    erase_counter: Counter,
    p2l: Vec<PageId>,
    state: BlockState,
}

impl View for Block {
    type V = BlockView;

    closed spec fn view(&self) -> BlockView {
        BlockView {
            id: self.block_id as nat,
            state: self.state,
            cursor: self.cursor as nat,
            valid: self.valid_counter as nat,
            erases: self.erase_counter as nat,
            slots: entries(self.p2l@),
        }
    }
}

impl Block {
    pub open spec fn wf(&self) -> bool {
        self@.wf()
    }

    /// An erased block of the fixed size.
    pub fn new(block_id: Addr) -> (b: Self)
        ensures
            b@ == BlockView::fresh(block_id as nat, PAGES_PER_BLOCK as nat),
            b.wf(),
    {
        Self::with_pages(block_id, PAGES_PER_BLOCK)
    }

    /// An erased block of `pages` pages.
    pub fn with_pages(block_id: Addr, pages: usize) -> (b: Self)
        requires
            pages >= 1,
        ensures
            b@ == BlockView::fresh(block_id as nat, pages as nat),
            b.wf(),
    {
        let p2l = vec![INVALID_PAGE_ID; pages];
        let b = Block {
            block_id,
            valid_counter: 0,
            cursor: 0,
            erase_counter: 0,
            p2l,
            state: BlockState::Erased,
        };
        proof {
            assert(b@.slots =~= BlockView::fresh(block_id as nat, pages as nat).slots);
            BlockView::lemma_fresh_wf(block_id as nat, pages as nat);
        }
        b
    }

    pub fn id(&self) -> (id: Addr)
        ensures
            id == self@.id,
    {
        self.block_id
    }

    pub fn state(&self) -> (state: BlockState)
        ensures
            state == self@.state,
    {
        self.state
    }

    pub fn cursor(&self) -> (cursor: PageId)
        ensures
            cursor == self@.cursor,
    {
        self.cursor
    }

    pub fn valid_count(&self) -> (valid: Counter)
        ensures
            valid == self@.valid,
    {
        self.valid_counter
    }

    pub fn erase_count(&self) -> (erases: Counter)
        ensures
            erases == self@.erases,
    {
        self.erase_counter
    }

    pub fn pages(&self) -> (pages: usize)
        ensures
            pages == self@.pages(),
    {
        self.p2l.len()
    }

    /// The logical address held at `offset`, if the page there is valid.
    pub fn lba_at(&self, offset: PageId) -> (lba: Option<PageId>)
        requires
            offset < self@.pages(),
        ensures
            match lba {
                Some(a) => self@.slots[offset as int] == Some(a as nat),
                None => self@.slots[offset as int].is_none(),
            },
    {
        let raw: usize = self.p2l[offset];
        if raw == INVALID_PAGE_ID {
            None
        } else {
            Some(raw)
        }
    }

    /// Number of pages that hold no valid data.
    pub fn invalid_counter(&self) -> (invalid: Counter)
        requires
            self.wf(),
        ensures
            invalid == self@.pages() - self@.valid,
    {
        proof {
            lemma_occupied_bound(self@.slots);
        }
        self.p2l.len() - self.valid_counter
    }

    pub fn full(&self) -> (full: bool)
        ensures
            full == self@.full(),
    {
        self.cursor == self.p2l.len()
    }

    pub fn no_valid_pages(&self) -> (none: bool)
        ensures
            none == (self@.valid == 0),
    {
        self.valid_counter == 0
    }

    /// Writes `lba` at the cursor and advances it; a block whose last page
    /// was written becomes `Written`.
    pub fn write_one_page(&mut self, lba: PageId)
        requires
            old(self).wf(),
            old(self)@.state == BlockState::Open,
            lba != INVALID_PAGE_ID,
        ensures
            final(self)@ == old(self)@.programmed(lba as nat),
            final(self).wf(),
    {
        proof {
            lemma_occupied_bound(self@.slots);
            self@.lemma_valid_le_cursor();
            self@.lemma_programmed_wf(lba as nat);
        }
        let at: usize = self.cursor;
        let pages: usize = self.p2l.len();
        assert(self.valid_counter <= at < pages);
        self.p2l[at] = lba;
        self.cursor += 1;
        self.valid_counter += 1;
        if self.full() {
            self.state = BlockState::Written;
        }
        proof {
            assert(self@.slots =~= old(self)@.programmed(lba as nat).slots);
        }
    }

    /// Drops the mapping of the page at `offset`.
    pub fn invalidate_page(&mut self, offset: PageId)
        requires
            old(self).wf(),
            offset < old(self)@.pages(),
            old(self)@.slots[offset as int].is_some(),
        ensures
            final(self)@ == old(self)@.invalidated(offset as nat),
            final(self).wf(),
    {
        proof {
            self@.lemma_invalidated_wf(offset as nat);
        }
        self.valid_counter -= 1;
        self.p2l[offset] = INVALID_PAGE_ID;
        proof {
            assert(self@.slots =~= old(self)@.invalidated(offset as nat).slots);
        }
    }

    /// Physical address of the page the next write goes to.
    pub fn get_physical_for_following_page(&self) -> (page: PageId)
        requires
            self@.next_page() <= usize::MAX,
        ensures
            page == self@.next_page(),
    {
        proof {
            assert(self.block_id * self.p2l@.len() >= 0) by (nonlinear_arith);
        }
        self.block_id * self.p2l.len() + self.cursor
    }

    /// Erased to Open.
    pub fn open(&mut self)
        requires
            old(self).wf(),
            old(self)@.state == BlockState::Erased,
        ensures
            final(self)@ == old(self)@.opened(),
            final(self).wf(),
    {
        self.state = BlockState::Open;
    }

    /// Written to Erased; the block must hold no valid page.
    pub fn erase(&mut self)
        requires
            old(self).wf(),
            old(self)@.state == BlockState::Written,
            old(self)@.valid == 0,
        ensures
            final(self)@ == old(self)@.erased(),
            final(self).wf(),
    {
        proof {
            self@.lemma_erased_wf();
        }
        self.cursor = 0;
        if self.erase_counter < usize::MAX {
            self.erase_counter += 1;
        }
        self.state = BlockState::Erased;
    }
}

} // verus!
