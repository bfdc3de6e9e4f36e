//! Facts about page addresses: a physical address is a block index times the
//! block size plus an offset, and splits back by division and remainder.

use vstd::prelude::*;
use vstd::arithmetic::div_mod::{lemma_fundamental_div_mod, lemma_fundamental_div_mod_converse};

verus! {

/// Physical address of the page at `offset` in block `block`.
pub open spec fn page_at(block: nat, offset: nat, pages: nat) -> nat {
    block * pages + offset
}

/// Block that holds the physical address `page`.
pub open spec fn block_of(page: nat, pages: nat) -> nat {
    page / pages
}

/// Offset of the physical address `page` within its block.
pub open spec fn offset_of(page: nat, pages: nat) -> nat {
    page % pages
}

/// Splitting an address that was put together gives the parts back.
pub proof fn lemma_split_page_at(block: nat, offset: nat, pages: nat)
    requires
        offset < pages,
    ensures
        block_of(page_at(block, offset, pages), pages) == block,
        offset_of(page_at(block, offset, pages), pages) == offset,
{
    lemma_fundamental_div_mod_converse(
        (block * pages + offset) as int,
        pages as int,
        block as int,
        offset as int,
    );
}

/// Putting the parts of an address together gives the address back, and the
/// parts of an address below `blocks * pages` are a block and an offset.
pub proof fn lemma_page_at_split(page: nat, blocks: nat, pages: nat)
    requires
        pages > 0,
        page < blocks * pages,
    ensures
        block_of(page, pages) < blocks,
        offset_of(page, pages) < pages,
        page_at(block_of(page, pages), offset_of(page, pages), pages) == page,
{
    lemma_fundamental_div_mod(page as int, pages as int);
    let q = page as int / pages as int;
    let r = page as int % pages as int;
    assert(0 <= r < pages);
    assert(q * pages == pages * q) by (nonlinear_arith);
    assert(q >= 0) by (nonlinear_arith)
        requires
            page == pages * q + r,
            r < pages,
            page >= 0,
            pages > 0,
    ;
    assert(q < blocks) by (nonlinear_arith)
        requires
            page == pages * q + r,
            r >= 0,
            page < blocks * pages,
            pages > 0,
    ;
}

/// Every page of a block has an address within the array.
pub proof fn lemma_page_at_bound(block: nat, offset: nat, blocks: nat, pages: nat)
    requires
        block < blocks,
        offset <= pages,
    ensures
        page_at(block, offset, pages) <= blocks * pages,
        offset < pages ==> page_at(block, offset, pages) < blocks * pages,
{
    assert(block * pages + pages <= blocks * pages) by (nonlinear_arith)
        requires
            block + 1 <= blocks,
    ;
}

/// Two pages with the same address are the same page.
pub proof fn lemma_page_at_injective(b1: nat, o1: nat, b2: nat, o2: nat, pages: nat)
    requires
        o1 < pages,
        o2 < pages,
        page_at(b1, o1, pages) == page_at(b2, o2, pages),
    ensures
        b1 == b2,
        o1 == o2,
{
    lemma_split_page_at(b1, o1, pages);
    lemma_split_page_at(b2, o2, pages);
}

/// Quotient and remainder in one call, by `num_integer::div_rem`, which for
/// unsigned integers returns `(x / y, x % y)` and panics on a zero divisor.
#[verifier::external_body]
pub(crate) fn div_rem(x: usize, y: usize) -> (qr: (usize, usize))
    requires
        y != 0,
    ensures
        qr.0 == x / y,
        qr.1 == x % y,
{
    num_integer::div_rem(x, y)
}

} // verus!
