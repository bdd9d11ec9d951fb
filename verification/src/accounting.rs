//! The books of physical memory: the free regions beside the blocks that
//! are in use.  A request takes exactly the addresses of its block out of
//! the free addresses, and giving the block back returns exactly those.
//! Whatever requests are served, in whatever order, free and used bytes add
//! up to the memory found at boot, and no block in use shares an address
//! with another block or with a free region.

use crate::boot::{lemma_usable_regions, BootContext};
use crate::freelist::{
    allocation, capacity, first_fit, insertion_index, is_free_address, is_releasable,
    lemma_allocation, lemma_first_fit, lemma_insertion_index, lemma_release,
    lemma_release_keeps_apart, ordered, overlaps_any, release, FreeListEntry,
};
use vstd::prelude::*;

verus! {

/// A block of memory that was handed out and has not been given back.
pub struct Block {
    pub address: usize,
    pub size: usize,
}

impl Block {
    /// The address right after the block.
    pub open spec fn end(self) -> int {
        self.address + self.size
    }

    /// Whether the two blocks share an address.
    pub open spec fn overlaps(self, other: Block) -> bool {
        self.address < other.end() && other.address < self.end()
    }
}

/// The free regions, the blocks in use, and the number of usable bytes.
pub struct Books {
    pub free: Seq<FreeListEntry>,
    pub in_use: Seq<Block>,
    pub total: int,
}

/// A request to the memory manager: for a block of `size` bytes at a
/// multiple of `alignment`, or to give back the block at position `block`
/// among those in use.
pub enum Request {
    Allocate { size: usize, alignment: usize },
    Deallocate { block: int },
}

/// The number of bytes in all blocks together.
pub open spec fn bytes_in_use(blocks: Seq<Block>) -> int
    decreases blocks.len(),
{
    if blocks.len() == 0 {
        0
    } else {
        bytes_in_use(blocks.drop_last()) + blocks.last().size
    }
}

/// Free bytes and bytes in use add up to the usable memory.
pub open spec fn balanced(books: Books) -> bool {
    capacity(books.free) + bytes_in_use(books.in_use) == books.total
}

/// Every block in use is non-empty and ends within the address space, no
/// two blocks in use share an address, and no block in use shares an
/// address with a free region.
pub open spec fn separate(books: Books) -> bool {
    &&& forall|k: int|
        0 <= k < books.in_use.len() ==> 0 < (#[trigger] books.in_use[k]).size
            && books.in_use[k].end() <= usize::MAX
    &&& forall|k: int, l: int|
        0 <= k < l < books.in_use.len() ==> !(#[trigger] books.in_use[k]).overlaps(
            #[trigger] books.in_use[l],
        )
    &&& forall|k: int|
        0 <= k < books.in_use.len() ==> !overlaps_any(
            books.free,
            (#[trigger] books.in_use[k]).address as int,
            books.in_use[k].end(),
        )
}

/// The books are in order: the free regions are ordered, and the books are
/// balanced and separate.
pub open spec fn consistent(books: Books) -> bool {
    &&& ordered(books.free)
    &&& balanced(books)
    &&& separate(books)
}

/// The books right after boot: all usable memory is free.
pub open spec fn opening_books(boot: BootContext) -> Books {
    Books {
        free: boot.usable_regions(),
        in_use: Seq::empty(),
        total: capacity(boot.usable_regions()),
    }
}

/// Whether the request may be made: a block that is asked for is not
/// empty and its alignment is positive; a block that is given back is in
/// use.
pub open spec fn admissible(books: Books, request: Request) -> bool {
    match request {
        Request::Allocate { size, alignment } => size > 0 && alignment > 0,
        Request::Deallocate { block } => 0 <= block < books.in_use.len(),
    }
}

/// The books after the request is served.  A request for a block that fits
/// nowhere leaves them as they are.
pub open spec fn serve(books: Books, request: Request) -> Books {
    match request {
        Request::Allocate { size, alignment } => match allocation(books.free, size, alignment) {
            Some((address, rest)) => Books {
                free: rest,
                in_use: books.in_use.push(Block { address, size }),
                total: books.total,
            },
            None => books,
        },
        Request::Deallocate { block } => Books {
            free: release(books.free, books.in_use[block].address, books.in_use[block].size),
            in_use: books.in_use.remove(block),
            total: books.total,
        },
    }
}

/// The books after the requests are served one after the other.
pub open spec fn replay(books: Books, requests: Seq<Request>) -> Books
    decreases requests.len(),
{
    if requests.len() == 0 {
        books
    } else {
        serve(replay(books, requests.drop_last()), requests.last())
    }
}

/// Whether each request may be made at the time it is made.
pub open spec fn admissible_in_turn(books: Books, requests: Seq<Request>) -> bool
    decreases requests.len(),
{
    requests.len() == 0 || (admissible_in_turn(books, requests.drop_last()) && admissible(
        replay(books, requests.drop_last()),
        requests.last(),
    ))
}

/// A block that is handed out raises the bytes in use by its size.
proof fn lemma_bytes_in_use_push(blocks: Seq<Block>, block: Block)
    ensures
        bytes_in_use(blocks.push(block)) == bytes_in_use(blocks) + block.size,
{
    assert(blocks.push(block).drop_last() =~= blocks);
}

/// A block that is given back lowers the bytes in use by its size.
proof fn lemma_bytes_in_use_remove(blocks: Seq<Block>, index: int)
    requires
        0 <= index < blocks.len(),
    ensures
        bytes_in_use(blocks.remove(index)) == bytes_in_use(blocks) - blocks[index].size,
    decreases blocks.len(),
{
    let removed = blocks.remove(index);
    if index == blocks.len() - 1 {
        assert(removed =~= blocks.drop_last());
    } else {
        assert(removed.drop_last() =~= blocks.drop_last().remove(index));
        assert(removed.last() == blocks.last());
        lemma_bytes_in_use_remove(blocks.drop_last(), index);
    }
}

/// The addresses that are free after a request is served are those that
/// were free before, without the addresses of the block.
pub proof fn law_allocation_takes_the_block(
    regions: Seq<FreeListEntry>,
    size: usize,
    alignment: usize,
)
    requires
        ordered(regions),
        alignment > 0,
    ensures
        allocation(regions, size, alignment) matches Some((address, rest)) ==> forall|x: int|
            #[trigger] is_free_address(rest, x) <==> is_free_address(regions, x) && !(address <= x
                < address + size),
{
    lemma_allocation(regions, size, alignment);
    if let Some((address, rest)) = allocation(regions, size, alignment) {
        lemma_first_fit(regions, size, alignment);
        let index = first_fit(regions, size, alignment);
        let region = regions[index];
        let end = (address + size) as usize;
        assert forall|x: int| #[trigger]
            is_free_address(rest, x) <==> is_free_address(regions, x) && !(address <= x < address
                + size) by {
            if is_free_address(rest, x) {
                let j = choose|j: int|
                    0 <= j < rest.len() && (#[trigger] rest[j]).covers(x, x + 1);
                let within = choose|i: int|
                    0 <= i < regions.len() && (#[trigger] regions[i]).covers(
                        rest[j].start as int,
                        rest[j].end as int,
                    );
                assert(regions[within].covers(x, x + 1));
                assert(!rest[j].overlaps(address as int, address + size));
            }
            if is_free_address(regions, x) && !(address <= x < address + size) {
                let i = choose|i: int|
                    0 <= i < regions.len() && (#[trigger] regions[i]).covers(x, x + 1);
                if address == region.start && end == region.end {
                    let j = if i < index { i } else { i - 1 };
                    assert(rest[j].covers(x, x + 1));
                } else if address == region.start || end == region.end {
                    assert(rest[i].covers(x, x + 1));
                } else {
                    let j = if i < index || (i == index && x < address) { i } else { i + 1 };
                    assert(rest[j].covers(x, x + 1));
                }
            }
        }
    }
}

/// An address in a region that is free after a block is given back lies
/// in the block or was free before.
proof fn lemma_released_address(
    regions: Seq<FreeListEntry>,
    address: usize,
    size: usize,
    j: int,
    x: int,
)
    requires
        ordered(regions),
        is_releasable(regions, address, size),
        0 <= j < release(regions, address, size).len(),
        release(regions, address, size)[j].covers(x, x + 1),
        !(address <= x < address + size),
    ensures
        is_free_address(regions, x),
{
    let end = (address + size) as usize;
    let after = release(regions, address, size);
    lemma_insertion_index(regions, address);
    let index = insertion_index(regions, address);
    let joins_lower = index > 0 && regions[index - 1].end == address;
    let joins_upper = index < regions.len() && regions[index].start == end;
    if joins_lower && joins_upper {
        let merged = FreeListEntry { start: regions[index - 1].start, end: regions[index].end };
        assert(after == regions.update(index - 1, merged).remove(index));
        if j < index - 1 {
            assert(regions[j].covers(x, x + 1));
        } else if j == index - 1 {
            assert(after[j] == merged);
            if x < address {
                assert(regions[index - 1].covers(x, x + 1));
            } else {
                assert(regions[index].covers(x, x + 1));
            }
        } else {
            assert(after[j] == regions[j + 1]);
            assert(regions[j + 1].covers(x, x + 1));
        }
    } else if joins_lower {
        let merged = FreeListEntry { start: regions[index - 1].start, end };
        assert(after == regions.update(index - 1, merged));
        assert(regions[j].covers(x, x + 1));
    } else if joins_upper {
        let merged = FreeListEntry { start: address, end: regions[index].end };
        assert(after == regions.update(index, merged));
        assert(regions[j].covers(x, x + 1));
    } else {
        assert(after == regions.insert(index, FreeListEntry { start: address, end }));
        if j < index {
            assert(after[j] == regions[j]);
            assert(regions[j].covers(x, x + 1));
        } else if j > index {
            assert(after[j] == regions[j - 1]);
            assert(regions[j - 1].covers(x, x + 1));
        }
    }
}

/// The addresses that are free after a block is given back are those that
/// were free before and the addresses of the block.
pub proof fn law_release_frees_the_block(regions: Seq<FreeListEntry>, address: usize, size: usize)
    requires
        ordered(regions),
        is_releasable(regions, address, size),
    ensures
        forall|x: int| #[trigger]
            is_free_address(release(regions, address, size), x) <==> is_free_address(regions, x)
                || address <= x < address + size,
{
    let after = release(regions, address, size);
    lemma_release(regions, address, size);
    assert forall|x: int| #[trigger]
        is_free_address(after, x) <==> is_free_address(regions, x) || address <= x < address
            + size by {
        if is_free_address(regions, x) {
            let i = choose|i: int|
                0 <= i < regions.len() && (#[trigger] regions[i]).covers(x, x + 1);
            let j = choose|j: int|
                0 <= j < after.len() && (#[trigger] after[j]).covers(
                    regions[i].start as int,
                    regions[i].end as int,
                );
            assert(after[j].covers(x, x + 1));
        }
        if address <= x < address + size {
            let j = choose|j: int|
                0 <= j < after.len() && (#[trigger] after[j]).covers(
                    address as int,
                    address + size,
                );
            assert(after[j].covers(x, x + 1));
        }
        if is_free_address(after, x) && !(address <= x < address + size) {
            let j = choose|j: int| 0 <= j < after.len() && (#[trigger] after[j]).covers(x, x + 1);
            lemma_released_address(regions, address, size, j, x);
        }
    }
}

/// After boot the books are consistent: nothing is in use and the total is
/// the sum over all regions that were found.
pub proof fn law_opening_books_are_consistent(boot: BootContext)
    requires
        boot.limit != 0,
        boot.layout(),
    ensures
        consistent(opening_books(boot)),
        opening_books(boot).total == boot.usable_bytes(),
{
    lemma_usable_regions(boot);
}

/// A block in use can be given back.
pub proof fn law_block_in_use_is_releasable(books: Books, block: int)
    requires
        consistent(books),
        0 <= block < books.in_use.len(),
    ensures
        is_releasable(books.free, books.in_use[block].address, books.in_use[block].size),
{
}

/// Serving a request keeps the books consistent: the free bytes and the
/// bytes in use still add up to the same total, and the blocks in use
/// still share no address with each other nor with a free region.
pub proof fn law_serve_keeps_consistent(books: Books, request: Request)
    requires
        consistent(books),
        admissible(books, request),
    ensures
        consistent(serve(books, request)),
        serve(books, request).total == books.total,
{
    let after = serve(books, request);
    match request {
        Request::Allocate { size, alignment } => {
            lemma_allocation(books.free, size, alignment);
            if let Some((address, rest)) = allocation(books.free, size, alignment) {
                let block = Block { address, size };
                let region = choose|i: int|
                    0 <= i < books.free.len() && (#[trigger] books.free[i]).covers(
                        address as int,
                        address + size,
                    );
                lemma_bytes_in_use_push(books.in_use, block);
                assert forall|k: int| 0 <= k < after.in_use.len() implies !overlaps_any(
                    after.free,
                    (#[trigger] after.in_use[k]).address as int,
                    after.in_use[k].end(),
                ) by {
                    if k < books.in_use.len() {
                        let held = books.in_use[k];
                        assert forall|j: int| 0 <= j < after.free.len() implies !(
                        #[trigger] after.free[j]).overlaps(held.address as int, held.end()) by {
                            let within = choose|i: int|
                                0 <= i < books.free.len() && (#[trigger] books.free[i]).covers(
                                    after.free[j].start as int,
                                    after.free[j].end as int,
                                );
                            assert(!books.free[within].overlaps(held.address as int, held.end()));
                        }
                    }
                }
                assert forall|k: int, l: int| 0 <= k < l < after.in_use.len() implies !(
                #[trigger] after.in_use[k]).overlaps(#[trigger] after.in_use[l]) by {
                    if l == books.in_use.len() {
                        let held = books.in_use[k];
                        assert(!books.free[region].overlaps(held.address as int, held.end()));
                    } else {
                        assert(!books.in_use[k].overlaps(books.in_use[l]));
                    }
                }
            }
        },
        Request::Deallocate { block } => {
            let given = books.in_use[block];
            lemma_release(books.free, given.address, given.size);
            lemma_bytes_in_use_remove(books.in_use, block);
            assert forall|k: int| 0 <= k < after.in_use.len() implies !overlaps_any(
                after.free,
                (#[trigger] after.in_use[k]).address as int,
                after.in_use[k].end(),
            ) by {
                let source = if k < block { k } else { k + 1 };
                let held = books.in_use[source];
                assert(after.in_use[k] == held);
                if source < block {
                    assert(!held.overlaps(given));
                } else {
                    assert(!given.overlaps(held));
                }
                lemma_release_keeps_apart(
                    books.free,
                    given.address,
                    given.size,
                    held.address as int,
                    held.end(),
                );
            }
            assert forall|k: int, l: int| 0 <= k < l < after.in_use.len() implies !(
            #[trigger] after.in_use[k]).overlaps(#[trigger] after.in_use[l]) by {
                let from_k = if k < block { k } else { k + 1 };
                let from_l = if l < block { l } else { l + 1 };
                assert(!books.in_use[from_k].overlaps(books.in_use[from_l]));
            }
            assert forall|k: int| 0 <= k < after.in_use.len() implies 0 < (
            #[trigger] after.in_use[k]).size && after.in_use[k].end() <= usize::MAX by {
                let source = if k < block { k } else { k + 1 };
                assert(after.in_use[k] == books.in_use[source]);
            }
        },
    }
}

/// At every state that is reached from consistent books by admissible
/// requests, the books are consistent and the total is what it was.
pub proof fn law_replay_keeps_consistent(books: Books, requests: Seq<Request>)
    requires
        consistent(books),
        admissible_in_turn(books, requests),
    ensures
        consistent(replay(books, requests)),
        replay(books, requests).total == books.total,
    decreases requests.len(),
{
    if requests.len() > 0 {
        law_replay_keeps_consistent(books, requests.drop_last());
        law_serve_keeps_consistent(replay(books, requests.drop_last()), requests.last());
    }
}

} // verus!
