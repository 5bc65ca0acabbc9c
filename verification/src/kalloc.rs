use vstd::prelude::*;

use crate::memory_layout::{get_kernel_base, page_aligned, round_up_spec, Address, PAGE_SIZE};
use crate::physical_memory::{
    lemma_page_indices, lemma_span_indices, lemma_word_indices_distinct, lemma_word_outside_span,
    page_filled, sentinel_word, PhysicalMemory, WORDS_PER_PAGE,
};

verus! {

/// Byte written over every page that `kalloc` hands out.
pub const ALLOC_PAGE_SENTINEL: u8 = 5;

/// Byte meant for pages that are handed back.
pub const DEALLOC_PAGE_SENTINEL: u8 = 1;

/// Physical address one past the last page that the allocator manages.
pub const KERNEL_MEMORY_END: u64 = 0x8800_0000;

#[verifier::opaque]
/// The pages `[lo, hi)` in the order in which pushing them one after another, from `lo`
/// upwards, leaves them on the free list: the highest first.
pub open spec fn pages_pushed(lo: int, hi: int) -> Seq<u64> {
    if lo < hi {
        Seq::new(((hi - lo) / (PAGE_SIZE as int)) as nat, |i: int| (hi - PAGE_SIZE * (i + 1)) as u64)
    } else {
        Seq::empty()
    }
}

/// Every page in `pages_pushed(lo, hi)` is a page boundary in `[lo, hi)`.
pub proof fn lemma_pages_pushed_bounds(lo: int, hi: int)
    requires
        page_aligned(lo),
        page_aligned(hi),
        0 <= lo,
        hi <= u64::MAX,
    ensures
        forall|i: int|
            #![trigger pages_pushed(lo, hi)[i]]
            0 <= i < pages_pushed(lo, hi).len() ==> lo <= pages_pushed(lo, hi)[i] < hi
                && page_aligned(pages_pushed(lo, hi)[i] as int) && pages_pushed(lo, hi)[i]
                == hi - PAGE_SIZE * (i + 1),
{
    reveal(pages_pushed);
    assert forall|i: int|
        #![trigger pages_pushed(lo, hi)[i]]
        0 <= i < pages_pushed(lo, hi).len() implies lo <= pages_pushed(lo, hi)[i] < hi
            && page_aligned(pages_pushed(lo, hi)[i] as int) && pages_pushed(lo, hi)[i]
            == hi - PAGE_SIZE * (i + 1) by {
        assert(lo < hi);
        assert(i < (hi - lo) / 4096);
        assert(hi - 4096 * (i + 1) >= lo) by (nonlinear_arith)
            requires
                i < (hi - lo) / 4096,
                lo < hi,
        ;
        assert((hi - 4096 * (i + 1)) % 4096 == 0) by (nonlinear_arith)
            requires
                hi % 4096 == 0,
        ;
    }
}

/// Pushing the page at `cur` after the pages `[lo, cur)` gives the pages `[lo, cur + PAGE_SIZE)`.
pub proof fn lemma_pages_pushed_step(lo: int, cur: int)
    requires
        page_aligned(lo),
        page_aligned(cur),
        lo <= cur,
        cur <= u64::MAX,
    ensures
        pages_pushed(lo, cur + PAGE_SIZE) =~= seq![cur as u64] + pages_pushed(lo, cur),
{
    reveal(pages_pushed);
    let a = pages_pushed(lo, cur + PAGE_SIZE);
    let b = seq![cur as u64] + pages_pushed(lo, cur);
    assert((cur + 4096 - lo) / 4096 == (cur - lo) / 4096 + 1);
    assert(a.len() == b.len());
    assert forall|i: int| 0 <= i < a.len() implies a[i] == b[i] by {
        if i > 0 {
            assert(b[i] == pages_pushed(lo, cur)[i - 1]);
        }
    }
}

/// After writing the first word of the page at `cur`, the words that are not first words of a
/// page in `[lo, cur + PAGE_SIZE)` still hold what they held in `m0`.
proof fn lemma_link_words_step(m0: &PhysicalMemory, m1: &PhysicalMemory, m2: &PhysicalMemory, lo: int, cur: int, v: u64)
    requires
        lo <= cur,
        m0.wf(),
        m1.base == m0.base,
        m1.words@.len() == m0.words@.len(),
        m0.has_page(cur),
        page_aligned(cur),
        forall|k: int|
            0 <= k < m0.words@.len() && !is_link_word(m0, k, lo, cur) ==> #[trigger] m1.words@[k]
                == m0.words@[k],
        m2.words@ == m1.words@.update(m1.index_of(cur), v),
    ensures
        forall|k: int|
            0 <= k < m0.words@.len() && !is_link_word(m0, k, lo, cur + PAGE_SIZE) ==> #[trigger] m2.words@[k]
                == m0.words@[k],
{
    assert forall|k: int|
        0 <= k < m0.words@.len() && !is_link_word(m0, k, lo, cur + PAGE_SIZE) implies #[trigger] m2.words@[k]
        == m0.words@[k] by {
        reveal(is_link_word);
        assert(!is_link_word(m0, k, lo, cur));
        if k == m1.index_of(cur) {
            assert(m0.base + 8 * k == cur);
        }
    }
}

/// A page at or above `cur` is neither among the pages `[lo, cur)` nor among pages outside
/// `[lo, KERNEL_MEMORY_END)`.
proof fn lemma_not_yet_pushed(lo: int, cur: int, rest: Seq<u64>)
    requires
        page_aligned(lo),
        page_aligned(cur),
        0 <= lo <= cur < KERNEL_MEMORY_END,
        forall|i: int| #![trigger rest[i]] 0 <= i < rest.len() ==> !(lo <= rest[i] < KERNEL_MEMORY_END),
    ensures
        !(pages_pushed(lo, cur) + rest).contains(cur as u64),
{
    lemma_pages_pushed_bounds(lo, cur);
    let pushed = pages_pushed(lo, cur);
    let all = pushed + rest;
    assert forall|i: int| 0 <= i < all.len() implies all[i] != cur by {
        if i < pushed.len() {
            assert(all[i] == pushed[i]);
        } else {
            assert(all[i] == rest[i - pushed.len()]);
        }
    }
}

/// An empty range of pages, however it is written.
proof fn lemma_empty_ranges(mem: &PhysicalMemory, lo: int, hi1: int, hi2: int)
    requires
        hi1 <= lo,
        hi2 <= lo,
    ensures
        pages_pushed(lo, hi1) == pages_pushed(lo, hi2),
        forall|k: int| is_link_word(mem, k, lo, hi1) == #[trigger] is_link_word(mem, k, lo, hi2),
{
    reveal(pages_pushed);
    reveal(is_link_word);
}

#[verifier::opaque]
/// Word number `k` of `mem` is the first word of a page in `[lo, hi)`.
pub open spec fn is_link_word(mem: &PhysicalMemory, k: int, lo: int, hi: int) -> bool {
    let a = mem.base + 8 * k;
    lo <= a < hi && page_aligned(a)
}

/// The range of pages that `init` hands to the allocator, given the end of the kernel image.
pub fn init_range(kernel_end: Address) -> (r: (Address, Address))
    requires
        round_up_spec(kernel_end.0 as int) <= u64::MAX,
    ensures
        r.0.0 == round_up_spec(kernel_end.0 as int),
        r.1.0 == KERNEL_MEMORY_END,
{
    let start = kernel_end.round_up_to_page_boundary();
    let end = get_kernel_base().add(128 * 1024 * 1024);
    (start, end)
}

/// Distinct words of a window are at most as many as its words.
pub proof fn lemma_distinct_words_bound(mem: &PhysicalMemory, pages: Seq<u64>)
    requires
        forall|i: int| 0 <= i < pages.len() ==> #[trigger] mem.has_word(pages[i] as int),
        forall|i: int, j: int| 0 <= i < j < pages.len() ==> pages[i] != pages[j],
    ensures
        pages.len() <= mem.words@.len(),
{
    let idx = pages.map_values(|p: u64| mem.index_of(p as int));
    let s = idx.to_set();
    let full = Set::new(|k: int| 0 <= k < mem.words@.len());
    assert forall|i: int, j: int| 0 <= i < j < idx.len() implies idx[i] != idx[j] by {
        crate::physical_memory::lemma_word_indices_distinct(mem, pages[i] as int, pages[j] as int);
    }
    idx.unique_seq_to_set();
    assert forall|k: int| s.contains(k) implies full.contains(k) by {
        let i = choose|i: int| 0 <= i < idx.len() && idx[i] == k;
        assert(mem.has_word(pages[i] as int));
    }
    assert(s.subset_of(full));
    vstd::set_lib::lemma_int_range(0, mem.words@.len() as int);
    assert(full =~= vstd::set_lib::set_int_range(0, mem.words@.len() as int));
    vstd::set_lib::lemma_len_subset(s, full);
}

/// No other entry of `pages` has its first word within `PAGE_SIZE` bytes from the first.
pub open spec fn first_clear_of_rest(pages: Seq<u64>) -> bool {
    forall|i: int|
        1 <= i < pages.len() ==> !(pages[0] <= #[trigger] pages[i] < pages[0] + PAGE_SIZE)
}

/// A LIFO free list of physical pages. Each free page holds, in its first word, the
/// address of the next free page (0 ends the list).
pub struct KernelPageAllocator {
    free_list: u64,
    pages: Ghost<Seq<u64>>,
}

impl KernelPageAllocator {
    /// The free pages, from the one handed out next to the one handed out last.
    pub closed spec fn free_pages(&self) -> Seq<u64> {
        self.pages@
    }

    /// The list in memory starting at the head is exactly `free_pages()`.
    #[verifier::opaque]
    pub closed spec fn wf(&self, mem: &PhysicalMemory) -> bool {
        let pages = self.pages@;
        &&& mem.wf()
        &&& self.free_list == (if pages.len() == 0 {
            0u64
        } else {
            pages[0]
        })
        &&& forall|i: int|
            #![trigger pages[i]]
            0 <= i < pages.len() ==> mem.has_word(pages[i] as int) && pages[i] != 0
        &&& forall|i: int, j: int| 0 <= i < j < pages.len() ==> pages[i] != pages[j]
        &&& forall|i: int|
            #![trigger pages[i]]
            0 <= i < pages.len() ==> mem.word(pages[i] as int) == (if i + 1 < pages.len() {
                pages[i + 1]
            } else {
                0u64
            })
    }

    /// Every free entry is a whole page of `mem`, so that no two of them overlap.
    pub closed spec fn whole_pages(&self, mem: &PhysicalMemory) -> bool {
        forall|i: int|
            #![trigger self.pages@[i]]
            0 <= i < self.pages@.len() ==> mem.has_page(self.pages@[i] as int)
    }

    /// What a well-formed allocator promises of its free entries.
    pub proof fn lemma_wf_facts(&self, mem: &PhysicalMemory)
        requires
            self.wf(mem),
        ensures
            mem.wf(),
            forall|i: int|
                #![trigger self.free_pages()[i]]
                0 <= i < self.free_pages().len() ==> mem.has_word(self.free_pages()[i] as int)
                    && self.free_pages()[i] != 0,
            forall|i: int, j: int|
                0 <= i < j < self.free_pages().len() ==> self.free_pages()[i]
                    != self.free_pages()[j],
    {
        reveal(KernelPageAllocator::wf);
    }

    /// What a well-formed allocator of whole pages promises of its free pages.
    pub proof fn lemma_page_facts(&self, mem: &PhysicalMemory)
        requires
            self.wf(mem),
            self.whole_pages(mem),
        ensures
            mem.wf(),
            forall|i: int|
                #![trigger self.free_pages()[i]]
                0 <= i < self.free_pages().len() ==> mem.has_page(self.free_pages()[i] as int)
                    && self.free_pages()[i] != 0,
            forall|i: int, j: int|
                0 <= i < j < self.free_pages().len() ==> self.free_pages()[i]
                    != self.free_pages()[j],
    {
        reveal(KernelPageAllocator::wf);
    }

    /// Writing memory anywhere but in the first word of a free entry keeps the list intact.
    pub proof fn lemma_wf_frame(&self, m1: &PhysicalMemory, m2: &PhysicalMemory)
        requires
            self.wf(m1),
            m2.wf(),
            m2.base == m1.base,
            m2.words@.len() == m1.words@.len(),
            forall|i: int|
                #![trigger self.free_pages()[i]]
                0 <= i < self.free_pages().len() ==> m2.word(self.free_pages()[i] as int)
                    == m1.word(self.free_pages()[i] as int),
        ensures
            self.wf(m2),
            self.whole_pages(m1) ==> self.whole_pages(m2),
    {
        reveal(KernelPageAllocator::wf);
        let pages = self.pages@;
        assert forall|i: int| #![trigger pages[i]] 0 <= i < pages.len() implies m2.has_word(
            pages[i] as int,
        ) && pages[i] != 0 by {
            assert(self.free_pages()[i] == pages[i]);
        }
        assert forall|i: int| #![trigger pages[i]] 0 <= i < pages.len() implies m2.word(
            pages[i] as int,
        ) == (if i + 1 < pages.len() {
            pages[i + 1]
        } else {
            0u64
        }) by {
            assert(self.free_pages()[i] == pages[i]);
        }
    }

    /// An allocator with no free page.
    pub fn new() -> (r: KernelPageAllocator)
        ensures
            r.free_pages() == Seq::<u64>::empty(),
            forall|mem: &PhysicalMemory| mem.wf() ==> #[trigger] r.wf(mem) && r.whole_pages(mem),
    {
        proof {
            reveal(KernelPageAllocator::wf);
        }
        KernelPageAllocator { free_list: 0, pages: Ghost(Seq::empty()) }
    }

    /// Whether a page can be handed out: the head of the free list is not null.
    pub fn has_free_page(&self) -> (r: bool)
        ensures
            forall|mem: &PhysicalMemory| #[trigger] self.wf(mem) ==> r == (self.free_pages().len() > 0),
    {
        proof {
            reveal(KernelPageAllocator::wf);
        }
        self.free_list != 0
    }

    /// Number of free entries, found by following the links from the head.
    pub fn free_count(&self, mem: &PhysicalMemory) -> (r: u64)
        requires
            self.wf(mem),
        ensures
            r == self.free_pages().len(),
    {
        proof {
            reveal(KernelPageAllocator::wf);
            self.lemma_wf_facts(mem);
            lemma_distinct_words_bound(mem, self.pages@);
        }
        let ghost pages = self.pages@;
        let mut cur = self.free_list;
        let mut n: u64 = 0;
        while cur != 0
            invariant
                self.wf(mem),
                pages == self.pages@,
                0 <= n <= pages.len(),
                pages.len() <= mem.words@.len(),
                mem.words@.len() <= u64::MAX,
                cur == (if n < pages.len() {
                    pages[n as int]
                } else {
                    0u64
                }),
            decreases pages.len() - n,
        {
            proof {
                reveal(KernelPageAllocator::wf);
            }
            assert(pages[n as int] != 0);
            cur = mem.read(cur);
            n = n + 1;
        }
        assert(n == pages.len()) by {
            if n < pages.len() {
                assert(pages[n as int] != 0);
            }
        }
        n
    }

    /// Whether an allocation can go ahead: the free list is not empty and a page's worth of
    /// words from its head lies in `mem`.
    pub fn can_allocate(&self, mem: &PhysicalMemory) -> (r: bool)
        requires
            self.wf(mem),
        ensures
            r == (self.free_pages().len() > 0 && mem.has_span(self.free_pages()[0] as int)),
    {
        proof {
            reveal(KernelPageAllocator::wf);
        }
        let head = self.free_list;
        if head == 0 {
            return false;
        }
        head >= mem.base && (head - mem.base) % 8 == 0 && (head - mem.base) / 8 <= mem.words.len() as u64
            && mem.words.len() as u64 - (head - mem.base) / 8 >= 512
    }

    /// Whether every free entry is a whole page of `mem`, found by following the links.
    pub fn holds_whole_pages(&self, mem: &PhysicalMemory) -> (r: bool)
        requires
            self.wf(mem),
        ensures
            r == self.whole_pages(mem),
    {
        proof {
            reveal(KernelPageAllocator::wf);
        }
        let ghost pages = self.pages@;
        let mut cur = self.free_list;
        let ghost mut i: int = 0;
        while cur != 0
            invariant
                self.wf(mem),
                pages == self.pages@,
                0 <= i <= pages.len(),
                cur == (if i < pages.len() {
                    pages[i]
                } else {
                    0u64
                }),
                forall|k: int| 0 <= k < i ==> mem.has_page(#[trigger] pages[k] as int),
            decreases pages.len() - i,
        {
            proof {
                reveal(KernelPageAllocator::wf);
            }
            assert(pages[i] != 0);
            if cur < mem.base || cur % 4096 != 0 || (cur - mem.base) / 8 > mem.words.len() as u64
                || mem.words.len() as u64 - (cur - mem.base) / 8 < 512 {
                assert(!mem.has_page(pages[i] as int));
                return false;
            }
            assert(mem.has_page(pages[i] as int));
            cur = mem.read(cur);
            proof {
                i = i + 1;
            }
        }
        assert(i == pages.len()) by {
            if i < pages.len() {
                assert(pages[i] != 0);
            }
        }
        true
    }

    /// Whether `page` is on the free list, found by following the links from the head.
    pub fn is_free(&self, mem: &PhysicalMemory, page: u64) -> (r: bool)
        requires
            self.wf(mem),
        ensures
            r == self.free_pages().contains(page),
    {
        proof {
            reveal(KernelPageAllocator::wf);
        }
        let ghost pages = self.pages@;
        let mut cur = self.free_list;
        let ghost mut i: int = 0;
        while cur != 0
            invariant
                self.wf(mem),
                pages == self.pages@,
                0 <= i <= pages.len(),
                cur == (if i < pages.len() {
                    pages[i]
                } else {
                    0u64
                }),
                forall|k: int| 0 <= k < i ==> pages[k] != page,
            decreases pages.len() - i,
        {
            proof {
                reveal(KernelPageAllocator::wf);
            }
            assert(pages[i] != 0);
            if cur == page {
                assert(pages[i] == page);
                return true;
            }
            cur = mem.read(cur);
            proof {
                i = i + 1;
            }
        }
        assert(i == pages.len()) by {
            if i < pages.len() {
                assert(pages[i] != 0);
            }
        }
        assert(!pages.contains(page)) by {
            if pages.contains(page) {
                let k = choose|k: int| 0 <= k < pages.len() && pages[k] == page;
                assert(pages[k] != page);
            }
        }
        false
    }

    /// Fills every byte of the `PAGE_SIZE` bytes from `memory` with `value`.
    pub fn memset_page(mem: &mut PhysicalMemory, memory: Address, value: u8)
        requires
            old(mem).wf(),
            old(mem).has_span(memory.0 as int),
        ensures
            final(mem).wf(),
            page_filled(old(mem), final(mem), memory.0 as int, sentinel_word(value)),
    {
        proof {
            lemma_span_indices(mem, memory.0 as int);
        }
        let c: u64 = (value as u64) * 0x0101_0101_0101_0101u64;
        let n_words: u64 = PAGE_SIZE / 8;
        let mut i: u64 = 0;
        let ghost lo = old(mem).index_of(memory.0 as int);
        while i < n_words
            invariant
                mem.wf(),
                n_words == WORDS_PER_PAGE,
                i <= n_words,
                mem.base == old(mem).base,
                mem.words@.len() == old(mem).words@.len(),
                old(mem).has_span(memory.0 as int),
                lo == old(mem).index_of(memory.0 as int),
                lo * 8 == memory.0 - old(mem).base,
                0 <= lo,
                lo + WORDS_PER_PAGE <= old(mem).words@.len(),
                c == sentinel_word(value),
                forall|k: int| lo <= k < lo + i ==> #[trigger] mem.words@[k] == c,
                forall|k: int|
                    0 <= k < old(mem).words@.len() && !(lo <= k < lo + i) ==> #[trigger] mem.words@[k]
                        == old(mem).words@[k],
            decreases n_words - i,
        {
            let addr = memory.0 + i * 8;
            assert(mem.index_of(addr as int) == lo + i);
            mem.write(addr, c);
            i = i + 1;
        }
    }

    /// Puts the entry at `memory` on top of the free list, storing the old head in its
    /// first word.
    pub fn deallocate_page(&mut self, mem: &mut PhysicalMemory, memory: Address)
        requires
            old(self).wf(old(mem)),
            old(mem).has_word(memory.0 as int),
            memory.0 != 0,
            !old(self).free_pages().contains(memory.0),
        ensures
            final(self).wf(final(mem)),
            old(self).whole_pages(old(mem)) && old(mem).has_page(memory.0 as int)
                ==> final(self).whole_pages(final(mem)),
            final(self).free_pages() == seq![memory.0] + old(self).free_pages(),
            final(mem).base == old(mem).base,
            final(mem).words@ == old(mem).words@.update(
                old(mem).index_of(memory.0 as int),
                if old(self).free_pages().len() == 0 {
                    0u64
                } else {
                    old(self).free_pages()[0]
                },
            ),
    {
        proof {
            reveal(KernelPageAllocator::wf);
        }
        let ghost old_pages = self.pages@;
        let ghost m0 = *mem;
        mem.write(memory.0, self.free_list);
        self.free_list = memory.0;
        self.pages = Ghost(seq![memory.0] + old_pages);
        proof {
            let pages = self.pages@;
            assert forall|i: int| #![trigger pages[i]] 0 <= i < pages.len() implies mem.word(
                pages[i] as int,
            ) == (if i + 1 < pages.len() {
                pages[i + 1]
            } else {
                0u64
            }) by {
                if i > 0 {
                    assert(pages[i] == old_pages[i - 1]);
                    assert(old_pages.contains(old_pages[i - 1]));
                    lemma_word_indices_distinct(&m0, memory.0 as int, pages[i] as int);
                }
            }
            assert forall|i: int, j: int| 0 <= i < j < pages.len() implies pages[i]
                != pages[j] by {
                if i == 0 {
                    assert(old_pages.contains(pages[j]));
                }
            }
        }
    }

    /// Takes the entry on top of the free list and fills the `PAGE_SIZE` bytes from it with
    /// `sentinel`. The list stays intact unless that fill covers the first word of another
    /// free entry, which cannot happen while every free entry is a whole page.
    pub fn allocate_page(&mut self, mem: &mut PhysicalMemory, sentinel: u8) -> (r: Address)
        requires
            old(self).wf(old(mem)),
            old(self).free_pages().len() > 0,
            old(mem).has_span(old(self).free_pages()[0] as int),
        ensures
            r.0 == old(self).free_pages()[0],
            final(self).free_pages() == old(self).free_pages().drop_first(),
            page_filled(old(mem), final(mem), r.0 as int, sentinel_word(sentinel)),
            first_clear_of_rest(old(self).free_pages()) ==> final(self).wf(final(mem)),
            old(self).whole_pages(old(mem)) ==> final(self).wf(final(mem))
                && final(self).whole_pages(final(mem)),
    {
        proof {
            reveal(KernelPageAllocator::wf);
        }
        let ghost old_pages = self.pages@;
        let ghost m0 = *mem;
        let page = self.free_list;
        assert(old_pages[0] == page);
        self.free_list = mem.read(page);
        self.pages = Ghost(old_pages.drop_first());
        KernelPageAllocator::memset_page(mem, Address(page), sentinel);
        proof {
            if old(self).whole_pages(&m0) {
                assert forall|i: int| 1 <= i < old_pages.len() implies !(old_pages[0] <= #[trigger] old_pages[i]
                    < old_pages[0] + PAGE_SIZE) by {
                    assert(m0.has_page(old_pages[i] as int));
                    assert(m0.has_page(old_pages[0] as int));
                    crate::physical_memory::lemma_pages_apart(old_pages[0] as int, old_pages[i] as int);
                }
                assert forall|i: int| #![trigger self.pages@[i]] 0 <= i < self.pages@.len() implies mem.has_page(
                    self.pages@[i] as int,
                ) by {
                    assert(self.pages@[i] == old_pages[i + 1]);
                    assert(m0.has_page(old_pages[i + 1] as int));
                }
            }
            if first_clear_of_rest(old_pages) {
                let pages = self.pages@;
                assert forall|i: int| #![trigger pages[i]] 0 <= i < pages.len() implies mem.word(
                    pages[i] as int,
                ) == (if i + 1 < pages.len() {
                    pages[i + 1]
                } else {
                    0u64
                }) by {
                    assert(pages[i] == old_pages[i + 1]);
                    assert(!(old_pages[0] <= old_pages[i + 1] < old_pages[0] + PAGE_SIZE));
                    lemma_word_outside_span(&m0, page as int, pages[i] as int);
                }
                assert forall|i: int, j: int| 0 <= i < j < pages.len() implies pages[i]
                    != pages[j] by {
                    assert(pages[i] == old_pages[i + 1]);
                    assert(pages[j] == old_pages[j + 1]);
                }
                assert forall|i: int| #![trigger pages[i]] 0 <= i < pages.len() implies mem.has_word(
                    pages[i] as int,
                ) && pages[i] != 0 by {
                    assert(pages[i] == old_pages[i + 1]);
                }
            }
        }
        Address(page)
    }

    /// Hands every page from the first page boundary above `kernel_end` up to
    /// `KERNEL_MEMORY_END` to the allocator, lowest first.
    pub fn init(&mut self, mem: &mut PhysicalMemory, kernel_end: Address)
        requires
            old(self).wf(old(mem)),
            round_up_spec(kernel_end.0 as int) <= u64::MAX,
            round_up_spec(kernel_end.0 as int) < KERNEL_MEMORY_END ==> old(mem).base <= round_up_spec(
                kernel_end.0 as int,
            ) && KERNEL_MEMORY_END <= old(mem).end(),
            forall|i: int|
                #![trigger old(self).free_pages()[i]]
                0 <= i < old(self).free_pages().len() ==> !(round_up_spec(kernel_end.0 as int)
                    <= old(self).free_pages()[i] < KERNEL_MEMORY_END),
        ensures
            final(self).wf(final(mem)),
            old(self).whole_pages(old(mem)) ==> final(self).whole_pages(final(mem)),
            final(self).free_pages() == pages_pushed(
                round_up_spec(kernel_end.0 as int),
                KERNEL_MEMORY_END as int,
            ) + old(self).free_pages(),
            final(mem).base == old(mem).base,
            final(mem).words@.len() == old(mem).words@.len(),
            forall|k: int|
                0 <= k < old(mem).words@.len() && !is_link_word(
                    old(mem),
                    k,
                    round_up_spec(kernel_end.0 as int),
                    KERNEL_MEMORY_END as int,
                ) ==> #[trigger] final(mem).words@[k] == old(mem).words@[k],
    {
        let (mut start, end) = init_range(kernel_end);
        let ghost s0 = start.0 as int;
        let ghost old_pages = old(self).free_pages();
        let ghost m0 = *old(mem);
        proof {
            old(self).lemma_wf_facts(old(mem));
            lemma_empty_ranges(&m0, s0, s0, s0);
            reveal(pages_pushed);
            reveal(is_link_word);
            assert(pages_pushed(s0, s0) + old_pages =~= old_pages);
        }
        while start.0 < end.0
            invariant
                end.0 == KERNEL_MEMORY_END,
                s0 == round_up_spec(kernel_end.0 as int),
                page_aligned(s0),
                page_aligned(start.0 as int),
                s0 <= start.0,
                s0 < KERNEL_MEMORY_END ==> start.0 <= KERNEL_MEMORY_END,
                s0 >= KERNEL_MEMORY_END ==> start.0 == s0,
                s0 < KERNEL_MEMORY_END ==> m0.base <= s0 && KERNEL_MEMORY_END <= m0.end(),
                m0.wf(),
                self.wf(mem),
                old(self).whole_pages(&m0) ==> self.whole_pages(mem),
                mem.base == m0.base,
                mem.words@.len() == m0.words@.len(),
                old_pages == old(self).free_pages(),
                forall|i: int|
                    #![trigger old_pages[i]]
                    0 <= i < old_pages.len() ==> !(s0 <= old_pages[i] < KERNEL_MEMORY_END),
                self.free_pages() == pages_pushed(s0, start.0 as int) + old_pages,
                forall|k: int|
                    0 <= k < m0.words@.len() && !is_link_word(&m0, k, s0, start.0 as int)
                        ==> #[trigger] mem.words@[k] == m0.words@[k],
            decreases end.0 - start.0,
        {
            let ghost cur = start.0 as int;
            let ghost m1 = *mem;
            let ghost m1_head = if self.free_pages().len() == 0 {
                0u64
            } else {
                self.free_pages()[0]
            };
            proof {
                lemma_not_yet_pushed(s0, cur, old_pages);
            }
            self.deallocate_page(mem, start);
            start = start.add(PAGE_SIZE);
            proof {
                let next = start.0 as int;
                lemma_pages_pushed_step(s0, cur);
                assert(self.free_pages() =~= pages_pushed(s0, next) + old_pages);
                lemma_link_words_step(&m0, &m1, mem, s0, cur, m1_head);
            }
        }
        proof {
            if s0 >= KERNEL_MEMORY_END {
                lemma_empty_ranges(&m0, s0, s0, KERNEL_MEMORY_END as int);
            }
        }
    }
}

/// Builds the free list of every page from the end of the kernel image to the end of memory.
pub fn kalloc_init(allocator: &mut KernelPageAllocator, mem: &mut PhysicalMemory, kernel_end: Address)
    requires
        old(allocator).wf(old(mem)),
        round_up_spec(kernel_end.0 as int) <= u64::MAX,
        round_up_spec(kernel_end.0 as int) < KERNEL_MEMORY_END ==> old(mem).base <= round_up_spec(
            kernel_end.0 as int,
        ) && KERNEL_MEMORY_END <= old(mem).end(),
        forall|i: int|
            #![trigger old(allocator).free_pages()[i]]
            0 <= i < old(allocator).free_pages().len() ==> !(round_up_spec(kernel_end.0 as int)
                <= old(allocator).free_pages()[i] < KERNEL_MEMORY_END),
    ensures
        final(allocator).wf(final(mem)),
        old(allocator).whole_pages(old(mem)) ==> final(allocator).whole_pages(final(mem)),
        final(allocator).free_pages() == pages_pushed(
            round_up_spec(kernel_end.0 as int),
            KERNEL_MEMORY_END as int,
        ) + old(allocator).free_pages(),
        final(mem).base == old(mem).base,
        final(mem).words@.len() == old(mem).words@.len(),
        forall|k: int|
            0 <= k < old(mem).words@.len() && !is_link_word(
                old(mem),
                k,
                round_up_spec(kernel_end.0 as int),
                KERNEL_MEMORY_END as int,
            ) ==> #[trigger] final(mem).words@[k] == old(mem).words@[k],
{
    allocator.init(mem, kernel_end);
}

/// Hands out a page filled with `ALLOC_PAGE_SENTINEL`.
pub fn kalloc(allocator: &mut KernelPageAllocator, mem: &mut PhysicalMemory) -> (r: u64)
    requires
        old(allocator).wf(old(mem)),
        old(allocator).free_pages().len() > 0,
        old(mem).has_span(old(allocator).free_pages()[0] as int),
    ensures
        r == old(allocator).free_pages()[0],
        final(allocator).free_pages() == old(allocator).free_pages().drop_first(),
        first_clear_of_rest(old(allocator).free_pages()) ==> final(allocator).wf(final(mem)),
        old(allocator).whole_pages(old(mem)) ==> final(allocator).wf(final(mem))
            && final(allocator).whole_pages(final(mem)),
        page_filled(old(mem), final(mem), r as int, sentinel_word(ALLOC_PAGE_SENTINEL)),
{
    allocator.allocate_page(mem, ALLOC_PAGE_SENTINEL).get()
}

/// Hands out a page filled with zeros.
pub fn kzalloc(allocator: &mut KernelPageAllocator, mem: &mut PhysicalMemory) -> (r: u64)
    requires
        old(allocator).wf(old(mem)),
        old(allocator).free_pages().len() > 0,
        old(mem).has_span(old(allocator).free_pages()[0] as int),
    ensures
        r == old(allocator).free_pages()[0],
        final(allocator).free_pages() == old(allocator).free_pages().drop_first(),
        first_clear_of_rest(old(allocator).free_pages()) ==> final(allocator).wf(final(mem)),
        old(allocator).whole_pages(old(mem)) ==> final(allocator).wf(final(mem))
            && final(allocator).whole_pages(final(mem)),
        page_filled(old(mem), final(mem), r as int, 0),
{
    let r = allocator.allocate_page(mem, 0).get();
    assert(sentinel_word(0) == 0);
    r
}

/// Gives the page at `pointer` back to the allocator: it becomes the head of the free list.
pub fn kfree(allocator: &mut KernelPageAllocator, mem: &mut PhysicalMemory, pointer: u64)
    requires
        old(allocator).wf(old(mem)),
        old(mem).has_word(pointer as int),
        pointer != 0,
        !old(allocator).free_pages().contains(pointer),
    ensures
        final(allocator).wf(final(mem)),
        old(allocator).whole_pages(old(mem)) && old(mem).has_page(pointer as int)
            ==> final(allocator).whole_pages(final(mem)),
        final(allocator).free_pages() == seq![pointer] + old(allocator).free_pages(),
        final(mem).base == old(mem).base,
        final(mem).words@ == old(mem).words@.update(
            old(mem).index_of(pointer as int),
            if old(allocator).free_pages().len() == 0 {
                0u64
            } else {
                old(allocator).free_pages()[0]
            },
        ),
{
    allocator.deallocate_page(mem, Address(pointer))
}

/// The free list is last in, first out: after a page is freed, the next allocation hands
/// back that very page and leaves the free list as it was before the free.
pub proof fn lemma_free_then_alloc(
    a0: &KernelPageAllocator,
    a1: &KernelPageAllocator,
    a2: &KernelPageAllocator,
    page: u64,
)
    requires
        a1.free_pages() == seq![page] + a0.free_pages(),
        a1.free_pages().len() > 0,
        a2.free_pages() == a1.free_pages().drop_first(),
    ensures
        a1.free_pages()[0] == page,
        a2.free_pages() == a0.free_pages(),
{
    assert(a2.free_pages() =~= a0.free_pages());
}

/// A page that has just been handed out is no longer free.
pub proof fn lemma_allocated_not_free(
    a0: &KernelPageAllocator,
    m0: &PhysicalMemory,
    a1: &KernelPageAllocator,
)
    requires
        a0.wf(m0),
        a0.free_pages().len() > 0,
        a1.free_pages() == a0.free_pages().drop_first(),
    ensures
        !a1.free_pages().contains(a0.free_pages()[0]),
{
    a0.lemma_wf_facts(m0);
    if a1.free_pages().contains(a0.free_pages()[0]) {
        let i = choose|i: int| 0 <= i < a1.free_pages().len() && a1.free_pages()[i] == a0.free_pages()[0];
        assert(a0.free_pages()[i + 1] == a0.free_pages()[0]);
    }
}

/// The page boundaries in `[lo, hi)`: the pages that `init` hands to the allocator.
pub open spec fn page_pool(lo: int, hi: int) -> Set<u64> {
    Set::new(|p: u64| lo <= p < hi && page_aligned(p as int))
}

/// Every free page and every live page (handed out and not given back) is in `pool`, and no
/// page is both free and live.
pub open spec fn pages_accounted(free: Seq<u64>, live: Set<u64>, pool: Set<u64>) -> bool {
    &&& forall|i: int|
        #![trigger free[i]]
        0 <= i < free.len() ==> pool.contains(free[i]) && !live.contains(free[i])
    &&& live.subset_of(pool)
}

/// Right after `init` on an empty allocator, every free page is in the pool of pages above
/// the kernel and none is live.
pub proof fn lemma_init_accounts_pages(lo: int, hi: int)
    requires
        page_aligned(lo),
        page_aligned(hi),
        0 <= lo,
        hi <= u64::MAX,
    ensures
        pages_accounted(pages_pushed(lo, hi), Set::empty(), page_pool(lo, hi)),
{
    lemma_pages_pushed_bounds(lo, hi);
}

/// Live pages never overlap: the page that an allocation hands out is in the pool, is not
/// live already, and once it is live the accounting still holds.
pub proof fn lemma_alloc_keeps_live_apart(
    a0: &KernelPageAllocator,
    m0: &PhysicalMemory,
    a1: &KernelPageAllocator,
    live: Set<u64>,
    pool: Set<u64>,
)
    requires
        a0.wf(m0),
        a0.free_pages().len() > 0,
        a1.free_pages() == a0.free_pages().drop_first(),
        pages_accounted(a0.free_pages(), live, pool),
    ensures
        pool.contains(a0.free_pages()[0]),
        !live.contains(a0.free_pages()[0]),
        pages_accounted(a1.free_pages(), live.insert(a0.free_pages()[0]), pool),
{
    a0.lemma_wf_facts(m0);
    let f0 = a0.free_pages();
    assert forall|i: int|
        #![trigger a1.free_pages()[i]]
        0 <= i < a1.free_pages().len() implies pool.contains(a1.free_pages()[i]) && !live.insert(
            f0[0],
        ).contains(a1.free_pages()[i]) by {
        assert(a1.free_pages()[i] == f0[i + 1]);
        assert(f0[0] != f0[i + 1]);
    }
}

/// Giving back a live page keeps the accounting: it becomes free and is no longer live.
pub proof fn lemma_free_keeps_live_apart(
    a0: &KernelPageAllocator,
    a1: &KernelPageAllocator,
    live: Set<u64>,
    pool: Set<u64>,
    page: u64,
)
    requires
        live.contains(page),
        a1.free_pages() == seq![page] + a0.free_pages(),
        pages_accounted(a0.free_pages(), live, pool),
    ensures
        pages_accounted(a1.free_pages(), live.remove(page), pool),
{
    assert forall|i: int|
        #![trigger a1.free_pages()[i]]
        0 <= i < a1.free_pages().len() implies pool.contains(a1.free_pages()[i])
        && !live.remove(page).contains(a1.free_pages()[i]) by {
        if i > 0 {
            assert(a1.free_pages()[i] == a0.free_pages()[i - 1]);
        }
    }
}

} // verus!
