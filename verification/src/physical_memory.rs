use vstd::prelude::*;

use crate::memory_layout::{page_aligned, PAGE_SIZE};

verus! {

/// Number of 64-bit words in one page.
pub const WORDS_PER_PAGE: u64 = 512;

/// The 64-bit word whose eight bytes all equal `b`.
pub open spec fn sentinel_word(b: u8) -> u64 {
    (b as u64 * 0x0101_0101_0101_0101u64) as u64
}

/// A window of physical memory, seen as 64-bit words, that starts at physical address `base`.
pub struct PhysicalMemory {
    pub base: u64,
    pub words: Vec<u64>,
}

impl PhysicalMemory {
    /// The window starts on a page boundary and its end is addressable.
    pub open spec fn wf(&self) -> bool {
        &&& page_aligned(self.base as int)
        &&& self.base + 8 * self.words.len() <= u64::MAX
    }

    /// Address one past the last byte of the window.
    pub open spec fn end(&self) -> int {
        self.base + 8 * self.words.len()
    }

    /// `addr` is the address of a word inside the window.
    pub open spec fn has_word(&self, addr: int) -> bool {
        &&& self.base <= addr
        &&& addr + 8 <= self.end()
        &&& (addr - self.base) % 8 == 0
    }

    /// `addr` is the address of a whole page inside the window.
    pub open spec fn has_page(&self, addr: int) -> bool {
        &&& self.base <= addr
        &&& addr + PAGE_SIZE <= self.end()
        &&& page_aligned(addr)
    }

    /// `addr` starts a run of `PAGE_SIZE` bytes of words inside the window.
    pub open spec fn has_span(&self, addr: int) -> bool {
        &&& self.base <= addr
        &&& addr + PAGE_SIZE <= self.end()
        &&& (addr - self.base) % 8 == 0
    }

    /// Position in `words` of the word at `addr`.
    pub open spec fn index_of(&self, addr: int) -> int {
        (addr - self.base) / 8
    }

    /// The word stored at `addr`.
    pub open spec fn word(&self, addr: int) -> u64 {
        self.words@[self.index_of(addr)]
    }

    /// A window over `words`, starting at physical address `base`.
    pub fn new(base: u64, words: Vec<u64>) -> (r: PhysicalMemory)
        requires
            page_aligned(base as int),
            base + 8 * words.len() <= u64::MAX,
        ensures
            r.wf(),
            r.base == base,
            r.words@ == words@,
    {
        PhysicalMemory { base, words }
    }

    /// The word stored at `addr`.
    pub fn read(&self, addr: u64) -> (r: u64)
        requires
            self.wf(),
            self.has_word(addr as int),
        ensures
            r == self.word(addr as int),
    {
        let idx = ((addr - self.base) / 8) as usize;
        self.words[idx]
    }

    /// Stores `value` at `addr`.
    pub fn write(&mut self, addr: u64, value: u64)
        requires
            old(self).wf(),
            old(self).has_word(addr as int),
        ensures
            final(self).wf(),
            final(self).base == old(self).base,
            final(self).words@ == old(self).words@.update(old(self).index_of(addr as int), value),
    {
        let idx = ((addr - self.base) / 8) as usize;
        self.words.set(idx, value);
    }
}

/// `new` is `old` with every word of the page at `page` set to `value`.
pub open spec fn page_filled(old: &PhysicalMemory, new: &PhysicalMemory, page: int, value: u64) -> bool {
    let lo = old.index_of(page);
    &&& new.base == old.base
    &&& new.words@.len() == old.words@.len()
    &&& forall|i: int| lo <= i < lo + WORDS_PER_PAGE ==> #[trigger] new.words@[i] == value
    &&& forall|i: int|
        0 <= i < old.words@.len() && !(lo <= i < lo + WORDS_PER_PAGE) ==> #[trigger] new.words@[i]
            == old.words@[i]
}

/// Two different page boundaries are at least a page apart.
pub proof fn lemma_pages_apart(p: int, q: int)
    requires
        page_aligned(p),
        page_aligned(q),
        p != q,
    ensures
        p + PAGE_SIZE <= q || q + PAGE_SIZE <= p,
{
}

/// The words of a page inside the window sit at consecutive positions.
pub proof fn lemma_page_indices(mem: &PhysicalMemory, page: int)
    requires
        mem.wf(),
        mem.has_page(page),
    ensures
        mem.has_word(page),
        0 <= mem.index_of(page),
        mem.index_of(page) + WORDS_PER_PAGE <= mem.words@.len(),
        mem.index_of(page) * 8 == page - mem.base,
{
}

/// The words of a page-sized span inside the window sit at consecutive positions.
pub proof fn lemma_span_indices(mem: &PhysicalMemory, addr: int)
    requires
        mem.wf(),
        mem.has_span(addr),
    ensures
        mem.has_word(addr),
        0 <= mem.index_of(addr),
        mem.index_of(addr) + WORDS_PER_PAGE <= mem.words@.len(),
        mem.index_of(addr) * 8 == addr - mem.base,
{
}

/// A whole page of the window is a page-sized span.
pub proof fn lemma_page_is_span(mem: &PhysicalMemory, addr: int)
    requires
        mem.wf(),
        mem.has_page(addr),
    ensures
        mem.has_span(addr),
{
}

/// Two different words of the window sit at different positions.
pub proof fn lemma_word_indices_distinct(mem: &PhysicalMemory, a: int, b: int)
    requires
        mem.has_word(a),
        mem.has_word(b),
        a != b,
    ensures
        mem.index_of(a) != mem.index_of(b),
{
}

/// A word outside a span sits outside the span's positions.
pub proof fn lemma_word_outside_span(mem: &PhysicalMemory, p: int, q: int)
    requires
        mem.has_span(p),
        mem.has_word(q),
        !(p <= q < p + PAGE_SIZE),
    ensures
        !(mem.index_of(p) <= mem.index_of(q) < mem.index_of(p) + WORDS_PER_PAGE),
{
}

/// The first words of two different pages sit outside each other's page.
pub proof fn lemma_page_words_disjoint(mem: &PhysicalMemory, p: int, q: int)
    requires
        mem.wf(),
        mem.has_page(p),
        mem.has_page(q),
        p != q,
    ensures
        !(mem.index_of(p) <= mem.index_of(q) < mem.index_of(p) + WORDS_PER_PAGE),
{
    lemma_pages_apart(p, q);
}

} // verus!
