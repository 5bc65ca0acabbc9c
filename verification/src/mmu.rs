use vstd::prelude::*;

use crate::kalloc::{kzalloc, KernelPageAllocator};
use crate::memory_layout::{get_kernel_base, page_aligned, round_down_spec, Address, KERNEL_BASE, PAGE_SIZE};
use crate::physical_memory::{lemma_page_indices, page_filled, PhysicalMemory, WORDS_PER_PAGE};

verus! {

/// The bits of a page-table entry that the kernel sets.
#[derive(Clone, Copy, PartialEq, Eq, Structural, Debug)]
pub enum PageTableEntryField {
    Valid,
    Read,
    Write,
    Execute,
}

/// Bit position of a field inside an entry.
pub open spec fn field_bit(f: PageTableEntryField) -> u64 {
    match f {
        PageTableEntryField::Valid => 0,
        PageTableEntryField::Read => 1,
        PageTableEntryField::Write => 2,
        PageTableEntryField::Execute => 3,
    }
}

/// The bits of `perms`, or-ed together.
pub open spec fn permission_mask(perms: Seq<PageTableEntryField>) -> u64
    decreases perms.len(),
{
    if perms.len() == 0 {
        0
    } else {
        permission_mask(perms.drop_last()) | (1u64 << field_bit(perms.last()))
    }
}

/// An entry with the valid bit set.
pub open spec fn pte_valid(entry: u64) -> bool {
    entry & 1 == 1
}

/// The physical page number field of an entry, shifted back into an address.
pub open spec fn pte_target(entry: u64) -> u64 {
    (entry >> 10u64) << 12u64
}

/// An entry whose page number field names the page of `address`, with no flag set.
pub open spec fn pte_for_address(address: u64) -> u64 {
    (address >> 12u64) << 10u64
}

/// Or-ing flag bits below the page number field into an entry keeps the table or page it
/// names, so any run of `set_valid`, `set_permission` and `set_permissions` keeps it.
pub proof fn lemma_flags_keep_target(entry: u64, flags: u64)
    requires
        flags < 1024,
    ensures
        pte_target(entry | flags) == pte_target(entry),
{
    assert(flags < 1024 ==> (((entry | flags) >> 10u64) << 12u64) == ((entry >> 10u64) << 12u64))
        by (bit_vector);
}

impl PageTableEntryField {
    /// Bit position of the field inside an entry.
    pub fn bit(&self) -> (r: u64)
        ensures
            r == field_bit(*self),
    {
        match self {
            PageTableEntryField::Valid => 0,
            PageTableEntryField::Read => 1,
            PageTableEntryField::Write => 2,
            PageTableEntryField::Execute => 3,
        }
    }
}

/// One 64-bit Sv39 page-table entry.
#[derive(Clone, Copy, PartialEq, Eq, Structural, Debug)]
pub struct PageTableEntry {
    pub entry: u64,
}

impl PageTableEntry {
    /// Whether the valid bit is set.
    pub fn is_valid(&self) -> (r: bool)
        ensures
            r == pte_valid(self.entry),
    {
        self.entry & 1 == 1
    }

    /// Sets the valid bit.
    pub fn set_valid(&mut self)
        ensures
            final(self).entry == old(self).entry | 1,
            pte_target(final(self).entry) == pte_target(old(self).entry),
    {
        self.set_permission(PageTableEntryField::Valid);
        assert(1u64 << 0u64 == 1) by (bit_vector);
    }

    /// The address of the next-level table that the entry names.
    pub fn to_inner_page_table(&self) -> (r: u64)
        ensures
            r == pte_target(self.entry),
    {
        (self.entry >> 10) << 12
    }

    /// Points the entry at the table at `page_table`, with every flag clear.
    pub fn set_from_page_table(&mut self, page_table: u64)
        ensures
            final(self).entry == pte_for_address(page_table),
    {
        self.entry = (page_table >> 12) << 10;
    }

    /// Points the entry at the page of `physical_address`, with every flag clear.
    pub fn set_from_physical_address(&mut self, physical_address: Address)
        ensures
            final(self).entry == pte_for_address(physical_address.0),
    {
        self.entry = (physical_address.get() >> 12) << 10;
    }

    /// Sets the bit of `permission`.
    pub fn set_permission(&mut self, permission: PageTableEntryField)
        ensures
            final(self).entry == old(self).entry | (1u64 << field_bit(permission)),
            pte_target(final(self).entry) == pte_target(old(self).entry),
    {
        let b = permission.bit();
        assert(b < 64);
        proof {
            let e = self.entry;
            assert(b < 4 ==> (1u64 << b) < 1024) by (bit_vector);
            lemma_flags_keep_target(e, 1u64 << b);
        }
        self.entry = self.entry | (1u64 << b);
    }

    /// Sets the bit of every field in `permissions`.
    pub fn set_permissions(&mut self, permissions: &[PageTableEntryField])
        ensures
            final(self).entry == old(self).entry | permission_mask(permissions@),
            pte_target(final(self).entry) == pte_target(old(self).entry),
    {
        proof {
            lemma_permission_mask_bound(permissions@);
            lemma_flags_keep_target(self.entry, permission_mask(permissions@));
        }
        let mut i: usize = 0;
        let ghost start = self.entry;
        assert(start | 0 == start) by (bit_vector);
        assert(permissions@.subrange(0, 0) =~= Seq::<PageTableEntryField>::empty());
        while i < permissions.len()
            invariant
                i <= permissions@.len(),
                self.entry == old(self).entry | permission_mask(permissions@.subrange(0, i as int)),
            decreases permissions@.len() - i,
        {
            let ghost before = self.entry;
            let perm = permissions[i];
            self.set_permission(perm);
            proof {
                let s = permissions@.subrange(0, i as int + 1);
                assert(s.drop_last() =~= permissions@.subrange(0, i as int));
                assert(s.last() == perm);
                let a = old(self).entry;
                let m = permission_mask(permissions@.subrange(0, i as int));
                let bitv = 1u64 << field_bit(perm);
                assert((a | m) | bitv == a | (m | bitv)) by (bit_vector);
            }
            i = i + 1;
        }
        assert(permissions@.subrange(0, permissions@.len() as int) =~= permissions@);
    }
}


/// Number of entries in one page table.
pub const ENTRIES_PER_TABLE: u64 = 512;

/// The index that `va` selects in a table of the given level (2 is the root).
pub open spec fn vpn_spec(va: u64, level: u8) -> u64 {
    if level == 2 {
        (va >> 30u64) & 0x1FF
    } else if level == 1 {
        (va >> 21u64) & 0x1FF
    } else {
        (va >> 12u64) & 0x1FF
    }
}

/// Each table index that an address selects is below 512.
pub proof fn lemma_vpn_bounds(va: u64)
    ensures
        vpn_spec(va, 2) < ENTRIES_PER_TABLE,
        vpn_spec(va, 1) < ENTRIES_PER_TABLE,
        vpn_spec(va, 0) < ENTRIES_PER_TABLE,
{
    assert((va >> 30u64) & 0x1FF < 512) by (bit_vector);
    assert((va >> 21u64) & 0x1FF < 512) by (bit_vector);
    assert((va >> 12u64) & 0x1FF < 512) by (bit_vector);
}

/// The entry at index `idx` of the table at `table`.
pub open spec fn entry_at(mem: &PhysicalMemory, table: u64, idx: u64) -> u64 {
    mem.word(table + 8 * idx)
}

/// The root entry `v2` is valid.
pub open spec fn root_valid(mem: &PhysicalMemory, root: u64, v2: u64) -> bool {
    pte_valid(entry_at(mem, root, v2))
}

/// The level-1 table that root entry `v2` names.
pub open spec fn l1_table(mem: &PhysicalMemory, root: u64, v2: u64) -> u64 {
    pte_target(entry_at(mem, root, v2))
}

/// Both the root entry `v2` and entry `v1` of the level-1 table below it are valid.
pub open spec fn path_valid(mem: &PhysicalMemory, root: u64, v2: u64, v1: u64) -> bool {
    root_valid(mem, root, v2) && pte_valid(entry_at(mem, l1_table(mem, root, v2), v1))
}

/// The level-0 table reached through root entry `v2` and level-1 entry `v1`.
pub open spec fn l0_table(mem: &PhysicalMemory, root: u64, v2: u64, v1: u64) -> u64 {
    pte_target(entry_at(mem, l1_table(mem, root, v2), v1))
}

/// The leaf entry for the virtual page with indices `(v2, v1, v0)`, or 0 where the walk
/// stops at an invalid entry before the last level.
pub open spec fn leaf(mem: &PhysicalMemory, root: u64, v2: u64, v1: u64, v0: u64) -> u64 {
    if path_valid(mem, root, v2, v1) {
        entry_at(mem, l0_table(mem, root, v2, v1), v0)
    } else {
        0
    }
}

/// The leaf entry for the page of `va`.
pub open spec fn leaf_of(mem: &PhysicalMemory, root: u64, va: u64) -> u64 {
    leaf(mem, root, vpn_spec(va, 2), vpn_spec(va, 1), vpn_spec(va, 0))
}

/// Address of the leaf entry for `va`, once both upper levels are valid.
pub open spec fn leaf_address(mem: &PhysicalMemory, root: u64, va: u64) -> u64 {
    (l0_table(mem, root, vpn_spec(va, 2), vpn_spec(va, 1)) + 8 * vpn_spec(va, 0)) as u64
}

/// An upper entry is either empty (0) or a plain link: the page number of the next table and
/// the valid bit, with every other bit clear, so that the hardware walks on through it.
pub open spec fn link_or_empty(entry: u64) -> bool {
    entry == 0 || entry == pte_for_address(pte_target(entry)) | 1
}

/// An entry that is empty or a plain link, and not valid, is empty.
pub proof fn lemma_invalid_link_is_empty(entry: u64)
    ensures
        link_or_empty(entry) && !pte_valid(entry) ==> entry == 0,
{
    assert((((((entry >> 10u64) << 12u64) >> 12u64) << 10u64) | 1) & 1 == 1) by (bit_vector);
}

#[verifier::opaque]
/// Every entry of the root table, and every entry of each level-1 table that a valid root
/// entry names, is empty or a plain link.
pub open spec fn links_only(mem: &PhysicalMemory, root: u64) -> bool {
    &&& forall|i: u64|
        #![trigger entry_at(mem, root, i)]
        i < ENTRIES_PER_TABLE ==> link_or_empty(entry_at(mem, root, i))
    &&& forall|i: u64, j: u64|
        #![trigger entry_at(mem, l1_table(mem, root, i), j)]
        i < ENTRIES_PER_TABLE && j < ENTRIES_PER_TABLE && root_valid(mem, root, i) ==> link_or_empty(
            entry_at(mem, l1_table(mem, root, i), j),
        )
}

#[verifier::opaque]
/// Every upper entry that was valid in `m0` holds the same value in `m1`.
pub open spec fn uppers_kept(m0: &PhysicalMemory, m1: &PhysicalMemory, root: u64) -> bool {
    &&& forall|i: u64|
        #![trigger entry_at(m1, root, i)]
        i < ENTRIES_PER_TABLE && root_valid(m0, root, i) ==> entry_at(m1, root, i) == entry_at(
            m0,
            root,
            i,
        )
    &&& forall|i: u64, j: u64|
        #![trigger path_valid(m0, root, i, j)]
        i < ENTRIES_PER_TABLE && j < ENTRIES_PER_TABLE && path_valid(m0, root, i, j) ==> entry_at(
            m1,
            l1_table(m1, root, i),
            j,
        ) == entry_at(m0, l1_table(m0, root, i), j)
}

/// Keeping the valid upper entries twice keeps them once.
pub proof fn lemma_uppers_kept_compose(
    m0: &PhysicalMemory,
    m1: &PhysicalMemory,
    m2: &PhysicalMemory,
    root: u64,
)
    requires
        uppers_kept(m0, m1, root),
        uppers_kept(m1, m2, root),
    ensures
        uppers_kept(m0, m2, root),
{
    reveal(uppers_kept);
    assert forall|i: u64, j: u64|
        #![trigger path_valid(m0, root, i, j)]
        i < ENTRIES_PER_TABLE && j < ENTRIES_PER_TABLE && path_valid(m0, root, i, j) implies entry_at(
            m2,
            l1_table(m2, root, i),
            j,
        ) == entry_at(m0, l1_table(m0, root, i), j) by {
        assert(entry_at(m1, root, i) == entry_at(m0, root, i));
        assert(path_valid(m1, root, i, j));
        assert(entry_at(m2, root, i) == entry_at(m1, root, i));
    }
}

/// Memory that did not change keeps every valid upper entry.
pub proof fn lemma_uppers_kept_refl(m: &PhysicalMemory, root: u64)
    ensures
        uppers_kept(m, m, root),
{
    reveal(uppers_kept);
}

/// Word number `k` of `mem` lies in the page at `p`.
pub open spec fn word_in_page(mem: &PhysicalMemory, k: int, p: u64) -> bool {
    mem.index_of(p as int) <= k < mem.index_of(p as int) + WORDS_PER_PAGE
}

/// Every word in which `new` differs from `old` lies in one of `pages`.
pub open spec fn changes_within(old: &PhysicalMemory, new: &PhysicalMemory, pages: Set<u64>) -> bool {
    &&& new.base == old.base
    &&& new.words@.len() == old.words@.len()
    &&& forall|k: int|
        0 <= k < old.words@.len() && new.words@[k] != old.words@[k] ==> exists|t: u64|
            pages.contains(t) && #[trigger] word_in_page(old, k, t)
}

/// The tables grew from `old_tables` to `new_tables`, and each added table was a free page
/// of `free0` that is no longer free in `free1`.
pub open spec fn grown_from(old_tables: Set<u64>, new_tables: Set<u64>, free0: Seq<u64>, free1: Seq<u64>) -> bool {
    &&& old_tables.subset_of(new_tables)
    &&& forall|t: u64|
        #[trigger] new_tables.contains(t) && !old_tables.contains(t) ==> free0.contains(t)
            && !free1.contains(t)
}

/// Changes confined to growing sets of pages stay confined to the last set.
pub proof fn lemma_changes_compose(
    m0: &PhysicalMemory,
    m1: &PhysicalMemory,
    m2: &PhysicalMemory,
    s1: Set<u64>,
    s2: Set<u64>,
)
    requires
        changes_within(m0, m1, s1),
        changes_within(m1, m2, s2),
        s1.subset_of(s2),
    ensures
        changes_within(m0, m2, s2),
{
    assert forall|k: int| 0 <= k < m0.words@.len() && m2.words@[k] != m0.words@[k] implies exists|t: u64|
        s2.contains(t) && #[trigger] word_in_page(m0, k, t) by {
        if m1.words@[k] != m0.words@[k] {
            let t = choose|t: u64| s1.contains(t) && #[trigger] word_in_page(m0, k, t);
            assert(s2.contains(t));
        } else {
            let t = choose|t: u64| s2.contains(t) && #[trigger] word_in_page(m1, k, t);
            assert(word_in_page(m0, k, t));
        }
    }
}

/// Growth of the tables composes, as long as free pages only ever leave the free list.
pub proof fn lemma_grown_compose(
    t0: Set<u64>,
    t1: Set<u64>,
    t2: Set<u64>,
    f0: Seq<u64>,
    f1: Seq<u64>,
    f2: Seq<u64>,
)
    requires
        grown_from(t0, t1, f0, f1),
        grown_from(t1, t2, f1, f2),
        forall|x: u64| #[trigger] f1.contains(x) ==> f0.contains(x),
        forall|x: u64| #[trigger] f2.contains(x) ==> f1.contains(x),
    ensures
        grown_from(t0, t2, f0, f2),
{
}

/// The free pages left after skipping some were free before.
pub proof fn lemma_skip_subset(f: Seq<u64>, n: int)
    requires
        0 <= n <= f.len(),
    ensures
        forall|x: u64| #[trigger] f.skip(n).contains(x) ==> f.contains(x),
{
    assert forall|x: u64| #[trigger] f.skip(n).contains(x) implies f.contains(x) by {
        let i = choose|i: int| 0 <= i < f.skip(n).len() && f.skip(n)[i] == x;
        assert(f[i + n] == x);
    }
}

/// A three-level Sv39 page table whose root table is the page at `root`. The ghost sets hold
/// the level-1 and level-0 tables that the table has grown.
pub struct PageTable {
    root: u64,
    l1_tables: Ghost<Set<u64>>,
    l0_tables: Ghost<Set<u64>>,
}

impl PageTable {
    /// Physical address of the root table.
    pub closed spec fn root(&self) -> u64 {
        self.root
    }

    /// The pages that hold the table: the root and every level-1 and level-0 table.
    pub closed spec fn tables(&self) -> Set<u64> {
        self.l1_tables@.union(self.l0_tables@).insert(self.root)
    }

    /// Every table is a page of `mem` that is not free, the levels do not share tables,
    /// valid upper entries name tables of the next level, and no two valid upper entries
    /// name the same table.
    #[verifier::opaque]
    pub closed spec fn wf(&self, mem: &PhysicalMemory, alloc: &KernelPageAllocator) -> bool {
        let t1 = self.l1_tables@;
        let t0 = self.l0_tables@;
        let free = alloc.free_pages();
        let root = self.root;
        &&& alloc.wf(mem)
        &&& alloc.whole_pages(mem)
        &&& links_only(mem, root)
        &&& mem.has_page(root as int)
        &&& !free.contains(root)
        &&& forall|t: u64|
            #![trigger t1.contains(t)]
            t1.contains(t) ==> mem.has_page(t as int) && !free.contains(t) && t != root
                && !t0.contains(t)
        &&& forall|t: u64|
            #![trigger t0.contains(t)]
            t0.contains(t) ==> mem.has_page(t as int) && !free.contains(t) && t != root
        &&& forall|i: u64|
            #![trigger entry_at(mem, root, i)]
            i < ENTRIES_PER_TABLE && pte_valid(entry_at(mem, root, i)) ==> t1.contains(
                pte_target(entry_at(mem, root, i)),
            )
        &&& forall|t: u64, i: u64|
            #![trigger t1.contains(t), entry_at(mem, t, i)]
            t1.contains(t) && i < ENTRIES_PER_TABLE && pte_valid(entry_at(mem, t, i))
                ==> t0.contains(pte_target(entry_at(mem, t, i)))
        &&& forall|i: u64, j: u64|
            #![trigger entry_at(mem, root, i), entry_at(mem, root, j)]
            i < ENTRIES_PER_TABLE && j < ENTRIES_PER_TABLE && i != j && pte_valid(
                entry_at(mem, root, i),
            ) && pte_valid(entry_at(mem, root, j)) ==> pte_target(entry_at(mem, root, i))
                != pte_target(entry_at(mem, root, j))
        &&& forall|t: u64, u: u64, i: u64, j: u64|
            #![trigger t1.contains(t), t1.contains(u), entry_at(mem, t, i), entry_at(mem, u, j)]
            t1.contains(t) && t1.contains(u) && i < ENTRIES_PER_TABLE && j < ENTRIES_PER_TABLE
                && (t != u || i != j) && pte_valid(entry_at(mem, t, i)) && pte_valid(
                entry_at(mem, u, j),
            ) ==> pte_target(entry_at(mem, t, i)) != pte_target(entry_at(mem, u, j))
    }

    /// A page table with an empty root table taken from the allocator.
    pub fn new(alloc: &mut KernelPageAllocator, mem: &mut PhysicalMemory) -> (r: PageTable)
        requires
            old(alloc).wf(old(mem)),
            old(alloc).whole_pages(old(mem)),
            old(alloc).free_pages().len() > 0,
        ensures
            links_only(final(mem), r.root()),
            r.tables() == Set::<u64>::empty().insert(r.root()),
            r.wf(final(mem), final(alloc)),
            r.root() == old(alloc).free_pages()[0],
            final(alloc).free_pages() == old(alloc).free_pages().drop_first(),
            page_filled(old(mem), final(mem), r.root() as int, 0),
            forall|v2: u64, v1: u64, v0: u64|
                v2 < ENTRIES_PER_TABLE ==> #[trigger] leaf(final(mem), r.root(), v2, v1, v0) == 0,
            forall|v2: u64|
                v2 < ENTRIES_PER_TABLE ==> !#[trigger] root_valid(final(mem), r.root(), v2),
            forall|v2: u64, v1: u64|
                v2 < ENTRIES_PER_TABLE ==> !#[trigger] path_valid(final(mem), r.root(), v2, v1),
    {
        proof {
            reveal(PageTable::wf);
            reveal(links_only);
            old(alloc).lemma_page_facts(old(mem));
            crate::physical_memory::lemma_page_is_span(old(mem), old(alloc).free_pages()[0] as int);
        }
        let root = kzalloc(alloc, mem);
        let r = PageTable { root, l1_tables: Ghost(Set::empty()), l0_tables: Ghost(Set::empty()) };
        proof {
            assert(r.tables() =~= Set::<u64>::empty().insert(root));
            alloc.lemma_page_facts(mem);
            old(alloc).lemma_page_facts(old(mem));
            lemma_page_indices(mem, root as int);
            assert(!alloc.free_pages().contains(root)) by {
                let f = old(alloc).free_pages();
                assert forall|i: int| 0 <= i < alloc.free_pages().len() implies alloc.free_pages()[i] != root by {
                    assert(alloc.free_pages()[i] == f[i + 1]);
                }
            }
            assert forall|i: u64| i < ENTRIES_PER_TABLE implies #[trigger] entry_at(mem, root, i) == 0 by {
                lemma_zeroed_entry(old(mem), mem, root, i);
            }
            assert(!pte_valid(0)) by (bit_vector);
        }
        r
    }

    /// Address of the root table.
    pub fn root_address(&self) -> (r: Address)
        ensures
            r.0 == self.root(),
    {
        Address(self.root)
    }

    /// The index that `virtual_address` selects in a table of level `level`.
    pub fn vpn(virtual_address: Address, level: u8) -> (r: usize)
        requires
            level <= 2,
        ensures
            r == vpn_spec(virtual_address.0, level),
            r < ENTRIES_PER_TABLE,
    {
        let va = virtual_address.get();
        proof {
            assert((va >> 30u64) & 0x1FF < 512) by (bit_vector);
            assert((va >> 21u64) & 0x1FF < 512) by (bit_vector);
            assert((va >> 12u64) & 0x1FF < 512) by (bit_vector);
        }
        match level {
            2 => ((va >> 30) & 0x1FF) as usize,
            1 => ((va >> 21) & 0x1FF) as usize,
            _ => ((va >> 12) & 0x1FF) as usize,
        }
    }

    /// Address of the entry that `virtual_address` selects in the table at `table` of level `level`.
    pub fn get_entry(table: u64, virtual_address: Address, level: u8) -> (r: Result<u64, &'static str>)
        requires
            level <= 2,
            table + PAGE_SIZE <= u64::MAX,
        ensures
            r == Ok::<u64, &'static str>((table + 8 * vpn_spec(virtual_address.0, level)) as u64),
    {
        let idx = PageTable::vpn(virtual_address, level) as u64;
        Ok(table + 8 * idx)
    }
}

/// An entry of a page that was just filled with zeros is 0.
proof fn lemma_zeroed_entry(m1: &PhysicalMemory, m2: &PhysicalMemory, page: u64, i: u64)
    requires
        m1.wf(),
        m1.has_page(page as int),
        page_filled(m1, m2, page as int, 0),
        i < ENTRIES_PER_TABLE,
    ensures
        entry_at(m2, page, i) == 0,
{
    lemma_page_indices(m1, page as int);
    assert(m2.index_of(page + 8 * i) == m1.index_of(page as int) + i);
}


/// `m2` is `m0` with the page at `page` zeroed and then the word at `w` set to `v`.
pub open spec fn fill_then_write(m0: &PhysicalMemory, m2: &PhysicalMemory, page: u64, w: u64, v: u64) -> bool {
    let lo = m0.index_of(page as int);
    &&& m2.base == m0.base
    &&& m2.words@.len() == m0.words@.len()
    &&& forall|k: int|
        #![trigger m2.words@[k]]
        0 <= k < m0.words@.len() ==> m2.words@[k] == (if k == m0.index_of(w as int) {
            v
        } else if lo <= k < lo + WORDS_PER_PAGE {
            0
        } else {
            m0.words@[k]
        })
}

/// The effect of zeroing a page and then writing one word, seen through table entries.
proof fn lemma_fill_then_write_entry(
    m0: &PhysicalMemory,
    m2: &PhysicalMemory,
    page: u64,
    w: u64,
    v: u64,
    t: u64,
    i: u64,
)
    requires
        m0.wf(),
        m0.has_page(page as int),
        m0.has_page(t as int),
        m0.has_word(w as int),
        i < ENTRIES_PER_TABLE,
        fill_then_write(m0, m2, page, w, v),
    ensures
        t + 8 * i == w ==> entry_at(m2, t, i) == v,
        t + 8 * i != w && t == page ==> entry_at(m2, t, i) == 0,
        t + 8 * i != w && t != page ==> entry_at(m2, t, i) == entry_at(m0, t, i),
{
    lemma_page_indices(m0, t as int);
    lemma_page_indices(m0, page as int);
    let k = m0.index_of(t + 8 * i);
    assert(k == m0.index_of(t as int) + i);
    assert(m2.index_of(t + 8 * i) == k);
    if t != page {
        crate::physical_memory::lemma_pages_apart(t as int, page as int);
    }
}

/// A link entry names the table at `a` and is valid; the empty entry is invalid.
pub proof fn lemma_link_entry(a: u64)
    requires
        page_aligned(a as int),
    ensures
        pte_valid(pte_for_address(a) | 1),
        pte_target(pte_for_address(a) | 1) == a,
        !pte_valid(0),
{
    assert(a % 4096 == 0 ==> ((((a >> 12u64) << 10u64) | 1) & 1 == 1)) by (bit_vector);
    assert(a % 4096 == 0 ==> ((((((a >> 12u64) << 10u64) | 1) >> 10u64) << 12u64) == a)) by (bit_vector);
    assert(!((0u64 & 1) == 1)) by (bit_vector);
}


/// Zeroing the page at `new` and writing a word of the page at `table` changes only words
/// of those two pages.
proof fn lemma_link_frame(
    m0: &PhysicalMemory,
    m2: &PhysicalMemory,
    new: u64,
    w: u64,
    v: u64,
    table: u64,
    pages: Set<u64>,
)
    requires
        m0.wf(),
        m0.has_page(table as int),
        m0.has_page(new as int),
        m0.has_word(w as int),
        table <= w < table + PAGE_SIZE,
        fill_then_write(m0, m2, new, w, v),
        pages.contains(table),
        pages.contains(new),
    ensures
        changes_within(m0, m2, pages),
{
    lemma_page_indices(m0, table as int);
    lemma_page_indices(m0, new as int);
    assert forall|k: int| 0 <= k < m0.words@.len() && m2.words@[k] != m0.words@[k] implies exists|t: u64|
        pages.contains(t) && #[trigger] word_in_page(m0, k, t) by {
        if k == m0.index_of(w as int) {
            assert(word_in_page(m0, k, table));
        } else {
            assert(word_in_page(m0, k, new));
        }
    }
}

/// Every page free after taking the first one was free before.
proof fn lemma_drop_first_subset(a0: &KernelPageAllocator, a1: &KernelPageAllocator)
    requires
        a0.free_pages().len() > 0,
        a1.free_pages() == a0.free_pages().drop_first(),
    ensures
        forall|x: u64| #[trigger] a1.free_pages().contains(x) ==> a0.free_pages().contains(x),
{
    assert forall|x: u64| #[trigger] a1.free_pages().contains(x) implies a0.free_pages().contains(x) by {
        let i = choose|i: int| 0 <= i < a1.free_pages().len() && a1.free_pages()[i] == x;
        assert(a0.free_pages()[i + 1] == x);
    }
}

impl PageTable {
    /// Linking a fresh zeroed table under the invalid root entry `v2` writes a plain link and
    /// leaves every upper entry that was valid as it was.
    proof fn lemma_link_l1_links(
        &self,
        m0: &PhysicalMemory,
        a0: &KernelPageAllocator,
        m2: &PhysicalMemory,
        new: u64,
        v2: u64,
    )
        requires
            self.wf(m0, a0),
            v2 < ENTRIES_PER_TABLE,
            !root_valid(m0, self.root, v2),
            a0.free_pages().len() > 0,
            new == a0.free_pages()[0],
            fill_then_write(m0, m2, new, (self.root + 8 * v2) as u64, pte_for_address(new) | 1),
        ensures
            links_only(m2, self.root),
            uppers_kept(m0, m2, self.root),
            entry_at(m2, self.root, v2) == pte_for_address(new) | 1,
    {
        reveal(PageTable::wf);
        reveal(links_only);
        reveal(uppers_kept);
        let root = self.root;
        let t1 = self.l1_tables@;
        let w = (root + 8 * v2) as u64;
        let v = pte_for_address(new) | 1;
        a0.lemma_page_facts(m0);
        assert(a0.free_pages().contains(new));
        lemma_link_entry(new);
        lemma_page_indices(m0, root as int);
        crate::physical_memory::lemma_pages_apart(new as int, root as int);
        lemma_fill_then_write_entry(m0, m2, new, w, v, root, v2);
        assert forall|i: u64|
            #![trigger entry_at(m2, root, i)]
            i < ENTRIES_PER_TABLE implies link_or_empty(entry_at(m2, root, i)) by {
            lemma_fill_then_write_entry(m0, m2, new, w, v, root, i);
        }
        assert forall|i: u64, j: u64|
            #![trigger entry_at(m2, l1_table(m2, root, i), j)]
            i < ENTRIES_PER_TABLE && j < ENTRIES_PER_TABLE && root_valid(m2, root, i) implies link_or_empty(
                entry_at(m2, l1_table(m2, root, i), j),
            ) by {
            lemma_fill_then_write_entry(m0, m2, new, w, v, root, i);
            if i == v2 {
                crate::physical_memory::lemma_pages_apart(new as int, root as int);
                lemma_fill_then_write_entry(m0, m2, new, w, v, new, j);
            } else {
                let t = l1_table(m0, root, i);
                assert(t1.contains(t));
                crate::physical_memory::lemma_pages_apart(t as int, root as int);
                lemma_fill_then_write_entry(m0, m2, new, w, v, t, j);
                assert(link_or_empty(entry_at(m0, l1_table(m0, root, i), j)));
            }
        }
        assert forall|i: u64, j: u64|
            #![trigger path_valid(m0, root, i, j)]
            i < ENTRIES_PER_TABLE && j < ENTRIES_PER_TABLE && path_valid(m0, root, i, j) implies entry_at(
                m2,
                l1_table(m2, root, i),
                j,
            ) == entry_at(m0, l1_table(m0, root, i), j) by {
            lemma_fill_then_write_entry(m0, m2, new, w, v, root, i);
            let t = l1_table(m0, root, i);
            assert(t1.contains(t));
            crate::physical_memory::lemma_pages_apart(t as int, root as int);
            lemma_fill_then_write_entry(m0, m2, new, w, v, t, j);
        }
        assert forall|i: u64|
            #![trigger entry_at(m2, root, i)]
            i < ENTRIES_PER_TABLE && root_valid(m0, root, i) implies entry_at(m2, root, i) == entry_at(
                m0,
                root,
                i,
            ) by {
            lemma_fill_then_write_entry(m0, m2, new, w, v, root, i);
        }
    }

    /// Linking a fresh zeroed table under the invalid entry `v1` of the level-1 table below
    /// the valid root entry `v2` writes a plain link and leaves every upper entry that was
    /// valid as it was.
    proof fn lemma_link_l0_links(
        &self,
        m0: &PhysicalMemory,
        a0: &KernelPageAllocator,
        m2: &PhysicalMemory,
        new: u64,
        v2: u64,
        v1: u64,
    )
        requires
            self.wf(m0, a0),
            v2 < ENTRIES_PER_TABLE,
            v1 < ENTRIES_PER_TABLE,
            root_valid(m0, self.root, v2),
            !path_valid(m0, self.root, v2, v1),
            a0.free_pages().len() > 0,
            new == a0.free_pages()[0],
            fill_then_write(
                m0,
                m2,
                new,
                (l1_table(m0, self.root, v2) + 8 * v1) as u64,
                pte_for_address(new) | 1,
            ),
        ensures
            links_only(m2, self.root),
            uppers_kept(m0, m2, self.root),
            entry_at(m2, l1_table(m2, self.root, v2), v1) == pte_for_address(new) | 1,
    {
        reveal(PageTable::wf);
        reveal(links_only);
        reveal(uppers_kept);
        let root = self.root;
        let t1 = self.l1_tables@;
        let tt = l1_table(m0, root, v2);
        let w = (tt + 8 * v1) as u64;
        let v = pte_for_address(new) | 1;
        a0.lemma_page_facts(m0);
        assert(a0.free_pages().contains(new));
        lemma_link_entry(new);
        assert(t1.contains(tt));
        lemma_page_indices(m0, tt as int);
        crate::physical_memory::lemma_pages_apart(root as int, tt as int);
        crate::physical_memory::lemma_pages_apart(new as int, tt as int);
        lemma_fill_then_write_entry(m0, m2, new, w, v, root, v2);
        lemma_fill_then_write_entry(m0, m2, new, w, v, tt, v1);
        assert forall|i: u64|
            #![trigger entry_at(m2, root, i)]
            i < ENTRIES_PER_TABLE implies link_or_empty(entry_at(m2, root, i)) by {
            lemma_fill_then_write_entry(m0, m2, new, w, v, root, i);
        }
        assert forall|i: u64|
            #![trigger entry_at(m2, root, i)]
            i < ENTRIES_PER_TABLE && root_valid(m0, root, i) implies entry_at(m2, root, i) == entry_at(
                m0,
                root,
                i,
            ) by {
            lemma_fill_then_write_entry(m0, m2, new, w, v, root, i);
        }
        assert forall|i: u64, j: u64|
            #![trigger entry_at(m2, l1_table(m2, root, i), j)]
            i < ENTRIES_PER_TABLE && j < ENTRIES_PER_TABLE && root_valid(m2, root, i) implies link_or_empty(
                entry_at(m2, l1_table(m2, root, i), j),
            ) by {
            lemma_fill_then_write_entry(m0, m2, new, w, v, root, i);
            let t = l1_table(m0, root, i);
            assert(t1.contains(t));
            if t != tt {
                crate::physical_memory::lemma_pages_apart(t as int, tt as int);
            }
            lemma_fill_then_write_entry(m0, m2, new, w, v, t, j);
            if !(i == v2 && j == v1) {
                assert(link_or_empty(entry_at(m0, l1_table(m0, root, i), j)));
            }
        }
        assert forall|i: u64, j: u64|
            #![trigger path_valid(m0, root, i, j)]
            i < ENTRIES_PER_TABLE && j < ENTRIES_PER_TABLE && path_valid(m0, root, i, j) implies entry_at(
                m2,
                l1_table(m2, root, i),
                j,
            ) == entry_at(m0, l1_table(m0, root, i), j) by {
            lemma_fill_then_write_entry(m0, m2, new, w, v, root, i);
            let t = l1_table(m0, root, i);
            assert(t1.contains(t));
            if t != tt {
                crate::physical_memory::lemma_pages_apart(t as int, tt as int);
            }
            lemma_fill_then_write_entry(m0, m2, new, w, v, t, j);
        }
    }

    /// Linking a fresh zeroed table under the invalid root entry `v2` keeps the table
    /// well formed, with the fresh table among the level-1 tables.
    proof fn lemma_link_l1_wf(
        &self,
        m0: &PhysicalMemory,
        a0: &KernelPageAllocator,
        m2: &PhysicalMemory,
        a1: &KernelPageAllocator,
        new: u64,
        v2: u64,
    )
        requires
            self.wf(m0, a0),
            v2 < ENTRIES_PER_TABLE,
            !root_valid(m0, self.root, v2),
            a0.free_pages().len() > 0,
            new == a0.free_pages()[0],
            a1.free_pages() == a0.free_pages().drop_first(),
            a1.wf(m2),
            a1.whole_pages(m2),
            fill_then_write(m0, m2, new, (self.root + 8 * v2) as u64, pte_for_address(new) | 1),
        ensures
            (PageTable {
                root: self.root,
                l1_tables: Ghost(self.l1_tables@.insert(new)),
                l0_tables: self.l0_tables,
            }).wf(m2, a1),
    {
        reveal(PageTable::wf);
        let root = self.root;
        let t1 = self.l1_tables@;
        let t0 = self.l0_tables@;
        let w = (root + 8 * v2) as u64;
        let v = pte_for_address(new) | 1;
        let pt2 = PageTable { root, l1_tables: Ghost(t1.insert(new)), l0_tables: self.l0_tables };
        self.lemma_link_l1_links(m0, a0, m2, new, v2);
        a0.lemma_page_facts(m0);
        lemma_drop_first_subset(a0, a1);
        assert(a0.free_pages().contains(new));
        lemma_link_entry(new);
        assert(!a1.free_pages().contains(new)) by {
            if a1.free_pages().contains(new) {
                let i = choose|i: int| 0 <= i < a1.free_pages().len() && a1.free_pages()[i] == new;
                assert(a0.free_pages()[i + 1] == new);
            }
        }
        lemma_page_indices(m0, root as int);
        assert(m0.has_word(w as int));
        assert forall|i: u64|
            #![trigger entry_at(m2, root, i)]
            i < ENTRIES_PER_TABLE && pte_valid(entry_at(m2, root, i)) implies pt2.l1_tables@.contains(
            pte_target(entry_at(m2, root, i)),
        ) by {
            lemma_fill_then_write_entry(m0, m2, new, w, v, root, i);
        }
        assert forall|t: u64, i: u64|
            #![trigger pt2.l1_tables@.contains(t), entry_at(m2, t, i)]
            pt2.l1_tables@.contains(t) && i < ENTRIES_PER_TABLE && pte_valid(entry_at(m2, t, i))
                implies t0.contains(pte_target(entry_at(m2, t, i))) by {
            if t == new {
                lemma_fill_then_write_entry(m0, m2, new, w, v, t, i);
                assert(new + 8 * i != w) by {
                    crate::physical_memory::lemma_pages_apart(new as int, root as int);
                }
            } else {
                assert(t1.contains(t));
                crate::physical_memory::lemma_pages_apart(t as int, root as int);
                lemma_fill_then_write_entry(m0, m2, new, w, v, t, i);
            }
        }
        assert forall|i: u64, j: u64|
            #![trigger entry_at(m2, root, i), entry_at(m2, root, j)]
            i < ENTRIES_PER_TABLE && j < ENTRIES_PER_TABLE && i != j && pte_valid(
                entry_at(m2, root, i),
            ) && pte_valid(entry_at(m2, root, j)) implies pte_target(entry_at(m2, root, i))
            != pte_target(entry_at(m2, root, j)) by {
            lemma_fill_then_write_entry(m0, m2, new, w, v, root, i);
            lemma_fill_then_write_entry(m0, m2, new, w, v, root, j);
        }
        assert forall|t: u64, u: u64, i: u64, j: u64|
            #![trigger pt2.l1_tables@.contains(t), pt2.l1_tables@.contains(u), entry_at(m2, t, i), entry_at(m2, u, j)]
            pt2.l1_tables@.contains(t) && pt2.l1_tables@.contains(u) && i < ENTRIES_PER_TABLE && j
                < ENTRIES_PER_TABLE && (t != u || i != j) && pte_valid(entry_at(m2, t, i))
                && pte_valid(entry_at(m2, u, j)) implies pte_target(entry_at(m2, t, i))
            != pte_target(entry_at(m2, u, j)) by {
            crate::physical_memory::lemma_pages_apart(new as int, root as int);
            lemma_fill_then_write_entry(m0, m2, new, w, v, t, i);
            lemma_fill_then_write_entry(m0, m2, new, w, v, u, j);
            if t != new {
                crate::physical_memory::lemma_pages_apart(t as int, root as int);
            }
            if u != new {
                crate::physical_memory::lemma_pages_apart(u as int, root as int);
            }
        }
    }

    /// Linking a fresh zeroed table under the invalid root entry `v2` makes that root entry
    /// valid and changes no other root entry, no level-1 path and no leaf.
    proof fn lemma_link_l1_view(
        &self,
        m0: &PhysicalMemory,
        a0: &KernelPageAllocator,
        m2: &PhysicalMemory,
        new: u64,
        v2: u64,
    )
        requires
            self.wf(m0, a0),
            v2 < ENTRIES_PER_TABLE,
            !root_valid(m0, self.root, v2),
            a0.free_pages().len() > 0,
            new == a0.free_pages()[0],
            fill_then_write(m0, m2, new, (self.root + 8 * v2) as u64, pte_for_address(new) | 1),
        ensures
            forall|i: u64|
                #![trigger root_valid(m2, self.root, i)]
                i < ENTRIES_PER_TABLE ==> root_valid(m2, self.root, i) == (root_valid(
                    m0,
                    self.root,
                    i,
                ) || i == v2),
            l1_table(m2, self.root, v2) == new,
            forall|i: u64, j: u64|
                #![trigger path_valid(m2, self.root, i, j)]
                i < ENTRIES_PER_TABLE && j < ENTRIES_PER_TABLE ==> path_valid(m2, self.root, i, j)
                    == path_valid(m0, self.root, i, j),
            forall|i: u64, j: u64, k: u64|
                #![trigger leaf(m2, self.root, i, j, k)]
                i < ENTRIES_PER_TABLE && j < ENTRIES_PER_TABLE && k < ENTRIES_PER_TABLE ==> leaf(
                    m2,
                    self.root,
                    i,
                    j,
                    k,
                ) == leaf(m0, self.root, i, j, k),
    {
        reveal(PageTable::wf);
        let root = self.root;
        let t1 = self.l1_tables@;
        let t0 = self.l0_tables@;
        let w = (root + 8 * v2) as u64;
        let v = pte_for_address(new) | 1;
        a0.lemma_page_facts(m0);
        assert(a0.free_pages().contains(new));
        lemma_link_entry(new);
        lemma_page_indices(m0, root as int);
        crate::physical_memory::lemma_pages_apart(new as int, root as int);
        assert forall|i: u64| #![trigger root_valid(m2, root, i)] i < ENTRIES_PER_TABLE implies root_valid(
            m2,
            root,
            i,
        ) == (root_valid(m0, root, i) || i == v2) by {
            lemma_fill_then_write_entry(m0, m2, new, w, v, root, i);
        }
        lemma_fill_then_write_entry(m0, m2, new, w, v, root, v2);
        assert forall|i: u64, j: u64|
            #![trigger path_valid(m2, root, i, j)]
            i < ENTRIES_PER_TABLE && j < ENTRIES_PER_TABLE implies path_valid(m2, root, i, j)
            == path_valid(m0, root, i, j) by {
            lemma_fill_then_write_entry(m0, m2, new, w, v, root, i);
            if i == v2 {
                lemma_fill_then_write_entry(m0, m2, new, w, v, new, j);
            } else if root_valid(m0, root, i) {
                let t = l1_table(m0, root, i);
                assert(t1.contains(t));
                crate::physical_memory::lemma_pages_apart(t as int, root as int);
                lemma_fill_then_write_entry(m0, m2, new, w, v, t, j);
            }
        }
        assert forall|i: u64, j: u64, k: u64|
            #![trigger leaf(m2, root, i, j, k)]
            i < ENTRIES_PER_TABLE && j < ENTRIES_PER_TABLE && k < ENTRIES_PER_TABLE implies leaf(
                m2,
                root,
                i,
                j,
                k,
            ) == leaf(m0, root, i, j, k) by {
            assert(path_valid(m2, root, i, j) == path_valid(m0, root, i, j));
            if path_valid(m0, root, i, j) {
                lemma_fill_then_write_entry(m0, m2, new, w, v, root, i);
                let t = l1_table(m0, root, i);
                assert(t1.contains(t));
                crate::physical_memory::lemma_pages_apart(t as int, root as int);
                lemma_fill_then_write_entry(m0, m2, new, w, v, t, j);
                let u = l0_table(m0, root, i, j);
                assert(t0.contains(u));
                crate::physical_memory::lemma_pages_apart(u as int, root as int);
                lemma_fill_then_write_entry(m0, m2, new, w, v, u, k);
            }
        }
    }

    /// Linking a fresh zeroed table under the invalid entry `v1` of the level-1 table below
    /// the valid root entry `v2` keeps the table well formed, with the fresh table among the
    /// level-0 tables.
    proof fn lemma_link_l0_wf(
        &self,
        m0: &PhysicalMemory,
        a0: &KernelPageAllocator,
        m2: &PhysicalMemory,
        a1: &KernelPageAllocator,
        new: u64,
        v2: u64,
        v1: u64,
    )
        requires
            self.wf(m0, a0),
            v2 < ENTRIES_PER_TABLE,
            v1 < ENTRIES_PER_TABLE,
            root_valid(m0, self.root, v2),
            !path_valid(m0, self.root, v2, v1),
            a0.free_pages().len() > 0,
            new == a0.free_pages()[0],
            a1.free_pages() == a0.free_pages().drop_first(),
            a1.wf(m2),
            a1.whole_pages(m2),
            fill_then_write(
                m0,
                m2,
                new,
                (l1_table(m0, self.root, v2) + 8 * v1) as u64,
                pte_for_address(new) | 1,
            ),
        ensures
            (PageTable {
                root: self.root,
                l1_tables: self.l1_tables,
                l0_tables: Ghost(self.l0_tables@.insert(new)),
            }).wf(m2, a1),
    {
        reveal(PageTable::wf);
        let root = self.root;
        let t1 = self.l1_tables@;
        let t0 = self.l0_tables@;
        let tt = l1_table(m0, root, v2);
        let w = (tt + 8 * v1) as u64;
        let v = pte_for_address(new) | 1;
        let pt2 = PageTable { root, l1_tables: self.l1_tables, l0_tables: Ghost(t0.insert(new)) };
        self.lemma_link_l0_links(m0, a0, m2, new, v2, v1);
        a0.lemma_page_facts(m0);
        lemma_drop_first_subset(a0, a1);
        assert(a0.free_pages().contains(new));
        lemma_link_entry(new);
        assert(!a1.free_pages().contains(new)) by {
            if a1.free_pages().contains(new) {
                let i = choose|i: int| 0 <= i < a1.free_pages().len() && a1.free_pages()[i] == new;
                assert(a0.free_pages()[i + 1] == new);
            }
        }
        assert(t1.contains(tt));
        lemma_page_indices(m0, tt as int);
        assert(m0.has_word(w as int));
        crate::physical_memory::lemma_pages_apart(root as int, tt as int);
        crate::physical_memory::lemma_pages_apart(new as int, tt as int);
        assert forall|i: u64|
            #![trigger entry_at(m2, root, i)]
            i < ENTRIES_PER_TABLE && pte_valid(entry_at(m2, root, i)) implies pt2.l1_tables@.contains(
            pte_target(entry_at(m2, root, i)),
        ) by {
            lemma_fill_then_write_entry(m0, m2, new, w, v, root, i);
        }
        assert forall|t: u64, i: u64|
            #![trigger pt2.l1_tables@.contains(t), entry_at(m2, t, i)]
            pt2.l1_tables@.contains(t) && i < ENTRIES_PER_TABLE && pte_valid(entry_at(m2, t, i))
                implies pt2.l0_tables@.contains(pte_target(entry_at(m2, t, i))) by {
            if t != tt {
                crate::physical_memory::lemma_pages_apart(t as int, tt as int);
            }
            lemma_fill_then_write_entry(m0, m2, new, w, v, t, i);
        }
        assert forall|i: u64, j: u64|
            #![trigger entry_at(m2, root, i), entry_at(m2, root, j)]
            i < ENTRIES_PER_TABLE && j < ENTRIES_PER_TABLE && i != j && pte_valid(
                entry_at(m2, root, i),
            ) && pte_valid(entry_at(m2, root, j)) implies pte_target(entry_at(m2, root, i))
            != pte_target(entry_at(m2, root, j)) by {
            lemma_fill_then_write_entry(m0, m2, new, w, v, root, i);
            lemma_fill_then_write_entry(m0, m2, new, w, v, root, j);
        }
        assert forall|t: u64, u: u64, i: u64, j: u64|
            #![trigger pt2.l1_tables@.contains(t), pt2.l1_tables@.contains(u), entry_at(m2, t, i), entry_at(m2, u, j)]
            pt2.l1_tables@.contains(t) && pt2.l1_tables@.contains(u) && i < ENTRIES_PER_TABLE && j
                < ENTRIES_PER_TABLE && (t != u || i != j) && pte_valid(entry_at(m2, t, i))
                && pte_valid(entry_at(m2, u, j)) implies pte_target(entry_at(m2, t, i))
            != pte_target(entry_at(m2, u, j)) by {
            if t != tt {
                crate::physical_memory::lemma_pages_apart(t as int, tt as int);
            }
            if u != tt {
                crate::physical_memory::lemma_pages_apart(u as int, tt as int);
            }
            lemma_fill_then_write_entry(m0, m2, new, w, v, t, i);
            lemma_fill_then_write_entry(m0, m2, new, w, v, u, j);
        }
    }

    /// Linking a fresh zeroed table under the invalid entry `v1` of the level-1 table below
    /// the valid root entry `v2` makes that path valid and changes no root entry, no other
    /// path and no leaf.
    proof fn lemma_link_l0_view(
        &self,
        m0: &PhysicalMemory,
        a0: &KernelPageAllocator,
        m2: &PhysicalMemory,
        new: u64,
        v2: u64,
        v1: u64,
    )
        requires
            self.wf(m0, a0),
            v2 < ENTRIES_PER_TABLE,
            v1 < ENTRIES_PER_TABLE,
            root_valid(m0, self.root, v2),
            !path_valid(m0, self.root, v2, v1),
            a0.free_pages().len() > 0,
            new == a0.free_pages()[0],
            fill_then_write(
                m0,
                m2,
                new,
                (l1_table(m0, self.root, v2) + 8 * v1) as u64,
                pte_for_address(new) | 1,
            ),
        ensures
            forall|i: u64|
                #![trigger root_valid(m2, self.root, i)]
                i < ENTRIES_PER_TABLE ==> root_valid(m2, self.root, i) == root_valid(m0, self.root, i),
            l1_table(m2, self.root, v2) == l1_table(m0, self.root, v2),
            l0_table(m2, self.root, v2, v1) == new,
            forall|i: u64, j: u64|
                #![trigger path_valid(m2, self.root, i, j)]
                i < ENTRIES_PER_TABLE && j < ENTRIES_PER_TABLE ==> path_valid(m2, self.root, i, j)
                    == (path_valid(m0, self.root, i, j) || (i == v2 && j == v1)),
            forall|i: u64, j: u64, k: u64|
                #![trigger leaf(m2, self.root, i, j, k)]
                i < ENTRIES_PER_TABLE && j < ENTRIES_PER_TABLE && k < ENTRIES_PER_TABLE ==> leaf(
                    m2,
                    self.root,
                    i,
                    j,
                    k,
                ) == leaf(m0, self.root, i, j, k),
    {
        reveal(PageTable::wf);
        let root = self.root;
        let t1 = self.l1_tables@;
        let t0 = self.l0_tables@;
        let tt = l1_table(m0, root, v2);
        let w = (tt + 8 * v1) as u64;
        let v = pte_for_address(new) | 1;
        a0.lemma_page_facts(m0);
        assert(a0.free_pages().contains(new));
        lemma_link_entry(new);
        assert(t1.contains(tt));
        lemma_page_indices(m0, tt as int);
        crate::physical_memory::lemma_pages_apart(root as int, tt as int);
        crate::physical_memory::lemma_pages_apart(new as int, tt as int);
        assert forall|i: u64| #![trigger root_valid(m2, root, i)] i < ENTRIES_PER_TABLE implies root_valid(
            m2,
            root,
            i,
        ) == root_valid(m0, root, i) by {
            lemma_fill_then_write_entry(m0, m2, new, w, v, root, i);
        }
        lemma_fill_then_write_entry(m0, m2, new, w, v, root, v2);
        lemma_fill_then_write_entry(m0, m2, new, w, v, tt, v1);
        assert forall|i: u64, j: u64|
            #![trigger path_valid(m2, root, i, j)]
            i < ENTRIES_PER_TABLE && j < ENTRIES_PER_TABLE implies path_valid(m2, root, i, j)
            == (path_valid(m0, root, i, j) || (i == v2 && j == v1)) by {
            lemma_fill_then_write_entry(m0, m2, new, w, v, root, i);
            if root_valid(m0, root, i) {
                let t = l1_table(m0, root, i);
                assert(t1.contains(t));
                if t != tt {
                    crate::physical_memory::lemma_pages_apart(t as int, tt as int);
                }
                lemma_fill_then_write_entry(m0, m2, new, w, v, t, j);
            }
        }
        assert forall|i: u64, j: u64, k: u64|
            #![trigger leaf(m2, root, i, j, k)]
            i < ENTRIES_PER_TABLE && j < ENTRIES_PER_TABLE && k < ENTRIES_PER_TABLE implies leaf(
                m2,
                root,
                i,
                j,
                k,
            ) == leaf(m0, root, i, j, k) by {
            assert(path_valid(m2, root, i, j) == (path_valid(m0, root, i, j) || (i == v2 && j == v1)));
            lemma_fill_then_write_entry(m0, m2, new, w, v, root, i);
            if i == v2 && j == v1 {
                lemma_fill_then_write_entry(m0, m2, new, w, v, new, k);
            } else if path_valid(m0, root, i, j) {
                let t = l1_table(m0, root, i);
                assert(t1.contains(t));
                if t != tt {
                    crate::physical_memory::lemma_pages_apart(t as int, tt as int);
                }
                lemma_fill_then_write_entry(m0, m2, new, w, v, t, j);
                let u = l0_table(m0, root, i, j);
                assert(t0.contains(u));
                crate::physical_memory::lemma_pages_apart(u as int, tt as int);
                lemma_fill_then_write_entry(m0, m2, new, w, v, u, k);
            }
        }
    }
}

/// Takes a zeroed page from the allocator and stores, at `pte_address` inside the table page
/// `table`, a valid entry that names it.
fn link_new_table(
    mem: &mut PhysicalMemory,
    alloc: &mut KernelPageAllocator,
    pte_address: u64,
    Ghost(table): Ghost<u64>,
) -> (r: u64)
    requires
        old(alloc).wf(old(mem)),
        old(alloc).whole_pages(old(mem)),
        old(alloc).free_pages().len() > 0,
        old(mem).has_page(table as int),
        !old(alloc).free_pages().contains(table),
        old(mem).has_word(pte_address as int),
        table <= pte_address < table + PAGE_SIZE,
    ensures
        r == old(alloc).free_pages()[0],
        final(alloc).free_pages() == old(alloc).free_pages().drop_first(),
        final(alloc).wf(final(mem)),
        final(alloc).whole_pages(final(mem)),
        final(mem).wf(),
        fill_then_write(old(mem), final(mem), r, pte_address, pte_for_address(r) | 1),
{
    let ghost m0 = *old(mem);
    proof {
        old(alloc).lemma_page_facts(old(mem));
        crate::physical_memory::lemma_page_is_span(old(mem), old(alloc).free_pages()[0] as int);
    }
    let new_table = kzalloc(alloc, mem);
    let ghost m1 = *mem;
    proof {
        alloc.lemma_page_facts(mem);
    }
    let mut pte = PageTableEntry { entry: 0 };
    pte.set_from_page_table(new_table);
    pte.set_valid();
    mem.write(pte_address, pte.entry);
    proof {
        old(alloc).lemma_page_facts(&m0);
        alloc.lemma_page_facts(&m1);
        lemma_drop_first_subset(old(alloc), alloc);
        lemma_page_indices(&m0, table as int);
        lemma_page_indices(&m0, new_table as int);
        assert(old(alloc).free_pages().contains(new_table));
        assert forall|i: int|
            #![trigger alloc.free_pages()[i]]
            0 <= i < alloc.free_pages().len() implies mem.word(alloc.free_pages()[i] as int)
            == m1.word(alloc.free_pages()[i] as int) by {
            let p = alloc.free_pages()[i];
            assert(alloc.free_pages().contains(p));
            assert(p != table);
            crate::physical_memory::lemma_page_words_disjoint(&m0, table as int, p as int);
            lemma_page_indices(&m0, p as int);
        }
        alloc.lemma_wf_frame(&m1, mem);
        let lo = m0.index_of(new_table as int);
        assert forall|k: int|
            #![trigger mem.words@[k]]
            0 <= k < m0.words@.len() implies mem.words@[k] == (if k == m0.index_of(pte_address as int) {
                pte_for_address(new_table) | 1
            } else if lo <= k < lo + WORDS_PER_PAGE {
                0
            } else {
                m0.words@[k]
            }) by {
            if k != m0.index_of(pte_address as int) {
                assert(mem.words@[k] == m1.words@[k]);
            }
        }
    }
    new_table
}

/// Number of tables that `walk` takes from the allocator for `va` when it may allocate.
pub open spec fn walk_needed(mem: &PhysicalMemory, root: u64, va: u64) -> nat {
    (if root_valid(mem, root, vpn_spec(va, 2)) {
        0nat
    } else {
        1nat
    }) + (if path_valid(mem, root, vpn_spec(va, 2), vpn_spec(va, 1)) {
        0nat
    } else {
        1nat
    })
}

impl PageTable {
    /// Follows the root entry that `virtual_address` selects; where that entry is invalid and
    /// `allocate_missing` holds, links a fresh zeroed level-1 table there first.
    fn enter_root(
        &mut self,
        mem: &mut PhysicalMemory,
        alloc: &mut KernelPageAllocator,
        virtual_address: Address,
        allocate_missing: bool,
    ) -> (r: Result<u64, &'static str>)
        requires
            old(self).wf(old(mem), old(alloc)),
            allocate_missing && !root_valid(old(mem), old(self).root(), vpn_spec(virtual_address.0, 2))
                ==> old(alloc).free_pages().len() > 0,
        ensures
            uppers_kept(old(mem), final(mem), old(self).root()),
            allocate_missing && !root_valid(old(mem), old(self).root(), vpn_spec(virtual_address.0, 2))
                ==> entry_at(final(mem), old(self).root(), vpn_spec(virtual_address.0, 2))
                == pte_for_address(old(alloc).free_pages()[0]) | 1,
            allocate_missing && !root_valid(old(mem), old(self).root(), vpn_spec(virtual_address.0, 2))
                ==> l1_table(final(mem), old(self).root(), vpn_spec(virtual_address.0, 2))
                == old(alloc).free_pages()[0],
            changes_within(old(mem), final(mem), final(self).tables()),
            grown_from(old(self).tables(), final(self).tables(), old(alloc).free_pages(), final(alloc).free_pages()),
            final(self).wf(final(mem), final(alloc)),
            final(self).root() == old(self).root(),
            (!allocate_missing || root_valid(old(mem), old(self).root(), vpn_spec(virtual_address.0, 2)))
                ==> *final(mem) == *old(mem) && *final(alloc) == *old(alloc),
            r is Ok <==> (allocate_missing || root_valid(
                old(mem),
                old(self).root(),
                vpn_spec(virtual_address.0, 2),
            )),
            r matches Ok(t) ==> root_valid(final(mem), old(self).root(), vpn_spec(virtual_address.0, 2))
                && t == l1_table(final(mem), old(self).root(), vpn_spec(virtual_address.0, 2)),
            r matches Err(e) ==> e@ == "PageTableEntry not found!"@,
            forall|i: u64|
                #![trigger root_valid(final(mem), old(self).root(), i)]
                i < ENTRIES_PER_TABLE ==> root_valid(final(mem), old(self).root(), i) == (root_valid(
                    old(mem),
                    old(self).root(),
                    i,
                ) || (allocate_missing && i == vpn_spec(virtual_address.0, 2))),
            forall|i: u64, j: u64|
                #![trigger path_valid(final(mem), old(self).root(), i, j)]
                i < ENTRIES_PER_TABLE && j < ENTRIES_PER_TABLE ==> path_valid(
                    final(mem),
                    old(self).root(),
                    i,
                    j,
                ) == path_valid(old(mem), old(self).root(), i, j),
            forall|i: u64, j: u64, k: u64|
                #![trigger leaf(final(mem), old(self).root(), i, j, k)]
                i < ENTRIES_PER_TABLE && j < ENTRIES_PER_TABLE && k < ENTRIES_PER_TABLE ==> leaf(
                    final(mem),
                    old(self).root(),
                    i,
                    j,
                    k,
                ) == leaf(old(mem), old(self).root(), i, j, k),
            final(alloc).free_pages() == old(alloc).free_pages().skip(
                if allocate_missing && !root_valid(
                    old(mem),
                    old(self).root(),
                    vpn_spec(virtual_address.0, 2),
                ) {
                    1int
                } else {
                    0int
                },
            ),
    {
        proof {
            reveal(PageTable::wf);
        }
        let ghost m0 = *old(mem);
        let ghost a0 = *old(alloc);
        let ghost pt0 = *old(self);
        let ghost v2 = vpn_spec(virtual_address.0, 2);
        proof {
            alloc.lemma_page_facts(mem);
            lemma_page_indices(mem, self.root as int);
            lemma_vpn_bounds(virtual_address.0);
        }
        proof {
            lemma_uppers_kept_refl(mem, self.root);
        }
        let pte_address = PageTable::get_entry(self.root, virtual_address, 2).unwrap();
        let pte = PageTableEntry { entry: mem.read(pte_address) };
        assert(old(alloc).free_pages().skip(0) =~= old(alloc).free_pages());
        if pte.is_valid() {
            return Ok(pte.to_inner_page_table());
        }
        if !allocate_missing {
            return Err("PageTableEntry not found!");
        }
        let new_table = link_new_table(mem, alloc, pte_address, Ghost(self.root));
        self.l1_tables = Ghost(self.l1_tables@.insert(new_table));
        proof {
            old(alloc).lemma_page_facts(&m0);
            assert(old(alloc).free_pages().contains(new_table));
            crate::kalloc::lemma_allocated_not_free(old(alloc), &m0, alloc);
            assert(self.tables() =~= pt0.tables().insert(new_table));
            lemma_link_frame(&m0, mem, new_table, pte_address, pte_for_address(new_table) | 1, pt0.root, self.tables());
            pt0.lemma_link_l1_wf(&m0, &a0, mem, alloc, new_table, v2);
            pt0.lemma_link_l1_view(&m0, &a0, mem, new_table, v2);
            pt0.lemma_link_l1_links(&m0, &a0, mem, new_table, v2);
            assert(a0.free_pages().skip(1) =~= a0.free_pages().drop_first());
        }
        Ok(new_table)
    }

    /// Follows entry `vpn(va, 1)` of the level-1 table at `table`, which the valid root entry
    /// `vpn(va, 2)` names; where that entry is invalid and `allocate_missing` holds, links a
    /// fresh zeroed level-0 table there first.
    fn enter_l1(
        &mut self,
        mem: &mut PhysicalMemory,
        alloc: &mut KernelPageAllocator,
        table: u64,
        virtual_address: Address,
        allocate_missing: bool,
    ) -> (r: Result<u64, &'static str>)
        requires
            old(self).wf(old(mem), old(alloc)),
            root_valid(old(mem), old(self).root(), vpn_spec(virtual_address.0, 2)),
            table == l1_table(old(mem), old(self).root(), vpn_spec(virtual_address.0, 2)),
            allocate_missing && !path_valid(
                old(mem),
                old(self).root(),
                vpn_spec(virtual_address.0, 2),
                vpn_spec(virtual_address.0, 1),
            ) ==> old(alloc).free_pages().len() > 0,
        ensures
            uppers_kept(old(mem), final(mem), old(self).root()),
            allocate_missing && !path_valid(
                old(mem),
                old(self).root(),
                vpn_spec(virtual_address.0, 2),
                vpn_spec(virtual_address.0, 1),
            ) ==> entry_at(final(mem), table, vpn_spec(virtual_address.0, 1)) == pte_for_address(
                old(alloc).free_pages()[0],
            ) | 1,
            l1_table(final(mem), old(self).root(), vpn_spec(virtual_address.0, 2)) == table,
            allocate_missing && !path_valid(
                old(mem),
                old(self).root(),
                vpn_spec(virtual_address.0, 2),
                vpn_spec(virtual_address.0, 1),
            ) ==> l0_table(
                final(mem),
                old(self).root(),
                vpn_spec(virtual_address.0, 2),
                vpn_spec(virtual_address.0, 1),
            ) == old(alloc).free_pages()[0],
            changes_within(old(mem), final(mem), final(self).tables()),
            grown_from(old(self).tables(), final(self).tables(), old(alloc).free_pages(), final(alloc).free_pages()),
            final(self).wf(final(mem), final(alloc)),
            final(self).root() == old(self).root(),
            (!allocate_missing || path_valid(
                old(mem),
                old(self).root(),
                vpn_spec(virtual_address.0, 2),
                vpn_spec(virtual_address.0, 1),
            )) ==> *final(mem) == *old(mem) && *final(alloc) == *old(alloc),
            r is Ok <==> (allocate_missing || path_valid(
                old(mem),
                old(self).root(),
                vpn_spec(virtual_address.0, 2),
                vpn_spec(virtual_address.0, 1),
            )),
            r matches Ok(t) ==> path_valid(
                final(mem),
                old(self).root(),
                vpn_spec(virtual_address.0, 2),
                vpn_spec(virtual_address.0, 1),
            ) && t == l0_table(
                final(mem),
                old(self).root(),
                vpn_spec(virtual_address.0, 2),
                vpn_spec(virtual_address.0, 1),
            ),
            r matches Err(e) ==> e@ == "PageTableEntry not found!"@,
            forall|i: u64|
                #![trigger root_valid(final(mem), old(self).root(), i)]
                i < ENTRIES_PER_TABLE ==> root_valid(final(mem), old(self).root(), i) == root_valid(
                    old(mem),
                    old(self).root(),
                    i,
                ),
            forall|i: u64, j: u64|
                #![trigger path_valid(final(mem), old(self).root(), i, j)]
                i < ENTRIES_PER_TABLE && j < ENTRIES_PER_TABLE ==> path_valid(
                    final(mem),
                    old(self).root(),
                    i,
                    j,
                ) == (path_valid(old(mem), old(self).root(), i, j) || (allocate_missing && i
                    == vpn_spec(virtual_address.0, 2) && j == vpn_spec(virtual_address.0, 1))),
            forall|i: u64, j: u64, k: u64|
                #![trigger leaf(final(mem), old(self).root(), i, j, k)]
                i < ENTRIES_PER_TABLE && j < ENTRIES_PER_TABLE && k < ENTRIES_PER_TABLE ==> leaf(
                    final(mem),
                    old(self).root(),
                    i,
                    j,
                    k,
                ) == leaf(old(mem), old(self).root(), i, j, k),
            final(alloc).free_pages() == old(alloc).free_pages().skip(
                if allocate_missing && !path_valid(
                    old(mem),
                    old(self).root(),
                    vpn_spec(virtual_address.0, 2),
                    vpn_spec(virtual_address.0, 1),
                ) {
                    1int
                } else {
                    0int
                },
            ),
    {
        proof {
            reveal(PageTable::wf);
        }
        let ghost m0 = *old(mem);
        let ghost a0 = *old(alloc);
        let ghost pt0 = *old(self);
        let ghost v2 = vpn_spec(virtual_address.0, 2);
        let ghost v1 = vpn_spec(virtual_address.0, 1);
        proof {
            alloc.lemma_page_facts(mem);
            lemma_vpn_bounds(virtual_address.0);
            assert(self.l1_tables@.contains(table));
            lemma_page_indices(mem, table as int);
        }
        proof {
            lemma_uppers_kept_refl(mem, self.root);
        }
        let pte_address = PageTable::get_entry(table, virtual_address, 1).unwrap();
        let pte = PageTableEntry { entry: mem.read(pte_address) };
        assert(old(alloc).free_pages().skip(0) =~= old(alloc).free_pages());
        if pte.is_valid() {
            return Ok(pte.to_inner_page_table());
        }
        if !allocate_missing {
            return Err("PageTableEntry not found!");
        }
        let new_table = link_new_table(mem, alloc, pte_address, Ghost(table));
        self.l0_tables = Ghost(self.l0_tables@.insert(new_table));
        proof {
            old(alloc).lemma_page_facts(&m0);
            assert(old(alloc).free_pages().contains(new_table));
            crate::kalloc::lemma_allocated_not_free(old(alloc), &m0, alloc);
            assert(self.tables() =~= pt0.tables().insert(new_table));
            assert(pt0.l1_tables@.contains(table));
            lemma_link_frame(&m0, mem, new_table, pte_address, pte_for_address(new_table) | 1, table, self.tables());
            pt0.lemma_link_l0_wf(&m0, &a0, mem, alloc, new_table, v2, v1);
            pt0.lemma_link_l0_view(&m0, &a0, mem, new_table, v2, v1);
            pt0.lemma_link_l0_links(&m0, &a0, mem, new_table, v2, v1);
            assert(a0.free_pages().skip(1) =~= a0.free_pages().drop_first());
        }
        Ok(new_table)
    }

    /// Finds the leaf entry that maps `virtual_address` and returns its physical address.
    /// Where an upper-level entry on the way is invalid, links a fresh zeroed table there if
    /// `allocate_missing` holds, and otherwise fails.
    pub fn walk(
        &mut self,
        mem: &mut PhysicalMemory,
        alloc: &mut KernelPageAllocator,
        virtual_address: Address,
        allocate_missing: bool,
    ) -> (r: Result<u64, &'static str>)
        requires
            old(self).wf(old(mem), old(alloc)),
            allocate_missing ==> old(alloc).free_pages().len() >= walk_needed(
                old(mem),
                old(self).root(),
                virtual_address.0,
            ),
        ensures
            links_only(final(mem), old(self).root()),
            uppers_kept(old(mem), final(mem), old(self).root()),
            walk_needed(old(mem), old(self).root(), virtual_address.0) == 0 ==> *final(mem) == *old(
                mem,
            ) && *final(alloc) == *old(alloc),
            allocate_missing && !root_valid(old(mem), old(self).root(), vpn_spec(virtual_address.0, 2))
                ==> entry_at(final(mem), old(self).root(), vpn_spec(virtual_address.0, 2))
                == pte_for_address(old(alloc).free_pages()[0]) | 1,
            allocate_missing && !path_valid(
                old(mem),
                old(self).root(),
                vpn_spec(virtual_address.0, 2),
                vpn_spec(virtual_address.0, 1),
            ) ==> entry_at(
                final(mem),
                l1_table(final(mem), old(self).root(), vpn_spec(virtual_address.0, 2)),
                vpn_spec(virtual_address.0, 1),
            ) == pte_for_address(
                old(alloc).free_pages()[walk_needed(old(mem), old(self).root(), virtual_address.0) - 1],
            ) | 1,
            r matches Ok(p) ==> final(mem).has_word(p as int) && final(mem).word(p as int) == leaf_of(
                final(mem),
                old(self).root(),
                virtual_address.0,
            ),
            changes_within(old(mem), final(mem), final(self).tables()),
            grown_from(old(self).tables(), final(self).tables(), old(alloc).free_pages(), final(alloc).free_pages()),
            allocate_missing && !root_valid(old(mem), old(self).root(), vpn_spec(virtual_address.0, 2))
                ==> l1_table(final(mem), old(self).root(), vpn_spec(virtual_address.0, 2))
                == old(alloc).free_pages()[0],
            allocate_missing && !path_valid(
                old(mem),
                old(self).root(),
                vpn_spec(virtual_address.0, 2),
                vpn_spec(virtual_address.0, 1),
            ) ==> l0_table(
                final(mem),
                old(self).root(),
                vpn_spec(virtual_address.0, 2),
                vpn_spec(virtual_address.0, 1),
            ) == old(alloc).free_pages()[walk_needed(old(mem), old(self).root(), virtual_address.0) - 1],
            allocate_missing && !root_valid(old(mem), old(self).root(), vpn_spec(virtual_address.0, 2))
                ==> forall|j: u64|
                #![trigger entry_at(final(mem), l1_table(final(mem), old(self).root(), vpn_spec(virtual_address.0, 2)), j)]
                j < ENTRIES_PER_TABLE && j != vpn_spec(virtual_address.0, 1) ==> entry_at(
                    final(mem),
                    l1_table(final(mem), old(self).root(), vpn_spec(virtual_address.0, 2)),
                    j,
                ) == 0,
            allocate_missing && !path_valid(
                old(mem),
                old(self).root(),
                vpn_spec(virtual_address.0, 2),
                vpn_spec(virtual_address.0, 1),
            ) ==> forall|k: u64|
                #![trigger entry_at(final(mem), l0_table(final(mem), old(self).root(), vpn_spec(virtual_address.0, 2), vpn_spec(virtual_address.0, 1)), k)]
                k < ENTRIES_PER_TABLE ==> entry_at(
                    final(mem),
                    l0_table(
                        final(mem),
                        old(self).root(),
                        vpn_spec(virtual_address.0, 2),
                        vpn_spec(virtual_address.0, 1),
                    ),
                    k,
                ) == 0,
            final(self).wf(final(mem), final(alloc)),
            final(self).root() == old(self).root(),
            !allocate_missing ==> *final(mem) == *old(mem) && *final(alloc) == *old(alloc),
            r is Ok <==> (allocate_missing || path_valid(
                old(mem),
                old(self).root(),
                vpn_spec(virtual_address.0, 2),
                vpn_spec(virtual_address.0, 1),
            )),
            r matches Ok(p) ==> path_valid(
                final(mem),
                old(self).root(),
                vpn_spec(virtual_address.0, 2),
                vpn_spec(virtual_address.0, 1),
            ) && p == leaf_address(final(mem), old(self).root(), virtual_address.0),
            r matches Err(e) ==> e@ == "PageTableEntry not found!"@,
            allocate_missing ==> forall|i: u64|
                #![trigger root_valid(final(mem), old(self).root(), i)]
                i < ENTRIES_PER_TABLE ==> root_valid(final(mem), old(self).root(), i) == (root_valid(
                    old(mem),
                    old(self).root(),
                    i,
                ) || i == vpn_spec(virtual_address.0, 2)),
            allocate_missing ==> forall|i: u64, j: u64|
                #![trigger path_valid(final(mem), old(self).root(), i, j)]
                i < ENTRIES_PER_TABLE && j < ENTRIES_PER_TABLE ==> path_valid(
                    final(mem),
                    old(self).root(),
                    i,
                    j,
                ) == (path_valid(old(mem), old(self).root(), i, j) || (i == vpn_spec(
                    virtual_address.0,
                    2,
                ) && j == vpn_spec(virtual_address.0, 1))),
            forall|i: u64, j: u64, k: u64|
                #![trigger leaf(final(mem), old(self).root(), i, j, k)]
                i < ENTRIES_PER_TABLE && j < ENTRIES_PER_TABLE && k < ENTRIES_PER_TABLE ==> leaf(
                    final(mem),
                    old(self).root(),
                    i,
                    j,
                    k,
                ) == leaf(old(mem), old(self).root(), i, j, k),
            allocate_missing ==> final(alloc).free_pages() == old(alloc).free_pages().skip(
                walk_needed(old(mem), old(self).root(), virtual_address.0) as int,
            ),
    {
        let ghost m0 = *old(mem);
        let ghost a0 = *old(alloc);
        let ghost root = self.root;
        let ghost v2 = vpn_spec(virtual_address.0, 2);
        let ghost v1 = vpn_spec(virtual_address.0, 1);
        proof {
            lemma_vpn_bounds(virtual_address.0);
        }
        let ghost pt0 = *self;
        let l1 = match self.enter_root(mem, alloc, virtual_address, allocate_missing) {
            Ok(t) => t,
            Err(e) => {
                proof {
                    self.lemma_wf_links(mem, alloc);
                }
                return Err(e);
            },
        };
        let ghost m1 = *mem;
        let ghost a1 = *alloc;
        let ghost pt1 = *self;
        proof {
            assert(path_valid(&m1, root, v2, v1) == path_valid(&m0, root, v2, v1));
            lemma_skip_subset(a0.free_pages(), if allocate_missing && !root_valid(&m0, root, v2) { 1int } else { 0int });
        }
        let l0 = match self.enter_l1(mem, alloc, l1, virtual_address, allocate_missing) {
            Ok(t) => t,
            Err(e) => {
                proof {
                    self.lemma_wf_links(mem, alloc);
                    lemma_uppers_kept_compose(&m0, &m1, mem, root);
                    lemma_changes_compose(&m0, &m1, mem, pt1.tables(), self.tables());
                    lemma_skip_subset(a1.free_pages(), 0);
                    lemma_grown_compose(pt0.tables(), pt1.tables(), self.tables(), a0.free_pages(), a1.free_pages(), alloc.free_pages());
                }
                return Err(e);
            },
        };
        proof {
            lemma_changes_compose(&m0, &m1, mem, pt1.tables(), self.tables());
            lemma_skip_subset(a1.free_pages(), if allocate_missing && !path_valid(&m1, root, v2, v1) { 1int } else { 0int });
            lemma_grown_compose(pt0.tables(), pt1.tables(), self.tables(), a0.free_pages(), a1.free_pages(), alloc.free_pages());
            if allocate_missing && !path_valid(&m0, root, v2, v1) && !root_valid(&m0, root, v2) {
                assert(a1.free_pages()[0] == a0.free_pages()[1]);
            }
        }
        proof {
            self.lemma_leaf_address(mem, alloc, virtual_address.0);
            self.lemma_wf_links(mem, alloc);
            lemma_uppers_kept_compose(&m0, &m1, mem, root);
            assert(entry_at(mem, root, v2) == entry_at(&m1, root, v2)) by {
                reveal(uppers_kept);
            }
            assert(a1.free_pages().skip(
                if allocate_missing && !path_valid(&m1, root, v2, v1) { 1int } else { 0int },
            ) =~= a0.free_pages().skip(walk_needed(&m0, root, virtual_address.0) as int));
        }
        proof {
            if allocate_missing && !root_valid(&m0, root, v2) {
                assert forall|j: u64|
                    #![trigger entry_at(mem, l1_table(mem, root, v2), j)]
                    j < ENTRIES_PER_TABLE && j != v1 implies entry_at(mem, l1_table(mem, root, v2), j)
                    == 0 by {
                    assert(!path_valid(&m0, root, v2, j));
                    assert(!path_valid(mem, root, v2, j));
                    reveal(links_only);
                    lemma_invalid_link_is_empty(entry_at(mem, l1_table(mem, root, v2), j));
                }
            }
            if allocate_missing && !path_valid(&m0, root, v2, v1) {
                assert forall|k: u64|
                    #![trigger entry_at(mem, l0_table(mem, root, v2, v1), k)]
                    k < ENTRIES_PER_TABLE implies entry_at(mem, l0_table(mem, root, v2, v1), k) == 0 by {
                    assert(leaf(mem, root, v2, v1, k) == leaf(&m0, root, v2, v1, k));
                }
            }
        }
        let idx = PageTable::vpn(virtual_address, 0) as u64;
        proof {
            self.lemma_leaf_address(mem, alloc, virtual_address.0);
        }
        Ok(l0 + 8 * idx)
    }

    /// Writing the leaf entry of a page whose upper levels are valid changes that leaf and
    /// nothing else the table shows.
    proof fn lemma_write_leaf(
        &self,
        m0: &PhysicalMemory,
        a0: &KernelPageAllocator,
        m1: &PhysicalMemory,
        va: u64,
        value: u64,
    )
        requires
            self.wf(m0, a0),
            path_valid(m0, self.root, vpn_spec(va, 2), vpn_spec(va, 1)),
            m1.base == m0.base,
            m1.words@ == m0.words@.update(m0.index_of(leaf_address(m0, self.root, va) as int), value),
        ensures
            m0.has_word(leaf_address(m0, self.root, va) as int),
            leaf_of(m0, self.root, va) == m0.word(leaf_address(m0, self.root, va) as int),
            changes_within(m0, m1, self.tables()),
            uppers_kept(m0, m1, self.root),
            self.wf(m1, a0),
            forall|i: u64|
                #![trigger root_valid(m1, self.root, i)]
                i < ENTRIES_PER_TABLE ==> root_valid(m1, self.root, i) == root_valid(m0, self.root, i),
            forall|i: u64, j: u64|
                #![trigger path_valid(m1, self.root, i, j)]
                i < ENTRIES_PER_TABLE && j < ENTRIES_PER_TABLE ==> path_valid(m1, self.root, i, j)
                    == path_valid(m0, self.root, i, j),
            forall|i: u64, j: u64, k: u64|
                #![trigger leaf(m1, self.root, i, j, k)]
                i < ENTRIES_PER_TABLE && j < ENTRIES_PER_TABLE && k < ENTRIES_PER_TABLE ==> leaf(
                    m1,
                    self.root,
                    i,
                    j,
                    k,
                ) == if i == vpn_spec(va, 2) && j == vpn_spec(va, 1) && k == vpn_spec(va, 0) {
                    value
                } else {
                    leaf(m0, self.root, i, j, k)
                },
    {
        reveal(PageTable::wf);
        reveal(links_only);
        reveal(uppers_kept);
        let root = self.root;
        let t1 = self.l1_tables@;
        let t0 = self.l0_tables@;
        let v2 = vpn_spec(va, 2);
        let v1 = vpn_spec(va, 1);
        let v0 = vpn_spec(va, 0);
        lemma_vpn_bounds(va);
        a0.lemma_page_facts(m0);
        let tt = l1_table(m0, root, v2);
        let u = l0_table(m0, root, v2, v1);
        assert(t1.contains(tt));
        assert(t0.contains(u));
        lemma_page_indices(m0, u as int);
        let w = leaf_address(m0, root, va);
        assert(w == u + 8 * v0);
        assert(m0.has_word(w as int));
        let widx = m0.index_of(w as int);
        assert(widx == m0.index_of(u as int) + v0);
        assert(self.tables().contains(u));
        assert forall|k: int| 0 <= k < m0.words@.len() && m1.words@[k] != m0.words@[k] implies exists|t: u64|
            self.tables().contains(t) && #[trigger] word_in_page(m0, k, t) by {
            assert(word_in_page(m0, k, u));
        }
        // Entries of any page other than `u` keep their values.
        assert forall|t: u64, i: u64|
            m0.has_page(t as int) && t != u && i < ENTRIES_PER_TABLE implies #[trigger] entry_at(m1, t, i)
            == entry_at(m0, t, i) by {
            crate::physical_memory::lemma_pages_apart(t as int, u as int);
            lemma_page_indices(m0, t as int);
            assert(m0.index_of(t + 8 * i) == m0.index_of(t as int) + i);
        }
        assert forall|i: u64| i < ENTRIES_PER_TABLE implies #[trigger] entry_at(m1, u, i) == if i == v0 {
            value
        } else {
            entry_at(m0, u, i)
        } by {
            assert(m0.index_of(u + 8 * i) == m0.index_of(u as int) + i);
        }
        assert forall|i: int|
            #![trigger a0.free_pages()[i]]
            0 <= i < a0.free_pages().len() implies m1.word(a0.free_pages()[i] as int) == m0.word(
                a0.free_pages()[i] as int,
            ) by {
            let p = a0.free_pages()[i];
            assert(a0.free_pages().contains(p));
            assert(entry_at(m1, p, 0) == entry_at(m0, p, 0));
        }
        a0.lemma_wf_frame(m0, m1);
        assert forall|i: u64| #![trigger root_valid(m1, root, i)] i < ENTRIES_PER_TABLE implies root_valid(
            m1,
            root,
            i,
        ) == root_valid(m0, root, i) by {
            assert(entry_at(m1, root, i) == entry_at(m0, root, i));
        }
        assert forall|i: u64, j: u64|
            #![trigger path_valid(m1, root, i, j)]
            i < ENTRIES_PER_TABLE && j < ENTRIES_PER_TABLE implies path_valid(m1, root, i, j)
            == path_valid(m0, root, i, j) by {
            assert(entry_at(m1, root, i) == entry_at(m0, root, i));
            if root_valid(m0, root, i) {
                let t = l1_table(m0, root, i);
                assert(t1.contains(t));
                assert(entry_at(m1, t, j) == entry_at(m0, t, j));
            }
        }
        assert forall|i: u64, j: u64, k: u64|
            #![trigger leaf(m1, root, i, j, k)]
            i < ENTRIES_PER_TABLE && j < ENTRIES_PER_TABLE && k < ENTRIES_PER_TABLE implies leaf(
                m1,
                root,
                i,
                j,
                k,
            ) == if i == v2 && j == v1 && k == v0 {
                value
            } else {
                leaf(m0, root, i, j, k)
            } by {
            assert(path_valid(m1, root, i, j) == path_valid(m0, root, i, j));
            if path_valid(m0, root, i, j) {
                assert(entry_at(m1, root, i) == entry_at(m0, root, i));
                let t = l1_table(m0, root, i);
                assert(t1.contains(t));
                assert(entry_at(m1, t, j) == entry_at(m0, t, j));
                let u2 = l0_table(m0, root, i, j);
                assert(t0.contains(u2));
                if u2 == u {
                    assert(t == tt && j == v1);
                    assert(i == v2);
                } else {
                    assert(entry_at(m1, u2, k) == entry_at(m0, u2, k));
                }
            }
        }
        assert(links_only(m1, root)) by {
            assert forall|i: u64, j: u64|
                #![trigger entry_at(m1, l1_table(m1, root, i), j)]
                i < ENTRIES_PER_TABLE && j < ENTRIES_PER_TABLE && root_valid(m1, root, i) implies link_or_empty(
                    entry_at(m1, l1_table(m1, root, i), j),
                ) by {
                assert(entry_at(m1, root, i) == entry_at(m0, root, i));
                let t = l1_table(m0, root, i);
                assert(t1.contains(t));
                assert(entry_at(m1, t, j) == entry_at(m0, t, j));
                assert(link_or_empty(entry_at(m0, l1_table(m0, root, i), j)));
            }
        }
        assert(self.wf(m1, a0)) by {
            assert forall|i: u64| #![trigger entry_at(m1, root, i)] i < ENTRIES_PER_TABLE implies entry_at(
                m1,
                root,
                i,
            ) == entry_at(m0, root, i) by {}
            assert forall|t: u64, i: u64|
                #![trigger t1.contains(t), entry_at(m1, t, i)]
                t1.contains(t) && i < ENTRIES_PER_TABLE implies entry_at(m1, t, i) == entry_at(
                m0,
                t,
                i,
            ) by {}
        }
    }
}

/// Largest number of pages one mapping can cover before two of its pages select the same
/// leaf entry.
pub const MAX_PAGES_PER_MAPPING: u64 = 0x800_0000;

/// The `j`-th page that a mapping starting at `va` covers.
pub open spec fn page_of(va: u64, j: int) -> u64 {
    (round_down_spec(va as int) + PAGE_SIZE * j) as u64
}

/// Number of pages that a mapping of `size` bytes at `va` covers.
pub open spec fn pages_to_map(va: u64, size: u64) -> int {
    (round_down_spec(va + size - 1) - round_down_spec(va as int)) / (PAGE_SIZE as int) + 1
}

/// An address selects, at every level, the same table entry as the start of its page.
pub proof fn lemma_vpn_of_page_start(a: u64)
    ensures
        vpn_spec(a, 2) == vpn_spec(round_down_spec(a as int) as u64, 2),
        vpn_spec(a, 1) == vpn_spec(round_down_spec(a as int) as u64, 1),
        vpn_spec(a, 0) == vpn_spec(round_down_spec(a as int) as u64, 0),
{
    let r: u64 = (a - a % 4096) as u64;
    assert(r == a - a % 4096 ==> ((a >> 30u64) & 0x1FF) == ((r >> 30u64) & 0x1FF)) by (bit_vector);
    assert(r == a - a % 4096 ==> ((a >> 21u64) & 0x1FF) == ((r >> 21u64) & 0x1FF)) by (bit_vector);
    assert(r == a - a % 4096 ==> ((a >> 12u64) & 0x1FF) == ((r >> 12u64) & 0x1FF)) by (bit_vector);
}

/// A mapping of `size` bytes at `va` covers at least one page, and its last page is the
/// page of its last byte `va + size - 1`.
pub proof fn lemma_last_page_covered(va: u64, size: u64)
    requires
        size > 0,
        va + (size - 1) <= u64::MAX,
    ensures
        pages_to_map(va, size) >= 1,
        page_of(va, pages_to_map(va, size) - 1) == round_down_spec(va + size - 1),
{
    let rd = round_down_spec(va as int);
    let rl = round_down_spec(va + size - 1);
    let n = pages_to_map(va, size);
    assert(rd <= rl);
    assert((rl - rd) % 4096 == 0);
    assert(rl - rd == 4096 * ((rl - rd) / 4096)) by (nonlinear_arith)
        requires
            (rl - rd) % 4096 == 0,
    ;
    assert(rd + 4096 * (n - 1) == rl);
}

/// Every byte of `[va, va + size)` lies in one of the pages that a mapping of `size` bytes
/// at `va` covers: page number `(round_down(a) - round_down(va)) / PAGE_SIZE`, which starts
/// at `round_down(a)`.
pub proof fn lemma_page_of_address(va: u64, size: u64, a: u64)
    requires
        size > 0,
        va + (size - 1) <= u64::MAX,
        va <= a < va + size,
    ensures
        0 <= page_index(va, a) < pages_to_map(va, size),
        page_of(va, page_index(va, a)) == round_down_spec(a as int),
{
    let rd = round_down_spec(va as int);
    let rl = round_down_spec(va + size - 1);
    let ra = round_down_spec(a as int);
    assert(rd <= ra <= rl);
    assert((ra - rd) % 4096 == 0);
    assert((rl - rd) % 4096 == 0);
    let k = (ra - rd) / 4096;
    assert(ra - rd == 4096 * k) by (nonlinear_arith)
        requires
            (ra - rd) % 4096 == 0,
            k == (ra - rd) / 4096,
    ;
    assert(k <= (rl - rd) / 4096) by (nonlinear_arith)
        requires
            ra - rd <= rl - rd,
            k == (ra - rd) / 4096,
    ;
}

/// Number of the page, counted from the page of `va`, that holds the address `a`.
pub open spec fn page_index(va: u64, a: u64) -> int {
    (round_down_spec(a as int) - round_down_spec(va as int)) / (PAGE_SIZE as int)
}

/// Once every page of a mapping of `size` bytes at `va` is mapped, every byte of
/// `[va, va + size)` has the leaf of its page: the page of `pa` that lies as many pages
/// further as the byte's page lies from the page of `va`.
pub proof fn lemma_mapping_covers_range(
    mem: &PhysicalMemory,
    root: u64,
    va: u64,
    pa: u64,
    perms: Seq<PageTableEntryField>,
    size: u64,
)
    requires
        size > 0,
        va + (size - 1) <= u64::MAX,
        maps_prefix(mem, root, va, pa, perms, pages_to_map(va, size)),
    ensures
        forall|a: u64|
            #![trigger leaf_of(mem, root, a)]
            va <= a < va + size ==> leaf_of(mem, root, a) == mapped_entry(pa, page_index(va, a), perms),
{
    reveal(maps_prefix);
    assert forall|a: u64|
        #![trigger leaf_of(mem, root, a)]
        va <= a < va + size implies leaf_of(mem, root, a) == mapped_entry(pa, page_index(va, a), perms) by {
        lemma_page_of_address(va, size, a);
        lemma_vpn_of_page_start(a);
        let k = page_index(va, a);
        assert(leaf_of(mem, root, page_of(va, k)) == mapped_entry(pa, k, perms));
    }
}

/// The leaf entry that a mapping stores for its `j`-th page.
pub open spec fn mapped_entry(pa: u64, j: int, perms: Seq<PageTableEntryField>) -> u64 {
    (pte_for_address((pa + PAGE_SIZE * j) as u64) | 1) | permission_mask(perms)
}

/// One of the first `j` pages of the mapping at `va` selects root entry `i`.
pub open spec fn v2_seen(va: u64, j: int, i: u64) -> bool {
    exists|k: int| 0 <= k < j && #[trigger] vpn_spec(page_of(va, k), 2) == i
}

/// One of the first `j` pages of the mapping at `va` selects root entry `i` and level-1 entry `i1`.
pub open spec fn v21_seen(va: u64, j: int, i: u64, i1: u64) -> bool {
    exists|k: int|
        0 <= k < j && #[trigger] vpn_spec(page_of(va, k), 2) == i && vpn_spec(page_of(va, k), 1) == i1
}

/// One of the first `j` pages of the mapping at `va` selects the leaf `(i, i1, i0)`.
pub open spec fn key_seen(va: u64, j: int, i: u64, i1: u64, i0: u64) -> bool {
    exists|k: int|
        0 <= k < j && #[trigger] vpn_spec(page_of(va, k), 2) == i && vpn_spec(page_of(va, k), 1) == i1
            && vpn_spec(page_of(va, k), 0) == i0
}

/// Page `j` of the mapping at `va` needs a new level-1 table, where `rv` tells which root
/// entries were valid before the mapping began.
pub open spec fn needs_l1(rv: spec_fn(u64) -> bool, va: u64, j: int) -> bool {
    let p = page_of(va, j);
    !rv(vpn_spec(p, 2)) && !v2_seen(va, j, vpn_spec(p, 2))
}

/// Page `j` of the mapping at `va` needs a new level-0 table, where `pv` tells which
/// level-1 paths were valid before the mapping began.
pub open spec fn needs_l0(pv: spec_fn(u64, u64) -> bool, va: u64, j: int) -> bool {
    let p = page_of(va, j);
    !pv(vpn_spec(p, 2), vpn_spec(p, 1)) && !v21_seen(va, j, vpn_spec(p, 2), vpn_spec(p, 1))
}

/// Number of tables that mapping the first `j` pages at `va` takes from the allocator,
/// where `rv` and `pv` tell which root entries and level-1 paths were valid before.
pub open spec fn tables_needed_from(
    rv: spec_fn(u64) -> bool,
    pv: spec_fn(u64, u64) -> bool,
    va: u64,
    j: nat,
) -> nat
    decreases j,
{
    if j == 0 {
        0
    } else {
        tables_needed_from(rv, pv, va, (j - 1) as nat) + (if needs_l1(rv, va, j - 1) {
            1nat
        } else {
            0nat
        }) + (if needs_l0(pv, va, j - 1) {
            1nat
        } else {
            0nat
        })
    }
}

/// Which root entries of the table at `root` are valid.
pub open spec fn valid_roots(mem: &PhysicalMemory, root: u64) -> spec_fn(u64) -> bool {
    |i: u64| root_valid(mem, root, i)
}

/// Which level-1 paths of the table at `root` are valid.
pub open spec fn valid_paths(mem: &PhysicalMemory, root: u64) -> spec_fn(u64, u64) -> bool {
    |i: u64, i1: u64| path_valid(mem, root, i, i1)
}

/// Number of tables that mapping the first `j` pages at `va` takes from the allocator,
/// starting from the table in `mem`.
pub open spec fn tables_needed(mem: &PhysicalMemory, root: u64, va: u64, j: nat) -> nat {
    tables_needed_from(valid_roots(mem, root), valid_paths(mem, root), va, j)
}

/// Mapping more pages never needs fewer tables.
pub proof fn lemma_tables_needed_monotone(
    rv: spec_fn(u64) -> bool,
    pv: spec_fn(u64, u64) -> bool,
    va: u64,
    j: nat,
    n: nat,
)
    requires
        j <= n,
    ensures
        tables_needed_from(rv, pv, va, j) <= tables_needed_from(rv, pv, va, n),
    decreases n,
{
    if j < n {
        lemma_tables_needed_monotone(rv, pv, va, j, (n - 1) as nat);
    }
}

/// The count depends only on what `rv` and `pv` say of real table indices.
pub proof fn lemma_tables_needed_ext(
    rv1: spec_fn(u64) -> bool,
    pv1: spec_fn(u64, u64) -> bool,
    rv2: spec_fn(u64) -> bool,
    pv2: spec_fn(u64, u64) -> bool,
    va: u64,
    j: nat,
)
    requires
        forall|i: u64| i < ENTRIES_PER_TABLE ==> #[trigger] rv1(i) == rv2(i),
        forall|i: u64, i1: u64|
            i < ENTRIES_PER_TABLE && i1 < ENTRIES_PER_TABLE ==> #[trigger] pv1(i, i1) == pv2(i, i1),
    ensures
        tables_needed_from(rv1, pv1, va, j) == tables_needed_from(rv2, pv2, va, j),
    decreases j,
{
    if j > 0 {
        lemma_tables_needed_ext(rv1, pv1, rv2, pv2, va, (j - 1) as nat);
        lemma_vpn_bounds(page_of(va, j - 1));
    }
}

/// Adding page `j` to the pages seen so far.
pub proof fn lemma_seen_step(va: u64, j: int)
    requires
        0 <= j,
    ensures
        forall|i: u64|
            #![trigger v2_seen(va, j + 1, i)]
            v2_seen(va, j + 1, i) == (v2_seen(va, j, i) || vpn_spec(page_of(va, j), 2) == i),
        forall|i: u64, i1: u64|
            #![trigger v21_seen(va, j + 1, i, i1)]
            v21_seen(va, j + 1, i, i1) == (v21_seen(va, j, i, i1) || (vpn_spec(page_of(va, j), 2)
                == i && vpn_spec(page_of(va, j), 1) == i1)),
        forall|i: u64, i1: u64, i0: u64|
            #![trigger key_seen(va, j + 1, i, i1, i0)]
            key_seen(va, j + 1, i, i1, i0) == (key_seen(va, j, i, i1, i0) || (vpn_spec(
                page_of(va, j),
                2,
            ) == i && vpn_spec(page_of(va, j), 1) == i1 && vpn_spec(page_of(va, j), 0) == i0)),
{
    assert forall|i: u64|
        #![trigger v2_seen(va, j + 1, i)]
        v2_seen(va, j + 1, i) == (v2_seen(va, j, i) || vpn_spec(page_of(va, j), 2) == i) by {
        if v2_seen(va, j + 1, i) {
            let k = choose|k: int| 0 <= k < j + 1 && #[trigger] vpn_spec(page_of(va, k), 2) == i;
            if k < j {
                assert(v2_seen(va, j, i));
            }
        }
        if vpn_spec(page_of(va, j), 2) == i {
            assert(v2_seen(va, j + 1, i));
        }
        if v2_seen(va, j, i) {
            let k = choose|k: int| 0 <= k < j && #[trigger] vpn_spec(page_of(va, k), 2) == i;
            assert(v2_seen(va, j + 1, i));
        }
    }
    assert forall|i: u64, i1: u64|
        #![trigger v21_seen(va, j + 1, i, i1)]
        v21_seen(va, j + 1, i, i1) == (v21_seen(va, j, i, i1) || (vpn_spec(page_of(va, j), 2) == i
            && vpn_spec(page_of(va, j), 1) == i1)) by {
        if v21_seen(va, j + 1, i, i1) {
            let k = choose|k: int|
                0 <= k < j + 1 && #[trigger] vpn_spec(page_of(va, k), 2) == i && vpn_spec(
                    page_of(va, k),
                    1,
                ) == i1;
            if k < j {
                assert(v21_seen(va, j, i, i1));
            }
        }
        if vpn_spec(page_of(va, j), 2) == i && vpn_spec(page_of(va, j), 1) == i1 {
            assert(v21_seen(va, j + 1, i, i1));
        }
        if v21_seen(va, j, i, i1) {
            let k = choose|k: int|
                0 <= k < j && #[trigger] vpn_spec(page_of(va, k), 2) == i && vpn_spec(
                    page_of(va, k),
                    1,
                ) == i1;
            assert(v21_seen(va, j + 1, i, i1));
        }
    }
    assert forall|i: u64, i1: u64, i0: u64|
        #![trigger key_seen(va, j + 1, i, i1, i0)]
        key_seen(va, j + 1, i, i1, i0) == (key_seen(va, j, i, i1, i0) || (vpn_spec(
            page_of(va, j),
            2,
        ) == i && vpn_spec(page_of(va, j), 1) == i1 && vpn_spec(page_of(va, j), 0) == i0)) by {
        if key_seen(va, j + 1, i, i1, i0) {
            let k = choose|k: int|
                0 <= k < j + 1 && #[trigger] vpn_spec(page_of(va, k), 2) == i && vpn_spec(
                    page_of(va, k),
                    1,
                ) == i1 && vpn_spec(page_of(va, k), 0) == i0;
            if k < j {
                assert(key_seen(va, j, i, i1, i0));
            }
        }
        if vpn_spec(page_of(va, j), 2) == i && vpn_spec(page_of(va, j), 1) == i1 && vpn_spec(
            page_of(va, j),
            0,
        ) == i0 {
            assert(key_seen(va, j + 1, i, i1, i0));
        }
        if key_seen(va, j, i, i1, i0) {
            let k = choose|k: int|
                0 <= k < j && #[trigger] vpn_spec(page_of(va, k), 2) == i && vpn_spec(
                    page_of(va, k),
                    1,
                ) == i1 && vpn_spec(page_of(va, k), 0) == i0;
            assert(key_seen(va, j + 1, i, i1, i0));
        }
    }
}

/// Two different pages of one mapping of at most `MAX_PAGES_PER_MAPPING` pages select
/// different leaf entries.
pub proof fn lemma_page_keys_distinct(va: u64, j: int, k: int)
    requires
        0 <= k < j < MAX_PAGES_PER_MAPPING,
        round_down_spec(va as int) + PAGE_SIZE * j <= u64::MAX,
    ensures
        !(vpn_spec(page_of(va, k), 2) == vpn_spec(page_of(va, j), 2) && vpn_spec(page_of(va, k), 1)
            == vpn_spec(page_of(va, j), 1) && vpn_spec(page_of(va, k), 0) == vpn_spec(
            page_of(va, j),
            0,
        )),
{
    let p = page_of(va, k);
    let q = page_of(va, j);
    assert(((p >> 30u64) & 0x1FF == (q >> 30u64) & 0x1FF && (p >> 21u64) & 0x1FF == (q >> 21u64)
        & 0x1FF && (p >> 12u64) & 0x1FF == (q >> 12u64) & 0x1FF) ==> (p >> 12u64) & 0x7FF_FFFF == (
    q >> 12u64) & 0x7FF_FFFF) by (bit_vector);
    assert(p >> 12u64 == p / 4096) by (bit_vector);
    assert(q >> 12u64 == q / 4096) by (bit_vector);
    assert((p >> 12u64) & 0x7FF_FFFF == (p >> 12u64) % 0x800_0000) by (bit_vector);
    assert((q >> 12u64) & 0x7FF_FFFF == (q >> 12u64) % 0x800_0000) by (bit_vector);
    let r = round_down_spec(va as int);
    assert(r % 4096 == 0);
    assert(q / 4096 == p / 4096 + (j - k));
}

/// The first `j` pages of the mapping at `va` hold the entries that map them to `pa0` onwards.
#[verifier::opaque]
pub open spec fn maps_prefix(
    mem: &PhysicalMemory,
    root: u64,
    va: u64,
    pa0: u64,
    perms: Seq<PageTableEntryField>,
    j: int,
) -> bool {
    forall|k: int|
        0 <= k < j ==> #[trigger] leaf_of(mem, root, page_of(va, k)) == mapped_entry(pa0, k, perms)
}

/// Every leaf that none of the first `j` pages of the mapping at `va` selects is as in `m0`.
#[verifier::opaque]
pub open spec fn leaves_kept(mem: &PhysicalMemory, m0: &PhysicalMemory, root: u64, va: u64, j: int) -> bool {
    forall|i: u64, i1: u64, i0: u64|
        #![trigger leaf(mem, root, i, i1, i0)]
        i < ENTRIES_PER_TABLE && i1 < ENTRIES_PER_TABLE && i0 < ENTRIES_PER_TABLE && !key_seen(
            va,
            j,
            i,
            i1,
            i0,
        ) ==> leaf(mem, root, i, i1, i0) == leaf(m0, root, i, i1, i0)
}

/// The valid root entries are those of `m0` and those the first `j` pages select.
#[verifier::opaque]
pub open spec fn roots_grown(mem: &PhysicalMemory, m0: &PhysicalMemory, root: u64, va: u64, j: int) -> bool {
    forall|i: u64|
        #![trigger root_valid(mem, root, i)]
        i < ENTRIES_PER_TABLE ==> root_valid(mem, root, i) == (root_valid(m0, root, i) || v2_seen(
            va,
            j,
            i,
        ))
}

/// The valid level-1 paths are those of `m0` and those the first `j` pages select.
#[verifier::opaque]
pub open spec fn paths_grown(mem: &PhysicalMemory, m0: &PhysicalMemory, root: u64, va: u64, j: int) -> bool {
    forall|i: u64, i1: u64|
        #![trigger path_valid(mem, root, i, i1)]
        i < ENTRIES_PER_TABLE && i1 < ENTRIES_PER_TABLE ==> path_valid(mem, root, i, i1) == (
        path_valid(m0, root, i, i1) || v21_seen(va, j, i, i1))
}

/// Before page `j` of a mapping is walked: the tables the walk takes are those that
/// `tables_needed` counts for that page, and the leaf of the page is still as in `m0`.
proof fn lemma_map_step_before(
    m0: &PhysicalMemory,
    mb: &PhysicalMemory,
    root: u64,
    va: u64,
    j: int,
    n: int,
)
    requires
        0 <= j < n <= MAX_PAGES_PER_MAPPING,
        round_down_spec(va as int) + PAGE_SIZE * n <= u64::MAX,
        leaves_kept(mb, m0, root, va, j),
        roots_grown(mb, m0, root, va, j),
        paths_grown(mb, m0, root, va, j),
    ensures
        tables_needed(m0, root, va, (j + 1) as nat) == tables_needed(m0, root, va, j as nat)
            + walk_needed(mb, root, page_of(va, j)),
        leaf_of(mb, root, page_of(va, j)) == leaf_of(m0, root, page_of(va, j)),
{
    reveal(leaves_kept);
    reveal(roots_grown);
    reveal(paths_grown);
    let p = page_of(va, j);
    let v2 = vpn_spec(p, 2);
    let v1 = vpn_spec(p, 1);
    let v0 = vpn_spec(p, 0);
    lemma_vpn_bounds(p);
    assert(root_valid(mb, root, v2) == (root_valid(m0, root, v2) || v2_seen(va, j, v2)));
    assert(path_valid(mb, root, v2, v1) == (path_valid(m0, root, v2, v1) || v21_seen(va, j, v2, v1)));
    assert(!key_seen(va, j, v2, v1, v0)) by {
        if key_seen(va, j, v2, v1, v0) {
            let k = choose|k: int|
                0 <= k < j && #[trigger] vpn_spec(page_of(va, k), 2) == v2 && vpn_spec(
                    page_of(va, k),
                    1,
                ) == v1 && vpn_spec(page_of(va, k), 0) == v0;
            lemma_page_keys_distinct(va, j, k);
        }
    }
    assert(leaf(mb, root, v2, v1, v0) == leaf(m0, root, v2, v1, v0));
}

/// After page `j` of a mapping has been walked and its leaf written with `value`, the
/// facts about the first `j` pages hold of the first `j + 1`.
proof fn lemma_map_step_after(
    m0: &PhysicalMemory,
    mb: &PhysicalMemory,
    m1: &PhysicalMemory,
    m2: &PhysicalMemory,
    root: u64,
    va: u64,
    pa0: u64,
    perms: Seq<PageTableEntryField>,
    j: int,
    n: int,
    value: u64,
)
    requires
        0 <= j < n <= MAX_PAGES_PER_MAPPING,
        round_down_spec(va as int) + PAGE_SIZE * n <= u64::MAX,
        value == mapped_entry(pa0, j, perms),
        maps_prefix(mb, root, va, pa0, perms, j),
        leaves_kept(mb, m0, root, va, j),
        roots_grown(mb, m0, root, va, j),
        paths_grown(mb, m0, root, va, j),
        forall|i: u64, i1: u64, i0: u64|
            #![trigger leaf(m1, root, i, i1, i0)]
            i < ENTRIES_PER_TABLE && i1 < ENTRIES_PER_TABLE && i0 < ENTRIES_PER_TABLE ==> leaf(
                m1,
                root,
                i,
                i1,
                i0,
            ) == leaf(mb, root, i, i1, i0),
        forall|i: u64|
            #![trigger root_valid(m1, root, i)]
            i < ENTRIES_PER_TABLE ==> root_valid(m1, root, i) == (root_valid(mb, root, i) || i
                == vpn_spec(page_of(va, j), 2)),
        forall|i: u64, i1: u64|
            #![trigger path_valid(m1, root, i, i1)]
            i < ENTRIES_PER_TABLE && i1 < ENTRIES_PER_TABLE ==> path_valid(m1, root, i, i1) == (
            path_valid(mb, root, i, i1) || (i == vpn_spec(page_of(va, j), 2) && i1 == vpn_spec(
                page_of(va, j),
                1,
            ))),
        forall|i: u64|
            #![trigger root_valid(m2, root, i)]
            i < ENTRIES_PER_TABLE ==> root_valid(m2, root, i) == root_valid(m1, root, i),
        forall|i: u64, i1: u64|
            #![trigger path_valid(m2, root, i, i1)]
            i < ENTRIES_PER_TABLE && i1 < ENTRIES_PER_TABLE ==> path_valid(m2, root, i, i1)
                == path_valid(m1, root, i, i1),
        forall|i: u64, i1: u64, i0: u64|
            #![trigger leaf(m2, root, i, i1, i0)]
            i < ENTRIES_PER_TABLE && i1 < ENTRIES_PER_TABLE && i0 < ENTRIES_PER_TABLE ==> leaf(
                m2,
                root,
                i,
                i1,
                i0,
            ) == if i == vpn_spec(page_of(va, j), 2) && i1 == vpn_spec(page_of(va, j), 1) && i0
                == vpn_spec(page_of(va, j), 0) {
                value
            } else {
                leaf(m1, root, i, i1, i0)
            },
    ensures
        maps_prefix(m2, root, va, pa0, perms, j + 1),
        leaves_kept(m2, m0, root, va, j + 1),
        roots_grown(m2, m0, root, va, j + 1),
        paths_grown(m2, m0, root, va, j + 1),
{
    reveal(maps_prefix);
    reveal(leaves_kept);
    reveal(roots_grown);
    reveal(paths_grown);
    lemma_seen_step(va, j);
    lemma_vpn_bounds(page_of(va, j));
    assert forall|k: int| 0 <= k < j + 1 implies #[trigger] leaf_of(m2, root, page_of(va, k))
        == mapped_entry(pa0, k, perms) by {
        lemma_vpn_bounds(page_of(va, k));
        if k < j {
            lemma_page_keys_distinct(va, j, k);
            assert(leaf_of(mb, root, page_of(va, k)) == mapped_entry(pa0, k, perms));
        }
    }
    assert forall|i: u64, i1: u64, i0: u64|
        #![trigger leaf(m2, root, i, i1, i0)]
        i < ENTRIES_PER_TABLE && i1 < ENTRIES_PER_TABLE && i0 < ENTRIES_PER_TABLE && !key_seen(
            va,
            j + 1,
            i,
            i1,
            i0,
        ) implies leaf(m2, root, i, i1, i0) == leaf(m0, root, i, i1, i0) by {
        assert(!key_seen(va, j, i, i1, i0));
        assert(leaf(m1, root, i, i1, i0) == leaf(mb, root, i, i1, i0));
    }
    assert forall|i: u64| #![trigger root_valid(m2, root, i)] i < ENTRIES_PER_TABLE implies root_valid(
        m2,
        root,
        i,
    ) == (root_valid(m0, root, i) || v2_seen(va, j + 1, i)) by {
        assert(root_valid(mb, root, i) == (root_valid(m0, root, i) || v2_seen(va, j, i)));
    }
    assert forall|i: u64, i1: u64|
        #![trigger path_valid(m2, root, i, i1)]
        i < ENTRIES_PER_TABLE && i1 < ENTRIES_PER_TABLE implies path_valid(m2, root, i, i1) == (
        path_valid(m0, root, i, i1) || v21_seen(va, j + 1, i, i1)) by {
        assert(path_valid(mb, root, i, i1) == (path_valid(m0, root, i, i1) || v21_seen(
            va,
            j,
            i,
            i1,
        )));
    }
}

impl PageTable {
    /// Maps the pages that `[virtual_address, virtual_address + size)` touches, one after
    /// another, to consecutive physical pages from the page of `physical_address`, with the
    /// valid bit and `permissions` set. Missing tables are taken from the allocator.
    pub fn map_pages(
        &mut self,
        mem: &mut PhysicalMemory,
        alloc: &mut KernelPageAllocator,
        virtual_address: Address,
        physical_address: Address,
        size: u64,
        permissions: &[PageTableEntryField],
    )
        requires
            old(self).wf(old(mem), old(alloc)),
            size > 0,
            virtual_address.0 + (size - 1) <= u64::MAX,
            round_down_spec(virtual_address.0 + size - 1) + PAGE_SIZE <= u64::MAX,
            pages_to_map(virtual_address.0, size) <= MAX_PAGES_PER_MAPPING,
            physical_address.0 + PAGE_SIZE * pages_to_map(virtual_address.0, size) <= u64::MAX,
            forall|k: int|
                0 <= k < pages_to_map(virtual_address.0, size) ==> !pte_valid(
                    #[trigger] leaf_of(old(mem), old(self).root(), page_of(virtual_address.0, k)),
                ),
            old(alloc).free_pages().len() >= tables_needed(
                old(mem),
                old(self).root(),
                virtual_address.0,
                pages_to_map(virtual_address.0, size) as nat,
            ),
        ensures
            links_only(final(mem), old(self).root()),
            uppers_kept(old(mem), final(mem), old(self).root()),
            changes_within(old(mem), final(mem), final(self).tables()),
            grown_from(old(self).tables(), final(self).tables(), old(alloc).free_pages(), final(alloc).free_pages()),
            final(self).wf(final(mem), final(alloc)),
            final(self).root() == old(self).root(),
            final(alloc).free_pages() == old(alloc).free_pages().skip(
                tables_needed(
                    old(mem),
                    old(self).root(),
                    virtual_address.0,
                    pages_to_map(virtual_address.0, size) as nat,
                ) as int,
            ),
            maps_prefix(
                final(mem),
                old(self).root(),
                virtual_address.0,
                physical_address.0,
                permissions@,
                pages_to_map(virtual_address.0, size),
            ),
            leaves_kept(
                final(mem),
                old(mem),
                old(self).root(),
                virtual_address.0,
                pages_to_map(virtual_address.0, size),
            ),
            roots_grown(
                final(mem),
                old(mem),
                old(self).root(),
                virtual_address.0,
                pages_to_map(virtual_address.0, size),
            ),
            paths_grown(
                final(mem),
                old(mem),
                old(self).root(),
                virtual_address.0,
                pages_to_map(virtual_address.0, size),
            ),
            forall|a: u64|
                #![trigger leaf_of(final(mem), old(self).root(), a)]
                virtual_address.0 <= a < virtual_address.0 + size ==> leaf_of(
                    final(mem),
                    old(self).root(),
                    a,
                ) == mapped_entry(physical_address.0, page_index(virtual_address.0, a), permissions@),
    {
        let ghost m0 = *old(mem);
        let ghost a0 = *old(alloc);
        let ghost pt0 = *old(self);
        let ghost root = self.root;
        let ghost va = virtual_address.0;
        let ghost pa0 = physical_address.0;
        let ghost n = pages_to_map(va, size);
        let mut current_page = virtual_address.round_down_to_page_boundary();
        let mut pa = physical_address;
        let last_page = virtual_address.add(size - 1).round_down_to_page_boundary();
        let ghost mut j: int = 0;
        proof {
            let rd = round_down_spec(va as int);
            let rl = round_down_spec(va + size - 1);
            assert((rl - rd) % 4096 == 0);
            assert(rl == rd + 4096 * (n - 1));
            assert(a0.free_pages().skip(0) =~= a0.free_pages());
            assert(changes_within(&m0, &m0, pt0.tables()));
            lemma_uppers_kept_refl(&m0, root);
            reveal(maps_prefix);
            reveal(leaves_kept);
            reveal(roots_grown);
            reveal(paths_grown);
            assert forall|i: u64| !v2_seen(va, 0, i) by {}
            assert forall|i: u64, i1: u64| !v21_seen(va, 0, i, i1) by {}
            assert forall|i: u64, i1: u64, i0: u64| !key_seen(va, 0, i, i1, i0) by {}
        }
        while current_page.get() <= last_page.get()
            invariant
                self.wf(mem, alloc),
                self.root() == root,
                root == old(self).root(),
                m0 == *old(mem),
                a0 == *old(alloc),
                va == virtual_address.0,
                pa0 == physical_address.0,
                n == pages_to_map(va, size),
                1 <= n <= MAX_PAGES_PER_MAPPING,
                0 <= j <= n,
                current_page.0 == round_down_spec(va as int) + PAGE_SIZE * j,
                last_page.0 == round_down_spec(va as int) + PAGE_SIZE * (n - 1),
                round_down_spec(va as int) + PAGE_SIZE * n <= u64::MAX,
                pa.0 == pa0 + PAGE_SIZE * j,
                pa0 + PAGE_SIZE * n <= u64::MAX,
                alloc.free_pages() == a0.free_pages().skip(tables_needed(&m0, root, va, j as nat) as int),
                a0.free_pages().len() >= tables_needed(&m0, root, va, n as nat),
                forall|k: int|
                    0 <= k < n ==> !pte_valid(#[trigger] leaf_of(&m0, root, page_of(va, k))),
                maps_prefix(mem, root, va, pa0, permissions@, j),
                leaves_kept(mem, &m0, root, va, j),
                roots_grown(mem, &m0, root, va, j),
                paths_grown(mem, &m0, root, va, j),
                pt0 == *old(self),
                changes_within(&m0, mem, self.tables()),
                grown_from(pt0.tables(), self.tables(), a0.free_pages(), alloc.free_pages()),
                uppers_kept(&m0, mem, root),
            decreases n - j,
        {
            let ghost mb = *mem;
            let ghost ab = *alloc;
            let ghost ptb = *self;
            let ghost p = current_page.0;
            proof {
                assert(p == page_of(va, j));
                lemma_map_step_before(&m0, &mb, root, va, j, n);
                lemma_tables_needed_monotone(valid_roots(&m0, root), valid_paths(&m0, root), va, (j + 1) as nat, n as nat);
                assert(a0.free_pages().skip(tables_needed(&m0, root, va, j as nat) as int).skip(
                    walk_needed(&mb, root, p) as int,
                ) =~= a0.free_pages().skip(tables_needed(&m0, root, va, (j + 1) as nat) as int));
            }
            let pte = self.walk(mem, alloc, current_page, true).unwrap();
            let ghost m1 = *mem;
            let ghost pt1 = *self;
            proof {
                self.lemma_leaf_address(&m1, alloc, p);
                lemma_vpn_bounds(p);
                assert(leaf_of(&m1, root, p) == leaf_of(&mb, root, p));
            }
            let entry = PageTableEntry { entry: mem.read(pte) };
            assert(!pte_valid(entry.entry));
            let mut new_entry = entry;
            new_entry.set_from_physical_address(pa);
            new_entry.set_valid();
            new_entry.set_permissions(permissions);
            mem.write(pte, new_entry.entry);
            proof {
                pt1.lemma_write_leaf(&m1, alloc, mem, p, new_entry.entry);
                lemma_uppers_kept_compose(&mb, &m1, mem, root);
                lemma_uppers_kept_compose(&m0, &mb, mem, root);
                lemma_changes_compose(&mb, &m1, mem, pt1.tables(), pt1.tables());
                lemma_changes_compose(&m0, &mb, mem, ptb.tables(), pt1.tables());
                lemma_skip_subset(a0.free_pages(), tables_needed(&m0, root, va, j as nat) as int);
                lemma_skip_subset(ab.free_pages(), walk_needed(&mb, root, p) as int);
                lemma_grown_compose(pt0.tables(), ptb.tables(), pt1.tables(), a0.free_pages(), ab.free_pages(), alloc.free_pages());
                lemma_map_step_after(
                    &m0,
                    &mb,
                    &m1,
                    mem,
                    root,
                    va,
                    pa0,
                    permissions@,
                    j,
                    n,
                    new_entry.entry,
                );
            }
            current_page = current_page.add(PAGE_SIZE);
            pa = pa.add(PAGE_SIZE);
            proof {
                j = j + 1;
            }
        }
        proof {
            self.lemma_wf_links(mem, alloc);
            lemma_mapping_covers_range(mem, root, va, pa0, permissions@, size);
        }
    }

    /// A well-formed table holds only plain links in its upper levels.
    pub proof fn lemma_wf_links(&self, mem: &PhysicalMemory, alloc: &KernelPageAllocator)
        requires
            self.wf(mem, alloc),
        ensures
            links_only(mem, self.root()),
    {
        reveal(PageTable::wf);
    }

    /// Where both upper entries for `va` are valid, the leaf entry for `va` is the word at
    /// `leaf_address`.
    proof fn lemma_leaf_address(&self, m0: &PhysicalMemory, a0: &KernelPageAllocator, va: u64)
        requires
            self.wf(m0, a0),
            path_valid(m0, self.root, vpn_spec(va, 2), vpn_spec(va, 1)),
        ensures
            m0.wf(),
            m0.has_page(l0_table(m0, self.root, vpn_spec(va, 2), vpn_spec(va, 1)) as int),
            m0.has_word(leaf_address(m0, self.root, va) as int),
            leaf_of(m0, self.root, va) == m0.word(leaf_address(m0, self.root, va) as int),
    {
        reveal(PageTable::wf);
        lemma_vpn_bounds(va);
        a0.lemma_page_facts(m0);
        let u = l0_table(m0, self.root, vpn_spec(va, 2), vpn_spec(va, 1));
        assert(self.l1_tables@.contains(l1_table(m0, self.root, vpn_spec(va, 2))));
        assert(self.l0_tables@.contains(u));
        lemma_page_indices(m0, u as int);
    }
}

/// Storing an address in an entry and reading it back gives the page boundary at or below
/// the address, whatever flag bits are set on the entry.
pub proof fn lemma_pte_address_roundtrip(address: u64, flags: u64)
    requires
        flags < 1024,
    ensures
        pte_target(pte_for_address(address) | flags) == round_down_spec(address as int),
        pte_valid(pte_for_address(address) | flags) == (flags % 2 == 1),
{
    assert(flags < 1024 ==> (((((address >> 12u64) << 10u64) | flags) >> 10u64) << 12u64)
        == address - address % 4096) by (bit_vector);
    assert(flags < 1024 ==> ((((address >> 12u64) << 10u64) | flags) & 1 == 1) == (flags % 2 == 1))
        by (bit_vector);
}

/// The or of permission bits stays within the four flag bits.
pub proof fn lemma_permission_mask_bound(perms: Seq<PageTableEntryField>)
    ensures
        permission_mask(perms) < 16,
    decreases perms.len(),
{
    if perms.len() > 0 {
        lemma_permission_mask_bound(perms.drop_last());
        let a = permission_mask(perms.drop_last());
        let b = field_bit(perms.last());
        assert(a < 16 && b <= 3 ==> a | (1u64 << b) < 16) by (bit_vector);
    }
}

/// The permission mask of `perms` has exactly the bits of the fields that `perms` names:
/// bit 0 for `Valid`, bit 1 for `Read`, bit 2 for `Write`, bit 3 for `Execute`, and no other.
pub proof fn lemma_permission_mask_bits(perms: Seq<PageTableEntryField>)
    ensures
        permission_mask(perms) < 16,
        (permission_mask(perms) & 1 == 1) == perms.contains(PageTableEntryField::Valid),
        (permission_mask(perms) & 2 == 2) == perms.contains(PageTableEntryField::Read),
        (permission_mask(perms) & 4 == 4) == perms.contains(PageTableEntryField::Write),
        (permission_mask(perms) & 8 == 8) == perms.contains(PageTableEntryField::Execute),
    decreases perms.len(),
{
    if perms.len() == 0 {
        assert((0u64 & 1) != 1 && (0u64 & 2) != 2 && (0u64 & 4) != 4 && (0u64 & 8) != 8) by (bit_vector);
    } else {
        let q = perms.drop_last();
        let f = perms.last();
        lemma_permission_mask_bits(q);
        let m = permission_mask(q);
        let b = field_bit(f);
        assert(m < 16 && b < 4 ==> {
            let x = m | (1u64 << b);
            &&& x < 16
            &&& (x & 1 == 1) == ((m & 1 == 1) || b == 0)
            &&& (x & 2 == 2) == ((m & 2 == 2) || b == 1)
            &&& (x & 4 == 4) == ((m & 4 == 4) || b == 2)
            &&& (x & 8 == 8) == ((m & 8 == 8) || b == 3)
        }) by (bit_vector);
        assert forall|g: PageTableEntryField| perms.contains(g) == (q.contains(g) || f == g) by {
            if perms.contains(g) {
                let i = choose|i: int| 0 <= i < perms.len() && perms[i] == g;
                if i < q.len() {
                    assert(q[i] == g);
                }
            }
            if q.contains(g) {
                let i = choose|i: int| 0 <= i < q.len() && q[i] == g;
                assert(perms[i] == g);
            }
            if f == g {
                assert(perms[perms.len() - 1] == g);
            }
        }
    }
}

/// A mapped page resolves: walking it without allocating succeeds, its leaf is valid,
/// names the page of `pa + k * PAGE_SIZE` and carries the valid bit and the permissions.
pub proof fn lemma_mapped_page_resolves(
    mem: &PhysicalMemory,
    root: u64,
    va: u64,
    pa: u64,
    perms: Seq<PageTableEntryField>,
    n: int,
    k: int,
)
    requires
        maps_prefix(mem, root, va, pa, perms, n),
        0 <= k < n,
        pa + PAGE_SIZE * k <= u64::MAX,
    ensures
        path_valid(mem, root, vpn_spec(page_of(va, k), 2), vpn_spec(page_of(va, k), 1)),
        pte_valid(leaf_of(mem, root, page_of(va, k))),
        pte_target(leaf_of(mem, root, page_of(va, k))) == round_down_spec(pa + PAGE_SIZE * k),
        leaf_of(mem, root, page_of(va, k)) & 0xF == permission_mask(perms) | 1,
{
    reveal(maps_prefix);
    let e = leaf_of(mem, root, page_of(va, k));
    let x = (pa + PAGE_SIZE * k) as u64;
    let m = permission_mask(perms);
    lemma_permission_mask_bound(perms);
    assert(e == (pte_for_address(x) | 1) | m);
    assert(m < 16 ==> (((((x >> 12u64) << 10u64) | 1) | m) & 1) == 1) by (bit_vector);
    assert(m < 16 ==> (((((((x >> 12u64) << 10u64) | 1) | m) >> 10u64) << 12u64) == x - x % 4096))
        by (bit_vector);
    assert(m < 16 ==> (((((x >> 12u64) << 10u64) | 1) | m) & 0xF) == m | 1) by (bit_vector);
    assert(!pte_valid(0)) by (bit_vector);
}

/// After an identity mapping of `size` bytes at `va`, every byte `a` of `[va, va + size)`
/// has a valid leaf that names the page of `a`, with the valid bit and `perms` set.
pub proof fn lemma_identity_leaf(
    mem: &PhysicalMemory,
    root: u64,
    va: u64,
    size: u64,
    perms: Seq<PageTableEntryField>,
    a: u64,
)
    requires
        identity_mappable(va, size),
        maps_prefix(mem, root, va, va, perms, pages_to_map(va, size)),
        va <= a < va + size,
    ensures
        pte_valid(leaf_of(mem, root, a)),
        pte_target(leaf_of(mem, root, a)) == round_down_spec(a as int),
        leaf_of(mem, root, a) & 0xF == permission_mask(perms) | 1,
{
    let n = pages_to_map(va, size);
    lemma_page_of_address(va, size, a);
    lemma_vpn_of_page_start(a);
    let k = page_index(va, a);
    assert(va + PAGE_SIZE * k <= u64::MAX) by (nonlinear_arith)
        requires
            0 <= k < n,
            va + PAGE_SIZE * n <= u64::MAX,
    ;
    lemma_mapped_page_resolves(mem, root, va, va, perms, n, k);
    assert((va + 4096 * k) % 4096 == va % 4096) by (nonlinear_arith)
        requires
            k >= 0,
    ;
}

/// The leaf flags of the kernel's code pages: valid, readable and executable.
pub proof fn lemma_text_flags()
    ensures
        permission_mask(text_permissions()) | 1 == 0b1011,
{
    let p = text_permissions();
    let r = seq![PageTableEntryField::Read];
    assert(p.drop_last() =~= r);
    assert(r.drop_last() =~= Seq::<PageTableEntryField>::empty());
    assert(permission_mask(r.drop_last()) == 0);
    assert(permission_mask(r) == 0u64 | (1u64 << 1u64));
    assert(permission_mask(p) == (0u64 | (1u64 << 1u64)) | (1u64 << 3u64));
    assert(((0u64 | (1u64 << 1u64)) | (1u64 << 3u64)) | 1 == 0b1011) by (bit_vector);
}

/// The leaf flags of the kernel's data pages: valid, readable and writable.
pub proof fn lemma_data_flags()
    ensures
        permission_mask(data_permissions()) | 1 == 0b0111,
{
    let p = data_permissions();
    let r = seq![PageTableEntryField::Read];
    assert(p.drop_last() =~= r);
    assert(r.drop_last() =~= Seq::<PageTableEntryField>::empty());
    assert(permission_mask(r.drop_last()) == 0);
    assert(permission_mask(r) == 0u64 | (1u64 << 1u64));
    assert(permission_mask(p) == (0u64 | (1u64 << 1u64)) | (1u64 << 2u64));
    assert(((0u64 | (1u64 << 1u64)) | (1u64 << 2u64)) | 1 == 0b0111) by (bit_vector);
}

/// Permissions of the kernel's code pages.
pub open spec fn text_permissions() -> Seq<PageTableEntryField> {
    seq![PageTableEntryField::Read, PageTableEntryField::Execute]
}

/// Permissions of the kernel's data and stack pages.
pub open spec fn data_permissions() -> Seq<PageTableEntryField> {
    seq![PageTableEntryField::Read, PageTableEntryField::Write]
}

/// Number of pages of the kernel's code, from `KERNEL_BASE` to `text_end`.
pub open spec fn text_pages(text_end: u64) -> int {
    pages_to_map(KERNEL_BASE, (text_end - KERNEL_BASE) as u64)
}

/// Number of pages of the kernel's data, from `data_start` to `kernel_end`.
pub open spec fn data_pages(data_start: u64, kernel_end: u64) -> int {
    pages_to_map(data_start, (kernel_end - data_start) as u64)
}

/// Number of pages `mmu_init` takes from the allocator: the root table, the tables that
/// mapping the code into an empty table needs, and those that mapping the data needs then.
pub open spec fn kernel_tables_needed(text_end: u64, data_start: u64, kernel_end: u64) -> nat {
    let nt = text_pages(text_end);
    1 + tables_needed_from(|i: u64| false, |i: u64, i1: u64| false, KERNEL_BASE, nt as nat)
        + tables_needed_from(
        |i: u64| v2_seen(KERNEL_BASE, nt, i),
        |i: u64, i1: u64| v21_seen(KERNEL_BASE, nt, i, i1),
        data_start,
        data_pages(data_start, kernel_end) as nat,
    )
}

/// The pages of `[va, va + size)` can be mapped one to one onto the same physical
/// addresses without an address overflowing and without two pages sharing a leaf.
pub open spec fn identity_mappable(va: u64, size: u64) -> bool {
    &&& size > 0
    &&& va + (size - 1) <= u64::MAX
    &&& round_down_spec(va + size - 1) + PAGE_SIZE <= u64::MAX
    &&& pages_to_map(va, size) <= MAX_PAGES_PER_MAPPING
    &&& va + PAGE_SIZE * pages_to_map(va, size) <= u64::MAX
}

/// Every non-empty range that ends two pages short of the top of the address space and is
/// smaller than the Sv39 address space can be mapped onto itself, wherever it lies, whether or
/// not it crosses the boundary of a level-0 or level-1 table.
pub proof fn lemma_identity_mappable_in_bounds(va: u64, size: u64)
    requires
        size > 0,
        va + size + 2 * PAGE_SIZE <= u64::MAX,
        size <= (MAX_PAGES_PER_MAPPING - 1) * PAGE_SIZE,
    ensures
        identity_mappable(va, size),
{
    let rd = round_down_spec(va as int);
    let rl = round_down_spec(va + size - 1);
    let n = pages_to_map(va, size);
    assert((rl - rd) % 4096 == 0);
    assert(rl - rd <= size + 4094);
    assert(4096 * ((rl - rd) / 4096) == rl - rd) by (nonlinear_arith)
        requires
            (rl - rd) % 4096 == 0,
    ;
    assert(4096 * n == rl - rd + 4096) by (nonlinear_arith)
        requires
            n == (rl - rd) / 4096 + 1,
            4096 * ((rl - rd) / 4096) == rl - rd,
    ;
    assert(n <= MAX_PAGES_PER_MAPPING) by (nonlinear_arith)
        requires
            4096 * n <= size + 8190,
            size <= (0x800_0000 - 1) * 4096,
    ;
}

impl PageTable {
    /// The `satp` value that selects this table in Sv39 mode.
    pub fn satp(&self) -> (r: Address)
        ensures
            r.0 == (8u64 << 60u64) | (self.root() >> 12u64),
    {
        Address((8u64 << 60) | (self.root >> 12))
    }
}

/// Builds the kernel's page table: an empty root, then the code from `KERNEL_BASE` to
/// `kernel_text_end` mapped onto itself readable and executable, then the data from
/// `kernel_data_start` to `kernel_end` mapped onto itself readable and writable.
pub fn mmu_init(
    alloc: &mut KernelPageAllocator,
    mem: &mut PhysicalMemory,
    kernel_text_end: Address,
    kernel_data_start: Address,
    kernel_end: Address,
) -> (r: PageTable)
    requires
        old(alloc).wf(old(mem)),
        old(alloc).whole_pages(old(mem)),
        KERNEL_BASE < kernel_text_end.0,
        kernel_data_start.0 < kernel_end.0,
        identity_mappable(KERNEL_BASE, (kernel_text_end.0 - KERNEL_BASE) as u64),
        identity_mappable(kernel_data_start.0, (kernel_end.0 - kernel_data_start.0) as u64),
        forall|k: int|
            0 <= k < data_pages(kernel_data_start.0, kernel_end.0) ==> !key_seen(
                KERNEL_BASE,
                text_pages(kernel_text_end.0),
                vpn_spec(#[trigger] page_of(kernel_data_start.0, k), 2),
                vpn_spec(page_of(kernel_data_start.0, k), 1),
                vpn_spec(page_of(kernel_data_start.0, k), 0),
            ),
        old(alloc).free_pages().len() >= kernel_tables_needed(
            kernel_text_end.0,
            kernel_data_start.0,
            kernel_end.0,
        ),
    ensures
        links_only(final(mem), r.root()),
        changes_within(old(mem), final(mem), r.tables()),
        grown_from(Set::empty(), r.tables(), old(alloc).free_pages(), final(alloc).free_pages()),
        r.wf(final(mem), final(alloc)),
        r.root() == old(alloc).free_pages()[0],
        final(alloc).free_pages() == old(alloc).free_pages().skip(
            kernel_tables_needed(kernel_text_end.0, kernel_data_start.0, kernel_end.0) as int,
        ),
        maps_prefix(
            final(mem),
            r.root(),
            KERNEL_BASE,
            KERNEL_BASE,
            text_permissions(),
            text_pages(kernel_text_end.0),
        ),
        maps_prefix(
            final(mem),
            r.root(),
            kernel_data_start.0,
            kernel_data_start.0,
            data_permissions(),
            data_pages(kernel_data_start.0, kernel_end.0),
        ),
        forall|i: u64, i1: u64, i0: u64|
            #![trigger leaf(final(mem), r.root(), i, i1, i0)]
            i < ENTRIES_PER_TABLE && i1 < ENTRIES_PER_TABLE && i0 < ENTRIES_PER_TABLE && !key_seen(
                KERNEL_BASE,
                text_pages(kernel_text_end.0),
                i,
                i1,
                i0,
            ) && !key_seen(
                kernel_data_start.0,
                data_pages(kernel_data_start.0, kernel_end.0),
                i,
                i1,
                i0,
            ) ==> leaf(final(mem), r.root(), i, i1, i0) == 0,
        forall|a: u64|
            #![trigger leaf_of(final(mem), r.root(), a)]
            KERNEL_BASE <= a < kernel_text_end.0 ==> pte_valid(leaf_of(final(mem), r.root(), a))
                && pte_target(leaf_of(final(mem), r.root(), a)) == round_down_spec(a as int)
                && leaf_of(final(mem), r.root(), a) & 0xF == 0b1011,
        forall|a: u64|
            #![trigger leaf_of(final(mem), r.root(), a)]
            kernel_data_start.0 <= a < kernel_end.0 ==> pte_valid(leaf_of(final(mem), r.root(), a))
                && pte_target(leaf_of(final(mem), r.root(), a)) == round_down_spec(a as int)
                && leaf_of(final(mem), r.root(), a) & 0xF == 0b0111,
{
    let ghost a0 = *old(alloc);
    let ghost nt = text_pages(kernel_text_end.0);
    let ghost nd = data_pages(kernel_data_start.0, kernel_end.0);
    let ghost m0 = *old(mem);
    let mut kernel_page_table = PageTable::new(alloc, mem);
    let ghost m1 = *mem;
    let ghost a1 = *alloc;
    let ghost pt1 = kernel_page_table;
    let ghost root = kernel_page_table.root();
    proof {
        old(alloc).lemma_page_facts(&m0);
        lemma_page_indices(&m0, root as int);
        assert forall|k: int| 0 <= k < m0.words@.len() && m1.words@[k] != m0.words@[k] implies exists|t: u64|
            pt1.tables().contains(t) && #[trigger] word_in_page(&m0, k, t) by {
            assert(word_in_page(&m0, k, root));
        }
        assert(old(alloc).free_pages().contains(root));
        crate::kalloc::lemma_allocated_not_free(old(alloc), &m0, alloc);
        lemma_skip_subset(old(alloc).free_pages(), 1);
        assert(old(alloc).free_pages().skip(1) =~= old(alloc).free_pages().drop_first());
    }
    let text_permissions_v = vec![PageTableEntryField::Read, PageTableEntryField::Execute];
    let data_permissions_v = vec![PageTableEntryField::Read, PageTableEntryField::Write];
    let base = get_kernel_base();
    proof {
        let rv_text = |i: u64| false;
        let pv_text = |i: u64, i1: u64| false;
        lemma_tables_needed_ext(valid_roots(&m1, root), valid_paths(&m1, root), rv_text, pv_text, KERNEL_BASE, nt as nat);
        assert forall|k: int| 0 <= k < nt implies !pte_valid(
            #[trigger] leaf_of(&m1, root, page_of(KERNEL_BASE, k)),
        ) by {
            lemma_vpn_bounds(page_of(KERNEL_BASE, k));
            assert(!pte_valid(0)) by (bit_vector);
        }
        assert(a0.free_pages().skip(1) =~= a0.free_pages().drop_first());
        assert(text_permissions_v@ =~= text_permissions());
        assert(data_permissions_v@ =~= data_permissions());
    }
    kernel_page_table.map_pages(
        mem,
        alloc,
        base,
        base,
        kernel_text_end.sub(base),
        text_permissions_v.as_slice(),
    );
    let ghost m2 = *mem;
    let ghost a2 = *alloc;
    let ghost pt2 = kernel_page_table;
    proof {
        lemma_changes_compose(&m0, &m1, &m2, pt1.tables(), pt2.tables());
        lemma_skip_subset(a1.free_pages(), tables_needed(&m1, root, KERNEL_BASE, nt as nat) as int);
        lemma_grown_compose(Set::empty(), pt1.tables(), pt2.tables(), a0.free_pages(), a1.free_pages(), a2.free_pages());
        reveal(leaves_kept);
        reveal(roots_grown);
        reveal(paths_grown);
        let rv_data = |i: u64| v2_seen(KERNEL_BASE, nt, i);
        let pv_data = |i: u64, i1: u64| v21_seen(KERNEL_BASE, nt, i, i1);
        assert forall|i: u64| i < ENTRIES_PER_TABLE implies #[trigger] valid_roots(&m2, root)(i) == rv_data(i) by {
            assert(root_valid(&m2, root, i) == (root_valid(&m1, root, i) || v2_seen(KERNEL_BASE, nt, i)));
        }
        assert forall|i: u64, i1: u64|
            i < ENTRIES_PER_TABLE && i1 < ENTRIES_PER_TABLE implies #[trigger] valid_paths(&m2, root)(i, i1)
            == pv_data(i, i1) by {
            assert(path_valid(&m2, root, i, i1) == (path_valid(&m1, root, i, i1) || v21_seen(KERNEL_BASE, nt, i, i1)));
        }
        lemma_tables_needed_ext(valid_roots(&m2, root), valid_paths(&m2, root), rv_data, pv_data, kernel_data_start.0, nd as nat);
        assert forall|k: int| 0 <= k < nd implies !pte_valid(
            #[trigger] leaf_of(&m2, root, page_of(kernel_data_start.0, k)),
        ) by {
            lemma_vpn_bounds(page_of(kernel_data_start.0, k));
            assert(!pte_valid(0)) by (bit_vector);
        }
    }
    kernel_page_table.map_pages(
        mem,
        alloc,
        kernel_data_start,
        kernel_data_start,
        kernel_end.sub(kernel_data_start),
        data_permissions_v.as_slice(),
    );
    proof {
        lemma_changes_compose(&m0, &m2, mem, pt2.tables(), kernel_page_table.tables());
        lemma_skip_subset(a2.free_pages(), tables_needed(&m2, root, kernel_data_start.0, nd as nat) as int);
        lemma_grown_compose(Set::empty(), pt2.tables(), kernel_page_table.tables(), a0.free_pages(), a2.free_pages(), alloc.free_pages());
        reveal(maps_prefix);
        reveal(leaves_kept);
        assert forall|k: int| 0 <= k < nt implies #[trigger] leaf_of(mem, root, page_of(KERNEL_BASE, k))
            == mapped_entry(KERNEL_BASE, k, text_permissions()) by {
            let p = page_of(KERNEL_BASE, k);
            lemma_vpn_bounds(p);
            assert(leaf_of(&m2, root, p) == mapped_entry(KERNEL_BASE, k, text_permissions()));
            if key_seen(kernel_data_start.0, nd, vpn_spec(p, 2), vpn_spec(p, 1), vpn_spec(p, 0)) {
                let k2 = choose|k2: int|
                    0 <= k2 < nd && #[trigger] vpn_spec(page_of(kernel_data_start.0, k2), 2) == vpn_spec(p, 2)
                        && vpn_spec(page_of(kernel_data_start.0, k2), 1) == vpn_spec(p, 1)
                        && vpn_spec(page_of(kernel_data_start.0, k2), 0) == vpn_spec(p, 0);
                assert(key_seen(KERNEL_BASE, nt, vpn_spec(page_of(kernel_data_start.0, k2), 2),
                    vpn_spec(page_of(kernel_data_start.0, k2), 1), vpn_spec(page_of(kernel_data_start.0, k2), 0)));
            }
            assert(leaf(mem, root, vpn_spec(p, 2), vpn_spec(p, 1), vpn_spec(p, 0)) == leaf(&m2, root, vpn_spec(p, 2), vpn_spec(p, 1), vpn_spec(p, 0)));
        }
        assert(a0.free_pages().skip(1).skip(tables_needed(&m1, root, KERNEL_BASE, nt as nat) as int).skip(
            tables_needed(&m2, root, kernel_data_start.0, nd as nat) as int,
        ) =~= a0.free_pages().skip(kernel_tables_needed(kernel_text_end.0, kernel_data_start.0, kernel_end.0) as int));
    }
    proof {
        lemma_text_flags();
        lemma_data_flags();
        let text_size = (kernel_text_end.0 - KERNEL_BASE) as u64;
        let data_size = (kernel_end.0 - kernel_data_start.0) as u64;
        assert forall|a: u64|
            #![trigger leaf_of(mem, root, a)]
            KERNEL_BASE <= a < kernel_text_end.0 implies pte_valid(leaf_of(mem, root, a))
                && pte_target(leaf_of(mem, root, a)) == round_down_spec(a as int)
                && leaf_of(mem, root, a) & 0xF == 0b1011 by {
            lemma_identity_leaf(mem, root, KERNEL_BASE, text_size, text_permissions(), a);
        }
        assert forall|a: u64|
            #![trigger leaf_of(mem, root, a)]
            kernel_data_start.0 <= a < kernel_end.0 implies pte_valid(leaf_of(mem, root, a))
                && pte_target(leaf_of(mem, root, a)) == round_down_spec(a as int)
                && leaf_of(mem, root, a) & 0xF == 0b0111 by {
            lemma_identity_leaf(mem, root, kernel_data_start.0, data_size, data_permissions(), a);
        }
    }
    kernel_page_table
}

} // verus!
