use vstd::prelude::*;

use crate::kalloc::KernelPageAllocator;
use crate::memory_layout::{round_down_spec, Address, KERNEL_BASE, PAGE_SIZE};
use crate::mmu::{
    data_pages, identity_mappable, kernel_tables_needed, key_seen, lemma_seen_step,
    lemma_tables_needed_ext, lemma_vpn_bounds, needs_l0, needs_l1, page_of, pages_to_map,
    tables_needed_from, text_pages, v21_seen, v2_seen, vpn_spec, PageTable, MAX_PAGES_PER_MAPPING,
};
use crate::physical_memory::PhysicalMemory;

verus! {

/// The leaf key of the page holding `p`: its page number modulo the number of leaves.
pub open spec fn page_key(p: u64) -> int {
    (p / 4096) as int % (MAX_PAGES_PER_MAPPING as int)
}

/// Two addresses select the same leaf exactly when their pages have the same key.
pub proof fn lemma_key_triple(p: u64, q: u64)
    ensures
        (vpn_spec(p, 2) == vpn_spec(q, 2) && vpn_spec(p, 1) == vpn_spec(q, 1) && vpn_spec(p, 0)
            == vpn_spec(q, 0)) <==> page_key(p) == page_key(q),
{
    assert(((p >> 30u64) & 0x1FF == (q >> 30u64) & 0x1FF && (p >> 21u64) & 0x1FF == (q >> 21u64)
        & 0x1FF && (p >> 12u64) & 0x1FF == (q >> 12u64) & 0x1FF) <==> (p >> 12u64) & 0x7FF_FFFF == (
    q >> 12u64) & 0x7FF_FFFF) by (bit_vector);
    assert(p >> 12u64 == p / 4096) by (bit_vector);
    assert(q >> 12u64 == q / 4096) by (bit_vector);
    assert((p >> 12u64) & 0x7FF_FFFF == (p >> 12u64) % 0x800_0000) by (bit_vector);
    assert((q >> 12u64) & 0x7FF_FFFF == (q >> 12u64) % 0x800_0000) by (bit_vector);
}

/// A page of the `nt` pages mapped from `va` selects the leaf of `p` exactly when the key
/// of `p` lies less than `nt` keys after the key of `va`, counting around.
pub proof fn lemma_key_seen_iff(va: u64, nt: int, p: u64)
    requires
        va % 4096 == 0,
        0 <= nt <= MAX_PAGES_PER_MAPPING,
        va + PAGE_SIZE * nt <= u64::MAX,
    ensures
        key_seen(va, nt, vpn_spec(p, 2), vpn_spec(p, 1), vpn_spec(p, 0)) <==> (page_key(p)
            - page_key(va)) % (MAX_PAGES_PER_MAPPING as int) < nt,
{
    let m = MAX_PAGES_PER_MAPPING as int;
    let d = (page_key(p) - page_key(va)) % m;
    assert(round_down_spec(va as int) == va);
    if key_seen(va, nt, vpn_spec(p, 2), vpn_spec(p, 1), vpn_spec(p, 0)) {
        let k = choose|k: int|
            0 <= k < nt && #[trigger] vpn_spec(page_of(va, k), 2) == vpn_spec(p, 2) && vpn_spec(
                page_of(va, k),
                1,
            ) == vpn_spec(p, 1) && vpn_spec(page_of(va, k), 0) == vpn_spec(p, 0);
        lemma_key_triple(page_of(va, k), p);
        assert(page_of(va, k) / 4096 == va / 4096 + k);
        assert(d == k % m);
    }
    if d < nt {
        let k = d;
        assert(page_of(va, k) / 4096 == va / 4096 + k);
        lemma_key_triple(page_of(va, k), p);
        assert(vpn_spec(page_of(va, k), 2) == vpn_spec(p, 2));
    }
}

/// Whether `size` bytes at `va` can be mapped onto themselves: `identity_mappable`.
pub fn identity_mappable_exec(va: u64, size: u64) -> (r: bool)
    ensures
        r == identity_mappable(va, size),
{
    if size == 0 {
        return false;
    }
    let last: u128 = va as u128 + (size as u128 - 1);
    if last > 0xFFFF_FFFF_FFFF_FFFFu128 {
        return false;
    }
    let rl: u128 = last - last % 4096;
    if rl + 4096 > 0xFFFF_FFFF_FFFF_FFFFu128 {
        return false;
    }
    let rd: u128 = va as u128 - (va as u128) % 4096;
    let n: u128 = (rl - rd) / 4096 + 1;
    if n > 0x800_0000u128 {
        return false;
    }
    va as u128 + 4096 * n <= 0xFFFF_FFFF_FFFF_FFFFu128
}

/// Number of pages that `size` bytes at `va` cover.
pub fn pages_to_map_exec(va: u64, size: u64) -> (r: u64)
    requires
        identity_mappable(va, size),
    ensures
        r == pages_to_map(va, size),
{
    let last = va + (size - 1);
    let rl = last - last % 4096;
    let rd = va - va % 4096;
    (rl - rd) / 4096 + 1
}

/// Whether some page of the `nd` pages mapped from `data` selects the same leaf as one of
/// the `nt` pages mapped from `KERNEL_BASE`.
fn data_shares_leaf(nt: u64, data: u64, nd: u64) -> (r: bool)
    requires
        nt <= MAX_PAGES_PER_MAPPING,
        KERNEL_BASE + PAGE_SIZE * nt <= u64::MAX,
        round_down_spec(data as int) + PAGE_SIZE * nd <= u64::MAX,
    ensures
        r == exists|k: int|
            0 <= k < nd && #[trigger] key_seen(
                KERNEL_BASE,
                nt as int,
                vpn_spec(page_of(data, k), 2),
                vpn_spec(page_of(data, k), 1),
                vpn_spec(page_of(data, k), 0),
            ),
{
    let rd = data - data % 4096;
    let t0: u64 = 0x80000;
    let mut k: u64 = 0;
    while k < nd
        invariant
            k <= nd,
            rd == round_down_spec(data as int),
            nt <= MAX_PAGES_PER_MAPPING,
            KERNEL_BASE + PAGE_SIZE * nt <= u64::MAX,
            round_down_spec(data as int) + PAGE_SIZE * nd <= u64::MAX,
            t0 == page_key(KERNEL_BASE),
            forall|k2: int|
                0 <= k2 < k ==> !#[trigger] key_seen(
                    KERNEL_BASE,
                    nt as int,
                    vpn_spec(page_of(data, k2), 2),
                    vpn_spec(page_of(data, k2), 1),
                    vpn_spec(page_of(data, k2), 0),
                ),
        decreases nd - k,
    {
        let p = rd + 4096 * k;
        let key = (p >> 12) & 0x7FF_FFFF;
        proof {
            assert(p == page_of(data, k as int));
            assert((p >> 12u64) & 0x7FF_FFFF == (p / 4096) % 0x800_0000) by (bit_vector);
            lemma_key_seen_iff(KERNEL_BASE, nt as int, p);
        }
        let diff = (key + 0x800_0000 - t0) % 0x800_0000;
        assert(diff == (page_key(p) - page_key(KERNEL_BASE)) % (MAX_PAGES_PER_MAPPING as int));
        if diff < nt {
            return true;
        }
        k = k + 1;
    }
    false
}

/// Counts the tables that mapping the `n` pages from `va` takes, given which root entries
/// and level-1 paths `seen2` and `seen21` already mark valid, and marks those the mapping
/// adds.
fn count_tables(
    seen2: &mut Vec<bool>,
    seen21: &mut Vec<bool>,
    va: u64,
    n: u64,
    Ghost(rv): Ghost<spec_fn(u64) -> bool>,
    Ghost(pv): Ghost<spec_fn(u64, u64) -> bool>,
) -> (c: u64)
    requires
        old(seen2)@.len() == 512,
        old(seen21)@.len() == 512 * 512,
        forall|i: u64| i < 512 ==> old(seen2)@[i as int] == #[trigger] rv(i),
        forall|i: u64, i1: u64|
            i < 512 && i1 < 512 ==> old(seen21)@[512 * i + i1] == #[trigger] pv(i, i1),
        n <= MAX_PAGES_PER_MAPPING,
        round_down_spec(va as int) + PAGE_SIZE * n <= u64::MAX,
    ensures
        c == tables_needed_from(rv, pv, va, n as nat),
        c <= 2 * n,
        final(seen2)@.len() == 512,
        final(seen21)@.len() == 512 * 512,
        forall|i: u64| i < 512 ==> #[trigger] final(seen2)@[i as int] == (rv(i) || v2_seen(va, n as int, i)),
        forall|i: u64, i1: u64|
            i < 512 && i1 < 512 ==> #[trigger] final(seen21)@[512 * i + i1] == (pv(i, i1) || v21_seen(
                va,
                n as int,
                i,
                i1,
            )),
{
    let mut c: u64 = 0;
    let mut j: u64 = 0;
    let rd = va - va % 4096;
    proof {
        assert forall|i: u64| !v2_seen(va, 0, i) by {}
        assert forall|i: u64, i1: u64| !v21_seen(va, 0, i, i1) by {}
    }
    while j < n
        invariant
            j <= n,
            c <= 2 * j,
            rd == round_down_spec(va as int),
            n <= MAX_PAGES_PER_MAPPING,
            round_down_spec(va as int) + PAGE_SIZE * n <= u64::MAX,
            c == tables_needed_from(rv, pv, va, j as nat),
            seen2@.len() == 512,
            seen21@.len() == 512 * 512,
            forall|i: u64| i < 512 ==> #[trigger] seen2@[i as int] == (rv(i) || v2_seen(va, j as int, i)),
            forall|i: u64, i1: u64|
                i < 512 && i1 < 512 ==> #[trigger] seen21@[512 * i + i1] == (pv(i, i1) || v21_seen(
                    va,
                    j as int,
                    i,
                    i1,
                )),
        decreases n - j,
    {
        let p = Address(rd + 4096 * j);
        let v2 = PageTable::vpn(p, 2);
        let v1 = PageTable::vpn(p, 1);
        proof {
            assert(p.0 == page_of(va, j as int));
            lemma_seen_step(va, j as int);
            lemma_vpn_bounds(p.0);
        }
        let idx = 512 * v2 + v1;
        let new_l1 = !seen2[v2];
        let new_l0 = !seen21[idx];
        assert(new_l1 == needs_l1(rv, va, j as int));
        assert(new_l0 == needs_l0(pv, va, j as int));
        if new_l1 {
            c = c + 1;
        }
        if new_l0 {
            c = c + 1;
        }
        seen2.set(v2, true);
        seen21.set(idx, true);
        proof {
            assert forall|i: u64| i < 512 implies #[trigger] seen2@[i as int] == (rv(i) || v2_seen(
                va,
                j + 1,
                i,
            )) by {}
            assert forall|i: u64, i1: u64|
                i < 512 && i1 < 512 implies #[trigger] seen21@[512 * i + i1] == (pv(i, i1)
                || v21_seen(va, j + 1, i, i1)) by {
                if 512 * i + i1 == idx {
                    assert(i == v2 && i1 == v1);
                }
            }
        }
        j = j + 1;
    }
    c
}

/// A vector of `n` copies of `false`.
fn falses(n: usize) -> (v: Vec<bool>)
    ensures
        v@.len() == n,
        forall|i: int| 0 <= i < n ==> !#[trigger] v@[i],
{
    let mut v: Vec<bool> = Vec::new();
    let mut i: usize = 0;
    while i < n
        invariant
            i <= n,
            v@.len() == i,
            forall|k: int| 0 <= k < i ==> !#[trigger] v@[k],
        decreases n - i,
    {
        v.push(false);
        i = i + 1;
    }
    v
}

/// Whether `mmu_init` can build the kernel's table from `alloc`: both ranges are non-empty
/// and mappable onto themselves, no data page selects the leaf of a code page, and the
/// allocator holds as many pages as the table takes.
pub fn kernel_layout_fits(
    alloc: &KernelPageAllocator,
    mem: &PhysicalMemory,
    kernel_text_end: Address,
    kernel_data_start: Address,
    kernel_end: Address,
) -> (r: bool)
    requires
        alloc.wf(mem),
    ensures
        r == (KERNEL_BASE < kernel_text_end.0 && kernel_data_start.0 < kernel_end.0
            && identity_mappable(KERNEL_BASE, (kernel_text_end.0 - KERNEL_BASE) as u64)
            && identity_mappable(kernel_data_start.0, (kernel_end.0 - kernel_data_start.0) as u64)
            && (forall|k: int|
            0 <= k < data_pages(kernel_data_start.0, kernel_end.0) ==> !key_seen(
                KERNEL_BASE,
                text_pages(kernel_text_end.0),
                vpn_spec(#[trigger] page_of(kernel_data_start.0, k), 2),
                vpn_spec(page_of(kernel_data_start.0, k), 1),
                vpn_spec(page_of(kernel_data_start.0, k), 0),
            )) && alloc.free_pages().len() >= kernel_tables_needed(
            kernel_text_end.0,
            kernel_data_start.0,
            kernel_end.0,
        )),
{
    if !(KERNEL_BASE < kernel_text_end.0 && kernel_data_start.0 < kernel_end.0) {
        return false;
    }
    let text_size = kernel_text_end.0 - KERNEL_BASE;
    let data_size = kernel_end.0 - kernel_data_start.0;
    if !identity_mappable_exec(KERNEL_BASE, text_size) || !identity_mappable_exec(
        kernel_data_start.0,
        data_size,
    ) {
        return false;
    }
    let nt = pages_to_map_exec(KERNEL_BASE, text_size);
    let nd = pages_to_map_exec(kernel_data_start.0, data_size);
    let ghost ntg = nt as int;
    let ghost ndg = nd as int;
    assert(round_down_spec(KERNEL_BASE as int) == KERNEL_BASE);
    if data_shares_leaf(nt, kernel_data_start.0, nd) {
        return false;
    }
    let mut seen2 = falses(512);
    let mut seen21 = falses(512 * 512);
    let c_text = count_tables(
        &mut seen2,
        &mut seen21,
        KERNEL_BASE,
        nt,
        Ghost(|i: u64| false),
        Ghost(|i: u64, i1: u64| false),
    );
    let c_data = count_tables(
        &mut seen2,
        &mut seen21,
        kernel_data_start.0,
        nd,
        Ghost(|i: u64| false || v2_seen(KERNEL_BASE, ntg, i)),
        Ghost(|i: u64, i1: u64| false || v21_seen(KERNEL_BASE, ntg, i, i1)),
    );
    proof {
        lemma_tables_needed_ext(
            |i: u64| false || v2_seen(KERNEL_BASE, ntg, i),
            |i: u64, i1: u64| false || v21_seen(KERNEL_BASE, ntg, i, i1),
            |i: u64| v2_seen(KERNEL_BASE, ntg, i),
            |i: u64, i1: u64| v21_seen(KERNEL_BASE, ntg, i, i1),
            kernel_data_start.0,
            nd as nat,
        );
    }
    let free = alloc.free_count(mem);
    1 + c_text + c_data <= free
}

} // verus!
