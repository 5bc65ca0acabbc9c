use vstd::prelude::*;

use crate::kalloc::{
    lemma_init_accounts_pages, lemma_pages_pushed_bounds, page_pool, pages_accounted,
    pages_pushed, KERNEL_MEMORY_END,
};
use crate::memory_layout::{page_aligned, round_up_spec, PAGE_SIZE};

verus! {

/// A call on the allocator, seen by the page that it hands out or takes back.
pub enum PageOp {
    /// `kalloc` or `kzalloc`.
    Alloc,
    /// `kfree` of the page at the given address.
    Free(u64),
}

/// The free list and the live pages after `op`, as the contracts of `kalloc`, `kzalloc` and
/// `kfree` give them: an allocation hands out the head of the free list, which becomes live;
/// a free puts the page back at the head, and it is live no more.
pub open spec fn after_op(state: (Seq<u64>, Set<u64>), op: PageOp) -> (Seq<u64>, Set<u64>) {
    match op {
        PageOp::Alloc => (state.0.drop_first(), state.1.insert(state.0[0])),
        PageOp::Free(p) => (seq![p] + state.0, state.1.remove(p)),
    }
}

/// The free list and the live pages after the calls `ops`, one after another, from `state`.
pub open spec fn after_ops(state: (Seq<u64>, Set<u64>), ops: Seq<PageOp>) -> (Seq<u64>, Set<u64>)
    decreases ops.len(),
{
    if ops.len() == 0 {
        state
    } else {
        after_op(after_ops(state, ops.drop_last()), ops.last())
    }
}

/// `op` may be made in `state`: an allocation finds a free page, and a free gives back a live
/// page (one that was handed out and not freed since).
pub open spec fn op_allowed(state: (Seq<u64>, Set<u64>), op: PageOp) -> bool {
    match op {
        PageOp::Alloc => state.0.len() > 0,
        PageOp::Free(p) => state.1.contains(p),
    }
}

/// Each call of `ops` may be made where it comes, from `state`.
pub open spec fn ops_allowed(state: (Seq<u64>, Set<u64>), ops: Seq<PageOp>) -> bool {
    forall|n: int| 0 <= n < ops.len() ==> #[trigger] op_allowed(after_ops(state, ops.take(n)), ops[n])
}

/// The pages are accounted for and no page is free twice.
pub open spec fn pages_apart(state: (Seq<u64>, Set<u64>), pool: Set<u64>) -> bool {
    pages_accounted(state.0, state.1, pool) && state.0.no_duplicates()
}

/// Calls that may be made keep the pages accounted for and apart.
pub proof fn lemma_ops_keep_pages_apart(state: (Seq<u64>, Set<u64>), pool: Set<u64>, ops: Seq<PageOp>)
    requires
        pages_apart(state, pool),
        ops_allowed(state, ops),
    ensures
        pages_apart(after_ops(state, ops), pool),
    decreases ops.len(),
{
    if ops.len() > 0 {
        let prev = ops.drop_last();
        assert forall|n: int| 0 <= n < prev.len() implies #[trigger] op_allowed(
            after_ops(state, prev.take(n)),
            prev[n],
        ) by {
            assert(prev.take(n) =~= ops.take(n));
            assert(op_allowed(after_ops(state, ops.take(n)), ops[n]));
        }
        lemma_ops_keep_pages_apart(state, pool, prev);
        let s = after_ops(state, prev);
        assert(ops.take(ops.len() - 1) =~= prev);
        assert(op_allowed(after_ops(state, ops.take(ops.len() - 1)), ops[ops.len() - 1]));
        let t = after_op(s, ops.last());
        match ops.last() {
            PageOp::Alloc => {
                assert forall|i: int|
                    #![trigger t.0[i]]
                    0 <= i < t.0.len() implies pool.contains(t.0[i]) && !t.1.contains(t.0[i]) by {
                    assert(t.0[i] == s.0[i + 1]);
                    assert(s.0[0] != s.0[i + 1]);
                }
                assert(s.0.len() > 0 && pool.contains(s.0[0]));
            },
            PageOp::Free(p) => {
                assert forall|i: int|
                    #![trigger t.0[i]]
                    0 <= i < t.0.len() implies pool.contains(t.0[i]) && !t.1.contains(t.0[i]) by {
                    if i > 0 {
                        assert(t.0[i] == s.0[i - 1]);
                    }
                }
                assert forall|i: int, j: int| 0 <= i < t.0.len() && 0 <= j < t.0.len() && i != j implies t.0[i] != t.0[j] by {
                    if i > 0 && j > 0 {
                        assert(t.0[i] == s.0[i - 1] && t.0[j] == s.0[j - 1]);
                    } else if i == 0 {
                        assert(t.0[j] == s.0[j - 1]);
                    } else {
                        assert(t.0[i] == s.0[i - 1]);
                    }
                }
            },
        }
    }
}

/// The pages that `kalloc_init` frees, above `kernel_end` and below `KERNEL_MEMORY_END`, are
/// apart from the start, when no page is live yet.
pub proof fn lemma_init_pages_apart(kernel_end: u64)
    requires
        round_up_spec(kernel_end as int) <= u64::MAX,
    ensures
        pages_apart(
            (pages_pushed(round_up_spec(kernel_end as int), KERNEL_MEMORY_END as int), Set::empty()),
            page_pool(round_up_spec(kernel_end as int), KERNEL_MEMORY_END as int),
        ),
{
    let lo = round_up_spec(kernel_end as int);
    let hi = KERNEL_MEMORY_END as int;
    crate::memory_layout::lemma_rounding_idempotent(kernel_end);
    lemma_init_accounts_pages(lo, hi);
    lemma_pages_pushed_bounds(lo, hi);
    let f = pages_pushed(lo, hi);
    assert forall|i: int, j: int| 0 <= i < f.len() && 0 <= j < f.len() && i != j implies f[i] != f[j] by {
        assert(f[i] == hi - PAGE_SIZE * (i + 1));
        assert(f[j] == hi - PAGE_SIZE * (j + 1));
    }
}

/// Live pages never overlap. After `kalloc_init` on an allocator with no free page, over any
/// run of allocations and frees in which each free gives back a page that was handed out and
/// not freed since, every page that an allocation hands out is page aligned, lies between
/// the first page boundary at or above `kernel_end` and `KERNEL_MEMORY_END`, and is none of
/// the pages handed out earlier and not freed since.
pub proof fn lemma_live_pages_never_overlap(kernel_end: u64, ops: Seq<PageOp>, n: int)
    requires
        round_up_spec(kernel_end as int) <= u64::MAX,
        ops_allowed(
            (pages_pushed(round_up_spec(kernel_end as int), KERNEL_MEMORY_END as int), Set::empty()),
            ops,
        ),
        0 <= n < ops.len(),
        ops[n] is Alloc,
    ensures
        ({
            let s = after_ops(
                (pages_pushed(round_up_spec(kernel_end as int), KERNEL_MEMORY_END as int), Set::empty()),
                ops.take(n),
            );
            &&& s.0.len() > 0
            &&& page_aligned(s.0[0] as int)
            &&& round_up_spec(kernel_end as int) <= s.0[0] < KERNEL_MEMORY_END
            &&& !s.1.contains(s.0[0])
        }),
{
    let lo = round_up_spec(kernel_end as int);
    let hi = KERNEL_MEMORY_END as int;
    let start = (pages_pushed(lo, hi), Set::<u64>::empty());
    lemma_init_pages_apart(kernel_end);
    let pre = ops.take(n);
    assert forall|k: int| 0 <= k < pre.len() implies #[trigger] op_allowed(after_ops(start, pre.take(k)), pre[k]) by {
        assert(pre.take(k) =~= ops.take(k));
        assert(op_allowed(after_ops(start, ops.take(k)), ops[k]));
    }
    lemma_ops_keep_pages_apart(start, page_pool(lo, hi), pre);
    assert(op_allowed(after_ops(start, ops.take(n)), ops[n]));
    let s = after_ops(start, pre);
    assert(page_pool(lo, hi).contains(s.0[0]));
}

} // verus!
