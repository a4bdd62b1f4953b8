//! The transactional memory: page handles, allocation, and the commit protocol.
use vstd::prelude::*;
use memmap2::MmapMut;
use crate::allocator::{PageAllocator, allocated_in, bitmap_len, free_count, lemma_free_count_ext};
use crate::error::Error;
use crate::mapping::{mapped_bytes, map_bytes, map_bytes_mut, flush_map};
use crate::metapage::{
    Slot, slot_view, slot_at, slot_root, slot_dirty, primary_offset, secondary_offset,
    get_primary, get_primary_mut, get_secondary, get_secondary_const, TransactionAccessor,
    TransactionMutator, DB_METAPAGE_SIZE, DB_METADATA_PAGE, PRIMARY_BIT_OFFSET,
    TRANSACTION_0_OFFSET, TRANSACTION_1_OFFSET, TRANSACTION_SIZE, ALLOCATOR_STATE_DIRTY_OFFSET,
    MAGIC_LEN, VERSION_OFFSET, PAGE_SIZE_OFFSET, DB_SIZE_OFFSET,
};
use crate::codec::{be_value, write_be, read_be};
use crate::page_number::{PageNumber, run_pages, INDEX_LIMIT};
use vstd::arithmetic::power2::pow2;

verus! {

/// The bytes of the allocator region that slot `s` points to.
pub open spec fn region_bytes(b: Seq<u8>, s: Slot) -> Seq<u8> {
    b.subrange(s.alloc_start as int, (s.alloc_start + s.alloc_len) as int)
}

pub open spec fn primary_slot_of(b: Seq<u8>) -> Slot {
    slot_view(slot_at(b, primary_offset(b)))
}

pub open spec fn secondary_slot_of(b: Seq<u8>) -> Slot {
    slot_view(slot_at(b, secondary_offset(b)))
}

/// What a crash leaves observable in the file image `b`: the root and the transaction id
/// of its primary slot.
pub open spec fn committed_state(b: Seq<u8>) -> (Option<(PageNumber, u32)>, nat) {
    (slot_root(primary_slot_of(b)), primary_slot_of(b).txn_id)
}

/// The page indices that the page numbers in `s` carry.
pub open spec fn page_indices(s: Seq<PageNumber>) -> Set<int> {
    Set::new(|i: int| exists|k: int| 0 <= k < s.len() && #[trigger] s[k].page_index == i)
}

/// Distinct base pages of the user area (index 0, the metapage, excluded).
pub open spec fn pages_ok(s: Seq<PageNumber>, n: nat) -> bool {
    &&& forall|k: int|
        0 <= k < s.len() ==> (#[trigger] s[k]).page_order == 0 && 1 <= s[k].page_index < n
    &&& forall|k1: int, k2: int|
        0 <= k1 < k2 < s.len() ==> (#[trigger] s[k1]).page_index != (#[trigger] s[k2]).page_index
}

/// An allocator region for `n` pages that lies after the page area and inside the file.
pub open spec fn region_ok(s: Slot, n: nat, page_size: nat, len: nat) -> bool {
    &&& s.alloc_len == bitmap_len(n)
    &&& n * page_size <= s.alloc_start
    &&& s.alloc_start + s.alloc_len <= len
}


/// `b2` differs from `b1` at most inside `[lo, hi)`.
pub open spec fn agree_outside(b1: Seq<u8>, b2: Seq<u8>, lo: int, hi: int) -> bool {
    &&& b1.len() == b2.len()
    &&& forall|i: int| 0 <= i < b1.len() && (i < lo || hi <= i) ==> #[trigger] b1[i] == b2[i]
}

/// Byte ranges clear of a changed range keep their contents.
pub proof fn lemma_agree_outside(b1: Seq<u8>, b2: Seq<u8>, lo: int, hi: int, a: int, c: int)
    requires
        agree_outside(b1, b2, lo, hi),
        0 <= a <= c <= b1.len(),
        c <= lo || hi <= a,
    ensures
        b1.subrange(a, c) == b2.subrange(a, c),
{
    assert(b1.subrange(a, c) =~= b2.subrange(a, c));
}

/// The page area past the metapage, up to `end`, holds the same bytes in `a` and `b`.
pub open spec fn pages_unchanged(a: Seq<u8>, b: Seq<u8>, end: nat) -> bool {
    forall|i: int| DB_METAPAGE_SIZE <= i < end ==> #[trigger] a[i] == b[i]
}

/// Offset of the primary slot, or else of the secondary one.
pub open spec fn slot_offset(b: Seq<u8>, primary: bool) -> int {
    if primary {
        primary_offset(b)
    } else {
        secondary_offset(b)
    }
}

/// The primary slot, or else the secondary one.
pub open spec fn slot_of(b: Seq<u8>, primary: bool) -> Slot {
    slot_view(slot_at(b, slot_offset(b, primary)))
}

/// The image `b` with the chosen slot's allocator state marked dirty.
pub open spec fn marked_dirty(b: Seq<u8>, primary: bool) -> Seq<u8> {
    if slot_dirty(slot_of(b, primary)) {
        b
    } else {
        b.update(slot_offset(b, primary) + ALLOCATOR_STATE_DIRTY_OFFSET, 1u8)
    }
}

/// The fixed layout of a file of `n` pages of `ps` bytes: a valid primary bit, and two
/// disjoint allocator regions after the page area.
pub open spec fn layout_ok(b: Seq<u8>, n: nat, ps: nat) -> bool {
    &&& layout_core(b, n, ps)
    &&& header_ok(b, n, ps)
}

/// The header of an image of `n` pages of `ps` bytes: the magic number, the stored page
/// size and file size, and a page count that the file size settles on.
pub open spec fn header_ok(b: Seq<u8>, n: nat, ps: nat) -> bool {
    &&& b.len() >= DB_METAPAGE_SIZE
    &&& has_magic(b)
    &&& b[PAGE_SIZE_OFFSET as int] < 64
    &&& pow2(b[PAGE_SIZE_OFFSET as int] as nat) == ps
    &&& be_value(b.subrange(DB_SIZE_OFFSET as int, PRIMARY_BIT_OFFSET as int)) == b.len()
    &&& usable_pages_for(b.len(), ps) == Some(n)
}

/// The layout facts that hold from formatting on, the header aside.
pub open spec fn layout_core(b: Seq<u8>, n: nat, ps: nat) -> bool {
    let s0 = slot_view(slot_at(b, TRANSACTION_0_OFFSET as int));
    let s1 = slot_view(slot_at(b, TRANSACTION_1_OFFSET as int));
    &&& b.len() <= usize::MAX
    &&& ps >= DB_METAPAGE_SIZE
    &&& 1 <= n <= INDEX_LIMIT
    &&& ps <= n * ps
    &&& b[PRIMARY_BIT_OFFSET as int] <= 1
    &&& s0.dirty <= 1
    &&& s1.dirty <= 1
    &&& region_ok(s0, n, ps, b.len())
    &&& region_ok(s1, n, ps, b.len())
    &&& s0.alloc_start + s0.alloc_len <= s1.alloc_start || s1.alloc_start + s1.alloc_len
        <= s0.alloc_start
}


/// The header depends only on the bytes before the primary bit and on the length.
pub proof fn lemma_header_kept(b: Seq<u8>, b2: Seq<u8>, n: nat, ps: nat)
    requires
        header_ok(b, n, ps),
        b.len() == b2.len(),
        forall|i: int| 0 <= i < PRIMARY_BIT_OFFSET ==> #[trigger] b2[i] == b[i],
    ensures
        header_ok(b2, n, ps),
{
    assert(b2.subrange(DB_SIZE_OFFSET as int, PRIMARY_BIT_OFFSET as int) =~= b.subrange(DB_SIZE_OFFSET as int, PRIMARY_BIT_OFFSET as int));
    assert(b2[0] == b[0] && b2[1] == b[1] && b2[2] == b[2] && b2[3] == b[3]);
    assert(b2[PAGE_SIZE_OFFSET as int] == b[PAGE_SIZE_OFFSET as int]);
}

/// A change confined to `[lo, hi)`, past the metapage, keeps the slots, the primary bit,
/// the layout, and each allocator region it does not overlap.
pub proof fn lemma_frame(b: Seq<u8>, b2: Seq<u8>, n: nat, ps: nat, lo: int, hi: int)
    requires
        layout_ok(b, n, ps),
        DB_METAPAGE_SIZE <= lo <= hi,
        agree_outside(b, b2, lo, hi),
    ensures
        layout_ok(b2, n, ps),
        b2[PRIMARY_BIT_OFFSET as int] == b[PRIMARY_BIT_OFFSET as int],
        slot_at(b2, TRANSACTION_0_OFFSET as int) == slot_at(b, TRANSACTION_0_OFFSET as int),
        slot_at(b2, TRANSACTION_1_OFFSET as int) == slot_at(b, TRANSACTION_1_OFFSET as int),
        primary_slot_of(b2) == primary_slot_of(b),
        secondary_slot_of(b2) == secondary_slot_of(b),
        forall|primary: bool| #![trigger slot_of(b2, primary)] slot_of(b2, primary) == slot_of(b, primary),
        forall|primary: bool|
            #![trigger region_bytes(b2, slot_of(b, primary))]
            hi <= slot_of(b, primary).alloc_start || slot_of(b, primary).alloc_start + slot_of(b, primary).alloc_len <= lo
                ==> region_bytes(b2, slot_of(b, primary)) == region_bytes(b, slot_of(b, primary)),
{
    assert forall|i: int| 0 <= i < PRIMARY_BIT_OFFSET implies #[trigger] b2[i] == b[i] by {}
    lemma_header_kept(b, b2, n, ps);
    lemma_agree_outside(b, b2, lo, hi, TRANSACTION_0_OFFSET as int, TRANSACTION_1_OFFSET as int);
    lemma_agree_outside(b, b2, lo, hi, TRANSACTION_1_OFFSET as int, DB_METAPAGE_SIZE as int);
    assert(b2[PRIMARY_BIT_OFFSET as int] == b[PRIMARY_BIT_OFFSET as int]);
    assert forall|primary: bool|
        #![trigger region_bytes(b2, slot_of(b, primary))]
        hi <= slot_of(b, primary).alloc_start || slot_of(b, primary).alloc_start + slot_of(b, primary).alloc_len <= lo
            implies region_bytes(b2, slot_of(b, primary)) == region_bytes(b, slot_of(b, primary)) by {
        let q = slot_of(b, primary);
        lemma_agree_outside(b, b2, lo, hi, q.alloc_start as int, (q.alloc_start + q.alloc_len) as int);
    }
}

/// The chosen slot is slot 0 or slot 1.
pub proof fn lemma_slot_choice(b: Seq<u8>, primary: bool)
    ensures
        slot_of(b, primary) == slot_view(slot_at(b, TRANSACTION_0_OFFSET as int)) || slot_of(b, primary)
            == slot_view(slot_at(b, TRANSACTION_1_OFFSET as int)),
{
}

/// Changing the dirty byte of one slot changes that slot's dirty field and nothing else.
pub proof fn lemma_dirty_frame(b: Seq<u8>, n: nat, ps: nat, primary: bool, v: u8)
    requires
        layout_ok(b, n, ps),
        v <= 1,
    ensures
        ({
            let b2 = b.update(slot_offset(b, primary) + ALLOCATOR_STATE_DIRTY_OFFSET, v);
            &&& layout_ok(b2, n, ps)
            &&& b2[PRIMARY_BIT_OFFSET as int] == b[PRIMARY_BIT_OFFSET as int]
            &&& slot_offset(b2, primary) == slot_offset(b, primary)
            &&& slot_offset(b2, !primary) == slot_offset(b, !primary)
            &&& slot_of(b2, primary) == (Slot { dirty: v, ..slot_of(b, primary) })
            &&& slot_of(b2, !primary) == slot_of(b, !primary)
            &&& region_bytes(b2, slot_of(b, true)) == region_bytes(b, slot_of(b, true))
            &&& region_bytes(b2, slot_of(b, false)) == region_bytes(b, slot_of(b, false))
            &&& agree_outside(b, b2, DB_METAPAGE_SIZE as int - TRANSACTION_SIZE - TRANSACTION_SIZE, DB_METAPAGE_SIZE as int)
        }),
{
    let b2 = b.update(slot_offset(b, primary) + ALLOCATOR_STATE_DIRTY_OFFSET, v);
    assert forall|i: int| 0 <= i < PRIMARY_BIT_OFFSET implies #[trigger] b2[i] == b[i] by {}
    lemma_header_kept(b, b2, n, ps);
    let off = slot_offset(b, primary);
    let b2 = b.update(off + ALLOCATOR_STATE_DIRTY_OFFSET, v);
    let s = slot_at(b, off);
    assert(slot_at(b2, off) =~= s.update(ALLOCATOR_STATE_DIRTY_OFFSET as int, v));
    let s2 = slot_at(b2, off);
    assert(s2.subrange(0, 8) =~= s.subrange(0, 8));
    assert(s2.subrange(8, 12) =~= s.subrange(8, 12));
    assert(s2.subrange(12, 28) =~= s.subrange(12, 28));
    assert(s2.subrange(28, 36) =~= s.subrange(28, 36));
    assert(s2.subrange(36, 44) =~= s.subrange(36, 44));
    let other = slot_offset(b, !primary);
    assert(slot_at(b2, other) =~= slot_at(b, other));
    let t = slot_of(b, true);
    let f = slot_of(b, false);
    assert(region_bytes(b2, t) =~= region_bytes(b, t));
    assert(region_bytes(b2, f) =~= region_bytes(b, f));
}


/// `b` with the allocator region of the chosen slot replaced by `part`.
pub open spec fn with_region(b: Seq<u8>, primary: bool, part: Seq<u8>) -> Seq<u8> {
    let q = slot_of(b, primary);
    b.subrange(0, q.alloc_start as int) + part + b.subrange((q.alloc_start + q.alloc_len) as int, b.len() as int)
}

/// Replacing one allocator region keeps the layout, the slots, the other region and the pages.
pub proof fn lemma_region_update(b: Seq<u8>, n: nat, ps: nat, primary: bool, part: Seq<u8>)
    requires
        layout_ok(b, n, ps),
        part.len() == slot_of(b, primary).alloc_len,
    ensures
        ({
            let b2 = with_region(b, primary, part);
            &&& layout_ok(b2, n, ps)
            &&& b2[PRIMARY_BIT_OFFSET as int] == b[PRIMARY_BIT_OFFSET as int]
            &&& slot_of(b2, true) == slot_of(b, true)
            &&& slot_of(b2, false) == slot_of(b, false)
            &&& region_bytes(b2, slot_of(b, primary)) == part
            &&& region_bytes(b2, slot_of(b, !primary)) == region_bytes(b, slot_of(b, !primary))
            &&& b2.subrange(0, (n * ps) as int) == b.subrange(0, (n * ps) as int)
        }),
{
    let q = slot_of(b, primary);
    let b2 = with_region(b, primary, part);
    lemma_slot_choice(b, primary);
    lemma_slot_choice(b, !primary);
    assert(agree_outside(b, b2, q.alloc_start as int, (q.alloc_start + q.alloc_len) as int));
    lemma_frame(b, b2, n, ps, q.alloc_start as int, (q.alloc_start + q.alloc_len) as int);
    assert(region_bytes(b2, q) =~= part);
    lemma_agree_outside(b, b2, q.alloc_start as int, (q.alloc_start + q.alloc_len) as int, 0, (n * ps) as int);
}

/// `b` with page `i` (of `ps` bytes) replaced by `part`.
pub open spec fn with_page(b: Seq<u8>, i: nat, ps: nat, part: Seq<u8>) -> Seq<u8> {
    b.subrange(0, (i * ps) as int) + part + b.subrange(((i + 1) * ps) as int, b.len() as int)
}

/// Replacing a user page keeps the layout, the slots, both regions and every other page.
pub proof fn lemma_page_update(b: Seq<u8>, n: nat, ps: nat, i: nat, part: Seq<u8>)
    requires
        layout_ok(b, n, ps),
        1 <= i < n,
        part.len() == ps,
    ensures
        ({
            let b2 = with_page(b, i, ps, part);
            &&& layout_ok(b2, n, ps)
            &&& b2[PRIMARY_BIT_OFFSET as int] == b[PRIMARY_BIT_OFFSET as int]
            &&& slot_of(b2, true) == slot_of(b, true)
            &&& slot_of(b2, false) == slot_of(b, false)
            &&& region_bytes(b2, slot_of(b, true)) == region_bytes(b, slot_of(b, true))
            &&& region_bytes(b2, slot_of(b, false)) == region_bytes(b, slot_of(b, false))
            &&& b2.subrange((i * ps) as int, ((i + 1) * ps) as int) == part
            &&& agree_outside(b, b2, (i * ps) as int, ((i + 1) * ps) as int)
        }),
{
    let b2 = with_page(b, i, ps, part);
    lemma_slot_choice(b, true);
    lemma_slot_choice(b, false);
    assert((i + 1) * ps <= n * ps) by (nonlinear_arith)
        requires i + 1 <= n;
    assert(ps <= i * ps) by (nonlinear_arith)
        requires 1 <= i;
    assert((i + 1) * ps == i * ps + ps) by (nonlinear_arith);
    assert(agree_outside(b, b2, (i * ps) as int, ((i + 1) * ps) as int));
    lemma_frame(b, b2, n, ps, (i * ps) as int, ((i + 1) * ps) as int);
    assert(b2.subrange((i * ps) as int, ((i + 1) * ps) as int) =~= part);
}


/// `b` with the slot at `off` replaced by `slot`.
pub open spec fn with_slot(b: Seq<u8>, off: int, slot: Seq<u8>) -> Seq<u8> {
    b.subrange(0, off) + slot + b.subrange(off + TRANSACTION_SIZE, b.len() as int)
}

/// Rewriting one slot, its allocator region left in place, keeps the layout, the primary
/// bit, the other slot and both regions.
pub proof fn lemma_slot_update(b: Seq<u8>, n: nat, ps: nat, off: int, slot: Seq<u8>)
    requires
        layout_ok(b, n, ps),
        off == TRANSACTION_0_OFFSET || off == TRANSACTION_1_OFFSET,
        slot.len() == TRANSACTION_SIZE,
        slot_view(slot).alloc_start == slot_view(slot_at(b, off)).alloc_start,
        slot_view(slot).alloc_len == slot_view(slot_at(b, off)).alloc_len,
        slot_view(slot).dirty <= 1,
    ensures
        ({
            let b2 = with_slot(b, off, slot);
            &&& layout_ok(b2, n, ps)
            &&& b2[PRIMARY_BIT_OFFSET as int] == b[PRIMARY_BIT_OFFSET as int]
            &&& slot_at(b2, off) == slot
            &&& agree_outside(b, b2, off, off + TRANSACTION_SIZE)
            &&& off == TRANSACTION_0_OFFSET ==> slot_at(b2, TRANSACTION_1_OFFSET as int) == slot_at(b, TRANSACTION_1_OFFSET as int)
            &&& off == TRANSACTION_1_OFFSET ==> slot_at(b2, TRANSACTION_0_OFFSET as int) == slot_at(b, TRANSACTION_0_OFFSET as int)
            &&& region_bytes(b2, slot_of(b, true)) == region_bytes(b, slot_of(b, true))
            &&& region_bytes(b2, slot_of(b, false)) == region_bytes(b, slot_of(b, false))
        }),
{
    let b2 = with_slot(b, off, slot);
    assert forall|i: int| 0 <= i < PRIMARY_BIT_OFFSET implies #[trigger] b2[i] == b[i] by {}
    lemma_header_kept(b, b2, n, ps);
    let b2 = with_slot(b, off, slot);
    lemma_slot_choice(b, true);
    lemma_slot_choice(b, false);
    assert(slot_at(b2, off) =~= slot);
    assert(slot_at(b2, TRANSACTION_1_OFFSET as int) =~= slot_at(b, TRANSACTION_1_OFFSET as int) || off != TRANSACTION_0_OFFSET);
    assert(slot_at(b2, TRANSACTION_0_OFFSET as int) =~= slot_at(b, TRANSACTION_0_OFFSET as int) || off != TRANSACTION_1_OFFSET);
    assert(b2[PRIMARY_BIT_OFFSET as int] == b[PRIMARY_BIT_OFFSET as int]);
    let t = slot_of(b, true);
    let f = slot_of(b, false);
    assert(region_bytes(b2, t) =~= region_bytes(b, t));
    assert(region_bytes(b2, f) =~= region_bytes(b, f));
}


/// Flipping the primary bit of `b` (and dirtying the new secondary) swaps the roles of
/// the two slots and their regions.
pub proof fn lemma_flip(b2: Seq<u8>, n: nat, ps: nat, next: u8)
    requires
        layout_ok(b2, n, ps),
        next <= 1,
        next != b2[PRIMARY_BIT_OFFSET as int],
    ensures
        ({
            let b3 = b2.update(PRIMARY_BIT_OFFSET as int, next).update(
                (if next == 0 { TRANSACTION_1_OFFSET } else { TRANSACTION_0_OFFSET }) + ALLOCATOR_STATE_DIRTY_OFFSET,
                1u8,
            );
            &&& layout_ok(b3, n, ps)
            &&& b3.len() == b2.len()
            &&& slot_of(b3, true) == slot_of(b2, false)
            &&& slot_of(b3, false) == (Slot { dirty: 1u8, ..slot_of(b2, true) })
            &&& primary_slot_of(b3) == secondary_slot_of(b2)
            &&& region_bytes(b3, slot_of(b3, true)) == region_bytes(b2, slot_of(b2, false))
            &&& region_bytes(b3, slot_of(b3, false)) == region_bytes(b2, slot_of(b2, true))
            &&& agree_outside(b2, b3, 0, DB_METAPAGE_SIZE as int)
        }),
{
    let b3 = b2.update(PRIMARY_BIT_OFFSET as int, next).update(
        (if next == 0 { TRANSACTION_1_OFFSET } else { TRANSACTION_0_OFFSET }) + ALLOCATOR_STATE_DIRTY_OFFSET,
        1u8,
    );
    assert forall|i: int| 0 <= i < PRIMARY_BIT_OFFSET implies #[trigger] b3[i] == b2[i] by {}
    lemma_header_kept(b2, b3, n, ps);
    let new_sec = if next == 0 { TRANSACTION_1_OFFSET as int } else { TRANSACTION_0_OFFSET as int };
    assert(primary_offset(b3) == secondary_offset(b2));
    assert(secondary_offset(b3) == new_sec);
    assert(new_sec == primary_offset(b2));
    assert(slot_at(b3, primary_offset(b3)) =~= slot_at(b2, secondary_offset(b2)));
    let t = slot_at(b2, new_sec);
    assert(slot_at(b3, new_sec) =~= t.update(ALLOCATOR_STATE_DIRTY_OFFSET as int, 1u8));
    let t3 = slot_at(b3, new_sec);
    assert(t3.subrange(0, 8) =~= t.subrange(0, 8));
    assert(t3.subrange(8, 12) =~= t.subrange(8, 12));
    assert(t3.subrange(12, 28) =~= t.subrange(12, 28));
    assert(t3.subrange(28, 36) =~= t.subrange(28, 36));
    assert(t3.subrange(36, 44) =~= t.subrange(36, 44));
    assert(slot_of(b3, true) == slot_of(b2, false));
    assert(slot_of(b3, false) == (Slot { dirty: 1u8, ..slot_of(b2, true) }));
    assert(slot_at(b3, TRANSACTION_0_OFFSET as int) == slot_at(b2, TRANSACTION_0_OFFSET as int)
        || slot_at(b3, TRANSACTION_1_OFFSET as int) == slot_at(b2, TRANSACTION_1_OFFSET as int));
    assert(region_bytes(b3, slot_of(b3, true)) =~= region_bytes(b2, slot_of(b2, false)));
    assert(region_bytes(b3, slot_of(b3, false)) =~= region_bytes(b2, slot_of(b2, true)));
    assert(layout_ok(b3, n, ps));
}


/// The three images that a durable commit of `txn` flushes from the image `b`, in order:
/// the transaction id written into the secondary slot; then that slot marked clean; then
/// the primary bit flipped, with the new secondary's allocator state marked dirty before
/// its region is touched.
pub open spec fn commit_images(b: Seq<u8>, txn: nat, i1: Seq<u8>, i2: Seq<u8>, i3: Seq<u8>) -> bool {
    let bit = b[PRIMARY_BIT_OFFSET as int];
    &&& i1[PRIMARY_BIT_OFFSET as int] == bit
    &&& primary_slot_of(i1) == primary_slot_of(b)
    &&& secondary_slot_of(i1) == (Slot { txn_id: txn, ..secondary_slot_of(b) })
    &&& i2[PRIMARY_BIT_OFFSET as int] == bit
    &&& primary_slot_of(i2) == primary_slot_of(b)
    &&& secondary_slot_of(i2) == (Slot { txn_id: txn, dirty: 0u8, ..secondary_slot_of(b) })
    &&& i3[PRIMARY_BIT_OFFSET as int] == 1 - bit
    &&& primary_slot_of(i3) == (Slot { txn_id: txn, dirty: 0u8, ..secondary_slot_of(b) })
    &&& secondary_slot_of(i3) == (Slot { dirty: 1u8, ..primary_slot_of(b) })
    &&& region_bytes(i3, secondary_slot_of(i3)) == region_bytes(b, primary_slot_of(b))
}

/// The flush record after marking the chosen slot's allocator state dirty in `b`: one
/// more image, with the mark, where the slot was clean.
pub open spec fn dirty_flushes(flushes: Seq<Seq<u8>>, b: Seq<u8>, primary: bool) -> Seq<Seq<u8>> {
    if slot_dirty(slot_of(b, primary)) {
        flushes
    } else {
        flushes.push(marked_dirty(b, primary))
    }
}


/// Changes confined to the metapage, followed by changes that keep the page area, keep
/// the page area.
pub proof fn lemma_metapage_steps_keep_pages(
    b0: Seq<u8>,
    b1: Seq<u8>,
    b2: Seq<u8>,
    b3: Seq<u8>,
    b4: Seq<u8>,
    b5: Seq<u8>,
    lo: int,
    end: nat,
)
    requires
        0 <= lo,
        lo + TRANSACTION_SIZE <= DB_METAPAGE_SIZE,
        agree_outside(b0, b1, lo, lo + TRANSACTION_SIZE),
        agree_outside(b1, b2, TRANSACTION_0_OFFSET as int, DB_METAPAGE_SIZE as int),
        agree_outside(b2, b3, 0, DB_METAPAGE_SIZE as int),
        pages_unchanged(b3, b4, end),
        pages_unchanged(b4, b5, end),
        end <= b0.len(),
    ensures
        pages_unchanged(b0, b5, end),
{
    assert forall|i: int| DB_METAPAGE_SIZE <= i < end implies #[trigger] b0[i] == b5[i] by {
        assert(b0[i] == b1[i]);
        assert(b1[i] == b2[i]);
        assert(b2[i] == b3[i]);
        assert(b3[i] == b4[i]);
    }
}

/// Appending a page adds its index.
pub proof fn lemma_indices_push(s: Seq<PageNumber>, p: PageNumber)
    ensures
        page_indices(s.push(p)) == page_indices(s).insert(p.page_index as int),
{
    let t = s.push(p);
    assert forall|i: int| page_indices(t).contains(i) <==> page_indices(s).insert(p.page_index as int).contains(i) by {
        if page_indices(s).contains(i) {
            let k = choose|k: int| 0 <= k < s.len() && #[trigger] s[k].page_index == i;
            assert(t[k] == s[k]);
        }
        if i == p.page_index {
            assert(t[s.len() as int] == p);
        }
        if page_indices(t).contains(i) {
            let k = choose|k: int| 0 <= k < t.len() && #[trigger] t[k].page_index == i;
            if k < s.len() {
                assert(t[k] == s[k]);
            }
        }
    }
    assert(page_indices(t) =~= page_indices(s).insert(p.page_index as int));
}

/// `len` zero bytes.
pub open spec fn zeros(len: nat) -> Seq<u8> {
    Seq::new(len, |i: int| 0u8)
}

/// Sets every byte of `buf` to zero.
fn zero_fill(buf: &mut [u8])
    ensures
        final(buf)@ == zeros(old(buf)@.len()),
{
    let n = buf.len();
    let mut i: usize = 0;
    while i < n
        invariant
            n == buf@.len(),
            n == old(buf)@.len(),
            i <= n,
            forall|j: int| 0 <= j < i ==> buf@[j] == 0u8,
        decreases n - i,
    {
        buf[i] = 0u8;
        i = i + 1;
    }
    assert(buf@ =~= zeros(old(buf)@.len()));
}


/// Marks each page of `pages` allocated (or else free) in the bitmap `region`.
fn apply_pages(allocator: PageAllocator, region: &mut [u8], pages: &Vec<PageNumber>, allocate: bool)
    requires
        bitmap_len(allocator.pages()) <= old(region)@.len(),
        forall|k: int| 0 <= k < pages@.len() ==> (#[trigger] pages@[k]).page_index < allocator.pages(),
    ensures
        final(region)@.len() == old(region)@.len(),
        allocated_in(final(region)@, allocator.pages()) == if allocate {
            allocated_in(old(region)@, allocator.pages()).union(page_indices(pages@))
        } else {
            allocated_in(old(region)@, allocator.pages()).difference(page_indices(pages@))
        },
{
    let ghost n = allocator.pages();
    let ghost start = allocated_in(region@, n);
    let mut k: usize = 0;
    while k < pages.len()
        invariant
            k <= pages@.len(),
            region@.len() == old(region)@.len(),
            bitmap_len(n) <= region@.len(),
            n == allocator.pages(),
            start == allocated_in(old(region)@, n),
            forall|j: int| 0 <= j < pages@.len() ==> (#[trigger] pages@[j]).page_index < n,
            allocated_in(region@, n) == if allocate {
                start.union(page_indices(pages@.subrange(0, k as int)))
            } else {
                start.difference(page_indices(pages@.subrange(0, k as int)))
            },
        decreases pages@.len() - k,
    {
        let page = pages[k];
        if allocate {
            allocator.record_alloc(region, page.page_index);
        } else {
            allocator.free(region, page.page_index);
        }
        proof {
            assert(pages@.subrange(0, k + 1) =~= pages@.subrange(0, k as int).push(page));
            lemma_indices_push(pages@.subrange(0, k as int), page);
            if allocate {
                assert(allocated_in(region@, n) =~= start.union(page_indices(pages@.subrange(0, k + 1))));
            } else {
                assert(allocated_in(region@, n) =~= start.difference(page_indices(pages@.subrange(0, k + 1))));
            }
        }
        k = k + 1;
    }
    assert(pages@.subrange(0, pages@.len() as int) =~= pages@);
}


/// One step of the usable-page iteration: the pages that fit in `size` bytes of `ps`-byte
/// pages beside two allocator regions sized for `guess` pages.
pub open spec fn layout_step(size: nat, ps: nat, guess: nat) -> Option<nat> {
    if 2 * bitmap_len(guess) <= size {
        Some(((size - 2 * bitmap_len(guess)) as nat) / ps)
    } else {
        None
    }
}

/// The fixed point that the usable-page iteration reaches from `guess` within `fuel` more
/// steps, if it reaches one.
pub open spec fn usable_pages_search(size: nat, ps: nat, guess: nat, fuel: nat) -> Option<nat>
    decreases fuel,
{
    match layout_step(size, ps, guess) {
        None => None,
        Some(next) => if next == guess {
            Some(guess)
        } else if fuel == 0 {
            None
        } else {
            usable_pages_search(size, ps, next, (fuel - 1) as nat)
        },
    }
}

/// Steps that the usable-page iteration may take before it gives up.
pub const USABLE_PAGES_ITERATIONS: usize = 1000;

/// The number of base pages in a file of `size` bytes, or `None` where the iteration does
/// not settle.
pub open spec fn usable_pages_for(size: nat, ps: nat) -> Option<nat> {
    usable_pages_search(size, ps, size / ps, USABLE_PAGES_ITERATIONS as nat)
}

/// A search that succeeds ends on a fixed point.
pub proof fn lemma_search_fixed_point(size: nat, ps: nat, guess: nat, fuel: nat)
    requires
        usable_pages_search(size, ps, guess, fuel) is Some,
    ensures
        layout_step(size, ps, usable_pages_search(size, ps, guess, fuel)->0) == Some(
            usable_pages_search(size, ps, guess, fuel)->0,
        ),
    decreases fuel,
{
    match layout_step(size, ps, guess) {
        None => {},
        Some(next) => {
            if next != guess && fuel > 0 {
                lemma_search_fixed_point(size, ps, next, (fuel - 1) as nat);
            }
        },
    }
}

/// Whether the stored bytes `b` begin with the magic number.
pub open spec fn has_magic(b: Seq<u8>) -> bool {
    &&& b.len() >= MAGIC_LEN
    &&& b[0] == 0x72u8
    &&& b[1] == 0x65u8
    &&& b[2] == 0x64u8
    &&& b[3] == 0x62u8
}

/// A page size that a new file may be formatted with.
pub open spec fn valid_page_size(p: nat) -> bool {
    &&& p >= DB_METAPAGE_SIZE
    &&& exists|k: nat| k < 64 && #[trigger] pow2(k) == p
}

/// The page size used when none is asked for.
pub const DEFAULT_PAGE_SIZE: usize = 4096;

/// `2^k`.
fn pow2_of(k: u8) -> (r: u128)
    requires
        k < 64,
    ensures
        r == pow2(k as nat),
{
    let mut pw: u128 = 1;
    let mut j: u8 = 0;
    proof {
        vstd::arithmetic::power2::lemma_pow2(0);
        vstd::arithmetic::power::lemma_pow0(2);
    }
    while j < k
        invariant
            j <= k,
            k < 64,
            pw == pow2(j as nat),
        decreases k - j,
    {
        proof {
            vstd::arithmetic::power2::lemma_pow2_unfold((j + 1) as nat);
            vstd::arithmetic::power2::lemma_pow2_strictly_increases((j + 1) as nat, 64);
            assert(pow2(64) == 0x1_0000_0000_0000_0000) by {
                vstd::arithmetic::power2::lemma2_to64_rest();
            }
        }
        pw = pw * 2;
        j = j + 1;
    }
    pw
}

/// The `k` with `2^k == p`, for a power of two below `2^64`.
fn log2_of(p: usize) -> (r: u8)
    requires
        exists|k: nat| k < 64 && #[trigger] pow2(k) == p,
    ensures
        r < 64,
        pow2(r as nat) == p,
{
    let mut k: u8 = 0;
    while k < 63 && pow2_of(k) != p as u128
        invariant
            k <= 63,
            forall|j: nat| j < k ==> pow2(j) != p,
            exists|k: nat| k < 64 && #[trigger] pow2(k) == p,
        decreases 63 - k,
    {
        k = k + 1;
    }
    proof {
        if pow2(k as nat) != p {
            let k0 = choose|k0: nat| k0 < 64 && #[trigger] pow2(k0) == p;
            assert(k0 < k);
        }
    }
    k
}


/// The facts about a freshly formatted image `b` of `n` pages of `ps` bytes, magic aside.
pub open spec fn fresh_image(b: Seq<u8>, n: nat, ps: nat) -> bool {
    let r = bitmap_len(n);
    &&& layout_core(b, n, ps)
    &&& b[PRIMARY_BIT_OFFSET as int] == 0
    &&& b[VERSION_OFFSET as int] == 1
    &&& b[PAGE_SIZE_OFFSET as int] < 64
    &&& pow2(b[PAGE_SIZE_OFFSET as int] as nat) == ps
    &&& be_value(b.subrange(DB_SIZE_OFFSET as int, PRIMARY_BIT_OFFSET as int)) == b.len()
    &&& slot_of(b, true) == (Slot { root: 0, message_bytes: 0, txn_id: 0, alloc_start: (b.len() - 2 * r) as nat, alloc_len: r, dirty: 0 })
    &&& slot_of(b, false) == (Slot { root: 0, message_bytes: 0, txn_id: 0, alloc_start: (b.len() - r) as nat, alloc_len: r, dirty: 0 })
    &&& allocated_in(region_bytes(b, slot_of(b, true)), n) == set![0int]
    &&& allocated_in(region_bytes(b, slot_of(b, false)), n) == set![0int]
}

/// `buf[lo..hi]`, borrowed mutably.
fn range_mut(buf: &mut [u8], lo: usize, hi: usize) -> (r: &mut [u8])
    requires
        lo <= hi <= old(buf)@.len(),
    ensures
        r@ == old(buf)@.subrange(lo as int, hi as int),
        final(buf)@ == old(buf)@.subrange(0, lo as int) + final(r)@ + old(buf)@.subrange(hi as int, old(buf)@.len() as int),
{
    let (_head, tail) = buf.split_at_mut(lo);
    let (mid, _rest) = tail.split_at_mut(hi - lo);
    mid
}

/// Writes a clean, empty transaction slot at the secondary position of `buf`, pointing
/// at the allocator region of `len` bytes at `start`.
fn init_secondary_slot(buf: &mut [u8], start: usize, len: usize)
    requires
        old(buf)@.len() >= DB_METAPAGE_SIZE,
    ensures
        final(buf)@.len() == old(buf)@.len(),
        agree_outside(old(buf)@, final(buf)@, secondary_offset(old(buf)@), secondary_offset(old(buf)@) + TRANSACTION_SIZE),
        slot_view(slot_at(final(buf)@, secondary_offset(old(buf)@))) == (Slot {
            root: 0, message_bytes: 0, txn_id: 0, alloc_start: start as nat, alloc_len: len as nat, dirty: 0,
        }),
{
    let ghost b = buf@;
    let slot = get_secondary(buf);
    let mut mutator = TransactionMutator::new(slot);
    mutator.set_root_page(PageNumber::null(), 0);
    mutator.set_last_committed_transaction_id(0);
    mutator.set_allocator_dirty(false);
    mutator.set_allocator_data(start, len);
    let ghost s = mutator.mem@;
    proof {
        crate::codec::lemma_pow256_facts();
        crate::codec::lemma_encode_len(0, 8);
        crate::codec::lemma_value_of_encode(0, 8);
    }
    assert(slot_at(buf@, secondary_offset(b)) =~= s);
}

/// Formats an allocator region for `n` pages in `buf[start..start + len]` with only the
/// metapage allocated.
fn init_region(buf: &mut [u8], start: usize, len: usize, n: usize)
    requires
        n >= 1,
        len == bitmap_len(n as nat),
        start + len <= old(buf)@.len(),
    ensures
        final(buf)@.len() == old(buf)@.len(),
        agree_outside(old(buf)@, final(buf)@, start as int, start + len),
        allocated_in(final(buf)@.subrange(start as int, start + len), n as nat) == set![0int],
{
    let ghost b = buf@;
    let total = buf.len();
    let region = range_mut(buf, start, start + len);
    let allocator = PageAllocator::init_new(region, n);
    allocator.record_alloc(region, DB_METADATA_PAGE);
    let ghost part = region@;
    assert(allocated_in(part, n as nat) =~= set![0int]);
    assert(buf@.subrange(start as int, start + len) =~= part);
}

/// Formats `buf` as an empty store of `n` pages of `2^log` bytes: header, both slots and
/// both allocator regions; the magic number is left for the caller.
#[verifier::rlimit(60)]
fn format_new(buf: &mut [u8], n: usize, page_size: usize, log: u8)
    requires
        page_size >= DB_METAPAGE_SIZE,
        1 <= n <= INDEX_LIMIT,
        log < 64,
        pow2(log as nat) == page_size,
        page_size <= n * page_size,
        n * page_size + 2 * bitmap_len(n as nat) <= old(buf)@.len(),
    ensures
        final(buf)@[0] == 0u8,
        fresh_image(final(buf)@, n as nat, page_size as nat),
        final(buf)@.subrange(MAGIC_LEN as int, final(buf)@.len() as int).len() + MAGIC_LEN == old(buf)@.len(),
{
    let total = buf.len();
    let space = PageAllocator::required_space(n);
    let tail = n * page_size;
    // Explicitly zero the metapage and everything after the page area
    let meta = range_mut(buf, 0, DB_METAPAGE_SIZE);
    zero_fill(meta);
    let rest = range_mut(buf, tail, total);
    zero_fill(rest);
    buf[PAGE_SIZE_OFFSET] = log;
    write_be(buf, DB_SIZE_OFFSET, 8, total as u128);
    let ghost b3 = buf@;
    // Set to 1, so that slot 0 is the secondary while it is written
    buf[PRIMARY_BIT_OFFSET] = 1;
    let ghost b4 = buf@;
    let start0 = total - 2 * space;
    init_secondary_slot(buf, start0, space);
    let ghost b5 = buf@;
    init_region(buf, start0, space, n);
    let ghost b6 = buf@;
    // Make the slot just written the primary
    buf[PRIMARY_BIT_OFFSET] = 0;
    let ghost b7 = buf@;
    let start1 = total - space;
    init_secondary_slot(buf, start1, space);
    let ghost b8 = buf@;
    init_region(buf, start1, space, n);
    let ghost b9 = buf@;
    buf[VERSION_OFFSET] = 1;
    proof {
        let b = buf@;
        assert(secondary_offset(b4) == TRANSACTION_0_OFFSET);
        assert(secondary_offset(b7) == TRANSACTION_1_OFFSET);
        assert(DB_METAPAGE_SIZE <= start0);
        crate::codec::lemma_pow256_facts();
        crate::codec::lemma_encode_len(total as nat, 8);
        crate::codec::lemma_value_of_encode(total as nat, 8);
        assert(b3.subrange(DB_SIZE_OFFSET as int, PRIMARY_BIT_OFFSET as int) =~= crate::codec::be_encode(total as nat, 8));
        assert forall|i: int| 0 <= i < TRANSACTION_0_OFFSET && i != PRIMARY_BIT_OFFSET && i != VERSION_OFFSET implies b[i] == b3[i] by {
            assert(b4[i] == b3[i]);
            assert(b5[i] == b4[i]);
            assert(b6[i] == b5[i]);
            assert(b7[i] == b6[i]);
            assert(b8[i] == b7[i]);
            assert(b9[i] == b8[i]);
        }
        assert(b.subrange(DB_SIZE_OFFSET as int, PRIMARY_BIT_OFFSET as int) =~= b3.subrange(DB_SIZE_OFFSET as int, PRIMARY_BIT_OFFSET as int));
        assert(b[PAGE_SIZE_OFFSET as int] == log);
        assert(b[0] == b3[0]);
        assert forall|i: int| TRANSACTION_0_OFFSET <= i < TRANSACTION_1_OFFSET implies b[i] == b5[i] by {
            assert(b6[i] == b5[i]);
            assert(b7[i] == b6[i]);
            assert(b8[i] == b7[i]);
            assert(b9[i] == b8[i]);
        }
        assert(slot_at(b, TRANSACTION_0_OFFSET as int) =~= slot_at(b5, TRANSACTION_0_OFFSET as int));
        assert forall|i: int| TRANSACTION_1_OFFSET <= i < DB_METAPAGE_SIZE implies b[i] == b8[i] by {
            assert(b9[i] == b8[i]);
        }
        assert(slot_at(b, TRANSACTION_1_OFFSET as int) =~= slot_at(b8, TRANSACTION_1_OFFSET as int));
        assert forall|i: int| start0 <= i < start0 + space implies b[i] == b6[i] by {
            assert(b7[i] == b6[i]);
            assert(b8[i] == b7[i]);
            assert(b9[i] == b8[i]);
        }
        assert(b.subrange(start0 as int, start0 + space) =~= b6.subrange(start0 as int, start0 + space));
        assert(b.subrange(start1 as int, start1 + space) =~= b9.subrange(start1 as int, start1 + space));
    }
}


/// Whether the stored image `b` opens as is under `requested`: a sound header and layout,
/// and both slots clean.
pub open spec fn openable(b: Seq<u8>, requested: Option<usize>) -> bool {
    let ps = pow2(b[PAGE_SIZE_OFFSET as int] as nat);
    &&& b.len() >= DB_METAPAGE_SIZE
    &&& b[PAGE_SIZE_OFFSET as int] < 64
    &&& DB_METAPAGE_SIZE <= ps <= usize::MAX
    &&& (requested matches Some(p) ==> p == ps)
    &&& be_value(b.subrange(DB_SIZE_OFFSET as int, PRIMARY_BIT_OFFSET as int)) == b.len()
    &&& usable_pages_for(b.len(), ps) matches Some(n) && 1 <= n <= INDEX_LIMIT && layout_ok(b, n, ps)
        && allocated_in(region_bytes(b, slot_of(b, true)), n).contains(0)
        && allocated_in(region_bytes(b, slot_of(b, false)), n).contains(0)
    &&& !slot_dirty(slot_of(b, true))
    &&& !slot_dirty(slot_of(b, false))
}

/// Whether the slot bytes `slot` point at a region that fits the layout.
fn region_fits(slot: &[u8], n: usize, page_size: usize, total: usize) -> (r: bool)
    requires
        slot@.len() == TRANSACTION_SIZE,
    ensures
        r == region_ok(slot_view(slot@), n as nat, page_size as nat, total as nat),
{
    let start = read_be(slot, crate::metapage::ALLOCATOR_STATE_PTR_OFFSET, 8);
    let len = read_be(slot, crate::metapage::ALLOCATOR_STATE_LEN_OFFSET, 8);
    let space = PageAllocator::required_space(n);
    let a = n as u128;
    let c = page_size as u128;
    proof {
        assert(a * c <= 0xffff_ffff_ffff_ffff_ffff_ffff_ffff_ffff) by (nonlinear_arith)
            requires 0 <= a <= 0xffff_ffff_ffff_ffff, 0 <= c <= 0xffff_ffff_ffff_ffff;
    }
    let area = a * c;
    len == space as u128 && area <= start && start + len <= total as u128
}

/// An exclusive handle to a page: while it lives, no shared view of the page can be taken.
pub struct PageMut {
    page_number: PageNumber,
}

impl PageMut {
    pub closed spec fn number(&self) -> PageNumber {
        self.page_number
    }

    pub fn get_page_number(&self) -> (r: PageNumber)
        ensures
            r == self.number(),
    {
        self.page_number
    }

    /// The page's bytes.
    pub fn memory<'a>(&self, mem: &'a TransactionalMemory) -> (r: &'a [u8])
        requires
            mem.wf(),
            mem.open_pages().contains(self.number()),
        ensures
            r@ == mem.page_bytes(self.number()),
    {
        proof {
            let k = choose|k: int| 0 <= k < mem.open_dirty_pages@.len() && mem.open_dirty_pages@[k] == self.page_number;
            assert(mem.open_dirty_pages@[k].page_order == 0);
            mem.lemma_page_in_range(self.page_number);
        }
        let all = map_bytes(&mem.mmap);
        let range = self.page_number.address_range(mem.page_size);
        &all[range.start..range.end]
    }

    /// The page's bytes, for writing; the manager holds what the view holds when released.
    pub fn memory_mut<'a>(&self, mem: &'a mut TransactionalMemory) -> (r: &'a mut [u8])
        requires
            old(mem).wf(),
            old(mem).open_pages().contains(self.number()),
        ensures
            r@ == old(mem).page_bytes(self.number()),
            r@.len() == old(mem).page_size(),
            final(mem).bytes() == old(mem).bytes().subrange(
                0,
                self.number().start_byte(old(mem).page_size()) as int,
            ) + final(r)@ + old(mem).bytes().subrange(
                self.number().end_byte(old(mem).page_size()) as int,
                old(mem).bytes().len() as int,
            ),
            final(mem).same_bookkeeping(old(mem)),
            final(mem).flushes() == old(mem).flushes(),
    {
        proof {
            let k = choose|k: int| 0 <= k < old(mem).open_dirty_pages@.len() && old(mem).open_dirty_pages@[k] == self.page_number;
            assert(old(mem).open_dirty_pages@[k].page_order == 0);
            mem.lemma_page_in_range(self.page_number);
        }
        let range = self.page_number.address_range(mem.page_size);
        mem.borrow_range(range.start, range.end)
    }

    /// Gives the handle up: the page may then be viewed again.
    pub fn release(self, mem: &mut TransactionalMemory)
        requires
            old(mem).wf(),
            old(mem).open_pages().contains(self.number()),
        ensures
            final(mem).wf(),
            final(mem).open_pages().to_set() == old(mem).open_pages().to_set().remove(self.number()),
            final(mem).open_pages().len() + 1 == old(mem).open_pages().len(),
            final(mem).bytes() == old(mem).bytes(),
            final(mem).uncommitted_pages() == old(mem).uncommitted_pages(),
            final(mem).freed_pages() == old(mem).freed_pages(),
            final(mem).reads_secondary() == old(mem).reads_secondary(),
            final(mem).transaction_start() == old(mem).transaction_start(),
            final(mem).usable_pages() == old(mem).usable_pages(),
            final(mem).page_size() == old(mem).page_size(),
            final(mem).flushes() == old(mem).flushes(),
    {
        let page = self.page_number;
        let n = mem.open_dirty_pages.len();
        let mut k: usize = 0;
        let mut found = false;
        while k < n && !found
            invariant
                n == mem.open_dirty_pages@.len(),
                k <= n,
                found ==> k < n && mem.open_dirty_pages@[k as int] == page,
                forall|j: int| 0 <= j < k ==> mem.open_dirty_pages@[j] != page,
                old(mem).open_dirty_pages@.contains(page),
                mem.open_dirty_pages@ == old(mem).open_dirty_pages@,
            decreases n - k + if found { 0int } else { 1int },
        {
            if mem.open_dirty_pages[k] == page {
                found = true;
            } else {
                k = k + 1;
            }
        }
        let ghost o0 = mem.open_dirty_pages@;
        mem.open_dirty_pages.remove(k);
        proof {
            let o1 = mem.open_dirty_pages@;
            assert(o1 =~= o0.remove(k as int));
            assert(o1.to_set() =~= o0.to_set().remove(page)) by {
                assert forall|x: PageNumber| o1.to_set().contains(x) <==> o0.to_set().remove(page).contains(x) by {
                    if o1.contains(x) {
                        let j = choose|j: int| 0 <= j < o1.len() && o1[j] == x;
                        if j < k {
                            assert(o0[j] == o1[j]);
                            assert(o0[j].page_index != o0[k as int].page_index);
                        } else {
                            assert(o0[j + 1] == o1[j]);
                            assert(o0[j + 1].page_index != o0[k as int].page_index);
                        }
                    }
                    if o0.to_set().remove(page).contains(x) {
                        let j = choose|j: int| 0 <= j < o0.len() && o0[j] == x;
                        if j < k {
                            assert(o1[j] == o0[j]);
                        } else if j > k {
                            assert(o1[j - 1] == o0[j]);
                        }
                    }
                }
            }
            assert(pages_ok(o1, mem.usable_pages())) by {
                assert forall|k1: int, k2: int|
                    0 <= k1 < k2 < o1.len() implies (#[trigger] o1[k1]).page_index != (#[trigger] o1[k2]).page_index by {
                    let j1 = if k1 < k { k1 } else { k1 + 1 };
                    let j2 = if k2 < k { k2 } else { k2 + 1 };
                    assert(o1[k1] == o0[j1]);
                    assert(o1[k2] == o0[j2]);
                }
                assert forall|k1: int| 0 <= k1 < o1.len() implies (#[trigger] o1[k1]).page_order == 0
                    && 1 <= o1[k1].page_index < mem.usable_pages() by {
                    let j1 = if k1 < k { k1 } else { k1 + 1 };
                    assert(o1[k1] == o0[j1]);
                }
            }
            assert(page_indices(o1).subset_of(mem.secondary_allocated())) by {
                assert forall|i: int| page_indices(o1).contains(i) implies mem.secondary_allocated().contains(i) by {
                    let j = choose|j: int| 0 <= j < o1.len() && #[trigger] o1[j].page_index == i;
                    let j0 = if j < k { j } else { j + 1 };
                    assert(o1[j] == o0[j0]);
                    assert(page_indices(o0).contains(i));
                }
            }
        }
    }
}

/// A shared view of a page's bytes.
pub struct PageImpl<'a> {
    mem: &'a [u8],
    page_number: PageNumber,
}


impl<'a> PageImpl<'a> {
    pub closed spec fn number(&self) -> PageNumber {
        self.page_number
    }

    /// The page's bytes.
    pub closed spec fn contents(&self) -> Seq<u8> {
        self.mem@
    }

    pub fn memory(&self) -> (r: &[u8])
        ensures
            r@ == self.contents(),
    {
        self.mem
    }

    pub fn get_page_number(&self) -> (r: PageNumber)
        ensures
            r == self.number(),
    {
        self.page_number
    }
}

/// The page manager of one mapped file.
///
/// Rust has no verified destructor here: call `close` to finish. A manager that is simply
/// dropped loses a non-durable commit still outstanding, and leaves the secondary slot's
/// allocator state marked dirty, so that the next open reports `Error::RepairRequired`.
pub struct TransactionalMemory {
    // Pages allocated since the last commit
    allocated_since_commit: Vec<PageNumber>,
    freed_since_commit: Vec<PageNumber>,
    page_allocator: PageAllocator,
    mmap: MmapMut,
    // Pages with an outstanding exclusive handle
    open_dirty_pages: Vec<PageNumber>,
    // Set by a non-durable commit: reads are then served from the secondary slot
    read_from_secondary: bool,
    page_size: usize,
    // The file images that successful flushes wrote, oldest first
    flushed: Ghost<Seq<Seq<u8>>>,
    // The pages that the secondary allocator held when the transaction began
    txn_start: Ghost<Set<int>>,
}

impl TransactionalMemory {
    /// The mapped bytes.
    pub closed spec fn bytes(&self) -> Seq<u8> {
        mapped_bytes(self.mmap)
    }

    pub open spec fn primary(&self) -> Slot {
        primary_slot_of(self.bytes())
    }

    pub open spec fn secondary(&self) -> Slot {
        secondary_slot_of(self.bytes())
    }

    pub open spec fn primary_bit(&self) -> u8 {
        self.bytes()[PRIMARY_BIT_OFFSET as int]
    }

    /// The number of base pages, metapage included, that the allocators track.
    pub closed spec fn usable_pages(&self) -> nat {
        self.page_allocator.pages()
    }

    pub closed spec fn page_size(&self) -> nat {
        self.page_size as nat
    }

    /// Pages that the primary slot's allocator region marks allocated.
    pub open spec fn primary_allocated(&self) -> Set<int> {
        allocated_in(region_bytes(self.bytes(), self.primary()), self.usable_pages())
    }

    /// Pages that the secondary slot's allocator region marks allocated.
    pub open spec fn secondary_allocated(&self) -> Set<int> {
        allocated_in(region_bytes(self.bytes(), self.secondary()), self.usable_pages())
    }

    /// How many pages the secondary allocator region marks free.
    pub open spec fn free_pages(&self) -> nat {
        free_count(region_bytes(self.bytes(), self.secondary()), self.usable_pages())
    }

    pub closed spec fn uncommitted_pages(&self) -> Seq<PageNumber> {
        self.allocated_since_commit@
    }

    pub closed spec fn freed_pages(&self) -> Seq<PageNumber> {
        self.freed_since_commit@
    }

    pub closed spec fn open_pages(&self) -> Seq<PageNumber> {
        self.open_dirty_pages@
    }

    pub closed spec fn reads_secondary(&self) -> bool {
        self.read_from_secondary
    }

    /// The file images that successful flushes have written, oldest first.
    pub closed spec fn flushes(&self) -> Seq<Seq<u8>> {
        self.flushed@
    }

    /// The pages that the secondary allocator held when the current transaction began.
    pub closed spec fn transaction_start(&self) -> Set<int> {
        self.txn_start@
    }

    /// The bytes of page `p`.
    pub open spec fn page_bytes(&self, p: PageNumber) -> Seq<u8> {
        self.bytes().subrange(p.start_byte(self.page_size()) as int, p.end_byte(self.page_size()) as int)
    }

    /// The slot that reads of the root and transaction id are served from.
    pub open spec fn visible_slot(&self) -> Slot {
        if self.reads_secondary() {
            self.secondary()
        } else {
            self.primary()
        }
    }

    /// Everything but the mapped bytes and the flush record is equal.
    pub open spec fn same_bookkeeping(&self, o: &Self) -> bool {
        &&& self.uncommitted_pages() == o.uncommitted_pages()
        &&& self.freed_pages() == o.freed_pages()
        &&& self.usable_pages() == o.usable_pages()
        &&& self.open_pages() == o.open_pages()
        &&& self.reads_secondary() == o.reads_secondary()
        &&& self.page_size() == o.page_size()
        &&& self.transaction_start() == o.transaction_start()
    }

    pub closed spec fn wf(&self) -> bool {
        let n = self.usable_pages();
        let a = page_indices(self.allocated_since_commit@);
        let f = page_indices(self.freed_since_commit@);
        &&& layout_ok(self.bytes(), n, self.page_size as nat)
        &&& pages_ok(self.allocated_since_commit@, n)
        &&& pages_ok(self.freed_since_commit@, n)
        &&& pages_ok(self.open_dirty_pages@, n)
        &&& page_indices(self.open_dirty_pages@).subset_of(self.secondary_allocated())
        &&& self.secondary_allocated() == self.txn_start@.difference(f).union(a)
        &&& f.subset_of(self.txn_start@)
        &&& a.disjoint(self.txn_start@.difference(f))
        &&& self.txn_start@.contains(0)
        &&& self.primary_allocated().contains(0)
        &&& !self.read_from_secondary ==> !slot_dirty(self.primary())
    }

    /// The pages `[lo, hi)` of the mapping, borrowed mutably.
    fn borrow_range(&mut self, lo: usize, hi: usize) -> (r: &mut [u8])
        requires
            lo <= hi <= old(self).bytes().len(),
        ensures
            r@ == old(self).bytes().subrange(lo as int, hi as int),
            final(self).bytes() == old(self).bytes().subrange(0, lo as int) + final(r)@ + old(
                self,
            ).bytes().subrange(hi as int, old(self).bytes().len() as int),
            final(self).same_bookkeeping(old(self)),
            final(self).flushed == old(self).flushed,
    {
        let bytes = map_bytes_mut(&mut self.mmap);
        let (_head, tail) = bytes.split_at_mut(lo);
        let (mid, _rest) = tail.split_at_mut(hi - lo);
        mid
    }

    /// Writes outstanding changes through to the file; a success records the image written.
    fn flush(&mut self) -> (r: Result<(), Error>)
        ensures
            final(self).bytes() == old(self).bytes(),
            final(self).same_bookkeeping(old(self)),
            final(self).wf() == old(self).wf(),
            match r {
                Ok(()) => final(self).flushes() == old(self).flushes().push(old(self).bytes()),
                Err(e) => final(self).flushes() == old(self).flushes() && e is Io,
            },
    {
        match flush_map(&self.mmap) {
            Ok(()) => {
                self.flushed = Ghost(self.flushed@.push(self.bytes()));
                Ok(())
            },
            Err(e) => Err(Error::Io(e)),
        }
    }

    /// The allocator region of the primary (or else the secondary) slot, borrowed mutably
    /// after its state has been marked dirty; marking it dirty is flushed before any change.
    fn acquire_mutable_page_allocator(&mut self, primary: bool) -> (r: Result<&mut [u8], Error>)
        requires
            layout_ok(old(self).bytes(), old(self).usable_pages(), old(self).page_size()),
        ensures
            final(self).same_bookkeeping(old(self)),
            ({
                let b = old(self).bytes();
                let b1 = marked_dirty(b, primary);
                let st = slot_of(b, primary).alloc_start as int;
                let en = (slot_of(b, primary).alloc_start + slot_of(b, primary).alloc_len) as int;
                match r {
                    Ok(region) => {
                        &&& region@ == region_bytes(b, slot_of(b, primary))
                        &&& final(self).bytes() == b1.subrange(0, st) + final(region)@ + b1.subrange(en, b1.len() as int)
                        &&& final(self).flushes() == if slot_dirty(slot_of(b, primary)) {
                            old(self).flushes()
                        } else {
                            old(self).flushes().push(b1)
                        }
                    },
                    Err(e) => {
                        &&& e is Io
                        &&& !slot_dirty(slot_of(b, primary))
                        &&& final(self).bytes() == b1
                        &&& final(self).flushes() == old(self).flushes()
                    },
                }
            }),
    {
        let ghost b = self.bytes();
        proof {
            lemma_dirty_frame(b, self.usable_pages(), self.page_size as nat, primary, 1u8);
        }
        let all = map_bytes(&self.mmap);
        let slot = if primary {
            get_primary(all)
        } else {
            get_secondary_const(all)
        };
        let total = all.len();
        proof {
            lemma_slot_choice(b, primary);
        }
        let accessor = TransactionAccessor::new(slot);
        let dirty = accessor.get_allocator_dirty();
        let (start, end) = accessor.get_allocator_data();
        if !dirty {
            self.set_allocator_dirty(primary, true);
            match self.flush() {
                Ok(()) => {},
                Err(e) => {
                    return Err(e);
                },
            }
        }
        let region = self.borrow_range(start, end);
        Ok(region)
    }


    #[verifier::rlimit(80)]
    pub fn allocate(&mut self, allocation_size: usize) -> (r: Result<PageMut, Error>)
        requires
            old(self).wf(),
            allocation_size <= old(self).page_size(),
        ensures
            final(self).wf(),
            final(self).usable_pages() == old(self).usable_pages(),
            final(self).page_size() == old(self).page_size(),
            final(self).primary() == old(self).primary(),
            final(self).primary_bit() == old(self).primary_bit(),
            final(self).primary_allocated() == old(self).primary_allocated(),
            final(self).freed_pages() == old(self).freed_pages(),
            final(self).transaction_start() == old(self).transaction_start(),
            final(self).reads_secondary() == old(self).reads_secondary(),
            final(self).secondary() == (Slot { dirty: final(self).secondary().dirty, ..old(self).secondary() }),
            final(self).flushes() == if r is Ok || r matches Err(Error::OutOfSpace) {
                dirty_flushes(old(self).flushes(), old(self).bytes(), false)
            } else {
                old(self).flushes()
            },
            match r {
                Ok(page) => {
                    let p = page.number();
                    &&& p.page_order == 0
                    &&& 1 <= p.page_index < old(self).usable_pages()
                    &&& !old(self).secondary_allocated().contains(p.page_index as int)
                    &&& forall|j: int| 0 <= j < p.page_index ==> old(self).secondary_allocated().contains(j)
                    &&& final(self).secondary_allocated() == old(self).secondary_allocated().insert(p.page_index as int)
                    &&& final(self).free_pages() + 1 == old(self).free_pages()
                    &&& final(self).uncommitted_pages() == old(self).uncommitted_pages().push(p)
                    &&& final(self).open_pages() == old(self).open_pages().push(p)
                    &&& final(self).page_bytes(p) == zeros(old(self).page_size())
                    &&& final(self).secondary().dirty == 1u8
                    &&& forall|q: PageNumber|
                        q.page_order == 0 && 1 <= q.page_index < old(self).usable_pages() && q.page_index != p.page_index
                            ==> #[trigger] final(self).page_bytes(q) == old(self).page_bytes(q)
                },
                Err(Error::OutOfSpace) => {
                    &&& forall|j: int| 0 <= j < old(self).usable_pages() ==> old(self).secondary_allocated().contains(j)
                    &&& final(self).secondary_allocated() == old(self).secondary_allocated()
                    &&& final(self).uncommitted_pages() == old(self).uncommitted_pages()
                    &&& final(self).open_pages() == old(self).open_pages()
                },
                Err(Error::Io(_)) => {
                    &&& !slot_dirty(old(self).secondary())
                    &&& final(self).secondary_allocated() == old(self).secondary_allocated()
                    &&& final(self).uncommitted_pages() == old(self).uncommitted_pages()
                    &&& final(self).open_pages() == old(self).open_pages()
                },
                Err(_) => false,
            },
    {
        let ghost b = self.bytes();
        let ghost n = self.usable_pages();
        let ghost ps = self.page_size as nat;
        let page_index = match self.allocate_index() {
            Ok(i) => i,
            Err(e) => {
                return Err(e);
            },
        };
        let ghost b2 = self.bytes();
        let page_number = PageNumber::new(page_index, 0);
        proof {
            assert(page_index != 0);
            lemma_indices_push(old(self).allocated_since_commit@, page_number);
            lemma_indices_push(old(self).open_dirty_pages@, page_number);
            vstd::arithmetic::power2::lemma_pow2(0);
            vstd::arithmetic::power::lemma_pow0(2);
            assert(run_pages(0) == 1);
            assert((page_index + 1) * ps <= n * ps) by (nonlinear_arith)
                requires page_index + 1 <= n;
            assert(page_number.end_byte(ps) == (page_index + 1) * ps);
            assert(page_number.start_byte(ps) == page_index * ps);
            assert((page_index + 1) * ps == page_index * ps + ps) by (nonlinear_arith);
        }
        self.allocated_since_commit.push(page_number);
        self.open_dirty_pages.push(page_number);
        let range = page_number.address_range(self.page_size);
        let mem = self.borrow_range(range.start, range.end);
        zero_fill(mem);
        proof {
            let z = zeros(ps);
            lemma_page_update(b2, n, ps, page_index as nat, z);
            assert(self.bytes() =~= with_page(b2, page_index as nat, ps, z));
            assert forall|q: PageNumber|
                q.page_order == 0 && 1 <= q.page_index < n && q.page_index != page_index
                    implies #[trigger] self.page_bytes(q) == old(self).page_bytes(q) by {
                old(self).lemma_page_in_range(q);
                crate::page_number::lemma_distinct_pages_disjoint(q, page_number, ps);
                assert(self.page_bytes(q) =~= old(self).page_bytes(q));
            }
            let a = page_indices(self.allocated_since_commit@);
            let f = page_indices(self.freed_since_commit@);
            let s0 = self.txn_start@;
            assert(self.secondary_allocated() =~= s0.difference(f).union(a));
            assert(a.disjoint(s0.difference(f)));
            assert(pages_ok(self.allocated_since_commit@, n)) by {
                assert forall|k1: int, k2: int|
                    0 <= k1 < k2 < self.allocated_since_commit@.len() implies
                    (#[trigger] self.allocated_since_commit@[k1]).page_index
                        != (#[trigger] self.allocated_since_commit@[k2]).page_index by {
                    if k2 == self.allocated_since_commit@.len() - 1 {
                        assert(page_indices(old(self).allocated_since_commit@).contains(
                            self.allocated_since_commit@[k1].page_index as int));
                    }
                }
            }
            assert(pages_ok(self.open_dirty_pages@, n)) by {
                assert forall|k1: int, k2: int|
                    0 <= k1 < k2 < self.open_dirty_pages@.len() implies
                    (#[trigger] self.open_dirty_pages@[k1]).page_index
                        != (#[trigger] self.open_dirty_pages@[k2]).page_index by {
                    if k2 == self.open_dirty_pages@.len() - 1 {
                        assert(page_indices(old(self).open_dirty_pages@).contains(
                            self.open_dirty_pages@[k1].page_index as int));
                    }
                }
            }
        }
        proof {
            crate::allocator::lemma_free_count_insert(
                region_bytes(old(self).bytes(), old(self).secondary()),
                region_bytes(self.bytes(), self.secondary()),
                n,
                page_index as int,
            );
        }
        Ok(PageMut { page_number })
    }

    /// Takes the lowest free page from the secondary allocator region, marking that
    /// region dirty (and flushing) first if it was clean.
    #[verifier::rlimit(40)]
    fn allocate_index(&mut self) -> (r: Result<u64, Error>)
        requires
            old(self).wf(),
        ensures
            final(self).same_bookkeeping(old(self)),
            layout_ok(final(self).bytes(), old(self).usable_pages(), old(self).page_size()),
            final(self).primary() == old(self).primary(),
            final(self).primary_bit() == old(self).primary_bit(),
            final(self).primary_allocated() == old(self).primary_allocated(),
            final(self).secondary() == (Slot { dirty: final(self).secondary().dirty, ..old(self).secondary() }),
            forall|i: int|
                DB_METAPAGE_SIZE <= i < old(self).usable_pages() * old(self).page_size() ==> #[trigger] final(self).bytes()[i]
                    == old(self).bytes()[i],
            final(self).flushes() == if r is Ok || r matches Err(Error::OutOfSpace) {
                dirty_flushes(old(self).flushes(), old(self).bytes(), false)
            } else {
                old(self).flushes()
            },
            match r {
                Ok(i) => {
                    &&& i < old(self).usable_pages()
                    &&& !old(self).secondary_allocated().contains(i as int)
                    &&& forall|j: int| 0 <= j < i ==> old(self).secondary_allocated().contains(j)
                    &&& final(self).secondary_allocated() == old(self).secondary_allocated().insert(i as int)
                    &&& final(self).secondary().dirty == 1u8
                },
                Err(Error::OutOfSpace) => {
                    &&& forall|j: int| 0 <= j < old(self).usable_pages() ==> old(self).secondary_allocated().contains(j)
                    &&& final(self).secondary_allocated() == old(self).secondary_allocated()
                },
                Err(Error::Io(_)) => {
                    &&& !slot_dirty(old(self).secondary())
                    &&& final(self).secondary_allocated() == old(self).secondary_allocated()
                },
                Err(_) => false,
            },
    {
        let ghost b = self.bytes();
        let ghost n = self.usable_pages();
        let ghost ps = self.page_size as nat;
        proof {
            lemma_dirty_frame(b, n, ps, false, 1u8);
            lemma_slot_choice(b, false);
        }
        let ghost b1 = marked_dirty(b, false);
        let allocator = self.page_allocator;
        let region = match self.acquire_mutable_page_allocator(false) {
            Ok(region) => region,
            Err(e) => {
                return Err(e);
            },
        };
        let index = allocator.alloc_page(region);
        proof {
            lemma_region_update(b1, n, ps, false, self.bytes().subrange(
                slot_of(b, false).alloc_start as int, (slot_of(b, false).alloc_start + slot_of(b, false).alloc_len) as int));
            assert(self.bytes() =~= with_region(b1, false, self.bytes().subrange(
                slot_of(b, false).alloc_start as int, (slot_of(b, false).alloc_start + slot_of(b, false).alloc_len) as int)));
            assert forall|i: int| DB_METAPAGE_SIZE <= i < n * ps implies #[trigger] self.bytes()[i] == b[i] by {
                assert(self.bytes().subrange(0, (n * ps) as int)[i] == b1.subrange(0, (n * ps) as int)[i]);
            }
        }
        match index {
            Some(i) => Ok(i),
            None => Err(Error::OutOfSpace),
        }
    }


    /// Marks `pages` allocated (or else free) in the allocator region of the primary (or else
    /// the secondary) slot, marking that region dirty (and flushing) first if it was clean.
    #[verifier::rlimit(100)]
    fn update_region(&mut self, primary: bool, pages: &Vec<PageNumber>, allocate: bool) -> (r: Result<(), Error>)
        requires
            layout_ok(old(self).bytes(), old(self).usable_pages(), old(self).page_size()),
            forall|k: int| 0 <= k < pages@.len() ==> (#[trigger] pages@[k]).page_index < old(self).usable_pages(),
        ensures
            final(self).same_bookkeeping(old(self)),
            layout_ok(final(self).bytes(), old(self).usable_pages(), old(self).page_size()),
            final(self).bytes().len() == old(self).bytes().len(),
            pages_unchanged(old(self).bytes(), final(self).bytes(), old(self).usable_pages() * old(self).page_size()),
            final(self).primary_bit() == old(self).primary_bit(),
            slot_of(final(self).bytes(), primary) == (Slot {
                dirty: slot_of(final(self).bytes(), primary).dirty,
                ..slot_of(old(self).bytes(), primary)
            }),
            slot_of(final(self).bytes(), !primary) == slot_of(old(self).bytes(), !primary),
            region_bytes(final(self).bytes(), slot_of(final(self).bytes(), !primary))
                == region_bytes(old(self).bytes(), slot_of(old(self).bytes(), !primary)),
            ({
                let before = allocated_in(region_bytes(old(self).bytes(), slot_of(old(self).bytes(), primary)), old(self).usable_pages());
                let after = allocated_in(region_bytes(final(self).bytes(), slot_of(final(self).bytes(), primary)), old(self).usable_pages());
                match r {
                    Ok(()) => {
                        &&& after == if allocate {
                            before.union(page_indices(pages@))
                        } else {
                            before.difference(page_indices(pages@))
                        }
                        &&& slot_dirty(slot_of(final(self).bytes(), primary))
                        &&& final(self).flushes() == if slot_dirty(slot_of(old(self).bytes(), primary)) {
                            old(self).flushes()
                        } else {
                            old(self).flushes().push(marked_dirty(old(self).bytes(), primary))
                        }
                    },
                    Err(e) => {
                        &&& e is Io
                        &&& !slot_dirty(slot_of(old(self).bytes(), primary))
                        &&& after == before
                        &&& final(self).flushes() == old(self).flushes()
                    },
                }
            }),
    {
        let ghost b = self.bytes();
        let ghost n = self.usable_pages();
        let ghost ps = self.page_size as nat;
        proof {
            lemma_dirty_frame(b, n, ps, primary, 1u8);
            lemma_slot_choice(b, primary);
        }
        let ghost b1 = marked_dirty(b, primary);
        let allocator = self.page_allocator;
        let region = match self.acquire_mutable_page_allocator(primary) {
            Ok(region) => region,
            Err(e) => {
                return Err(e);
            },
        };
        apply_pages(allocator, region, pages, allocate);
        proof {
            let q = slot_of(b, primary);
            let part = self.bytes().subrange(q.alloc_start as int, (q.alloc_start + q.alloc_len) as int);
            lemma_region_update(b1, n, ps, primary, part);
            assert(self.bytes() =~= with_region(b1, primary, part));
            assert forall|i: int| DB_METAPAGE_SIZE <= i < n * ps implies #[trigger] b[i] == self.bytes()[i] by {
                assert(self.bytes().subrange(0, (n * ps) as int)[i] == b1.subrange(0, (n * ps) as int)[i]);
            }
        }
        Ok(())
    }


    /// Frees a page that an earlier transaction committed: the secondary allocator region
    /// releases it at once, and the next commit carries the release to the other region.
    pub fn free(&mut self, page: PageNumber) -> (r: Result<(), Error>)
        requires
            old(self).wf(),
            page.page_order == 0,
            1 <= page.page_index < old(self).usable_pages(),
            old(self).secondary_allocated().contains(page.page_index as int),
            !page_indices(old(self).uncommitted_pages()).contains(page.page_index as int),
            !page_indices(old(self).open_pages()).contains(page.page_index as int),
        ensures
            final(self).wf(),
            pages_unchanged(old(self).bytes(), final(self).bytes(), old(self).usable_pages() * old(self).page_size()),
            final(self).usable_pages() == old(self).usable_pages(),
            final(self).page_size() == old(self).page_size(),
            final(self).primary() == old(self).primary(),
            final(self).primary_bit() == old(self).primary_bit(),
            final(self).primary_allocated() == old(self).primary_allocated(),
            final(self).uncommitted_pages() == old(self).uncommitted_pages(),
            final(self).open_pages() == old(self).open_pages(),
            final(self).transaction_start() == old(self).transaction_start(),
            final(self).reads_secondary() == old(self).reads_secondary(),
            final(self).flushes() == if r is Err {
                old(self).flushes()
            } else {
                dirty_flushes(old(self).flushes(), old(self).bytes(), false)
            },
            match r {
                Ok(()) => {
                    &&& final(self).secondary_allocated() == old(self).secondary_allocated().remove(page.page_index as int)
                    &&& final(self).free_pages() == old(self).free_pages() + 1
                    &&& final(self).freed_pages() == old(self).freed_pages().push(page)
                    &&& final(self).secondary().dirty == 1u8
                },
                Err(e) => {
                    &&& e is Io
                    &&& !slot_dirty(old(self).secondary())
                    &&& final(self).secondary_allocated() == old(self).secondary_allocated()
                    &&& final(self).freed_pages() == old(self).freed_pages()
                },
            },
    {
        let pages = vec![page];
        proof {
            lemma_indices_push(Seq::empty(), page);
            assert(pages@ =~= Seq::<PageNumber>::empty().push(page));
            assert(page_indices(Seq::<PageNumber>::empty()) =~= Set::<int>::empty());
        }
        match self.update_region(false, &pages, false) {
            Ok(()) => {},
            Err(e) => {
                return Err(e);
            },
        }
        self.freed_since_commit.push(page);
        proof {
            lemma_indices_push(old(self).freed_since_commit@, page);
            let a = page_indices(self.allocated_since_commit@);
            let f = page_indices(self.freed_since_commit@);
            let s0 = self.txn_start@;
            assert(self.secondary_allocated() =~= s0.difference(f).union(a));
            assert(a.disjoint(s0.difference(f)));
            assert(page_indices(self.open_dirty_pages@).subset_of(self.secondary_allocated()));
            assert(pages_ok(self.freed_since_commit@, self.usable_pages())) by {
                assert forall|k1: int, k2: int|
                    0 <= k1 < k2 < self.freed_since_commit@.len() implies
                    (#[trigger] self.freed_since_commit@[k1]).page_index
                        != (#[trigger] self.freed_since_commit@[k2]).page_index by {
                    if k2 == self.freed_since_commit@.len() - 1 {
                        assert(page_indices(old(self).freed_since_commit@).contains(
                            self.freed_since_commit@[k1].page_index as int));
                    }
                }
            }
        }
        proof {
            assert(self.secondary_allocated() =~= old(self).secondary_allocated().remove(page.page_index as int));
            Self::lemma_released_one(old(self), self, page.page_index as int);
        }
        Ok(())
    }

    /// Whether `page` was allocated in the current transaction.
    pub fn uncommitted(&self, page: PageNumber) -> (r: bool)
        ensures
            r == self.uncommitted_pages().contains(page),
    {
        let mut k: usize = 0;
        while k < self.allocated_since_commit.len()
            invariant
                k <= self.allocated_since_commit@.len(),
                forall|j: int| 0 <= j < k ==> self.allocated_since_commit@[j] != page,
            decreases self.allocated_since_commit@.len() - k,
        {
            if self.allocated_since_commit[k] == page {
                return true;
            }
            k = k + 1;
        }
        false
    }

    /// Frees `page` if the current transaction allocated it, and says whether it did.
    pub fn free_if_uncommitted(&mut self, page: PageNumber) -> (r: Result<bool, Error>)
        requires
            old(self).wf(),
            !old(self).open_pages().contains(page),
        ensures
            final(self).wf(),
            pages_unchanged(old(self).bytes(), final(self).bytes(), old(self).usable_pages() * old(self).page_size()),
            final(self).usable_pages() == old(self).usable_pages(),
            final(self).page_size() == old(self).page_size(),
            final(self).primary() == old(self).primary(),
            final(self).primary_bit() == old(self).primary_bit(),
            final(self).primary_allocated() == old(self).primary_allocated(),
            final(self).freed_pages() == old(self).freed_pages(),
            final(self).open_pages() == old(self).open_pages(),
            final(self).transaction_start() == old(self).transaction_start(),
            final(self).reads_secondary() == old(self).reads_secondary(),
            final(self).flushes() == if r matches Err(_) || r matches Ok(false) {
                old(self).flushes()
            } else {
                dirty_flushes(old(self).flushes(), old(self).bytes(), false)
            },
            match r {
                Ok(true) => {
                    &&& old(self).uncommitted_pages().contains(page)
                    &&& final(self).secondary_allocated() == old(self).secondary_allocated().remove(page.page_index as int)
                    &&& final(self).free_pages() == old(self).free_pages() + 1
                    &&& final(self).uncommitted_pages().to_set() == old(self).uncommitted_pages().to_set().remove(page)
                    &&& final(self).uncommitted_pages().len() + 1 == old(self).uncommitted_pages().len()
                },
                Ok(false) => {
                    &&& !old(self).uncommitted_pages().contains(page)
                    &&& final(self).bytes() == old(self).bytes()
                    &&& final(self).flushes() == old(self).flushes()
                    &&& final(self).secondary_allocated() == old(self).secondary_allocated()
                    &&& final(self).uncommitted_pages() == old(self).uncommitted_pages()
                },
                Err(e) => {
                    &&& e is Io
                    &&& old(self).uncommitted_pages().contains(page)
                    &&& !slot_dirty(old(self).secondary())
                    &&& final(self).secondary_allocated() == old(self).secondary_allocated()
                    &&& final(self).uncommitted_pages() == old(self).uncommitted_pages()
                },
            },
    {
        let mut k: usize = 0;
        let n = self.allocated_since_commit.len();
        let mut found = false;
        while k < n && !found
            invariant
                n == self.allocated_since_commit@.len(),
                k <= n,
                found ==> k < n && self.allocated_since_commit@[k as int] == page,
                forall|j: int| 0 <= j < k ==> self.allocated_since_commit@[j] != page,
            decreases n - k + if found { 0int } else { 1int },
        {
            if self.allocated_since_commit[k] == page {
                found = true;
            } else {
                k = k + 1;
            }
        }
        if !found {
            return Ok(false);
        }
        let ghost a0 = self.allocated_since_commit@;
        proof {
            assert(a0[k as int] == page);
            assert(page_indices(a0).contains(page.page_index as int));
        }
        let pages = vec![page];
        proof {
            lemma_indices_push(Seq::empty(), page);
            assert(pages@ =~= Seq::<PageNumber>::empty().push(page));
            assert(page_indices(Seq::<PageNumber>::empty()) =~= Set::<int>::empty());
        }
        match self.update_region(false, &pages, false) {
            Ok(()) => {},
            Err(e) => {
                return Err(e);
            },
        }
        self.allocated_since_commit.remove(k);
        proof {
            let a1 = self.allocated_since_commit@;
            assert(a1 =~= a0.remove(k as int));
            assert(page_indices(a1) =~= page_indices(a0).remove(page.page_index as int)) by {
                assert forall|i: int| page_indices(a1).contains(i) <==> page_indices(a0).remove(page.page_index as int).contains(i) by {
                    if page_indices(a1).contains(i) {
                        let j = choose|j: int| 0 <= j < a1.len() && #[trigger] a1[j].page_index == i;
                        if j < k {
                            assert(a0[j] == a1[j]);
                        } else {
                            assert(a0[j + 1] == a1[j]);
                        }
                    }
                    if page_indices(a0).remove(page.page_index as int).contains(i) {
                        let j = choose|j: int| 0 <= j < a0.len() && #[trigger] a0[j].page_index == i;
                        if j < k {
                            assert(a1[j] == a0[j]);
                        } else if j > k {
                            assert(a1[j - 1] == a0[j]);
                        }
                    }
                }
            }
            assert(a1.to_set() =~= a0.to_set().remove(page)) by {
                assert forall|x: PageNumber| a1.to_set().contains(x) <==> a0.to_set().remove(page).contains(x) by {
                    if a1.contains(x) {
                        let j = choose|j: int| 0 <= j < a1.len() && a1[j] == x;
                        if j < k {
                            assert(a0[j] == a1[j]);
                            assert(a0[j].page_index != a0[k as int].page_index);
                        } else {
                            assert(a0[j + 1] == a1[j]);
                            assert(a0[j + 1].page_index != a0[k as int].page_index);
                        }
                    }
                    if a0.to_set().remove(page).contains(x) {
                        let j = choose|j: int| 0 <= j < a0.len() && a0[j] == x;
                        if j < k {
                            assert(a1[j] == a0[j]);
                        } else if j > k {
                            assert(a1[j - 1] == a0[j]);
                        }
                    }
                }
            }
            let a = page_indices(a1);
            let f = page_indices(self.freed_since_commit@);
            let s0 = self.txn_start@;
            assert(self.secondary_allocated() =~= s0.difference(f).union(a));
            assert(a.disjoint(s0.difference(f)));
            assert(pages_ok(a1, self.usable_pages())) by {
                assert forall|k1: int, k2: int|
                    0 <= k1 < k2 < a1.len() implies (#[trigger] a1[k1]).page_index != (#[trigger] a1[k2]).page_index by {
                    let j1 = if k1 < k { k1 } else { k1 + 1 };
                    let j2 = if k2 < k { k2 } else { k2 + 1 };
                    assert(a1[k1] == a0[j1]);
                    assert(a1[k2] == a0[j2]);
                }
                assert forall|k1: int| 0 <= k1 < a1.len() implies (#[trigger] a1[k1]).page_order == 0
                    && 1 <= a1[k1].page_index < self.usable_pages() by {
                    let j1 = if k1 < k { k1 } else { k1 + 1 };
                    assert(a1[k1] == a0[j1]);
                }
            }
            assert(page_indices(self.open_dirty_pages@).subset_of(self.secondary_allocated())) by {
                assert forall|i: int| page_indices(self.open_dirty_pages@).contains(i) implies self.secondary_allocated().contains(i) by {
                    let j = choose|j: int| 0 <= j < self.open_dirty_pages@.len() && #[trigger] self.open_dirty_pages@[j].page_index == i;
                    if i == page.page_index {
                        assert(self.open_dirty_pages@[j] == page);
                    }
                }
            }
        }
        proof {
            assert(self.secondary_allocated() =~= old(self).secondary_allocated().remove(page.page_index as int));
            Self::lemma_released_one(old(self), self, page.page_index as int);
        }
        Ok(true)
    }

    /// Undoes the current transaction's allocations and frees in the secondary allocator
    /// region, which then holds what it held when the transaction began.
    pub fn rollback_uncommited_writes(&mut self) -> (r: Result<(), Error>)
        requires
            old(self).wf(),
            old(self).open_pages().len() == 0,
        ensures
            final(self).wf(),
            pages_unchanged(old(self).bytes(), final(self).bytes(), old(self).usable_pages() * old(self).page_size()),
            final(self).usable_pages() == old(self).usable_pages(),
            final(self).page_size() == old(self).page_size(),
            final(self).primary() == old(self).primary(),
            final(self).primary_bit() == old(self).primary_bit(),
            final(self).primary_allocated() == old(self).primary_allocated(),
            final(self).open_pages() == old(self).open_pages(),
            final(self).transaction_start() == old(self).transaction_start(),
            final(self).reads_secondary() == old(self).reads_secondary(),
            final(self).flushes() == if r is Err {
                old(self).flushes()
            } else {
                dirty_flushes(old(self).flushes(), old(self).bytes(), false)
            },
            match r {
                Ok(()) => {
                    &&& final(self).secondary_allocated() == old(self).transaction_start()
                    &&& final(self).secondary() == (Slot { dirty: 1u8, ..old(self).secondary() })
                    &&& final(self).uncommitted_pages().len() == 0
                    &&& final(self).freed_pages().len() == 0
                },
                Err(e) => {
                    &&& e is Io
                    &&& !slot_dirty(old(self).secondary())
                    &&& final(self).secondary_allocated() == old(self).secondary_allocated()
                    &&& final(self).uncommitted_pages() == old(self).uncommitted_pages()
                    &&& final(self).freed_pages() == old(self).freed_pages()
                },
            },
    {
        let ghost b = self.bytes();
        let ghost n = self.usable_pages();
        let ghost ps = self.page_size as nat;
        let ghost a = page_indices(self.allocated_since_commit@);
        let ghost f = page_indices(self.freed_since_commit@);
        let mut allocated: Vec<PageNumber> = Vec::new();
        let mut freed: Vec<PageNumber> = Vec::new();
        core::mem::swap(&mut allocated, &mut self.allocated_since_commit);
        core::mem::swap(&mut freed, &mut self.freed_since_commit);
        match self.update_region(false, &allocated, false) {
            Ok(()) => {},
            Err(e) => {
                self.allocated_since_commit = allocated;
                self.freed_since_commit = freed;
                return Err(e);
            },
        }
        match self.update_region(false, &freed, true) {
            Ok(()) => {},
            Err(e) => {
                return Err(e);
            },
        }
        proof {
            assert(self.secondary_allocated() =~= self.txn_start@);
            assert(page_indices(self.allocated_since_commit@) =~= Set::<int>::empty());
            assert(page_indices(self.freed_since_commit@) =~= Set::<int>::empty());
            assert(self.txn_start@.difference(Set::<int>::empty()).union(Set::<int>::empty()) =~= self.txn_start@);
        }
        Ok(())
    }


    /// A mutator over the secondary slot; the slot holds what the mutator holds when it is
    /// released.
    fn secondary_mutator(&mut self) -> (r: TransactionMutator<'_>)
        requires
            layout_ok(old(self).bytes(), old(self).usable_pages(), old(self).page_size()),
        ensures
            r.mem@ == slot_at(old(self).bytes(), secondary_offset(old(self).bytes())),
            final(self).bytes() == with_slot(old(self).bytes(), secondary_offset(old(self).bytes()), final(r.mem)@),
            final(self).same_bookkeeping(old(self)),
            final(self).flushed == old(self).flushed,
    {
        let ghost b = self.bytes();
        let meta = self.acquire_mutable_metapage();
        let slot = get_secondary(meta);
        TransactionMutator::new(slot)
    }

    /// Records `root_page` and its valid message byte count in the secondary slot.
    pub fn set_secondary_root_page(&mut self, root_page: PageNumber, valid_message_bytes: u32)
        requires
            old(self).wf(),
            root_page.wf(),
        ensures
            final(self).wf(),
            final(self).secondary() == (Slot {
                root: crate::page_number::packed(root_page),
                message_bytes: valid_message_bytes as nat,
                ..old(self).secondary()
            }),
            final(self).primary() == old(self).primary(),
            final(self).primary_bit() == old(self).primary_bit(),
            final(self).primary_allocated() == old(self).primary_allocated(),
            final(self).secondary_allocated() == old(self).secondary_allocated(),
            final(self).same_bookkeeping(old(self)),
            final(self).flushes() == old(self).flushes(),
            agree_outside(old(self).bytes(), final(self).bytes(), secondary_offset(old(self).bytes()),
                secondary_offset(old(self).bytes()) + TRANSACTION_SIZE),
            pages_unchanged(old(self).bytes(), final(self).bytes(), old(self).usable_pages() * old(self).page_size()),
    {
        let ghost b = self.bytes();
        let ghost n = self.usable_pages();
        let ghost ps = self.page_size as nat;
        let mut mutator = self.secondary_mutator();
        mutator.set_root_page(root_page, valid_message_bytes);
        let ghost slot = mutator.mem@;
        proof {
            lemma_slot_update(b, n, ps, secondary_offset(b), slot);
        }
    }


    /// Makes the secondary slot primary, and marks the new secondary's allocator state dirty.
    fn flip_primary(&mut self, next: u8)
        requires
            layout_ok(old(self).bytes(), old(self).usable_pages(), old(self).page_size()),
            next <= 1,
        ensures
            final(self).bytes() == old(self).bytes().update(PRIMARY_BIT_OFFSET as int, next).update(
                (if next == 0 { TRANSACTION_1_OFFSET } else { TRANSACTION_0_OFFSET }) + ALLOCATOR_STATE_DIRTY_OFFSET,
                1u8,
            ),
            final(self).same_bookkeeping(old(self)),
            final(self).flushed == old(self).flushed,
    {
        let ghost b = self.bytes();
        let meta = self.acquire_mutable_metapage();
        meta[PRIMARY_BIT_OFFSET] = next;
        let slot = get_secondary(meta);
        let mut mutator = TransactionMutator::new(slot);
        mutator.set_allocator_dirty(true);
        assert(self.bytes() =~= b.update(PRIMARY_BIT_OFFSET as int, next).update(
            (if next == 0 { TRANSACTION_1_OFFSET } else { TRANSACTION_0_OFFSET }) + ALLOCATOR_STATE_DIRTY_OFFSET,
            1u8,
        ));
    }

    /// The primary bit as stored.
    fn read_primary_bit(&self) -> (r: u8)
        requires
            layout_ok(self.bytes(), self.usable_pages(), self.page_size()),
        ensures
            r == self.bytes()[PRIMARY_BIT_OFFSET as int],
    {
        let all = map_bytes(&self.mmap);
        all[PRIMARY_BIT_OFFSET]
    }

    /// Durably commits the current transaction under `transaction_id`: the secondary slot
    /// becomes primary, and the new secondary's allocator region takes on the
    /// transaction's frees and allocations so that both regions agree again.
    ///
    /// A crash at any point leaves a file whose primary slot shows either the state before
    /// the call or the committed one. After an error the manager must not be used further.
    #[verifier::rlimit(100)]
    pub fn commit(&mut self, transaction_id: u128) -> (r: Result<(), Error>)
        requires
            old(self).wf(),
            old(self).open_pages().len() == 0,
        ensures
            final(self).flushes().subrange(0, old(self).flushes().len() as int) == old(self).flushes(),
            forall|k: int|
                old(self).flushes().len() <= k < final(self).flushes().len() ==> (committed_state(
                    #[trigger] final(self).flushes()[k],
                ) == committed_state(old(self).bytes()) || committed_state(final(self).flushes()[k]) == (
                    slot_root(old(self).secondary()),
                    transaction_id as nat,
                )),
            pages_unchanged(old(self).bytes(), final(self).bytes(), old(self).usable_pages() * old(self).page_size()),
            match r {
                Ok(()) => {
                    &&& final(self).wf()
                    &&& final(self).bytes().len() == old(self).bytes().len()
                    &&& final(self).usable_pages() == old(self).usable_pages()
                    &&& final(self).page_size() == old(self).page_size()
                    &&& final(self).primary_bit() == 1 - old(self).primary_bit()
                    &&& final(self).primary() == (Slot { txn_id: transaction_id as nat, dirty: 0u8, ..old(self).secondary() })
                    &&& final(self).secondary() == (Slot { dirty: final(self).secondary().dirty, ..old(self).primary() })
                    &&& final(self).secondary().dirty == 1u8
                    &&& committed_state(final(self).bytes()) == (slot_root(old(self).secondary()), transaction_id as nat)
                    &&& slot_root(final(self).visible_slot()) == slot_root(old(self).secondary())
                    &&& final(self).visible_slot().txn_id == transaction_id
                    &&& final(self).flushes().len() == old(self).flushes().len() + 3
                    &&& commit_images(
                        old(self).bytes(),
                        transaction_id as nat,
                        final(self).flushes()[old(self).flushes().len() as int],
                        final(self).flushes()[old(self).flushes().len() as int + 1],
                        final(self).flushes()[old(self).flushes().len() as int + 2],
                    )
                    &&& final(self).primary_allocated() == old(self).secondary_allocated()
                    &&& final(self).secondary_allocated() == old(self).primary_allocated().difference(
                        page_indices(old(self).freed_pages()),
                    ).union(page_indices(old(self).uncommitted_pages()))
                    &&& final(self).transaction_start() == final(self).secondary_allocated()
                    &&& final(self).uncommitted_pages().len() == 0
                    &&& final(self).freed_pages().len() == 0
                    &&& final(self).open_pages().len() == 0
                    &&& !final(self).reads_secondary()
                },
                Err(e) => e is Io,
            },
    {
        let ghost b0 = self.bytes();
        let ghost n = self.usable_pages();
        let ghost ps = self.page_size as nat;
        let ghost fl0 = self.flushed@;
        let ghost old_cs = committed_state(b0);
        let ghost new_cs = (slot_root(secondary_slot_of(b0)), transaction_id as nat);
        let ghost p0 = self.primary_allocated();
        let ghost s0 = self.secondary_allocated();
        let ghost a = page_indices(self.allocated_since_commit@);
        let ghost f = page_indices(self.freed_since_commit@);
        proof {
            lemma_slot_choice(b0, true);
            lemma_slot_choice(b0, false);
        }
        // Write the transaction id into the secondary slot.
        let mut mutator = self.secondary_mutator();
        mutator.set_last_committed_transaction_id(transaction_id);
        let ghost slot1 = mutator.mem@;
        proof {
            lemma_slot_update(b0, n, ps, secondary_offset(b0), slot1);
        }
        let ghost b1 = self.bytes();
        proof {
            assert(primary_offset(b1) == primary_offset(b0));
            assert(slot_at(b1, primary_offset(b1)) == slot_at(b0, primary_offset(b0)));
            assert(committed_state(b1) == old_cs);
            assert(slot_at(b1, secondary_offset(b1)) == slot1);
        }
        match self.flush() {
            Ok(()) => {},
            Err(e) => {
                assert(self.flushed@ =~= fl0);
                return Err(e);
            },
        }
        let ghost fl1 = self.flushed@;
        // Mark the secondary's allocator state clean.
        let bit = self.read_primary_bit();
        let next: u8 = if bit == 0 { 1 } else { 0 };
        proof {
            lemma_dirty_frame(b1, n, ps, false, 0u8);
        }
        self.set_allocator_dirty(false, false);
        let ghost b2 = self.bytes();
        proof {
            assert(slot_of(b2, true) == slot_of(b1, true));
            assert(committed_state(b2) == old_cs);
            assert(slot_of(b2, false) == (Slot { txn_id: transaction_id as nat, dirty: 0u8, ..secondary_slot_of(b0) }));
        }
        match self.flush() {
            Ok(()) => {},
            Err(e) => {
                assert(self.flushed@ =~= fl0.push(b1));
                return Err(e);
            },
        }
        let ghost fl2 = self.flushed@;
        // Flip the primary bit, and dirty the new secondary.
        self.flip_primary(next);
        let ghost b3 = self.bytes();
        proof {
            lemma_flip(b2, n, ps, next);
            assert(committed_state(b3) == new_cs);
        }
        match self.flush() {
            Ok(()) => {},
            Err(e) => {
                assert(self.flushed@ =~= fl0.push(b1).push(b2));
                return Err(e);
            },
        }
        let ghost fl3 = self.flushed@;
        // Carry the transaction's frees and allocations to the new secondary region, frees
        // first: a page freed and then allocated again in this transaction stays allocated,
        // and both regions end up holding the same pages.
        let mut allocated: Vec<PageNumber> = Vec::new();
        let mut freed: Vec<PageNumber> = Vec::new();
        core::mem::swap(&mut allocated, &mut self.allocated_since_commit);
        core::mem::swap(&mut freed, &mut self.freed_since_commit);
        match self.update_region(false, &freed, false) {
            Ok(()) => {},
            Err(e) => {
                return Err(e);
            },
        }
        let ghost b4 = self.bytes();
        match self.update_region(false, &allocated, true) {
            Ok(()) => {},
            Err(e) => {
                return Err(e);
            },
        }
        self.read_from_secondary = false;
        self.txn_start = Ghost(self.secondary_allocated());
        proof {
            assert(self.flushed@ =~= fl0.push(b1).push(b2).push(b3));
            assert(b3.len() == b0.len());
            assert(self.flushed@[fl0.len() as int] == b1);
            assert(self.flushed@[fl0.len() as int + 1] == b2);
            assert(self.flushed@[fl0.len() as int + 2] == b3);
            assert(b3[PRIMARY_BIT_OFFSET as int] == 1 - b0[PRIMARY_BIT_OFFSET as int]);
            lemma_metapage_steps_keep_pages(b0, b1, b2, b3, b4, self.bytes(), secondary_offset(b0), n * ps);
            assert(commit_images(b0, transaction_id as nat, b1, b2, b3));
            assert(page_indices(self.allocated_since_commit@) =~= Set::<int>::empty());
            assert(page_indices(self.freed_since_commit@) =~= Set::<int>::empty());
            assert(self.txn_start@.difference(Set::<int>::empty()).union(Set::<int>::empty()) =~= self.txn_start@);
            assert(region_bytes(b2, slot_of(b2, true)) == region_bytes(b0, slot_of(b0, true)));
            assert(region_bytes(b2, slot_of(b2, false)) == region_bytes(b0, slot_of(b0, false)));
            assert(self.primary_allocated() == s0);
            assert(s0.contains(0));
            assert(self.secondary_allocated() == p0.difference(f).union(a));
            assert(self.wf());
            assert(self.primary() == (Slot { txn_id: transaction_id as nat, dirty: 0u8, ..secondary_slot_of(b0) }));
            assert(self.primary_bit() == 1 - b0[PRIMARY_BIT_OFFSET as int]);
            assert(committed_state(self.bytes()) == new_cs);
        }
        Ok(())
    }


    /// Publishes the current transaction under `transaction_id` to readers of this manager
    /// without making it durable: the primary allocator region takes on the transaction's
    /// allocations in place (after its state is marked dirty and flushed), and reads are
    /// served from the secondary slot until the next durable commit.
    pub fn non_durable_commit(&mut self, transaction_id: u128) -> (r: Result<(), Error>)
        requires
            old(self).wf(),
            old(self).open_pages().len() == 0,
            old(self).freed_pages().len() == 0,
        ensures
            final(self).wf(),
            final(self).usable_pages() == old(self).usable_pages(),
            final(self).page_size() == old(self).page_size(),
            final(self).primary_bit() == old(self).primary_bit(),
            final(self).secondary() == (Slot { txn_id: transaction_id as nat, ..old(self).secondary() }),
            final(self).secondary_allocated() == old(self).secondary_allocated(),
            final(self).open_pages() == old(self).open_pages(),
            final(self).freed_pages() == old(self).freed_pages(),
            pages_unchanged(old(self).bytes(), final(self).bytes(), old(self).usable_pages() * old(self).page_size()),
            match r {
                Ok(()) => {
                    &&& final(self).reads_secondary()
                    &&& slot_root(final(self).visible_slot()) == slot_root(old(self).secondary())
                    &&& final(self).visible_slot().txn_id == transaction_id
                    &&& final(self).primary() == (Slot { dirty: final(self).primary().dirty, ..old(self).primary() })
                    &&& final(self).primary().dirty == 1u8
                    &&& slot_dirty(old(self).primary()) ==> final(self).flushes() == old(self).flushes()
                    &&& !slot_dirty(old(self).primary()) ==> {
                        &&& final(self).flushes().len() == old(self).flushes().len() + 1
                        &&& final(self).flushes().subrange(0, old(self).flushes().len() as int) == old(self).flushes()
                        &&& primary_slot_of(final(self).flushes().last()) == (Slot { dirty: 1u8, ..old(self).primary() })
                        &&& region_bytes(final(self).flushes().last(), old(self).primary())
                            == region_bytes(old(self).bytes(), old(self).primary())
                    }
                    &&& final(self).primary_allocated() == old(self).primary_allocated().union(
                        page_indices(old(self).uncommitted_pages()),
                    )
                    &&& final(self).uncommitted_pages().len() == 0
                    &&& final(self).transaction_start() == final(self).secondary_allocated()
                },
                Err(e) => {
                    &&& e is Io
                    &&& !slot_dirty(old(self).primary())
                    &&& final(self).reads_secondary() == old(self).reads_secondary()
                    &&& final(self).primary_allocated() == old(self).primary_allocated()
                    &&& final(self).uncommitted_pages() == old(self).uncommitted_pages()
                    &&& final(self).transaction_start() == old(self).transaction_start()
                },
            },
    {
        let ghost b0 = self.bytes();
        let ghost n = self.usable_pages();
        let ghost ps = self.page_size as nat;
        proof {
            lemma_slot_choice(b0, true);
            lemma_slot_choice(b0, false);
        }
        let mut mutator = self.secondary_mutator();
        mutator.set_last_committed_transaction_id(transaction_id);
        let ghost slot1 = mutator.mem@;
        proof {
            lemma_slot_update(b0, n, ps, secondary_offset(b0), slot1);
        }
        let ghost b1 = self.bytes();
        proof {
            assert(slot_of(b1, true) == slot_of(b0, true));
            assert(region_bytes(b1, slot_of(b1, true)) == region_bytes(b0, slot_of(b0, true)));
            assert(region_bytes(b1, slot_of(b1, false)) == region_bytes(b0, slot_of(b0, false)));
        }
        let mut allocated: Vec<PageNumber> = Vec::new();
        core::mem::swap(&mut allocated, &mut self.allocated_since_commit);
        match self.update_region(true, &allocated, true) {
            Ok(()) => {},
            Err(e) => {
                // The dirty mark never reached the file and the region is untouched: take
                // the mark back so that the primary slot stays clean
                let ghost be = self.bytes();
                proof {
                    lemma_dirty_frame(be, n, ps, true, 0u8);
                }
                self.set_allocator_dirty(true, false);
                self.allocated_since_commit = allocated;
                return Err(e);
            },
        }
        self.read_from_secondary = true;
        self.txn_start = Ghost(self.secondary_allocated());
        proof {
            lemma_dirty_frame(b1, n, ps, true, 1u8);
            if !slot_dirty(slot_of(b0, true)) {
                assert(self.flushed@.subrange(0, old(self).flushed@.len() as int) =~= old(self).flushed@);
            }
            assert(page_indices(self.allocated_since_commit@) =~= Set::<int>::empty());
            assert(page_indices(self.freed_since_commit@) =~= Set::<int>::empty());
            assert(self.txn_start@.difference(Set::<int>::empty()).union(Set::<int>::empty()) =~= self.txn_start@);
        }
        Ok(())
    }

    /// The root of the last published transaction: that of the primary slot, or of the
    /// secondary one after a non-durable commit.
    pub fn get_primary_root_page(&self) -> (r: Option<(PageNumber, u32)>)
        requires
            self.wf(),
        ensures
            r == slot_root(self.visible_slot()),
    {
        let all = map_bytes(&self.mmap);
        if self.read_from_secondary {
            TransactionAccessor::new(get_secondary_const(all)).get_root_page()
        } else {
            TransactionAccessor::new(get_primary(all)).get_root_page()
        }
    }

    /// The id of the last published transaction, read as `get_primary_root_page` reads the root.
    pub fn get_last_committed_transaction_id(&self) -> (r: u128)
        requires
            self.wf(),
        ensures
            r == self.visible_slot().txn_id,
    {
        let all = map_bytes(&self.mmap);
        if self.read_from_secondary {
            TransactionAccessor::new(get_secondary_const(all)).get_last_committed_transaction_id()
        } else {
            TransactionAccessor::new(get_primary(all)).get_last_committed_transaction_id()
        }
    }

    /// Counts the pages that the secondary allocator region marks free, without marking
    /// that region dirty.
    pub fn count_free_pages(&self) -> (r: usize)
        requires
            self.wf(),
        ensures
            r == self.free_pages(),
    {
        let all = map_bytes(&self.mmap);
        proof {
            lemma_slot_choice(self.bytes(), false);
        }
        let accessor = TransactionAccessor::new(get_secondary_const(all));
        let (start, end) = accessor.get_allocator_data();
        let region = &all[start..end];
        self.page_allocator.count_free_pages(region)
    }

    /// A shared view of page `page_number`, which must have no exclusive handle.
    pub fn get_page(&self, page_number: PageNumber) -> (r: PageImpl<'_>)
        requires
            self.wf(),
            !self.open_pages().contains(page_number),
            page_number.end_byte(self.page_size()) <= self.usable_pages() * self.page_size(),
        ensures
            r.number() == page_number,
            r.contents() == self.page_bytes(page_number),
    {
        let all = map_bytes(&self.mmap);
        proof {
            lemma_slot_choice(self.bytes(), true);
        }
        let range = page_number.address_range(self.page_size);
        PageImpl { mem: &all[range.start..range.end], page_number }
    }

    /// An exclusive handle to the allocated page `page_number`.
    pub fn get_page_mut(&mut self, page_number: PageNumber) -> (r: PageMut)
        requires
            old(self).wf(),
            page_number.page_order == 0,
            1 <= page_number.page_index < old(self).usable_pages(),
            old(self).secondary_allocated().contains(page_number.page_index as int),
            !page_indices(old(self).open_pages()).contains(page_number.page_index as int),
        ensures
            final(self).wf(),
            r.number() == page_number,
            final(self).open_pages() == old(self).open_pages().push(page_number),
            final(self).bytes() == old(self).bytes(),
            final(self).uncommitted_pages() == old(self).uncommitted_pages(),
            final(self).freed_pages() == old(self).freed_pages(),
            final(self).reads_secondary() == old(self).reads_secondary(),
            final(self).transaction_start() == old(self).transaction_start(),
            final(self).usable_pages() == old(self).usable_pages(),
            final(self).page_size() == old(self).page_size(),
            final(self).flushes() == old(self).flushes(),
    {
        self.open_dirty_pages.push(page_number);
        proof {
            lemma_indices_push(old(self).open_dirty_pages@, page_number);
            assert(pages_ok(self.open_dirty_pages@, self.usable_pages())) by {
                assert forall|k1: int, k2: int|
                    0 <= k1 < k2 < self.open_dirty_pages@.len() implies
                    (#[trigger] self.open_dirty_pages@[k1]).page_index
                        != (#[trigger] self.open_dirty_pages@[k2]).page_index by {
                    if k2 == self.open_dirty_pages@.len() - 1 {
                        assert(page_indices(old(self).open_dirty_pages@).contains(
                            self.open_dirty_pages@[k1].page_index as int));
                    }
                }
            }
        }
        PageMut { page_number }
    }


    /// An open page lies in the page area, after the metapage.
    proof fn lemma_page_in_range(&self, p: PageNumber)
        requires
            self.wf(),
            p.page_order == 0,
            1 <= p.page_index < self.usable_pages(),
        ensures
            p.start_byte(self.page_size()) == p.page_index * self.page_size(),
            p.end_byte(self.page_size()) == p.start_byte(self.page_size()) + self.page_size(),
            p.end_byte(self.page_size()) <= self.usable_pages() * self.page_size(),
            DB_METAPAGE_SIZE <= p.start_byte(self.page_size()),
            self.usable_pages() * self.page_size() <= self.bytes().len(),
    {
        let ps = self.page_size as nat;
        let n = self.usable_pages();
        let i = p.page_index as nat;
        lemma_slot_choice(self.bytes(), true);
        vstd::arithmetic::power2::lemma_pow2(0);
        vstd::arithmetic::power::lemma_pow0(2);
        assert(run_pages(0) == 1);
        assert((i + 1) * ps <= n * ps) by (nonlinear_arith)
            requires i + 1 <= n;
        assert(ps <= i * ps) by (nonlinear_arith)
            requires 1 <= i;
        assert((i + 1) * ps == i * ps + ps) by (nonlinear_arith);
    }


    /// The number of base pages, metapage included, in a file of `mmap_size` bytes of
    /// `page_size`-byte pages, beside two allocator regions sized for that number: the
    /// fixed point of `layout_step`, reached within `USABLE_PAGES_ITERATIONS` steps.
    pub fn calculate_usable_pages(mmap_size: usize, page_size: usize) -> (r: Option<usize>)
        requires
            page_size > 0,
        ensures
            r matches Some(n) ==> usable_pages_for(mmap_size as nat, page_size as nat) == Some(n as nat),
            r is None ==> usable_pages_for(mmap_size as nat, page_size as nat) is None,
    {
        let mut guess: usize = mmap_size / page_size;
        let mut i: usize = 0;
        proof {
            vstd::arithmetic::div_mod::lemma_div_is_ordered_by_denominator(mmap_size as int, 1, page_size as int);
        }
        loop
            invariant
                page_size > 0,
                i <= USABLE_PAGES_ITERATIONS,
                guess <= mmap_size,
                usable_pages_search(mmap_size as nat, page_size as nat, guess as nat, (USABLE_PAGES_ITERATIONS - i) as nat)
                    == usable_pages_for(mmap_size as nat, page_size as nat),
            decreases USABLE_PAGES_ITERATIONS - i,
        {
            let space = PageAllocator::required_space(guess);
            if space > mmap_size / 2 {
                return None;
            }
            let next = (mmap_size - 2 * space) / page_size;
            proof {
                vstd::arithmetic::div_mod::lemma_div_is_ordered_by_denominator((mmap_size - 2 * space) as int, 1, page_size as int);
            }
            if next == guess {
                return Some(guess);
            }
            if i == USABLE_PAGES_ITERATIONS {
                return None;
            }
            guess = next;
            i = i + 1;
        }
    }


    /// Opens the store held by `mmap`. A mapping without the magic number is formatted
    /// first, with the page size asked for (or `DEFAULT_PAGE_SIZE`): the header, both slots
    /// pointing at their allocator regions, and those regions with only the metapage
    /// allocated; then a flush, the magic number, and a second flush. A mapping with the
    /// magic number is left exactly as it is.
    #[verifier::rlimit(80)]
    pub fn new(mmap: MmapMut, requested_page_size: Option<usize>) -> (r: Result<Self, Error>)
        requires
            requested_page_size matches Some(p) ==> valid_page_size(p as nat),
        ensures
            has_magic(mapped_bytes(mmap)) ==> (r is Ok <==> openable(mapped_bytes(mmap), requested_page_size)),
            !has_magic(mapped_bytes(mmap)) ==> ({
                let ps = match requested_page_size { Some(p) => p as nat, None => DEFAULT_PAGE_SIZE as nat };
                (usable_pages_for(mapped_bytes(mmap).len(), ps) matches Some(n) && 1 <= n <= INDEX_LIMIT)
                    <==> (r is Ok || r matches Err(Error::Io(_)))
            }),
            match r {
                Ok(tm) => {
                    &&& tm.wf()
                    &&& has_magic(tm.bytes())
                    &&& openable(tm.bytes(), requested_page_size)
                    &&& Some(tm.usable_pages()) == usable_pages_for(tm.bytes().len(), tm.page_size())
                    &&& tm.bytes().len() == mapped_bytes(mmap).len()
                    &&& tm.uncommitted_pages().len() == 0
                    &&& tm.freed_pages().len() == 0
                    &&& tm.open_pages().len() == 0
                    &&& !tm.reads_secondary()
                    &&& tm.transaction_start() == tm.secondary_allocated()
                    &&& !slot_dirty(tm.primary())
                    &&& !slot_dirty(tm.secondary())
                    &&& requested_page_size matches Some(p) ==> tm.page_size() == p
                    &&& has_magic(mapped_bytes(mmap)) ==> tm.bytes() == mapped_bytes(mmap)
                    &&& !has_magic(mapped_bytes(mmap)) ==> {
                        &&& fresh_image(tm.bytes(), tm.usable_pages(), tm.page_size())
                        &&& requested_page_size is None ==> tm.page_size() == DEFAULT_PAGE_SIZE
                        &&& tm.flushes().len() == 2
                        &&& tm.free_pages() == tm.usable_pages() - 1
                        &&& tm.primary_allocated() == set![0int]
                        &&& tm.secondary_allocated() == set![0int]
                        &&& !has_magic(tm.flushes()[0])
                        &&& tm.flushes()[1] == tm.bytes()
                    }
                },
                Err(Error::Io(_)) => !has_magic(mapped_bytes(mmap)),
                Err(Error::InvalidSize) => !has_magic(mapped_bytes(mmap)),
                Err(Error::PageSizeMismatch) => has_magic(mapped_bytes(mmap)) && (requested_page_size matches Some(p)
                    && p != pow2(mapped_bytes(mmap)[PAGE_SIZE_OFFSET as int] as nat)),
                Err(Error::RepairRequired) => has_magic(mapped_bytes(mmap)) && (slot_dirty(slot_of(mapped_bytes(mmap), true))
                    || slot_dirty(slot_of(mapped_bytes(mmap), false))),
                Err(Error::Corrupted) => has_magic(mapped_bytes(mmap)),
                Err(Error::OutOfSpace) => false,
            },
    {
        let mut mmap = mmap;
        let total = map_bytes(&mmap).len();
        let magic = {
            let all = map_bytes(&mmap);
            total >= MAGIC_LEN && all[0] == 0x72u8 && all[1] == 0x65u8 && all[2] == 0x64u8 && all[3] == 0x62u8
        };
        if magic {
            Self::open_existing(mmap, requested_page_size, Ghost(Seq::empty()))
        } else {
            let flushed = match Self::format_mapping(&mut mmap, requested_page_size) {
                Ok(flushed) => flushed,
                Err(e) => {
                    return Err(e);
                },
            };
            let ghost b = mapped_bytes(mmap);
            assert(openable(b, requested_page_size));
            proof {
                let ps = match requested_page_size { Some(p) => p as nat, None => DEFAULT_PAGE_SIZE as nat };
                let n = usable_pages_for(b.len(), ps)->0;
                crate::allocator::lemma_free_count_only_zero(region_bytes(b, slot_of(b, false)), n);
            }
            Self::open_existing(mmap, requested_page_size, flushed)
        }
    }

    /// Formats a mapping that lacks the magic number, and returns the two images flushed.
    #[verifier::rlimit(60)]
    fn format_mapping(mmap: &mut MmapMut, requested_page_size: Option<usize>) -> (r: Result<Ghost<Seq<Seq<u8>>>, Error>)
        requires
            requested_page_size matches Some(p) ==> valid_page_size(p as nat),
        ensures
            mapped_bytes(*final(mmap)).len() == mapped_bytes(*old(mmap)).len(),
            ({
                let ps = match requested_page_size { Some(p) => p as nat, None => DEFAULT_PAGE_SIZE as nat };
                let found = usable_pages_for(mapped_bytes(*old(mmap)).len(), ps);
                &&& (found matches Some(n) && 1 <= n <= INDEX_LIMIT) <==> (r is Ok || r matches Err(Error::Io(_)))
                &&& match r {
                    Ok(flushed) => {
                        &&& has_magic(mapped_bytes(*final(mmap)))
                        &&& fresh_image(mapped_bytes(*final(mmap)), found->0, ps)
                        &&& DB_METAPAGE_SIZE <= ps <= usize::MAX
                        &&& flushed@.len() == 2
                        &&& !has_magic(flushed@[0])
                        &&& flushed@[1] == mapped_bytes(*final(mmap))
                    },
                    Err(Error::Io(_)) => true,
                    Err(Error::InvalidSize) => true,
                    Err(_) => false,
                }
            }),
    {
        let total = map_bytes(mmap).len();
        let page_size = match requested_page_size {
            Some(p) => p,
            None => DEFAULT_PAGE_SIZE,
        };
        proof {
            if requested_page_size is None {
                vstd::arithmetic::power2::lemma2_to64();
                assert(pow2(12) == 4096);
            }
        }
        let log = log2_of(page_size);
        let usable = match Self::calculate_usable_pages(total, page_size) {
            Some(n) => n,
            None => {
                return Err(Error::InvalidSize);
            },
        };
        if usable == 0 || usable as u64 > INDEX_LIMIT {
            return Err(Error::InvalidSize);
        }
        proof {
            lemma_search_fixed_point(total as nat, page_size as nat, total as nat / page_size as nat, USABLE_PAGES_ITERATIONS as nat);
            let rr = bitmap_len(usable as nat) as int;
            let m = total as int - 2 * rr;
            let q = page_size as int;
            vstd::arithmetic::div_mod::lemma_fundamental_div_mod(m, q);
            assert(usable * q <= m) by (nonlinear_arith)
                requires usable == m / q, q > 0, m == q * (m / q) + m % q, m % q >= 0;
            assert(page_size <= usable * page_size) by (nonlinear_arith)
                requires usable >= 1, page_size > 0;
        }
        {
            let buf = map_bytes_mut(mmap);
            format_new(buf, usable, page_size, log);
        }
        let ghost b1 = mapped_bytes(*mmap);
        match flush_map(mmap) {
            Ok(()) => {},
            Err(e) => {
                return Err(Error::Io(e));
            },
        }
        // Write the magic number only once the rest is on disk, so that a crash
        // before this point leaves a file that reads as never initialized
        {
            let buf = map_bytes_mut(mmap);
            buf[0] = 0x72u8;
            buf[1] = 0x65u8;
            buf[2] = 0x64u8;
            buf[3] = 0x62u8;
        }
        let ghost b2 = mapped_bytes(*mmap);
        proof {
            assert(agree_outside(b1, b2, 0, MAGIC_LEN as int));
            lemma_agree_outside(b1, b2, 0, MAGIC_LEN as int, MAGIC_LEN as int, b1.len() as int);
            assert forall|i: int| MAGIC_LEN <= i < b1.len() implies b2[i] == b1[i] by {}
            let n = usable as nat;
            let ps = page_size as nat;
            assert(slot_at(b2, TRANSACTION_0_OFFSET as int) =~= slot_at(b1, TRANSACTION_0_OFFSET as int));
            assert(slot_at(b2, TRANSACTION_1_OFFSET as int) =~= slot_at(b1, TRANSACTION_1_OFFSET as int));
            lemma_slot_choice(b1, true);
            lemma_slot_choice(b1, false);
            assert(region_bytes(b2, slot_of(b1, true)) =~= region_bytes(b1, slot_of(b1, true)));
            assert(region_bytes(b2, slot_of(b1, false)) =~= region_bytes(b1, slot_of(b1, false)));
            assert(b2.subrange(DB_SIZE_OFFSET as int, PRIMARY_BIT_OFFSET as int) =~= b1.subrange(DB_SIZE_OFFSET as int, PRIMARY_BIT_OFFSET as int));
            assert(fresh_image(b2, n, ps));
        }
        match flush_map(mmap) {
            Ok(()) => {},
            Err(e) => {
                return Err(Error::Io(e));
            },
        }
        proof {
            lemma_search_fixed_point(total as nat, page_size as nat, total as nat / page_size as nat, USABLE_PAGES_ITERATIONS as nat);
        }
        let flushed: Ghost<Seq<Seq<u8>>> = Ghost(Seq::empty().push(b1).push(b2));
        Ok(flushed)
    }

    /// Opens a mapping that holds the magic number, checking its header and layout.
    #[verifier::rlimit(60)]
    fn open_existing(mmap: MmapMut, requested_page_size: Option<usize>, flushed: Ghost<Seq<Seq<u8>>>) -> (r: Result<Self, Error>)
        requires
            has_magic(mapped_bytes(mmap)),
        ensures
            r is Ok <==> openable(mapped_bytes(mmap), requested_page_size),
            match r {
                Ok(tm) => {
                    &&& tm.wf()
                    &&& tm.bytes() == mapped_bytes(mmap)
                    &&& tm.uncommitted_pages().len() == 0
                    &&& tm.freed_pages().len() == 0
                    &&& tm.open_pages().len() == 0
                    &&& !tm.reads_secondary()
                    &&& tm.transaction_start() == tm.secondary_allocated()
                    &&& !slot_dirty(tm.primary())
                    &&& !slot_dirty(tm.secondary())
                    &&& tm.page_size() == pow2(mapped_bytes(mmap)[PAGE_SIZE_OFFSET as int] as nat)
                    &&& Some(tm.usable_pages()) == usable_pages_for(mapped_bytes(mmap).len(), tm.page_size())
                    &&& tm.flushes() == flushed@
                },
                Err(Error::PageSizeMismatch) => requested_page_size matches Some(p)
                    && p != pow2(mapped_bytes(mmap)[PAGE_SIZE_OFFSET as int] as nat),
                Err(Error::RepairRequired) => slot_dirty(slot_of(mapped_bytes(mmap), true))
                    || slot_dirty(slot_of(mapped_bytes(mmap), false)),
                Err(Error::Corrupted) => true,
                Err(_) => false,
            },
    {
        let total = map_bytes(&mmap).len();
        let ghost b = mapped_bytes(mmap);
        let all = map_bytes(&mmap);
        if total < DB_METAPAGE_SIZE {
            return Err(Error::Corrupted);
        }
        let log = all[PAGE_SIZE_OFFSET];
        if log >= 64 {
            return Err(Error::Corrupted);
        }
        let stored = pow2_of(log);
        if stored < DB_METAPAGE_SIZE as u128 || stored > usize::MAX as u128 {
            return Err(Error::Corrupted);
        }
        let page_size = stored as usize;
        match requested_page_size {
            Some(p) => {
                if p != page_size {
                    return Err(Error::PageSizeMismatch);
                }
            },
            None => {},
        }
        if read_be(all, DB_SIZE_OFFSET, 8) != total as u128 {
            return Err(Error::Corrupted);
        }
        if all[PRIMARY_BIT_OFFSET] > 1 {
            return Err(Error::Corrupted);
        }
        let usable = match Self::calculate_usable_pages(total, page_size) {
            Some(n) => n,
            None => {
                return Err(Error::Corrupted);
            },
        };
        if usable == 0 || usable as u64 > INDEX_LIMIT {
            return Err(Error::Corrupted);
        }
        proof {
            assert(page_size <= usable * page_size) by (nonlinear_arith)
                requires usable >= 1, page_size > 0;
        }
        let slot0 = &all[TRANSACTION_0_OFFSET..TRANSACTION_1_OFFSET];
        let slot1 = &all[TRANSACTION_1_OFFSET..DB_METAPAGE_SIZE];
        if !region_fits(slot0, usable, page_size, total) || !region_fits(slot1, usable, page_size, total) {
            return Err(Error::Corrupted);
        }
        let (start0, end0) = TransactionAccessor::new(slot0).get_allocator_data();
        let (start1, end1) = TransactionAccessor::new(slot1).get_allocator_data();
        if !(end0 <= start1 || end1 <= start0) {
            return Err(Error::Corrupted);
        }
        // A dirty flag is 0 or 1; anything else is not a byte this library writes
        if slot0[ALLOCATOR_STATE_DIRTY_OFFSET] > 1 || slot1[ALLOCATOR_STATE_DIRTY_OFFSET] > 1 {
            return Err(Error::Corrupted);
        }
        proof {
            assert(layout_ok(b, usable as nat, page_size as nat));
            lemma_slot_choice(b, true);
            lemma_slot_choice(b, false);
        }
        let primary = TransactionAccessor::new(get_primary(all));
        let secondary = TransactionAccessor::new(get_secondary_const(all));
        // A dirty slot needs its allocator state rebuilt, which is not done here
        if primary.get_allocator_dirty() || secondary.get_allocator_dirty() {
            return Err(Error::RepairRequired);
        }
        let page_allocator = PageAllocator::new(usable);
        let (ps_start, ps_end) = primary.get_allocator_data();
        let (ss_start, ss_end) = secondary.get_allocator_data();
        if !page_allocator.is_allocated(&all[ps_start..ps_end], DB_METADATA_PAGE)
            || !page_allocator.is_allocated(&all[ss_start..ss_end], DB_METADATA_PAGE) {
            return Err(Error::Corrupted);
        }
        let tm = TransactionalMemory {
            allocated_since_commit: Vec::new(),
            freed_since_commit: Vec::new(),
            page_allocator,
            mmap,
            open_dirty_pages: Vec::new(),
            read_from_secondary: false,
            page_size,
            flushed,
            txn_start: Ghost(allocated_in(region_bytes(b, slot_of(b, false)), usable as nat)),
        };
        proof {
            assert(page_indices(Seq::<PageNumber>::empty()) =~= Set::<int>::empty());
            assert(tm.txn_start@.difference(Set::<int>::empty()).union(Set::<int>::empty()) =~= tm.txn_start@);
        }
        Ok(tm)
    }


    /// Shuts the manager down and hands the mapping back: a non-durable commit still
    /// outstanding is made durable under the last published transaction id, then the
    /// secondary slot's allocator state is marked clean and flushed.
    ///
    /// On success it also returns the record of every image flushed, the last of which is
    /// the returned image: one that opens again with the same page size.
    pub fn close(self) -> (r: Result<(MmapMut, Ghost<Seq<Seq<u8>>>), Error>)
        requires
            self.wf(),
            self.open_pages().len() == 0,
        ensures
            match r {
                Ok((m, flushed)) => {
                    &&& openable(mapped_bytes(m), Some(self.page_size() as usize))
                    &&& flushed@.len() > self.flushes().len()
                    &&& flushed@.subrange(0, self.flushes().len() as int) == self.flushes()
                    &&& flushed@.last() == mapped_bytes(m)
                    &&& mapped_bytes(m).len() == self.bytes().len()
                    &&& pages_unchanged(self.bytes(), mapped_bytes(m), self.usable_pages() * self.page_size())
                    &&& !slot_dirty(secondary_slot_of(mapped_bytes(m)))
                    &&& slot_root(primary_slot_of(mapped_bytes(m))) == slot_root(self.visible_slot())
                    &&& primary_slot_of(mapped_bytes(m)).txn_id == self.visible_slot().txn_id
                    &&& !self.reads_secondary() && !slot_dirty(self.secondary()) ==> mapped_bytes(m) == self.bytes()
                },
                Err(e) => e is Io,
            },
    {
        let mut tm = self;
        if tm.read_from_secondary {
            let transaction_id = tm.get_last_committed_transaction_id();
            match tm.commit(transaction_id) {
                Ok(()) => {},
                Err(e) => {
                    return Err(e);
                },
            }
        }
        let ghost b = tm.bytes();
        assert(b.len() == self.bytes().len());
        assert(slot_root(primary_slot_of(b)) == slot_root(self.visible_slot()));
        assert(primary_slot_of(b).txn_id == self.visible_slot().txn_id);
        match tm.flush() {
            Ok(()) => {},
            Err(e) => {
                return Err(e);
            },
        }
        proof {
            lemma_dirty_frame(b, tm.usable_pages(), tm.page_size as nat, false, 0u8);
        }
        tm.set_allocator_dirty(false, false);
        let ghost b2 = tm.bytes();
        proof {
            assert(slot_of(b2, true) == slot_of(b, true));
            assert(!slot_dirty(slot_of(b2, false)));
            if !slot_dirty(slot_of(b, false)) {
                assert(b2 =~= b);
            }
            assert(!page_indices(tm.freed_since_commit@).contains(0));
            assert(tm.secondary_allocated().contains(0));
            assert(region_bytes(b2, slot_of(b2, false)) == region_bytes(b, slot_of(b, false)));
            assert(openable(b2, Some(tm.page_size as usize)));
        }
        match tm.flush() {
            Ok(()) => {},
            Err(e) => {
                return Err(e);
            },
        }
        let flushed = Ghost(tm.flushed@);
        proof {
            assert(flushed@.subrange(0, self.flushes().len() as int) =~= self.flushes());
        }
        let TransactionalMemory { mmap, .. } = tm;
        Ok((mmap, flushed))
    }

    /// Rolling back restores the free page count of the transaction's start: two states of
    /// one store whose secondary allocators hold the same pages count the same free pages.
    pub proof fn lemma_same_pages_same_free_count(a: &Self, b: &Self)
        requires
            a.wf(),
            b.wf(),
            a.usable_pages() == b.usable_pages(),
            a.secondary_allocated() == b.secondary_allocated(),
        ensures
            a.free_pages() == b.free_pages(),
    {
        let n = a.usable_pages();
        let ra = region_bytes(a.bytes(), a.secondary());
        let rb = region_bytes(b.bytes(), b.secondary());
        assert forall|i: int| 0 <= i < n implies crate::allocator::bit_set(ra, i) == crate::allocator::bit_set(rb, i) by {
            assert(allocated_in(ra, n).contains(i) == allocated_in(rb, n).contains(i));
        }
        lemma_free_count_ext(ra, rb, n);
    }

    /// Pages that the allocator holds allocated at once never overlap: distinct base pages
    /// occupy disjoint byte ranges.
    pub proof fn lemma_live_pages_disjoint(&self, p: PageNumber, q: PageNumber)
        requires
            self.wf(),
            p.page_order == 0,
            q.page_order == 0,
            self.secondary_allocated().contains(p.page_index as int),
            self.secondary_allocated().contains(q.page_index as int),
            p != q,
        ensures
            p.end_byte(self.page_size()) <= q.start_byte(self.page_size())
                || q.end_byte(self.page_size()) <= p.start_byte(self.page_size()),
    {
        crate::page_number::lemma_distinct_pages_disjoint(p, q, self.page_size());
    }


    /// Writing a page through its exclusive handle keeps the manager well formed, and
    /// changes nothing but that page.
    pub proof fn lemma_page_written(before: &Self, after: &Self, p: PageNumber, part: Seq<u8>)
        requires
            before.wf(),
            before.open_pages().contains(p),
            part.len() == before.page_size(),
            after.same_bookkeeping(before),
            after.bytes() == before.bytes().subrange(0, p.start_byte(before.page_size()) as int) + part
                + before.bytes().subrange(p.end_byte(before.page_size()) as int, before.bytes().len() as int),
        ensures
            after.wf(),
            after.page_bytes(p) == part,
            after.primary() == before.primary(),
            after.secondary() == before.secondary(),
            after.primary_bit() == before.primary_bit(),
            after.primary_allocated() == before.primary_allocated(),
            after.secondary_allocated() == before.secondary_allocated(),
    {
        let k = choose|k: int| 0 <= k < before.open_dirty_pages@.len() && before.open_dirty_pages@[k] == p;
        assert(before.open_dirty_pages@[k].page_order == 0);
        before.lemma_page_in_range(p);
        let n = before.usable_pages();
        let ps = before.page_size as nat;
        let i = p.page_index as nat;
        assert((i + 1) * ps == i * ps + ps) by (nonlinear_arith);
        lemma_page_update(before.bytes(), n, ps, i, part);
        assert(after.bytes() =~= with_page(before.bytes(), i, ps, part));
        lemma_slot_choice(before.bytes(), true);
        lemma_slot_choice(before.bytes(), false);
    }


    /// After a non-durable commit, readers see the root recorded in the secondary slot: the
    /// very slot that the next durable commit makes primary, root unchanged.
    pub proof fn lemma_published_root_is_secondary(&self)
        requires
            self.wf(),
            self.reads_secondary(),
        ensures
            slot_root(self.visible_slot()) == slot_root(self.secondary()),
            self.visible_slot().txn_id == self.secondary().txn_id,
    {
    }


    /// What well-formedness gives a caller: the secondary allocator holds the transaction's
    /// starting pages less its frees plus its allocations, dirty flags are 0 or 1, and the
    /// primary slot is clean unless a non-durable commit is outstanding.
    pub proof fn lemma_wf_facts(&self)
        requires
            self.wf(),
        ensures
            self.secondary_allocated() == self.transaction_start().difference(
                page_indices(self.freed_pages()),
            ).union(page_indices(self.uncommitted_pages())),
            page_indices(self.freed_pages()).subset_of(self.transaction_start()),
            self.primary().dirty <= 1,
            self.secondary().dirty <= 1,
            self.primary_bit() <= 1,
            !self.reads_secondary() ==> !slot_dirty(self.primary()),
            has_magic(self.bytes()),
            Some(self.usable_pages()) == usable_pages_for(self.bytes().len(), self.page_size()),
            self.page_size() >= DB_METAPAGE_SIZE,
            layout_ok(self.bytes(), self.usable_pages(), self.page_size()),
            page_indices(self.uncommitted_pages()).disjoint(
                self.transaction_start().difference(page_indices(self.freed_pages())),
            ),
            self.transaction_start().contains(0),
            self.primary_allocated().contains(0),
            pages_ok(self.uncommitted_pages(), self.usable_pages()),
            pages_ok(self.freed_pages(), self.usable_pages()),
            pages_ok(self.open_pages(), self.usable_pages()),
            page_indices(self.open_pages()).subset_of(self.secondary_allocated()),
    {
        lemma_slot_choice(self.bytes(), true);
        lemma_slot_choice(self.bytes(), false);
    }


    /// Releasing an allocated page from the secondary region raises the free count by one.
    proof fn lemma_released_one(before: &Self, after: &Self, i: int)
        requires
            before.usable_pages() == after.usable_pages(),
            0 <= i < before.usable_pages(),
            before.secondary_allocated().contains(i),
            after.secondary_allocated() == before.secondary_allocated().remove(i),
        ensures
            after.free_pages() == before.free_pages() + 1,
    {
        assert(before.secondary_allocated() =~= after.secondary_allocated().insert(i));
        crate::allocator::lemma_free_count_insert(
            region_bytes(after.bytes(), after.secondary()),
            region_bytes(before.bytes(), before.secondary()),
            before.usable_pages(),
            i,
        );
    }

    /// The metapage, borrowed mutably out of the mapping.
    fn acquire_mutable_metapage(&mut self) -> (r: &mut [u8])
        requires
            old(self).bytes().len() >= DB_METAPAGE_SIZE,
        ensures
            r@ == old(self).bytes().subrange(0, DB_METAPAGE_SIZE as int),
            final(self).bytes() == final(r)@ + old(self).bytes().subrange(
                DB_METAPAGE_SIZE as int,
                old(self).bytes().len() as int,
            ),
            final(self).same_bookkeeping(old(self)),
            final(self).flushed == old(self).flushed,
    {
        let bytes = map_bytes_mut(&mut self.mmap);
        let (meta, _rest) = bytes.split_at_mut(DB_METAPAGE_SIZE);
        meta
    }

    /// Marks the allocator state of the primary (or else the secondary) slot dirty or clean.
    fn set_allocator_dirty(&mut self, primary: bool, dirty: bool)
        requires
            old(self).bytes().len() >= DB_METAPAGE_SIZE,
        ensures
            final(self).bytes() == old(self).bytes().update(
                (if primary { primary_offset(old(self).bytes()) } else { secondary_offset(old(self).bytes()) })
                    + ALLOCATOR_STATE_DIRTY_OFFSET,
                if dirty { 1u8 } else { 0u8 },
            ),
            final(self).same_bookkeeping(old(self)),
            final(self).flushed == old(self).flushed,
    {
        let ghost b = self.bytes();
        let meta = self.acquire_mutable_metapage();
        let slot = if primary {
            get_primary_mut(meta)
        } else {
            get_secondary(meta)
        };
        let mut m = TransactionMutator::new(slot);
        m.set_allocator_dirty(dirty);
        assert(self.bytes() =~= b.update(
            (if primary { primary_offset(b) } else { secondary_offset(b) }) + ALLOCATOR_STATE_DIRTY_OFFSET,
            if dirty { 1u8 } else { 0u8 },
        ));
    }
}

} // verus!
