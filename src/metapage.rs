//! Layout of the metapage and typed views over its two transaction slots.
use vstd::prelude::*;
use crate::codec::{be_encode, be_value, splice, lemma_encode_len, read_be, write_be};
use crate::page_number::{PageNumber, packed, unpacked};

verus! {

pub const DB_METADATA_PAGE: u64 = 0;

pub const MAGIC_LEN: usize = 4;
pub const VERSION_OFFSET: usize = MAGIC_LEN;
pub const PAGE_SIZE_OFFSET: usize = VERSION_OFFSET + 1;
pub const DB_SIZE_OFFSET: usize = PAGE_SIZE_OFFSET + 1;
pub const PRIMARY_BIT_OFFSET: usize = DB_SIZE_OFFSET + 8;
pub const TRANSACTION_SIZE: usize = 128;
pub const TRANSACTION_0_OFFSET: usize = 128;
pub const TRANSACTION_1_OFFSET: usize = TRANSACTION_0_OFFSET + TRANSACTION_SIZE;
pub const DB_METAPAGE_SIZE: usize = TRANSACTION_1_OFFSET + TRANSACTION_SIZE;

// Layout of each transaction slot
pub const ROOT_PAGE_OFFSET: usize = 0;
pub const ROOT_PAGE_MESSAGE_BYTES_OFFSET: usize = ROOT_PAGE_OFFSET + 8;
pub const TRANSACTION_ID_OFFSET: usize = ROOT_PAGE_MESSAGE_BYTES_OFFSET + 4;
pub const ALLOCATOR_STATE_PTR_OFFSET: usize = TRANSACTION_ID_OFFSET + 16;
pub const ALLOCATOR_STATE_LEN_OFFSET: usize = ALLOCATOR_STATE_PTR_OFFSET + 8;
pub const ALLOCATOR_STATE_DIRTY_OFFSET: usize = ALLOCATOR_STATE_LEN_OFFSET + 8;

/// Offset of the primary slot, as selected by the primary bit of `meta`.
pub open spec fn primary_offset(meta: Seq<u8>) -> int {
    if meta[PRIMARY_BIT_OFFSET as int] == 0 {
        TRANSACTION_0_OFFSET as int
    } else {
        TRANSACTION_1_OFFSET as int
    }
}

/// Offset of the secondary slot, the one the primary bit does not select.
pub open spec fn secondary_offset(meta: Seq<u8>) -> int {
    if meta[PRIMARY_BIT_OFFSET as int] == 0 {
        TRANSACTION_1_OFFSET as int
    } else {
        TRANSACTION_0_OFFSET as int
    }
}

/// The 128 bytes of the slot at `offset`.
pub open spec fn slot_at(meta: Seq<u8>, offset: int) -> Seq<u8> {
    meta.subrange(offset, offset + TRANSACTION_SIZE)
}

/// The fields of one transaction slot, as numbers.
pub struct Slot {
    pub root: nat,
    pub message_bytes: nat,
    pub txn_id: nat,
    pub alloc_start: nat,
    pub alloc_len: nat,
    pub dirty: u8,
}

/// The fields that the slot bytes `s` hold.
pub open spec fn slot_view(s: Seq<u8>) -> Slot {
    Slot {
        root: be_value(s.subrange(ROOT_PAGE_OFFSET as int, ROOT_PAGE_MESSAGE_BYTES_OFFSET as int)),
        message_bytes: be_value(s.subrange(ROOT_PAGE_MESSAGE_BYTES_OFFSET as int, TRANSACTION_ID_OFFSET as int)),
        txn_id: be_value(s.subrange(TRANSACTION_ID_OFFSET as int, ALLOCATOR_STATE_PTR_OFFSET as int)),
        alloc_start: be_value(s.subrange(ALLOCATOR_STATE_PTR_OFFSET as int, ALLOCATOR_STATE_LEN_OFFSET as int)),
        alloc_len: be_value(s.subrange(ALLOCATOR_STATE_LEN_OFFSET as int, ALLOCATOR_STATE_DIRTY_OFFSET as int)),
        dirty: s[ALLOCATOR_STATE_DIRTY_OFFSET as int],
    }
}

/// The root that a slot records: `None` where the stored page index is zero.
pub open spec fn slot_root(s: Slot) -> Option<(PageNumber, u32)> {
    if unpacked(s.root).page_index == 0 {
        None
    } else {
        Some((unpacked(s.root), s.message_bytes as u32))
    }
}

/// Whether a slot's allocator region is marked dirty.
pub open spec fn slot_dirty(s: Slot) -> bool {
    s.dirty != 0
}

/// Writing `part` at `start` leaves every byte range outside it as it was, and puts `part` in it.
pub proof fn lemma_splice_ranges(s: Seq<u8>, start: int, part: Seq<u8>)
    requires
        0 <= start,
        start + part.len() <= s.len(),
    ensures
        splice(s, start, part).len() == s.len(),
        splice(s, start, part).subrange(start, start + part.len()) == part,
        forall|a: int, b: int|
            #![trigger splice(s, start, part).subrange(a, b)]
            0 <= a <= b <= s.len() && (b <= start || start + part.len() <= a) ==> splice(
                s,
                start,
                part,
            ).subrange(a, b) == s.subrange(a, b),
        forall|i: int|
            #![trigger splice(s, start, part)[i]]
            0 <= i < s.len() && (i < start || start + part.len() <= i) ==> splice(s, start, part)[i] == s[i],
{
    assert(splice(s, start, part).subrange(start, start + part.len()) =~= part);
    assert forall|a: int, b: int|
        #![trigger splice(s, start, part).subrange(a, b)]
        0 <= a <= b <= s.len() && (b <= start || start + part.len() <= a) implies splice(
            s,
            start,
            part,
        ).subrange(a, b) == s.subrange(a, b) by {
        assert(splice(s, start, part).subrange(a, b) =~= s.subrange(a, b));
    }
}

/// The bytes of the primary slot.
pub fn get_primary(metapage: &[u8]) -> (r: &[u8])
    requires
        metapage@.len() >= DB_METAPAGE_SIZE,
    ensures
        r@ == slot_at(metapage@, primary_offset(metapage@)),
{
    let start = if metapage[PRIMARY_BIT_OFFSET] == 0 {
        TRANSACTION_0_OFFSET
    } else {
        TRANSACTION_1_OFFSET
    };
    let end = start + TRANSACTION_SIZE;
    &metapage[start..end]
}

/// The bytes of the secondary slot.
pub fn get_secondary_const(metapage: &[u8]) -> (r: &[u8])
    requires
        metapage@.len() >= DB_METAPAGE_SIZE,
    ensures
        r@ == slot_at(metapage@, secondary_offset(metapage@)),
{
    let start = if metapage[PRIMARY_BIT_OFFSET] == 0 {
        TRANSACTION_1_OFFSET
    } else {
        TRANSACTION_0_OFFSET
    };
    let end = start + TRANSACTION_SIZE;
    &metapage[start..end]
}

/// The slot at `start`, borrowed mutably out of the metapage.
fn slot_mut(metapage: &mut [u8], start: usize) -> (r: &mut [u8])
    requires
        start + TRANSACTION_SIZE <= old(metapage)@.len(),
    ensures
        r@ == slot_at(old(metapage)@, start as int),
        final(metapage)@ == old(metapage)@.subrange(0, start as int) + final(r)@ + old(metapage)@.subrange(
            start + TRANSACTION_SIZE,
            old(metapage)@.len() as int,
        ),
{
    let (head, tail) = metapage.split_at_mut(start);
    let (slot, rest) = tail.split_at_mut(TRANSACTION_SIZE);
    slot
}

/// The bytes of the primary slot, for changes to its allocator state only: the caller
/// must have marked that state dirty and flushed first.
pub fn get_primary_mut(metapage: &mut [u8]) -> (r: &mut [u8])
    requires
        old(metapage)@.len() >= DB_METAPAGE_SIZE,
    ensures
        r@ == slot_at(old(metapage)@, primary_offset(old(metapage)@)),
        final(metapage)@ == old(metapage)@.subrange(0, primary_offset(old(metapage)@)) + final(r)@
            + old(metapage)@.subrange(
            primary_offset(old(metapage)@) + TRANSACTION_SIZE,
            old(metapage)@.len() as int,
        ),
{
    let start = if metapage[PRIMARY_BIT_OFFSET] == 0 {
        TRANSACTION_0_OFFSET
    } else {
        TRANSACTION_1_OFFSET
    };
    slot_mut(metapage, start)
}

/// The bytes of the secondary slot.
pub fn get_secondary(metapage: &mut [u8]) -> (r: &mut [u8])
    requires
        old(metapage)@.len() >= DB_METAPAGE_SIZE,
    ensures
        r@ == slot_at(old(metapage)@, secondary_offset(old(metapage)@)),
        final(metapage)@ == old(metapage)@.subrange(0, secondary_offset(old(metapage)@)) + final(r)@
            + old(metapage)@.subrange(
            secondary_offset(old(metapage)@) + TRANSACTION_SIZE,
            old(metapage)@.len() as int,
        ),
{
    let start = if metapage[PRIMARY_BIT_OFFSET] == 0 {
        TRANSACTION_1_OFFSET
    } else {
        TRANSACTION_0_OFFSET
    };
    slot_mut(metapage, start)
}

/// A read-only view of one transaction slot.
pub struct TransactionAccessor<'a> {
    pub mem: &'a [u8],
}

impl<'a> TransactionAccessor<'a> {
    pub fn new(mem: &'a [u8]) -> (r: Self)
        requires
            mem@.len() == TRANSACTION_SIZE,
        ensures
            r.mem@ == mem@,
    {
        TransactionAccessor { mem }
    }

    pub fn get_root_page(&self) -> (r: Option<(PageNumber, u32)>)
        requires
            self.mem@.len() == TRANSACTION_SIZE,
        ensures
            r == slot_root(slot_view(self.mem@)),
    {
        let num = PageNumber::from_packed(read_be(self.mem, ROOT_PAGE_OFFSET, 8) as u64);
        let message_bytes = read_be(self.mem, ROOT_PAGE_MESSAGE_BYTES_OFFSET, 4) as u32;
        if num.page_index == 0 {
            None
        } else {
            Some((num, message_bytes))
        }
    }

    pub fn get_last_committed_transaction_id(&self) -> (r: u128)
        requires
            self.mem@.len() == TRANSACTION_SIZE,
        ensures
            r == slot_view(self.mem@).txn_id,
    {
        read_be(self.mem, TRANSACTION_ID_OFFSET, 16)
    }

    /// The allocator region `[start, end)` that the slot points to.
    pub fn get_allocator_data(&self) -> (r: (usize, usize))
        requires
            self.mem@.len() == TRANSACTION_SIZE,
            slot_view(self.mem@).alloc_start + slot_view(self.mem@).alloc_len <= usize::MAX,
        ensures
            r.0 == slot_view(self.mem@).alloc_start,
            r.1 == slot_view(self.mem@).alloc_start + slot_view(self.mem@).alloc_len,
    {
        let start = read_be(self.mem, ALLOCATOR_STATE_PTR_OFFSET, 8);
        let len = read_be(self.mem, ALLOCATOR_STATE_LEN_OFFSET, 8);
        (start as usize, (start + len) as usize)
    }

    /// Whether the slot's allocator state is marked dirty. The flag is a byte 0 or 1.
    pub fn get_allocator_dirty(&self) -> (r: bool)
        requires
            self.mem@.len() == TRANSACTION_SIZE,
            self.mem@[ALLOCATOR_STATE_DIRTY_OFFSET as int] <= 1,
        ensures
            r == slot_dirty(slot_view(self.mem@)),
            r == (self.mem@[ALLOCATOR_STATE_DIRTY_OFFSET as int] == 1),
    {
        self.mem[ALLOCATOR_STATE_DIRTY_OFFSET] != 0
    }
}

/// A read-write view of one transaction slot.
pub struct TransactionMutator<'a> {
    pub mem: &'a mut [u8],
}

impl<'a> TransactionMutator<'a> {
    pub fn new(mem: &'a mut [u8]) -> (r: Self)
        requires
            old(mem)@.len() == TRANSACTION_SIZE,
        ensures
            r.mem@ == old(mem)@,
            final(r.mem)@ == final(mem)@,
    {
        TransactionMutator { mem }
    }

    pub fn set_root_page(&mut self, page_number: PageNumber, valid_message_bytes: u32)
        requires
            old(self).mem@.len() == TRANSACTION_SIZE,
            page_number.wf(),
        ensures
            final(self).mem@.len() == TRANSACTION_SIZE,
            final(self).mem@ == splice(
                splice(old(self).mem@, ROOT_PAGE_OFFSET as int, be_encode(packed(page_number), 8)),
                ROOT_PAGE_MESSAGE_BYTES_OFFSET as int,
                be_encode(valid_message_bytes as nat, 4),
            ),
            slot_view(final(self).mem@) == (Slot {
                root: packed(page_number),
                message_bytes: valid_message_bytes as nat,
                ..slot_view(old(self).mem@)
            }),
            final(final(self).mem)@ == final(old(self).mem)@,
    {
        let ghost s0 = self.mem@;
        write_be(self.mem, ROOT_PAGE_OFFSET, 8, page_number.to_packed() as u128);
        let ghost s1 = self.mem@;
        write_be(self.mem, ROOT_PAGE_MESSAGE_BYTES_OFFSET, 4, valid_message_bytes as u128);
        proof {
            lemma_encode_len(packed(page_number), 8);
            lemma_encode_len(valid_message_bytes as nat, 4);
            lemma_splice_ranges(s0, 0, be_encode(packed(page_number), 8));
            lemma_splice_ranges(s1, 8, be_encode(valid_message_bytes as nat, 4));
            crate::codec::lemma_pow256_facts();
            crate::codec::lemma_value_of_encode(packed(page_number), 8);
            crate::codec::lemma_value_of_encode(valid_message_bytes as nat, 4);
            assert(self.mem@[ALLOCATOR_STATE_DIRTY_OFFSET as int] == s0[ALLOCATOR_STATE_DIRTY_OFFSET as int]);
        }
    }

    pub fn set_last_committed_transaction_id(&mut self, transaction_id: u128)
        requires
            old(self).mem@.len() == TRANSACTION_SIZE,
        ensures
            final(self).mem@.len() == TRANSACTION_SIZE,
            final(self).mem@ == splice(old(self).mem@, TRANSACTION_ID_OFFSET as int, be_encode(transaction_id as nat, 16)),
            slot_view(final(self).mem@) == (Slot { txn_id: transaction_id as nat, ..slot_view(old(self).mem@) }),
            final(final(self).mem)@ == final(old(self).mem)@,
    {
        let ghost s0 = self.mem@;
        write_be(self.mem, TRANSACTION_ID_OFFSET, 16, transaction_id);
        proof {
            lemma_encode_len(transaction_id as nat, 16);
            lemma_splice_ranges(s0, TRANSACTION_ID_OFFSET as int, be_encode(transaction_id as nat, 16));
            crate::codec::lemma_pow256_facts();
            crate::codec::lemma_value_of_encode(transaction_id as nat, 16);
            assert(self.mem@[ALLOCATOR_STATE_DIRTY_OFFSET as int] == s0[ALLOCATOR_STATE_DIRTY_OFFSET as int]);
        }
    }

    /// Points the slot at the allocator region of `len` bytes at `start`.
    pub fn set_allocator_data(&mut self, start: usize, len: usize)
        requires
            old(self).mem@.len() == TRANSACTION_SIZE,
        ensures
            final(self).mem@.len() == TRANSACTION_SIZE,
            final(self).mem@ == splice(
                splice(old(self).mem@, ALLOCATOR_STATE_PTR_OFFSET as int, be_encode(start as nat, 8)),
                ALLOCATOR_STATE_LEN_OFFSET as int,
                be_encode(len as nat, 8),
            ),
            slot_view(final(self).mem@) == (Slot {
                alloc_start: start as nat,
                alloc_len: len as nat,
                ..slot_view(old(self).mem@)
            }),
            final(final(self).mem)@ == final(old(self).mem)@,
    {
        let ghost s0 = self.mem@;
        write_be(self.mem, ALLOCATOR_STATE_PTR_OFFSET, 8, start as u128);
        let ghost s1 = self.mem@;
        write_be(self.mem, ALLOCATOR_STATE_LEN_OFFSET, 8, len as u128);
        proof {
            lemma_encode_len(start as nat, 8);
            lemma_encode_len(len as nat, 8);
            lemma_splice_ranges(s0, ALLOCATOR_STATE_PTR_OFFSET as int, be_encode(start as nat, 8));
            lemma_splice_ranges(s1, ALLOCATOR_STATE_LEN_OFFSET as int, be_encode(len as nat, 8));
            crate::codec::lemma_pow256_facts();
            crate::codec::lemma_value_of_encode(start as nat, 8);
            crate::codec::lemma_value_of_encode(len as nat, 8);
            assert(self.mem@[ALLOCATOR_STATE_DIRTY_OFFSET as int] == s0[ALLOCATOR_STATE_DIRTY_OFFSET as int]);
        }
    }

    /// The allocator region `[start, end)` that the slot points to.
    pub fn get_allocator_data(&self) -> (r: (usize, usize))
        requires
            self.mem@.len() == TRANSACTION_SIZE,
            slot_view(self.mem@).alloc_start + slot_view(self.mem@).alloc_len <= usize::MAX,
        ensures
            r.0 == slot_view(old(self.mem)@).alloc_start,
            r.1 == slot_view(old(self.mem)@).alloc_start + slot_view(old(self.mem)@).alloc_len,
    {
        let start = read_be(self.mem, ALLOCATOR_STATE_PTR_OFFSET, 8);
        let len = read_be(self.mem, ALLOCATOR_STATE_LEN_OFFSET, 8);
        (start as usize, (start + len) as usize)
    }

    pub fn set_allocator_dirty(&mut self, dirty: bool)
        requires
            old(self).mem@.len() == TRANSACTION_SIZE,
        ensures
            final(self).mem@.len() == TRANSACTION_SIZE,
            final(self).mem@ == old(self).mem@.update(
                ALLOCATOR_STATE_DIRTY_OFFSET as int,
                if dirty { 1u8 } else { 0u8 },
            ),
            slot_view(final(self).mem@) == (Slot {
                dirty: if dirty { 1u8 } else { 0u8 },
                ..slot_view(old(self).mem@)
            }),
            final(final(self).mem)@ == final(old(self).mem)@,
    {
        let ghost s0 = self.mem@;
        if dirty {
            self.mem[ALLOCATOR_STATE_DIRTY_OFFSET] = 1;
        } else {
            self.mem[ALLOCATOR_STATE_DIRTY_OFFSET] = 0;
        }
        proof {
            let s1 = self.mem@;
            assert(s1.subrange(0, ALLOCATOR_STATE_DIRTY_OFFSET as int) =~= s0.subrange(0, ALLOCATOR_STATE_DIRTY_OFFSET as int));
            assert forall|a: int, b: int|
                #![trigger s1.subrange(a, b)]
                0 <= a <= b <= ALLOCATOR_STATE_DIRTY_OFFSET implies s1.subrange(a, b) == s0.subrange(a, b) by {
                assert(s1.subrange(a, b) =~= s0.subrange(a, b));
            }
        }
    }

    /// Whether the slot's allocator state is marked dirty. The flag is a byte 0 or 1.
    pub fn get_allocator_dirty(&self) -> (r: bool)
        requires
            self.mem@.len() == TRANSACTION_SIZE,
            self.mem@[ALLOCATOR_STATE_DIRTY_OFFSET as int] <= 1,
        ensures
            r == slot_dirty(slot_view(old(self.mem)@)),
            r == (old(self.mem)@[ALLOCATOR_STATE_DIRTY_OFFSET as int] == 1),
    {
        self.mem[ALLOCATOR_STATE_DIRTY_OFFSET] != 0
    }
}

} // verus!
