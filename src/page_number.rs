//! Page identifiers: an index and an order, packed into eight bytes.
use vstd::prelude::*;
use vstd::arithmetic::power2::pow2;
use crate::codec::{be_encode, be_value, lemma_value_of_encode, lemma_pow256_facts, read_be, write_be, lemma_encode_len};

verus! {

/// Page indices are 48-bit numbers.
pub const INDEX_LIMIT: u64 = 0x1_0000_0000_0000;

/// A run of `2^page_order` base pages starting at base page `page_index * 2^page_order`.
#[derive(Copy, Clone, Debug, PartialEq, Eq, Structural, PartialOrd, Ord, Hash)]
pub struct PageNumber {
    pub page_index: u64,
    pub page_order: u8,
}

/// The 64-bit word a page number is stored as: order in the high byte, index below.
pub open spec fn packed(p: PageNumber) -> nat {
    p.page_index as nat + p.page_order as nat * INDEX_LIMIT as nat
}

/// The page number that the packed word `v` stands for.
pub open spec fn unpacked(v: nat) -> PageNumber {
    PageNumber { page_index: (v % INDEX_LIMIT as nat) as u64, page_order: (v / INDEX_LIMIT as nat) as u8 }
}

/// The eight stored bytes of `p`.
pub open spec fn page_number_bytes(p: PageNumber) -> Seq<u8> {
    be_encode(packed(p), 8)
}

/// The page number that eight stored bytes denote.
pub open spec fn page_number_of(bytes: Seq<u8>) -> PageNumber {
    unpacked(be_value(bytes))
}

/// Base pages covered by a run of the given order.
pub open spec fn run_pages(order: u8) -> nat {
    pow2(order as nat)
}

impl PageNumber {
    pub open spec fn wf(&self) -> bool {
        self.page_index < INDEX_LIMIT
    }

    /// First byte of the page, for pages of `page_size` bytes.
    pub open spec fn start_byte(&self, page_size: nat) -> nat {
        self.page_index as nat * run_pages(self.page_order) * page_size
    }

    /// One past the last byte of the page, for pages of `page_size` bytes.
    pub open spec fn end_byte(&self, page_size: nat) -> nat {
        (self.page_index as nat + 1) * run_pages(self.page_order) * page_size
    }

    /// The page number that stands for no page.
    pub fn null() -> (r: Self)
        ensures
            r == (PageNumber { page_index: 0, page_order: 0 }),
    {
        Self::new(0, 0)
    }

    pub fn new(page_index: u64, page_order: u8) -> (r: Self)
        requires
            page_index < INDEX_LIMIT,
        ensures
            r.page_index == page_index,
            r.page_order == page_order,
            r.wf(),
    {
        PageNumber { page_index, page_order }
    }

    pub fn to_be_bytes(self) -> (r: [u8; 8])
        requires
            self.wf(),
        ensures
            r@ == page_number_bytes(self),
    {
        let temp: u64 = self.page_index + (self.page_order as u64) * INDEX_LIMIT;
        let mut out = [0u8; 8];
        write_be(&mut out, 0, 8, temp as u128);
        proof {
            lemma_encode_len(temp as nat, 8);
            assert(out@ =~= page_number_bytes(self));
        }
        out
    }

    pub fn from_be_bytes(bytes: [u8; 8]) -> (r: Self)
        ensures
            r == page_number_of(bytes@),
            r.wf(),
    {
        let temp = read_be(bytes.as_slice(), 0, 8) as u64;
        assert(bytes@.subrange(0, 8) =~= bytes@);
        Self::from_packed(temp)
    }

    /// The page number stored as the 64-bit word `temp`.
    pub fn from_packed(temp: u64) -> (r: Self)
        ensures
            r == unpacked(temp as nat),
            r.wf(),
    {
        let index = temp % INDEX_LIMIT;
        let order = (temp / INDEX_LIMIT) as u8;
        Self::new(index, order)
    }

    /// The packed 64-bit word of this page number.
    pub fn to_packed(self) -> (r: u64)
        requires
            self.wf(),
        ensures
            r == packed(self),
    {
        self.page_index + (self.page_order as u64) * INDEX_LIMIT
    }

    /// The bytes `[start, end)` that the page occupies in a file of `page_size`-byte pages.
    pub fn address_range(&self, page_size: usize) -> (r: core::ops::Range<usize>)
        requires
            page_size > 0,
            self.end_byte(page_size as nat) <= usize::MAX,
        ensures
            r.start == self.start_byte(page_size as nat),
            r.end == self.end_byte(page_size as nat),
            r.start <= r.end,
    {
        let ghost rp = run_pages(self.page_order) as int;
        proof {
            let i = self.page_index as int;
            let s = page_size as int;
            vstd::arithmetic::power2::lemma_pow2_pos(self.page_order as nat);
            assert(rp <= (i + 1) * rp * s) by (nonlinear_arith)
                requires i >= 0, s >= 1, rp >= 1;
            assert(i * rp * s <= (i + 1) * rp * s) by (nonlinear_arith)
                requires i >= 0, s >= 1, rp >= 1;
            assert(i + 1 <= (i + 1) * rp * s) by (nonlinear_arith)
                requires i >= 0, s >= 1, rp >= 1;
            assert(i * rp <= i * rp * s) by (nonlinear_arith)
                requires i >= 0, s >= 1, rp >= 1;
            assert((i + 1) * rp <= (i + 1) * rp * s) by (nonlinear_arith)
                requires i >= 0, s >= 1, rp >= 1;
        }
        let pages = Self::run_length(self.page_order);
        let index = self.page_index as usize;
        let start = index * pages * page_size;
        let end = (index + 1) * pages * page_size;
        start..end
    }

    /// The length in bytes of the page in a file of `page_size`-byte pages.
    pub fn page_size_bytes(&self, page_size: usize) -> (r: usize)
        requires
            page_size > 0,
            run_pages(self.page_order) * page_size <= usize::MAX,
        ensures
            r == run_pages(self.page_order) * page_size,
    {
        proof {
            let rp = run_pages(self.page_order) as int;
            let s = page_size as int;
            vstd::arithmetic::power2::lemma_pow2_pos(self.page_order as nat);
            assert(rp <= rp * s) by (nonlinear_arith)
                requires s >= 1, rp >= 1;
        }
        let pages = Self::run_length(self.page_order);
        pages * page_size
    }

    /// `2^order`, for orders whose run length fits in `usize`.
    fn run_length(order: u8) -> (r: usize)
        requires
            run_pages(order) <= usize::MAX,
        ensures
            r == run_pages(order),
    {
        let mut pages: usize = 1;
        let mut k: u8 = 0;
        proof {
            vstd::arithmetic::power2::lemma_pow2(0);
            vstd::arithmetic::power::lemma_pow0(2);
        }
        while k < order
            invariant
                k <= order,
                pages == pow2(k as nat),
                pow2(order as nat) <= usize::MAX,
            decreases order - k,
        {
            proof {
                vstd::arithmetic::power2::lemma_pow2_unfold((k + 1) as nat);
                if k + 1 < order {
                    vstd::arithmetic::power2::lemma_pow2_strictly_increases((k + 1) as nat, order as nat);
                }
            }
            pages = pages * 2;
            k = k + 1;
        }
        pages
    }
}

/// Decoding the stored bytes of a valid page number gives the same page number.
pub proof fn lemma_page_number_round_trip(p: PageNumber)
    requires
        p.wf(),
    ensures
        page_number_of(page_number_bytes(p)) == p,
        page_number_bytes(p).len() == 8,
{
    lemma_pow256_facts();
    lemma_encode_len(packed(p), 8);
    assert(packed(p) < 0x1_0000_0000_0000_0000);
    lemma_value_of_encode(packed(p), 8);
    let v = packed(p);
    let l = INDEX_LIMIT as nat;
    vstd::arithmetic::div_mod::lemma_fundamental_div_mod_converse(
        v as int,
        l as int,
        p.page_order as int,
        p.page_index as int,
    );
}

/// Two distinct base pages (order zero) occupy disjoint byte ranges.
pub proof fn lemma_distinct_pages_disjoint(a: PageNumber, b: PageNumber, page_size: nat)
    requires
        a.page_order == 0,
        b.page_order == 0,
        a.page_index != b.page_index,
    ensures
        a.end_byte(page_size) <= b.start_byte(page_size) || b.end_byte(page_size) <= a.start_byte(page_size),
{
    vstd::arithmetic::power2::lemma_pow2(0);
    vstd::arithmetic::power::lemma_pow0(2);
    assert(run_pages(0) == 1);
    let ai = a.page_index as int;
    let bi = b.page_index as int;
    let s = page_size as int;
    if ai < bi {
        assert((ai + 1) * s <= bi * s) by (nonlinear_arith)
            requires ai + 1 <= bi, s >= 0;
    } else {
        assert((bi + 1) * s <= ai * s) by (nonlinear_arith)
            requires bi + 1 <= ai, s >= 0;
    }
}

} // verus!
