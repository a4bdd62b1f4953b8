//! A bitmap page allocator whose state lives in a caller-owned byte region.
//!
//! Bit `i % 8` of byte `i / 8` is set while page `i` is allocated.
use vstd::prelude::*;

verus! {

/// Whether page `i` is marked allocated in the bitmap `r`.
pub open spec fn bit_set(r: Seq<u8>, i: int) -> bool {
    (r[i / 8] >> ((i % 8) as u8)) & 1u8 == 1u8
}

/// The pages below `n` that the bitmap `r` marks allocated.
pub open spec fn allocated_in(r: Seq<u8>, n: nat) -> Set<int> {
    Set::new(|i: int| 0 <= i < n && bit_set(r, i))
}

/// How many of the pages below `n` the bitmap `r` marks free.
pub open spec fn free_count(r: Seq<u8>, n: nat) -> nat
    decreases n,
{
    if n == 0 {
        0
    } else {
        free_count(r, (n - 1) as nat) + if bit_set(r, n - 1) { 0nat } else { 1nat }
    }
}

/// Bytes needed to track `n` pages.
pub open spec fn bitmap_len(n: nat) -> nat {
    (n + 7) / 8
}

proof fn lemma_set_bit(b: u8, k: u8, j: u8)
    requires
        k < 8,
        j < 8,
    ensures
        ((b | (1u8 << k)) >> j) & 1u8 == 1u8 <==> (j == k || (b >> j) & 1u8 == 1u8),
{
    assert(((b | (1u8 << k)) >> j) & 1u8 == 1u8 <==> (j == k || (b >> j) & 1u8 == 1u8))
        by (bit_vector)
        requires
            k < 8,
            j < 8,
    ;
}

proof fn lemma_clear_bit(b: u8, k: u8, j: u8)
    requires
        k < 8,
        j < 8,
    ensures
        ((b & !(1u8 << k)) >> j) & 1u8 == 1u8 <==> (j != k && (b >> j) & 1u8 == 1u8),
{
    assert(((b & !(1u8 << k)) >> j) & 1u8 == 1u8 <==> (j != k && (b >> j) & 1u8 == 1u8))
        by (bit_vector)
        requires
            k < 8,
            j < 8,
    ;
}

proof fn lemma_zero_byte(j: u8)
    requires
        j < 8,
    ensures
        (0u8 >> j) & 1u8 != 1u8,
{
    assert((0u8 >> j) & 1u8 != 1u8) by (bit_vector)
        requires
            j < 8,
    ;
}

/// Two bitmaps that agree on every page below `n` count the same free pages.
pub proof fn lemma_free_count_ext(r1: Seq<u8>, r2: Seq<u8>, n: nat)
    requires
        forall|i: int| 0 <= i < n ==> bit_set(r1, i) == bit_set(r2, i),
    ensures
        free_count(r1, n) == free_count(r2, n),
    decreases n,
{
    if n > 0 {
        lemma_free_count_ext(r1, r2, (n - 1) as nat);
    }
}


/// Counting up to `k`: marking one more page `i` allocated lowers the count by one once `i`
/// is below `k`.
proof fn lemma_free_count_mark(r1: Seq<u8>, r2: Seq<u8>, n: nat, i: int, k: nat)
    requires
        k <= n,
        0 <= i < n,
        !bit_set(r1, i),
        bit_set(r2, i),
        forall|j: int| 0 <= j < n && j != i ==> bit_set(r1, j) == bit_set(r2, j),
    ensures
        free_count(r2, k) + (if i < k { 1nat } else { 0nat }) == free_count(r1, k),
    decreases k,
{
    if k > 0 {
        lemma_free_count_mark(r1, r2, n, i, (k - 1) as nat);
    }
}

/// Marking one free page allocated lowers the free count by one.
pub proof fn lemma_free_count_insert(r1: Seq<u8>, r2: Seq<u8>, n: nat, i: int)
    requires
        0 <= i < n,
        !allocated_in(r1, n).contains(i),
        allocated_in(r2, n) == allocated_in(r1, n).insert(i),
    ensures
        free_count(r2, n) + 1 == free_count(r1, n),
{
    assert(allocated_in(r2, n).contains(i));
    assert forall|j: int| 0 <= j < n && j != i implies bit_set(r1, j) == bit_set(r2, j) by {
        assert(allocated_in(r1, n).contains(j) == allocated_in(r2, n).contains(j));
    }
    lemma_free_count_mark(r1, r2, n, i, n);
}

/// Counting up to `k` where only page 0 is allocated.
proof fn lemma_free_count_only_zero_upto(r: Seq<u8>, n: nat, k: nat)
    requires
        1 <= k <= n,
        allocated_in(r, n) == set![0int],
    ensures
        free_count(r, k) == k - 1,
    decreases k,
{
    assert(allocated_in(r, n).contains(0));
    assert(bit_set(r, 0));
    if k > 1 {
        lemma_free_count_only_zero_upto(r, n, (k - 1) as nat);
        assert(!allocated_in(r, n).contains(k - 1));
        assert(!bit_set(r, k - 1));
    } else {
        assert(free_count(r, 0) == 0);
    }
}

/// Where only page 0 is allocated, every other page is free.
pub proof fn lemma_free_count_only_zero(r: Seq<u8>, n: nat)
    requires
        1 <= n,
        allocated_in(r, n) == set![0int],
    ensures
        free_count(r, n) == n - 1,
{
    lemma_free_count_only_zero_upto(r, n, n);
}

/// The free count never exceeds the number of pages.
pub proof fn lemma_free_count_bound(r: Seq<u8>, n: nat)
    ensures
        free_count(r, n) <= n,
    decreases n,
{
    if n > 0 {
        lemma_free_count_bound(r, (n - 1) as nat);
    }
}

/// Marks exactly page `i` in the bitmap as `value`; all other pages keep their mark.
fn write_bit(buf: &mut [u8], i: u64, value: bool)
    requires
        (i / 8) < old(buf)@.len(),
    ensures
        final(buf)@.len() == old(buf)@.len(),
        bit_set(final(buf)@, i as int) == value,
        forall|j: int|
            #![trigger bit_set(final(buf)@, j)]
            0 <= j < 8 * old(buf)@.len() && j != i ==> bit_set(final(buf)@, j) == bit_set(
                old(buf)@,
                j,
            ),
{
    let byte = (i / 8) as usize;
    let k = (i % 8) as u8;
    let b = buf[byte];
    if value {
        buf[byte] = b | (1u8 << k);
    } else {
        buf[byte] = b & !(1u8 << k);
    }
    proof {
        if value {
            lemma_set_bit(b, k, k);
        } else {
            lemma_clear_bit(b, k, k);
        }
        assert forall|j: int|
            #![trigger bit_set(final(buf)@, j)]
            0 <= j < 8 * old(buf)@.len() && j != i implies bit_set(final(buf)@, j) == bit_set(
                old(buf)@,
                j,
            ) by {
            if j / 8 == byte as int {
                if value {
                    lemma_set_bit(b, k, (j % 8) as u8);
                } else {
                    lemma_clear_bit(b, k, (j % 8) as u8);
                }
            }
        }
    }
}

/// Reads the mark of page `i`.
fn read_bit(buf: &[u8], i: u64) -> (r: bool)
    requires
        (i / 8) < buf@.len(),
    ensures
        r == bit_set(buf@, i as int),
{
    let b = buf[(i / 8) as usize];
    (b >> ((i % 8) as u8)) & 1u8 == 1u8
}

/// Tracks which of `num_pages` pages are allocated, in a bitmap held by the caller.
#[derive(Clone, Copy)]
pub struct PageAllocator {
    num_pages: usize,
}

impl PageAllocator {
    /// The number of pages this allocator tracks.
    pub closed spec fn pages(&self) -> nat {
        self.num_pages as nat
    }

    /// Bytes of state needed to track `num_pages` pages.
    pub fn required_space(num_pages: usize) -> (r: usize)
        ensures
            r == bitmap_len(num_pages as nat),
    {
        if num_pages % 8 == 0 {
            num_pages / 8
        } else {
            num_pages / 8 + 1
        }
    }

    pub fn new(num_pages: usize) -> (r: Self)
        ensures
            r.pages() == num_pages,
    {
        PageAllocator { num_pages }
    }

    /// Formats `buf` with every page free.
    pub fn init_new(buf: &mut [u8], num_pages: usize) -> (r: Self)
        requires
            bitmap_len(num_pages as nat) <= old(buf)@.len(),
        ensures
            r.pages() == num_pages,
            final(buf)@.len() == old(buf)@.len(),
            allocated_in(final(buf)@, num_pages as nat) == Set::<int>::empty(),
            free_count(final(buf)@, num_pages as nat) == num_pages,
    {
        let n = buf.len();
        let mut i: usize = 0;
        while i < n
            invariant
                n == buf@.len(),
                n == old(buf)@.len(),
                i <= n,
                forall|j: int| 0 <= j < i ==> buf@[j] == 0u8,
            decreases n - i,
        {
            buf[i] = 0u8;
            i = i + 1;
        }
        proof {
            assert forall|j: int| 0 <= j < num_pages implies !bit_set(buf@, j) by {
                assert(j / 8 < bitmap_len(num_pages as nat));
                lemma_zero_byte((j % 8) as u8);
            }
            assert(allocated_in(buf@, num_pages as nat) =~= Set::<int>::empty());
            self::lemma_free_count_all_free(buf@, num_pages as nat);
        }
        PageAllocator { num_pages }
    }

    /// Marks page `page` allocated.
    pub fn record_alloc(&self, buf: &mut [u8], page: u64)
        requires
            page < self.pages(),
            bitmap_len(self.pages()) <= old(buf)@.len(),
        ensures
            final(buf)@.len() == old(buf)@.len(),
            allocated_in(final(buf)@, self.pages()) == allocated_in(old(buf)@, self.pages()).insert(
                page as int,
            ),
    {
        write_bit(buf, page, true);
        proof {
            assert(allocated_in(buf@, self.pages()) =~= allocated_in(old(buf)@, self.pages()).insert(
                page as int,
            ));
        }
    }

    /// Marks page `page` free.
    pub fn free(&self, buf: &mut [u8], page: u64)
        requires
            page < self.pages(),
            bitmap_len(self.pages()) <= old(buf)@.len(),
        ensures
            final(buf)@.len() == old(buf)@.len(),
            allocated_in(final(buf)@, self.pages()) == allocated_in(old(buf)@, self.pages()).remove(
                page as int,
            ),
    {
        write_bit(buf, page, false);
        proof {
            assert(allocated_in(buf@, self.pages()) =~= allocated_in(old(buf)@, self.pages()).remove(
                page as int,
            ));
        }
    }

    /// Allocates the lowest free page, or returns `None` when every page is taken.
    pub fn alloc_page(&self, buf: &mut [u8]) -> (r: Option<u64>)
        requires
            bitmap_len(self.pages()) <= old(buf)@.len(),
        ensures
            final(buf)@.len() == old(buf)@.len(),
            match r {
                Some(p) => {
                    &&& p < self.pages()
                    &&& !allocated_in(old(buf)@, self.pages()).contains(p as int)
                    &&& forall|j: int|
                        0 <= j < p ==> allocated_in(old(buf)@, self.pages()).contains(j)
                    &&& allocated_in(final(buf)@, self.pages()) == allocated_in(
                        old(buf)@,
                        self.pages(),
                    ).insert(p as int)
                },
                None => {
                    &&& final(buf)@ == old(buf)@
                    &&& forall|j: int|
                        0 <= j < self.pages() ==> allocated_in(old(buf)@, self.pages()).contains(j)
                },
            },
    {
        let mut i: usize = 0;
        while i < self.num_pages
            invariant
                i <= self.pages(),
                bitmap_len(self.pages()) <= buf@.len(),
                buf@ == old(buf)@,
                forall|j: int| 0 <= j < i ==> bit_set(buf@, j),
            decreases self.num_pages - i,
        {
            if !read_bit(buf, i as u64) {
                self.record_alloc(buf, i as u64);
                return Some(i as u64);
            }
            i = i + 1;
        }
        None
    }

    /// Whether page `page` is marked allocated.
    pub fn is_allocated(&self, buf: &[u8], page: u64) -> (r: bool)
        requires
            page < self.pages(),
            bitmap_len(self.pages()) <= buf@.len(),
        ensures
            r == allocated_in(buf@, self.pages()).contains(page as int),
    {
        read_bit(buf, page)
    }

    /// Counts the free pages.
    pub fn count_free_pages(&self, buf: &[u8]) -> (r: usize)
        requires
            bitmap_len(self.pages()) <= buf@.len(),
        ensures
            r == free_count(buf@, self.pages()),
    {
        let mut count: usize = 0;
        let mut i: usize = 0;
        while i < self.num_pages
            invariant
                i <= self.pages(),
                bitmap_len(self.pages()) <= buf@.len(),
                count == free_count(buf@, i as nat),
            decreases self.num_pages - i,
        {
            proof {
                lemma_free_count_bound(buf@, i as nat);
            }
            if !read_bit(buf, i as u64) {
                count = count + 1;
            }
            i = i + 1;
        }
        count
    }
}

proof fn lemma_free_count_all_free(r: Seq<u8>, n: nat)
    requires
        forall|j: int| 0 <= j < n ==> !bit_set(r, j),
    ensures
        free_count(r, n) == n,
    decreases n,
{
    if n > 0 {
        lemma_free_count_all_free(r, (n - 1) as nat);
    }
}

} // verus!
