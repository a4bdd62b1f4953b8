//! Big-endian integers stored in byte slices.
use vstd::prelude::*;
use vstd::arithmetic::power::pow;

verus! {

/// The number that the bytes `s` spell in big-endian order.
pub open spec fn be_value(s: Seq<u8>) -> nat
    decreases s.len(),
{
    if s.len() == 0 {
        0
    } else {
        be_value(s.drop_last()) * 256 + s.last() as nat
    }
}

/// The `len` low bytes of `v`, most significant first.
pub open spec fn be_encode(v: nat, len: nat) -> Seq<u8>
    decreases len,
{
    if len == 0 {
        Seq::empty()
    } else {
        be_encode(v / 256, (len - 1) as nat).push((v % 256) as u8)
    }
}

/// `s` with the bytes from `start` on replaced by `part`.
pub open spec fn splice(s: Seq<u8>, start: int, part: Seq<u8>) -> Seq<u8> {
    s.subrange(0, start) + part + s.subrange(start + part.len(), s.len() as int)
}

pub proof fn lemma_encode_len(v: nat, len: nat)
    ensures
        be_encode(v, len).len() == len,
    decreases len,
{
    if len > 0 {
        lemma_encode_len(v / 256, (len - 1) as nat);
    }
}

pub proof fn lemma_value_bound(s: Seq<u8>)
    ensures
        be_value(s) < pow(256, s.len()),
    decreases s.len(),
{
    reveal(pow);
    if s.len() > 0 {
        lemma_value_bound(s.drop_last());
        let a = be_value(s.drop_last()) as int;
        let p = pow(256, (s.len() - 1) as nat);
        let b = s.last() as int;
        assert(pow(256, s.len()) == 256 * p) by {
            reveal(pow);
        }
        assert(be_value(s) == a * 256 + b);
        assert(a * 256 + b < 256 * p) by (nonlinear_arith)
            requires
                a < p,
                0 <= b < 256,
        ;
    }
}

/// Decoding the encoding of a value that fits gives the value back.
pub proof fn lemma_value_of_encode(v: nat, len: nat)
    requires
        v < pow(256, len),
    ensures
        be_value(be_encode(v, len)) == v,
    decreases len,
{
    reveal(pow);
    if len == 0 {
    } else {
        let p = pow(256, (len - 1) as nat);
        assert(v / 256 < p) by (nonlinear_arith)
            requires
                v < 256 * p,
        ;
        lemma_value_of_encode(v / 256, (len - 1) as nat);
        let e = be_encode(v / 256, (len - 1) as nat);
        assert(e.push((v % 256) as u8).drop_last() =~= e);
        assert(v == (v / 256) * 256 + v % 256) by (nonlinear_arith);
    }
}

pub proof fn lemma_pow256_facts()
    ensures
        pow(256, 1) == 0x100,
        pow(256, 4) == 0x1_0000_0000,
        pow(256, 8) == 0x1_0000_0000_0000_0000,
        pow(256, 16) == 0x1_0000_0000_0000_0000_0000_0000_0000_0000,
{
    reveal_with_fuel(pow, 17);
}

/// Reads the big-endian number in `buf[start..start + len]`.
pub fn read_be(buf: &[u8], start: usize, len: usize) -> (r: u128)
    requires
        len <= 16,
        start + len <= buf@.len(),
    ensures
        r as nat == be_value(buf@.subrange(start as int, start + len)),
        len <= 8 ==> r < 0x1_0000_0000_0000_0000,
        len <= 4 ==> r < 0x1_0000_0000,
        len <= 1 ==> r < 0x100,
{
    let n = buf.len();
    let mut acc: u128 = 0;
    let mut i: usize = 0;
    while i < len
        invariant
            n == buf@.len(),
            i <= len,
            len <= 16,
            start + len <= buf@.len(),
            acc as nat == be_value(buf@.subrange(start as int, start + i)),
        decreases len - i,
    {
        let ghost s = buf@.subrange(start as int, start + i + 1);
        assert(s.drop_last() =~= buf@.subrange(start as int, start + i));
        proof {
            lemma_value_bound(buf@.subrange(start as int, start + i));
            lemma_value_bound(s);
            lemma_pow256_facts();
            vstd::arithmetic::power::lemma_pow_increases(256, (i + 1) as nat, 16);
        }
        acc = acc * 256 + buf[start + i] as u128;
        i = i + 1;
    }
    proof {
        let s = buf@.subrange(start as int, start + len);
        lemma_value_bound(s);
        lemma_pow256_facts();
        if len <= 8 {
            vstd::arithmetic::power::lemma_pow_increases(256, len as nat, 8);
        }
        if len <= 4 {
            vstd::arithmetic::power::lemma_pow_increases(256, len as nat, 4);
        }
        if len <= 1 {
            vstd::arithmetic::power::lemma_pow_increases(256, len as nat, 1);
        }
    }
    acc
}

/// Writes the `len` low bytes of `v` big-endian into `buf[start..start + len]`.
pub fn write_be(buf: &mut [u8], start: usize, len: usize, v: u128)
    requires
        start + len <= old(buf)@.len(),
    ensures
        final(buf)@ == splice(old(buf)@, start as int, be_encode(v as nat, len as nat)),
{
    let ghost full = be_encode(v as nat, len as nat);
    proof {
        lemma_encode_len(v as nat, len as nat);
    }
    let n = buf.len();
    let mut x: u128 = v;
    let mut k: usize = len;
    while k > 0
        invariant
            k <= len,
            n == buf@.len(),
            start + len <= n,
            full.len() == len,
            full.subrange(0, k as int) == be_encode(x as nat, k as nat),
            buf@.len() == old(buf)@.len(),
            forall|j: int|
                0 <= j < n && !(start + k <= j < start + len) ==> buf@[j] == old(buf)@[j],
            forall|j: int| start + k <= j < start + len ==> buf@[j] == full[j - start],
        decreases k,
    {
        buf[start + k - 1] = (x % 256) as u8;
        proof {
            lemma_encode_len(x as nat / 256, (k - 1) as nat);
            assert(full.subrange(0, k - 1) =~= be_encode(x as nat / 256, (k - 1) as nat));
            assert(full[k - 1] == full.subrange(0, k as int)[k - 1]);
        }
        x = x / 256;
        k = k - 1;
    }
    assert(buf@ =~= splice(old(buf)@, start as int, full));
}

} // verus!
