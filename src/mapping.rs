//! The memory-mapped file that holds the store, as the library sees it.
use vstd::prelude::*;
use memmap2::MmapMut;

verus! {

#[verifier::external_type_specification]
#[verifier::external_body]
pub struct ExMmapMut(MmapMut);

#[verifier::external_type_specification]
#[verifier::external_body]
pub struct ExIoError(std::io::Error);

/// The bytes that the mapping holds.
pub uninterp spec fn mapped_bytes(m: MmapMut) -> Seq<u8>;

/// Relies on the `Deref` impl of `memmap2::MmapMut`: a shared view of every mapped byte.
#[verifier::external_body]
pub(crate) fn map_bytes(m: &MmapMut) -> (r: &[u8])
    ensures
        r@ == mapped_bytes(*m),
{
    &m[..]
}

/// Relies on the `DerefMut` impl of `memmap2::MmapMut`: an exclusive view of every mapped
/// byte; what the view holds when it is released is what the mapping holds.
#[verifier::external_body]
pub(crate) fn map_bytes_mut(m: &mut MmapMut) -> (r: &mut [u8])
    ensures
        r@ == mapped_bytes(*old(m)),
        mapped_bytes(*final(m)) == final(r)@,
{
    &mut m[..]
}

/// Relies on `memmap2::MmapMut::flush`: writes outstanding changes through to the file,
/// leaving the mapped bytes as they are.
#[verifier::external_body]
pub(crate) fn flush_map(m: &MmapMut) -> (r: Result<(), std::io::Error>) {
    m.flush()
}

} // verus!
