//! Mount flags, held as their bits. The bit operations are those of
//! `nix::mount::MsFlags`.

use nix::mount::MsFlags;
use vstd::prelude::*;

verus! {

/// The bits of the read-only mount flag.
pub open spec fn rdonly_bits() -> u64 {
    1u64
}

/// A set of mount flags, as the bits that the mount system call takes.
#[derive(Clone, Copy, Debug, PartialEq, Eq)]
pub struct MountFlags {
    pub bits: u64,
}

/// `MsFlags::MS_RDONLY` of nix, as bits: the flag's value is libc's
/// `MS_RDONLY`, which is 1 on Linux.
#[verifier::external_body]
fn ms_rdonly() -> (r: u64)
    ensures
        r == rdonly_bits(),
{
    MsFlags::MS_RDONLY.bits()
}

/// `MsFlags::insert` of nix, from bits to bits: the result is the bitwise or
/// of the two values.
#[verifier::external_body]
fn ms_insert(bits: u64, other: u64) -> (r: u64)
    ensures
        r == bits | other,
{
    let mut flags = MsFlags::from_bits_retain(bits);
    flags.insert(MsFlags::from_bits_retain(other));
    flags.bits()
}

/// `MsFlags::remove` of nix, from bits to bits: the result keeps the bits of
/// the first value that the second does not have.
#[verifier::external_body]
fn ms_remove(bits: u64, other: u64) -> (r: u64)
    ensures
        r == bits & !other,
{
    let mut flags = MsFlags::from_bits_retain(bits);
    flags.remove(MsFlags::from_bits_retain(other));
    flags.bits()
}

impl MountFlags {
    /// Whether the read-only bit is set.
    pub open spec fn read_only(self) -> bool {
        self.bits & rdonly_bits() == rdonly_bits()
    }

    /// The flag set that holds the read-only flag and nothing else.
    pub fn rdonly() -> (r: MountFlags)
        ensures
            r.bits == rdonly_bits(),
            r.read_only(),
    {
        let bits: u64 = ms_rdonly();
        assert(1u64 & 1u64 == 1u64) by (bit_vector);
        MountFlags { bits }
    }

    /// Adds every flag of `other` to this set.
    pub fn insert(&mut self, other: MountFlags)
        ensures
            final(self).bits == old(self).bits | other.bits,
    {
        self.bits = ms_insert(self.bits, other.bits);
    }

    /// Takes every flag of `other` out of this set.
    pub fn remove(&mut self, other: MountFlags)
        ensures
            final(self).bits == old(self).bits & !other.bits,
    {
        self.bits = ms_remove(self.bits, other.bits);
    }
}

/// Setting the read-only flag sets it whatever was there, clearing it clears
/// it, and neither touches another bit.
pub proof fn lemma_read_only_bit(bits: u64)
    ensures
        (MountFlags { bits: bits | rdonly_bits() }).read_only(),
        !(MountFlags { bits: bits & !rdonly_bits() }).read_only(),
        (bits | rdonly_bits()) & !rdonly_bits() == bits & !rdonly_bits(),
        (bits & !rdonly_bits()) | rdonly_bits() == bits | rdonly_bits(),
{
    assert((bits | 1u64) & 1u64 == 1u64) by (bit_vector);
    assert((bits & !1u64) & 1u64 == 0u64) by (bit_vector);
    assert((bits | 1u64) & !1u64 == bits & !1u64) by (bit_vector);
    assert((bits & !1u64) | 1u64 == bits | 1u64) by (bit_vector);
}

} // verus!
