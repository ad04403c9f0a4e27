//! Tagged records of the flattened boot image.
//!
//! The image is a sequence of tags; each carries a 4-byte name code, a
//! 4-byte size, and a payload of that many bytes, held here as the
//! little-endian words the loader reads.

use vstd::prelude::*;

verus! {

/// Tag name code of an initial-process program image ("IniE" as
/// little-endian ASCII).
pub const TAG_INIE: u32 = 0x456e_6949;

/// Tag name code of the kernel program image ("XKrn" as little-endian
/// ASCII).
pub const TAG_XKRN: u32 = 0x6e72_4b58;

/// One tagged record of the boot image: name code, declared payload size in
/// bytes, and the payload as 32-bit words.
#[derive(Debug)]
pub struct KernelArgument {
    pub name: u32,
    pub size: u32,
    pub data: Vec<u32>,
}

impl KernelArgument {
    /// The declared size is consistent with the payload actually present.
    pub open spec fn size_ok(&self) -> bool {
        self.size == self.data@.len() * 4
    }

    /// Runtime check of `size_ok`, used to reject a malformed tag before
    /// any page is mapped for it.
    pub fn check_size(&self) -> (r: bool)
        requires
            self.data@.len() <= 0x3fff_ffff,
        ensures
            r == self.size_ok(),
    {
        let words: usize = self.data.len();
        self.size as usize == words * 4
    }
}

} // verus!
