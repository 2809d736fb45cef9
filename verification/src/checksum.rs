//! Streaming CRC32 computation.
//!
//! The arithmetic itself comes from the `crc32fast` crate; this module
//! gives it a verified interface. `crc32_of` names the CRC-32/ISO-HDLC
//! value of a byte sequence, and `Crc32Accumulator` lets a caller feed a
//! stream chunk by chunk and obtain the checksum of everything fed, so
//! that arbitrarily large files can be hashed without holding them in
//! memory. The caller performs the reads; the accumulator only computes.

use vstd::prelude::*;

verus! {

/// The CRC-32/ISO-HDLC checksum of a byte sequence, as `crc32fast`
/// computes it. The value depends on the bytes alone.
pub uninterp spec fn crc32_of(data: Seq<u8>) -> u32;

/// The bytes fed into a `crc32fast::Hasher` so far.
pub uninterp spec fn hasher_fed(h: crc32fast::Hasher) -> Seq<u8>;

#[verifier::external_type_specification]
#[verifier::external_body]
pub struct ExHasher(crc32fast::Hasher);

/// Relies on `crc32fast::Hasher::new`: a fresh hasher has been fed nothing.
pub assume_specification[ crc32fast::Hasher::new ]() -> (h: crc32fast::Hasher)
    ensures
        hasher_fed(h) == Seq::<u8>::empty(),
;

/// Relies on `crc32fast::Hasher::update`: it appends `buf` to the fed
/// stream. `update` keeps a byte count in a `u64`, so the total fed
/// length must stay within that range.
pub assume_specification[ crc32fast::Hasher::update ](h: &mut crc32fast::Hasher, buf: &[u8])
    requires
        hasher_fed(*old(h)).len() + buf@.len() <= u64::MAX,
    ensures
        hasher_fed(*final(h)) == hasher_fed(*old(h)) + buf@,
;

/// Relies on `crc32fast::Hasher::finalize`: it returns the CRC32 of the
/// bytes fed, and the checksum of the empty stream is zero (the hasher
/// starts from state zero and finalizing returns that state untouched).
pub assume_specification[ crc32fast::Hasher::finalize ](h: crc32fast::Hasher) -> (r: u32)
    ensures
        r == crc32_of(hasher_fed(h)),
        hasher_fed(h).len() == 0 ==> r == 0,
;

/// An in-progress CRC32 computation over a byte stream.
///
/// The view of an accumulator is the sequence of bytes fed so far.
pub struct Crc32Accumulator {
    hasher: crc32fast::Hasher,
}

impl View for Crc32Accumulator {
    type V = Seq<u8>;

    closed spec fn view(&self) -> Seq<u8> {
        hasher_fed(self.hasher)
    }
}

impl Crc32Accumulator {
    /// Starts a checksum over the empty stream.
    pub fn new() -> (r: Self)
        ensures
            r@ == Seq::<u8>::empty(),
    {
        Crc32Accumulator { hasher: crc32fast::Hasher::new() }
    }

    /// Appends one chunk of the stream.
    pub fn update(&mut self, chunk: &[u8])
        requires
            old(self)@.len() + chunk@.len() <= u64::MAX,
        ensures
            final(self)@ == old(self)@ + chunk@,
    {
        self.hasher.update(chunk);
    }

    /// Finishes the stream and returns the checksum of all bytes fed.
    pub fn finalize(self) -> (r: u32)
        ensures
            r == crc32_of(self@),
            self@.len() == 0 ==> r == 0,
    {
        self.hasher.finalize()
    }
}

/// The CRC32 checksum of a byte slice held in memory.
pub fn crc32_of_bytes(data: &[u8]) -> (r: u32)
    ensures
        r == crc32_of(data@),
        data@.len() == 0 ==> r == 0,
{
    let mut acc = Crc32Accumulator::new();
    let n: usize = data.len();
    proof {
        assert(data@.len() == n && n <= usize::MAX);
        assert(acc@.len() + data@.len() <= u64::MAX);
    }
    acc.update(data);
    proof {
        assert(acc@ =~= data@);
    }
    acc.finalize()
}

} // verus!
