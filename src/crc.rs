//! The patch CRC-32: polynomial `0x04C1_1DB7`, initial value 0, no reflection,
//! no final xor. The table-driven engine of the `crc` crate computes it.

use vstd::prelude::*;

use crate::error::{ChecksumScope, Error};

verus! {

/// One step of the CRC register over a single input byte, as the `crc` crate's
/// table-driven engine performs it for this algorithm.
pub uninterp spec fn crc32_wz_step(crc: u32, b: u8) -> u32;

/// The CRC register after feeding `s` byte by byte, starting from `crc`.
pub open spec fn crc32_wz_fold(crc: u32, s: Seq<u8>) -> u32
    decreases s.len(),
{
    if s.len() == 0 {
        crc
    } else {
        crc32_wz_fold(crc32_wz_step(crc, s[0]), s.drop_first())
    }
}

/// The patch CRC-32 of a byte string.
pub open spec fn crc32_wz(s: Seq<u8>) -> u32 {
    crc32_wz_fold(0, s)
}

/// Relies on `crc::Crc::<u32>::digest_with_initial`, `Digest::update` and
/// `Digest::finalize` (crc 3): with no reflection, width 32 and no final xor
/// the register is taken and returned unchanged, and the default one-table
/// engine folds the bytes into it one at a time.
#[verifier::external_body]
fn crc32_wz_update(crc: u32, bytes: &[u8]) -> (r: u32)
    ensures
        r == crc32_wz_fold(crc, bytes@),
        bytes@.len() == 1 ==> r == crc32_wz_step(crc, bytes@[0]),
{
    let engine = ::crc::Crc::<u32>::new(&::crc::Algorithm {
        width: 32, poly: 0x04c1_1db7, init: 0, refin: false, refout: false, xorout: 0,
        check: 0x89a1_897f, residue: 0,
    });
    let mut digest = engine.digest_with_initial(crc);
    digest.update(bytes);
    digest.finalize()
}

/// Feeding `a` and then `b` leaves the register where feeding `a + b` does.
pub proof fn lemma_fold_concat(crc: u32, a: Seq<u8>, b: Seq<u8>)
    ensures
        crc32_wz_fold(crc, a + b) == crc32_wz_fold(crc32_wz_fold(crc, a), b),
    decreases a.len(),
{
    if a.len() == 0 {
        assert(a + b =~= b);
    } else {
        assert((a + b).drop_first() =~= a.drop_first() + b);
        lemma_fold_concat(crc32_wz_step(crc, a[0]), a.drop_first(), b);
    }
}

/// A streaming CRC digest: bytes are fed in pieces and the checksum of
/// everything fed so far can be taken at any time.
#[derive(Clone, Copy)]
pub struct WzDigest {
    value: u32,
    data: Ghost<Seq<u8>>,
}

impl WzDigest {
    /// The bytes fed so far.
    pub closed spec fn data(&self) -> Seq<u8> {
        self.data@
    }

    pub closed spec fn wf(&self) -> bool {
        self.value == crc32_wz(self.data@)
    }

    /// A digest that has seen no bytes.
    pub fn new() -> (d: WzDigest)
        ensures
            d.wf(),
            d.data() == Seq::<u8>::empty(),
    {
        WzDigest { value: 0, data: Ghost(Seq::empty()) }
    }

    /// Feeds `bytes` after everything fed so far.
    pub fn update(&mut self, bytes: &[u8])
        requires
            old(self).wf(),
        ensures
            final(self).wf(),
            final(self).data() == old(self).data() + bytes@,
    {
        proof {
            lemma_fold_concat(0, self.data@, bytes@);
        }
        self.value = crc32_wz_update(self.value, bytes);
        self.data = Ghost(self.data@ + bytes@);
    }

    /// The checksum of everything fed so far; the digest stays usable.
    pub fn finalize(&self) -> (r: u32)
        requires
            self.wf(),
        ensures
            r == crc32_wz(self.data()),
    {
        self.value
    }
}

/// The size of the pieces in which [`wz_patch_calc_crc`] feeds its input.
pub const CRC_CHUNK: usize = 4096;

/// The patch CRC-32 of `data`, fed to a streaming digest in pieces of
/// [`CRC_CHUNK`] bytes.
pub fn wz_patch_calc_crc(data: &[u8]) -> (r: u32)
    ensures
        r == crc32_wz(data@),
{
    let mut digest = WzDigest::new();
    let mut pos: usize = 0;
    while pos < data.len()
        invariant
            pos <= data@.len(),
            digest.wf(),
            digest.data() == data@.subrange(0, pos as int),
        decreases data@.len() - pos,
    {
        let end: usize = if data.len() - pos > CRC_CHUNK {
            pos + CRC_CHUNK
        } else {
            data.len()
        };
        let piece = &data[pos..end];
        digest.update(piece);
        assert(data@.subrange(0, pos as int) + data@.subrange(pos as int, end as int)
            =~= data@.subrange(0, end as int));
        pos = end;
    }
    assert(data@.subrange(0, pos as int) =~= data@);
    digest.finalize()
}

/// Checks that the patch CRC-32 of `data` is `expected`.
pub fn wz_patch_verify_crc(data: &[u8], expected: u32, scope: ChecksumScope) -> (r: Result<
    (),
    Error,
>)
    ensures
        r is Ok <==> crc32_wz(data@) == expected,
        r is Err ==> r == Err::<(), Error>(
            Error::ChecksumMismatch { expected, got: crc32_wz(data@), scope },
        ),
{
    let got = wz_patch_calc_crc(data);
    if got != expected {
        return Err(Error::ChecksumMismatch { expected, got, scope });
    }
    Ok(())
}

/// Streaming agrees with the one-shot checksum: feeding `a` and then `b` to a
/// fresh digest gives the checksum of `a + b`.
pub proof fn lemma_streaming_matches_one_shot(a: Seq<u8>, b: Seq<u8>)
    ensures
        crc32_wz_fold(crc32_wz(a), b) == crc32_wz(a + b),
        crc32_wz(Seq::<u8>::empty()) == 0,
{
    lemma_fold_concat(0, a, b);
}

} // verus!
