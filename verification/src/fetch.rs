use vstd::prelude::*;
use xc3_lib::error::DecompressStreamError;
use crate::error::{DecompressError, Error};

verus! {

/// What decompressing a stored compressed container yields. The container
/// and its inner stream are read from memory alone, so the result is a
/// function of the stored bytes alone; it is named here, not restated.
pub uninterp spec fn xbc1_unpacked(stored: Seq<u8>) -> Seq<u8>;

/// Whether the stored bytes form a container that parses and whose inner
/// stream decodes. Both steps work on in-memory bytes alone, so this too is
/// a function of the stored bytes alone.
pub uninterp spec fn xbc1_decodes(stored: Seq<u8>) -> bool;

/// Relies on xc3_lib's `Xbc1::from_bytes` and `Xbc1::decompress`: the first
/// parses the compressed container from the stored bytes, the second decodes
/// the inner stream; both work on in-memory bytes, so whether the pair
/// succeeds, and what it yields, depend on the stored bytes alone. Each
/// failure of the outside crate is mapped to one failure of the library,
/// arm by arm.
#[verifier::external_body]
fn decompress_container(stored: &Vec<u8>) -> (r: Result<Vec<u8>, DecompressError>)
    ensures
        (r is Ok) == xbc1_decodes(stored@),
        r matches Ok(v) ==> v@ == xbc1_unpacked(stored@),
        r matches Err(d) ==> (d is InvalidStream || d is Io),
{
    let container = match xc3_lib::xbc1::Xbc1::from_bytes(stored) {
        Ok(c) => c,
        Err(_) => return Err(DecompressError::InvalidStream),
    };
    match container.decompress() {
        Ok(v) => Ok(v),
        Err(DecompressStreamError::ZLib(_)) => Err(DecompressError::InvalidStream),
        Err(DecompressStreamError::Io(_)) => Err(DecompressError::Io),
        Err(DecompressStreamError::Binrw(_)) => Err(DecompressError::InvalidStream),
        Err(DecompressStreamError::Checksum(_)) => Err(DecompressError::InvalidStream),
        Err(DecompressStreamError::MissingStream { .. }) => Err(DecompressError::InvalidStream),
    }
}

/// Keep a decompressed result only when it has exactly the declared logical
/// length; report the mismatch otherwise, never a silently short or padded
/// result.
pub fn check_decompressed(bytes: Vec<u8>, expected: u64) -> (r: Result<Vec<u8>, Error>)
    ensures
        bytes@.len() == expected ==> r == Ok::<_, Error>(bytes),
        bytes@.len() != expected ==> r == Err::<Vec<u8>, _>(
            Error::Decompress(
                DecompressError::LengthMismatch { found: bytes@.len() as u64, expected },
            ),
        ),
{
    let n = bytes.len();
    if n as u64 == expected {
        Ok(bytes)
    } else {
        Err(Error::Decompress(DecompressError::LengthMismatch { found: n as u64, expected }))
    }
}

/// Materialize a stored compressed range: decode the container and hold the
/// result to the declared logical length. Succeeds exactly when the range
/// decodes and the decoded length is the declared one.
pub fn decompress_checked(stored: &Vec<u8>, expected: u64) -> (r: Result<Vec<u8>, Error>)
    ensures
        (r is Ok) == (xbc1_decodes(stored@) && xbc1_unpacked(stored@).len() == expected),
        r matches Ok(v) ==> v@ == xbc1_unpacked(stored@) && v@.len() == expected,
        xbc1_decodes(stored@) && xbc1_unpacked(stored@).len() != expected ==> r == Err::<
            Vec<u8>,
            _,
        >(
            Error::Decompress(
                DecompressError::LengthMismatch {
                    found: xbc1_unpacked(stored@).len() as u64,
                    expected,
                },
            ),
        ),
        !xbc1_decodes(stored@) ==> (r matches Err(e) && e matches Error::Decompress(d) && !(d
            is LengthMismatch)),
{
    match decompress_container(stored) {
        Err(d) => Err(Error::Decompress(d)),
        Ok(v) => check_decompressed(v, expected),
    }
}

/// Copy `data[start..end)` into a fresh vector.
pub(crate) fn copy_range(data: &Vec<u8>, start: usize, end: usize) -> (r: Vec<u8>)
    requires
        start <= end <= data@.len(),
    ensures
        r@ == data@.subrange(start as int, end as int),
{
    let mut out: Vec<u8> = Vec::new();
    let mut i: usize = start;
    proof {
        assert(out@ =~= data@.subrange(start as int, start as int));
    }
    while i < end
        invariant
            start <= i <= end <= data@.len(),
            out@ == data@.subrange(start as int, i as int),
        decreases end - i,
    {
        out.push(data[i]);
        proof {
            assert(out@ =~= data@.subrange(start as int, i + 1));
        }
        i += 1;
    }
    out
}

} // verus!
