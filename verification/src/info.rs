use vstd::prelude::*;

verus! {

/// Validated per-file metadata: where the payload lives in the data blob,
/// how many bytes it occupies there, its logical (decompressed) size, and
/// whether the stored range is a compressed container.
#[derive(Clone, Copy, Debug, PartialEq, Eq, Structural)]
pub struct FileInfo {
    /// Byte offset of the stored payload inside the data blob.
    pub offset: u64,
    /// Number of bytes the payload occupies in the data blob.
    pub stored_size: u32,
    /// Logical byte length of the file's content, validated nonnegative
    /// when decoded from its signed on-disk representation.
    pub actual_size: u64,
    /// Whether the stored range is a compressed container.
    pub compressed: bool,
}

impl FileInfo {
    /// The decoder only hands out records whose stored range cannot wrap
    /// around the address space, and whose sizes agree when no compression
    /// is involved.
    pub open spec fn wf(self) -> bool {
        &&& self.offset + self.stored_size <= u64::MAX
        &&& (!self.compressed ==> self.stored_size as u64 == self.actual_size)
    }

    /// Logical (decompressed) byte length of the file. Pure accessor.
    pub fn actual_size(&self) -> (r: u64)
        ensures
            r == self.actual_size,
    {
        self.actual_size
    }

    /// Whether the stored payload must be decompressed when fetched.
    pub fn is_compressed(&self) -> (r: bool)
        ensures
            r == self.compressed,
    {
        self.compressed
    }
}

} // verus!
