//! The sidecar file format.
//!
//! ```text
//! SIDECAR   := CHUNK_SIZE_LOG (u64, LE) + END (u64, LE) + CHECKSUMS
//! CHECKSUMS := "" | CHECKSUMS + CHUNK_CHECKSUM (u64, LE)
//! ```
//!
//! `END` is the covered length of the primary file, and there is one checksum
//! for each chunk of `2^CHUNK_SIZE_LOG` bytes needed to cover it.

use vstd::prelude::*;
use vstd::arithmetic::power2::pow2;
use vstd::bytes::{spec_u64_from_le_bytes, spec_u64_to_le_bytes};

use crate::checksum_table::{chunk_count, MAX_CHUNK_SIZE_LOG};

verus! {

/// The little-endian `u64` stored at bytes `[at, at + 8)`.
pub open spec fn le_u64_at(bytes: Seq<u8>, at: int) -> u64 {
    spec_u64_from_le_bytes(bytes.subrange(at, at + 8))
}

/// The encoding of a list of checksums: eight little-endian bytes each.
pub open spec fn checksums_image(sums: Seq<u64>) -> Seq<u8>
    decreases sums.len(),
{
    if sums.len() == 0 {
        Seq::empty()
    } else {
        checksums_image(sums.drop_last()) + spec_u64_to_le_bytes(sums.last())
    }
}

/// The bytes of a sidecar file.
pub open spec fn sidecar_image(chunk_size_log: u64, end: u64, sums: Seq<u64>) -> Seq<u8> {
    spec_u64_to_le_bytes(chunk_size_log) + spec_u64_to_le_bytes(end) + checksums_image(sums)
}

/// What a sidecar file tells about a primary file of `len` bytes.
pub enum SidecarContent {
    /// The sidecar is empty (or absent): nothing is covered.
    Missing,
    /// The sidecar ends before the data that it announces.
    TooShort,
    /// The sidecar declares a chunk size exponent above the maximum.
    BadChunkSizeLog { declared: u64 },
    /// A table: the stored covered length is cut to `len`, and one checksum is
    /// read for each chunk of what remains.
    Table { chunk_size_log: nat, end: nat, checksums: Seq<u64> },
}

/// Reads a sidecar file. The header fields are read in order, and the
/// checksum count follows from the covered length after it is cut to `len`.
/// Bytes after the last checksum are ignored.
pub open spec fn parse_sidecar(bytes: Seq<u8>, len: nat) -> SidecarContent {
    if bytes.len() == 0 {
        SidecarContent::Missing
    } else if bytes.len() < 8 {
        SidecarContent::TooShort
    } else if le_u64_at(bytes, 0) > MAX_CHUNK_SIZE_LOG {
        SidecarContent::BadChunkSizeLog { declared: le_u64_at(bytes, 0) }
    } else if bytes.len() < 16 {
        SidecarContent::TooShort
    } else {
        let log = le_u64_at(bytes, 0) as nat;
        let stored = le_u64_at(bytes, 8) as nat;
        let end = if stored <= len {
            stored
        } else {
            len
        };
        let n = chunk_count(end, pow2(log));
        if bytes.len() < 16 + 8 * n {
            SidecarContent::TooShort
        } else {
            SidecarContent::Table {
                chunk_size_log: log,
                end,
                checksums: Seq::new(n, |i: int| le_u64_at(bytes, 16 + 8 * i)),
            }
        }
    }
}

/// Each checksum takes eight bytes, at its own offset.
pub proof fn lemma_checksums_image(sums: Seq<u64>)
    ensures
        checksums_image(sums).len() == 8 * sums.len(),
        forall|i: int|
            0 <= i < sums.len() ==> #[trigger] checksums_image(sums).subrange(8 * i, 8 * i + 8)
                == spec_u64_to_le_bytes(sums[i]),
    decreases sums.len(),
{
    vstd::bytes::lemma_auto_spec_u64_to_from_le_bytes();
    if sums.len() > 0 {
        let init = sums.drop_last();
        lemma_checksums_image(init);
        let img = checksums_image(sums);
        assert(img == checksums_image(init) + spec_u64_to_le_bytes(sums.last()));
        assert forall|i: int| 0 <= i < sums.len() implies #[trigger] img.subrange(8 * i, 8 * i + 8)
            == spec_u64_to_le_bytes(sums[i]) by {
            if i < sums.len() - 1 {
                assert(img.subrange(8 * i, 8 * i + 8) =~= checksums_image(init).subrange(
                    8 * i,
                    8 * i + 8,
                ));
            } else {
                assert(img.subrange(8 * i, 8 * i + 8) =~= spec_u64_to_le_bytes(sums.last()));
            }
        }
    }
}

} // verus!
