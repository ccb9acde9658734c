//! A table of per-chunk checksums that protects an append-only file.
//!
//! The protected ("primary") file is cut into chunks of `2^chunk_size_log`
//! bytes. The table stores one xxhash64 value per chunk for the first `end`
//! bytes of the file (the covered length). A range of the file can be trusted
//! when every chunk it touches still hashes to the stored value.
//!
//! The table does not own the primary file: each check and each update is
//! handed the current bytes of the file (usually a memory-mapped view of it),
//! so changes to the file are seen by the next check. Writing the sidecar file
//! is left to the caller (see [`ChecksumTable::to_sidecar`] and
//! [`ChecksumTable::checksum_path`]).

use vstd::prelude::*;
use vstd::arithmetic::power2::{pow2, lemma_pow2_strictly_increases, lemma2_to64};
use vstd::arithmetic::div_mod::{lemma_fundamental_div_mod, lemma_div_is_ordered};
use vstd::bits::{lemma_u64_shl_is_mul, lemma_u64_pow2_no_overflow};
use vstd::slice::{slice_subrange, slice_to_vec};
use vstd::bytes::{
    u64_from_le_bytes, u64_to_le_bytes, spec_u64_to_le_bytes, lemma_auto_spec_u64_to_from_le_bytes,
};
use vstd::string::{StrSliceExecFns, StringExecFns};

use crate::hash::{xxhash, xxhash_of};
use crate::sidecar::{
    le_u64_at, parse_sidecar, sidecar_image, checksums_image, lemma_checksums_image, SidecarContent,
};

verus! {

/// Chunk size exponent of a table that has no sidecar yet: 1 MiB chunks.
pub const DEFAULT_CHUNK_SIZE_LOG: u32 = 20;

/// Largest accepted chunk size exponent: 2 GiB chunks.
pub const MAX_CHUNK_SIZE_LOG: u32 = 31;

/// Number of chunks of size `cs` needed to cover `len` bytes.
pub open spec fn chunk_count(len: nat, cs: nat) -> nat
    recommends
        cs > 0,
{
    if len % cs == 0 {
        len / cs
    } else {
        len / cs + 1
    }
}

/// `a + b` as a `u64`, or `u64::MAX` where the sum does not fit.
pub open spec fn saturating_sum(a: u64, b: u64) -> u64 {
    if a + b <= u64::MAX {
        (a + b) as u64
    } else {
        u64::MAX
    }
}

/// The mathematical content of a [`ChecksumTable`].
pub struct TableModel {
    /// Path of the primary file.
    pub path: Seq<char>,
    /// Whether writing the sidecar file should be made durable.
    pub fsync: bool,
    /// Chunk size exponent.
    pub chunk_size_log: nat,
    /// Covered length: bytes `[0, end)` have checksums.
    pub end: nat,
    /// One checksum per chunk of the covered length.
    pub checksums: Seq<u64>,
    /// Chunks found intact by an earlier check since the table was loaded or
    /// last updated; they are not hashed again. Never persisted.
    pub verified: Set<int>,
}

impl TableModel {
    /// Chunk size in bytes.
    pub open spec fn chunk_size(self) -> nat {
        pow2(self.chunk_size_log)
    }

    /// The invariant of every table.
    pub open spec fn valid(self) -> bool {
        &&& self.chunk_size_log <= MAX_CHUNK_SIZE_LOG
        &&& self.end <= u64::MAX
        &&& self.checksums.len() == chunk_count(self.end, self.chunk_size())
        &&& forall|i: int| #[trigger] self.verified.contains(i) ==> 0 <= i < self.checksums.len()
    }

    /// First byte of chunk `i`.
    pub open spec fn chunk_start(self, i: int) -> int {
        i * self.chunk_size()
    }

    /// End (exclusive) of the covered part of chunk `i`.
    pub open spec fn chunk_stop(self, i: int) -> int {
        if self.end < (i + 1) * self.chunk_size() {
            self.end as int
        } else {
            (i + 1) * self.chunk_size()
        }
    }

    /// The covered part of chunk `i` lies within `view` and hashes to its
    /// stored checksum.
    pub open spec fn chunk_hashes(self, view: Seq<u8>, i: int) -> bool {
        &&& self.chunk_stop(i) <= view.len()
        &&& xxhash_of(view.subrange(self.chunk_start(i), self.chunk_stop(i))) == self.checksums[i]
    }

    /// Chunk `i` passes: it was verified before, or it hashes correctly now.
    pub open spec fn chunk_ok(self, view: Seq<u8>, i: int) -> bool {
        self.verified.contains(i) || self.chunk_hashes(view, i)
    }

    /// Bytes `[offset, offset + length)` of `view` pass the checksum check:
    /// the range is empty, or it lies within the covered length and within
    /// `view`, and every chunk that it touches passes.
    pub open spec fn range_ok(self, view: Seq<u8>, offset: int, length: int) -> bool {
        ||| length == 0
        ||| {
            &&& offset + length <= self.end
            &&& offset + length <= view.len()
            &&& forall|i: int|
                offset / (self.chunk_size() as int) <= i <= (offset + length - 1) / (
                self.chunk_size() as int) ==> #[trigger] self.chunk_ok(view, i)
        }
    }

    /// The same table with another set of verified chunks.
    pub open spec fn with_verified(self, verified: Set<int>) -> TableModel {
        TableModel { verified, ..self }
    }

    /// The bytes of the sidecar file that stores this table.
    pub open spec fn sidecar(self) -> Seq<u8> {
        sidecar_image(self.chunk_size_log as u64, self.end as u64, self.checksums)
    }

    /// How many checksums an update to exponent `log` keeps: none when the
    /// chunk size changes, else all but a last chunk that was not full.
    pub open spec fn kept(self, log: nat) -> nat {
        if log != self.chunk_size_log {
            0
        } else if self.end % self.chunk_size() == 0 {
            self.checksums.len()
        } else {
            (self.checksums.len() - 1) as nat
        }
    }

    /// The table after an update to exponent `log` over the primary bytes
    /// `view`: the kept checksums, then fresh ones up to the end of `view`,
    /// and no chunk verified yet.
    pub open spec fn rebuilt(self, view: Seq<u8>, log: nat) -> TableModel {
        TableModel {
            path: self.path,
            fsync: self.fsync,
            chunk_size_log: log,
            end: view.len(),
            checksums: Seq::new(
                chunk_count(view.len(), pow2(log)),
                |i: int|
                    if i < self.kept(log) {
                        self.checksums[i]
                    } else {
                        fresh_checksum(view, pow2(log), i)
                    },
            ),
            verified: Set::empty(),
        }
    }

    /// What `update(requested)` does when the primary file holds `view`.
    /// Before checksums are dropped, the covered bytes under them are checked.
    pub open spec fn update_outcome(self, view: Seq<u8>, requested: Option<u32>) -> UpdateOutcome {
        let log: u32 = match requested {
            Some(l) => l,
            None => self.chunk_size_log as u32,
        };
        let start = self.kept(log as nat) * self.chunk_size();
        if log > MAX_CHUNK_SIZE_LOG {
            UpdateOutcome::TooLarge { requested: log }
        } else if view.len() == self.end && log == self.chunk_size_log {
            UpdateOutcome::Unchanged
        } else if view.len() < self.end {
            UpdateOutcome::Truncated
        } else if !self.range_ok(view, start as int, self.end - start) {
            UpdateOutcome::Corrupt { start: start as u64, end: self.end as u64 }
        } else {
            UpdateOutcome::Rebuilt { table: self.rebuilt(view, log as nat) }
        }
    }
}

/// The checksum of chunk `i` of `data` cut in chunks of `cs` bytes.
pub open spec fn fresh_checksum(data: Seq<u8>, cs: nat, i: int) -> u64 {
    let stop = if data.len() < (i + 1) * cs {
        data.len() as int
    } else {
        (i + 1) * cs
    };
    xxhash_of(data.subrange(i * cs, stop))
}

/// What an update does, by the rules of [`TableModel::update_outcome`].
pub enum UpdateOutcome {
    /// The requested chunk size exponent is above the maximum.
    TooLarge { requested: u32 },
    /// Nothing was appended and the chunk size stays: the table is unchanged.
    Unchanged,
    /// The primary file is shorter than the covered length.
    Truncated,
    /// Covered bytes whose checksums would be dropped failed their check.
    Corrupt { start: u64, end: u64 },
    /// The table is rebuilt and must be written out.
    Rebuilt { table: TableModel },
}

/// Errors of [`ChecksumTable`].
#[derive(Debug)]
pub enum Error {
    /// The primary file does not exist.
    NotFound { path: String },
    /// The sidecar file ends before the data that its header announces.
    SidecarTooShort { path: String },
    /// The sidecar file declares a chunk size exponent above the maximum.
    InvalidChunkSizeLog { path: String, chunk_size_log: u64 },
    /// `update` was asked for a chunk size exponent above the maximum.
    ChunkSizeLogTooLarge { requested: u32 },
    /// The primary file is shorter than the covered length: it was truncated.
    Truncated { path: String },
    /// Bytes `[start, end)` of the primary file failed the checksum check.
    Checksum { path: String, start: u64, end: u64 },
}

impl Error {
    pub open spec fn is_not_found(self, path: Seq<char>) -> bool {
        self matches Error::NotFound { path: p } && p@ == path
    }

    pub open spec fn is_sidecar_too_short(self, path: Seq<char>) -> bool {
        self matches Error::SidecarTooShort { path: p } && p@ == path
    }

    pub open spec fn is_invalid_chunk_size_log(self, path: Seq<char>, log: u64) -> bool {
        self matches Error::InvalidChunkSizeLog { path: p, chunk_size_log: l } && p@ == path && l
            == log
    }

    pub open spec fn is_chunk_size_log_too_large(self, log: u32) -> bool {
        self matches Error::ChunkSizeLogTooLarge { requested: l } && l == log
    }

    pub open spec fn is_truncated(self, path: Seq<char>) -> bool {
        self matches Error::Truncated { path: p } && p@ == path
    }

    pub open spec fn is_checksum(self, path: Seq<char>, start: u64, end: u64) -> bool {
        self matches Error::Checksum { path: p, start: s, end: e } && p@ == path && s == start && e
            == end
    }
}

/// `i` lies below the number of chunks that cover `len` bytes exactly when
/// chunk `i` starts below `len`.
proof fn lemma_chunk_index(i: int, len: int, cs: int)
    requires
        0 <= i,
        0 <= len,
        0 < cs,
    ensures
        i < chunk_count(len as nat, cs as nat) <==> i * cs < len,
{
    lemma_fundamental_div_mod(len, cs);
    let q = len / cs;
    let r = len % cs;
    assert(len == cs * q + r);
    if i < chunk_count(len as nat, cs as nat) {
        if r == 0 {
            assert(i <= q - 1);
            assert(i * cs <= (q - 1) * cs) by (nonlinear_arith)
                requires
                    i <= q - 1,
                    cs > 0,
            ;
            assert((q - 1) * cs == cs * q - cs) by (nonlinear_arith);
        } else {
            assert(i <= q);
            assert(i * cs <= q * cs) by (nonlinear_arith)
                requires
                    i <= q,
                    cs > 0,
            ;
            assert(q * cs == cs * q) by (nonlinear_arith);
        }
    } else {
        if r == 0 {
            assert(i >= q);
            assert(i * cs >= q * cs) by (nonlinear_arith)
                requires
                    i >= q,
                    cs > 0,
            ;
            assert(q * cs == cs * q) by (nonlinear_arith);
        } else {
            assert(i >= q + 1);
            assert(i * cs >= (q + 1) * cs) by (nonlinear_arith)
                requires
                    i >= q + 1,
                    cs > 0,
            ;
            assert((q + 1) * cs == cs * q + cs) by (nonlinear_arith);
        }
    }
}

/// The chunk of a byte below `len` is one of the chunks that cover `len` bytes.
proof fn lemma_chunk_of_byte(x: int, len: int, cs: int)
    requires
        0 <= x < len,
        0 < cs,
    ensures
        x / cs < chunk_count(len as nat, cs as nat),
        (x / cs) * cs <= x,
{
    lemma_fundamental_div_mod(x, cs);
    assert((x / cs) * cs == cs * (x / cs)) by (nonlinear_arith);
    assert(0 <= x / cs) by (nonlinear_arith)
        requires
            0 <= x,
            0 < cs,
    ;
    lemma_chunk_index(x / cs, len, cs);
}

/// `2^log` for an accepted exponent.
fn chunk_size_of(log: u32) -> (r: u64)
    requires
        log <= MAX_CHUNK_SIZE_LOG,
    ensures
        r == pow2(log as nat),
        1 <= r <= 0x8000_0000,
{
    proof {
        lemma_u64_pow2_no_overflow(log as nat);
        lemma_u64_shl_is_mul(1, log as u64);
        lemma2_to64();
        if log < 31 {
            lemma_pow2_strictly_increases(log as nat, 31);
        }
    }
    1u64 << (log as u64)
}

/// Bit `i` of a bitset stored in 64-bit words.
spec fn bit_set(words: Seq<u64>, i: int) -> bool {
    (words[i / 64] >> ((i % 64) as u64)) & 1 == 1
}

proof fn lemma_set_bit(w: u64, a: u64, b: u64)
    requires
        a < 64,
        b < 64,
    ensures
        ((w | (1u64 << b)) >> a) & 1 == (if a == b {
            1u64
        } else {
            (w >> a) & 1
        }),
{
    if a == b {
        assert(((w | (1u64 << b)) >> b) & 1 == 1) by (bit_vector)
            requires
                b < 64,
        ;
    } else {
        assert(((w | (1u64 << b)) >> a) & 1 == (w >> a) & 1) by (bit_vector)
            requires
                a < 64,
                b < 64,
                a != b,
        ;
    }
}

proof fn lemma_zero_word(a: u64)
    requires
        a < 64,
    ensures
        (0u64 >> a) & 1 == 0,
{
    assert((0u64 >> a) & 1 == 0) by (bit_vector);
}

/// Number of 64-bit words that hold `n` bits.
fn word_count(n: usize) -> (r: usize)
    ensures
        r == chunk_count(n as nat, 64),
{
    if n % 64 == 0 {
        n / 64
    } else {
        n / 64 + 1
    }
}

/// A bitset of `count` words with no bit set.
fn zero_words(count: usize) -> (r: Vec<u64>)
    ensures
        r@.len() == count,
        forall|i: int| 0 <= i < count ==> r@[i] == 0,
{
    let mut r: Vec<u64> = Vec::with_capacity(count);
    while r.len() < count
        invariant
            r@.len() <= count,
            forall|i: int| 0 <= i < r@.len() ==> r@[i] == 0,
        decreases count - r@.len(),
    {
        r.push(0);
    }
    r
}

/// No chunk count exceeds the number of bytes it covers.
proof fn lemma_chunk_count_bound(len: int, cs: int)
    requires
        0 <= len,
        0 < cs,
    ensures
        chunk_count(len as nat, cs as nat) <= len,
{
    let n = chunk_count(len as nat, cs as nat) as int;
    if n > 0 {
        lemma_chunk_index(n - 1, len, cs);
        assert((n - 1) * cs >= n - 1) by (nonlinear_arith)
            requires
                n >= 1,
                cs >= 1,
        ;
    }
}


/// Length of the prefix `p[0..k]` once trailing separators and trailing `.`
/// components are dropped; a leading separator stays.
pub open spec fn trim_end(p: Seq<char>, k: int) -> int
    decreases k,
{
    if k > 1 && (p[k - 1] == '/' || (p[k - 1] == '.' && p[k - 2] == '/')) {
        trim_end(p, k - 1)
    } else {
        k
    }
}

/// Position just after the last separator in `p[0..k]`, or 0 where there is none.
pub open spec fn name_start(p: Seq<char>, k: int) -> int
    decreases k,
{
    if k <= 0 {
        0
    } else if p[k - 1] == '/' {
        k
    } else {
        name_start(p, k - 1)
    }
}

/// The last component of a path, after trailing separators and trailing `.`
/// components are dropped.
pub open spec fn file_name(p: Seq<char>) -> Seq<char> {
    let k = trim_end(p, p.len() as int);
    p.subrange(name_start(p, k), k)
}

/// The path names a file: its last component is neither empty, `.` nor `..`.
pub open spec fn has_file_name(p: Seq<char>) -> bool {
    let name = file_name(p);
    name.len() > 0 && name != seq!['.'] && name != seq!['.', '.']
}

/// The path with one more extension after its file name (`data.idx` becomes
/// `data.idx.sum`, `dir/` becomes `dir.sum`). A path without a file name
/// (`/`, `..`) is left as it is.
pub open spec fn appendext(p: Seq<char>, ext: Seq<char>) -> Seq<char> {
    if has_file_name(p) {
        p.subrange(0, trim_end(p, p.len() as int)) + seq!['.'] + ext
    } else {
        p
    }
}

/// Path of the sidecar file of the primary file at `path`.
pub open spec fn sidecar_path(path: Seq<char>) -> Seq<char> {
    appendext(path, seq!['s', 'u', 'm'])
}

/// The bytes of a sidecar file that may be absent: none where it is.
pub open spec fn sidecar_bytes(sidecar: Option<Vec<u8>>) -> Seq<u8> {
    match sidecar {
        Some(b) => b@,
        None => Seq::empty(),
    }
}

/// Appends one more extension to the file name of a path, as
/// [`appendext`] describes.
pub fn path_appendext(path: &str, ext: &str) -> (r: String)
    ensures
        r@ == appendext(path@, ext@),
{
    let ghost p = path@;
    let n = path.unicode_len();
    let mut k = n;
    loop
        invariant
            k <= n,
            n == p.len(),
            p == path@,
            trim_end(p, k as int) == trim_end(p, n as int),
        ensures
            k <= n,
            k == trim_end(p, n as int),
        decreases k,
    {
        if k <= 1 {
            break;
        }
        let c = path.get_char(k - 1);
        if c == '/' || (c == '.' && path.get_char(k - 2) == '/') {
            k -= 1;
        } else {
            break;
        }
    }
    let mut j = k;
    loop
        invariant
            j <= k <= n,
            n == p.len(),
            p == path@,
            name_start(p, j as int) == name_start(p, k as int),
        ensures
            j <= k,
            j == name_start(p, k as int),
        decreases j,
    {
        if j == 0 {
            break;
        }
        if path.get_char(j - 1) == '/' {
            break;
        }
        j -= 1;
    }
    let ghost name = p.subrange(j as int, k as int);
    assert(name == file_name(p));
    let no_name = if k - j == 0 {
        true
    } else if k - j == 1 {
        path.get_char(j) == '.'
    } else if k - j == 2 {
        path.get_char(j) == '.' && path.get_char(j + 1) == '.'
    } else {
        false
    };
    assert(no_name == !has_file_name(p)) by {
        if k - j == 1 {
            assert(name.len() == 1 && name[0] == p[j as int]);
            if p[j as int] == '.' {
                assert(name =~= seq!['.']);
            }
        } else if k - j == 2 {
            assert(name.len() == 2 && name[0] == p[j as int] && name[1] == p[j + 1]);
            if p[j as int] == '.' && p[j + 1] == '.' {
                assert(name =~= seq!['.', '.']);
            }
        }
    }
    if no_name {
        return String::from_str(path);
    }
    let mut r = String::from_str(path.substring_char(0, k));
    r.append(".");
    proof {
        reveal_strlit(".");
    }
    r.append(ext);
    r
}

/// The checksums that an update keeps end within the covered length.
proof fn lemma_kept(m: TableModel, log: nat)
    requires
        m.valid(),
        log <= MAX_CHUNK_SIZE_LOG,
    ensures
        m.kept(log) <= m.checksums.len(),
        m.kept(log) * m.chunk_size() <= m.end,
        m.kept(log) > 0 ==> log == m.chunk_size_log && (m.kept(log) - 1) * m.chunk_size() < m.end,
{
    lemma_u64_pow2_no_overflow(m.chunk_size_log);
    let cs = m.chunk_size() as int;
    let e = m.end as int;
    lemma_fundamental_div_mod(e, cs);
    assert(0 <= e / cs) by (nonlinear_arith)
        requires
            0 <= e,
            0 < cs,
    ;
    assert((e / cs) * cs == cs * (e / cs)) by (nonlinear_arith);
    if log == m.chunk_size_log {
        let k = m.kept(log) as int;
        assert(k == e / cs);
        assert(k * cs <= e);
        assert(m.kept(log) * m.chunk_size() == k * cs);
        assert((k - 1) * cs == k * cs - cs) by (nonlinear_arith);
    } else {
        assert(m.kept(log) == 0);
        let c = m.chunk_size();
        assert(0 * c == 0) by (nonlinear_arith);
    }
}


/// A table of checksums that verifies another file.
///
/// Before reading bytes of the primary file, call [`ChecksumTable::check_range`]
/// on them. After appending to the primary file, call [`ChecksumTable::update`]
/// and write [`ChecksumTable::to_sidecar`] to [`ChecksumTable::checksum_path`].
///
/// The table is designed for append-only files. A file that changes in other
/// ways can still be covered by calling [`ChecksumTable::clear`] before each
/// update.
pub struct ChecksumTable {
    path: String,
    checksum_path: String,
    fsync: bool,
    chunk_size_log: u32,
    end: u64,
    checksums: Vec<u64>,
    // One bit per chunk: set once the chunk was found intact.
    checked: Vec<u64>,
}

impl View for ChecksumTable {
    type V = TableModel;

    closed spec fn view(&self) -> TableModel {
        TableModel {
            path: self.path@,
            fsync: self.fsync,
            chunk_size_log: self.chunk_size_log as nat,
            end: self.end as nat,
            checksums: self.checksums@,
            verified: Set::new(
                |i: int| 0 <= i < self.checksums@.len() && bit_set(self.checked@, i),
            ),
        }
    }
}

/// No chunk is verified in a bitset of zero words.
proof fn lemma_zero_words_verify_nothing(words: Seq<u64>, n: int)
    requires
        forall|w: int| 0 <= w < words.len() ==> words[w] == 0,
        chunk_count(n as nat, 64) <= words.len(),
    ensures
        Set::new(|i: int| 0 <= i < n && bit_set(words, i)) =~= Set::<int>::empty(),
{
    assert forall|i: int| 0 <= i < n implies !bit_set(words, i) by {
        lemma_chunk_of_byte(i, n, 64);
        lemma_fundamental_div_mod(i, 64);
        lemma_zero_word((i % 64) as u64);
    }
}

impl ChecksumTable {
    /// The table's invariant: a valid model and one cache bit per chunk.
    pub closed spec fn wf(&self) -> bool {
        &&& self@.valid()
        &&& self.checksums@.len() <= usize::MAX
        &&& self.checked@.len() == chunk_count(self.checksums@.len(), 64)
    }

    /// The model of a well-formed table is valid.
    pub proof fn lemma_model_valid(&self)
        requires
            self.wf(),
        ensures
            self@.valid(),
    {
    }

    /// Path of the sidecar file of this table.
    pub closed spec fn spec_checksum_path(&self) -> Seq<char> {
        self.checksum_path@
    }

    /// Loads the table of the primary file at `path`.
    ///
    /// `primary` holds the bytes of the primary file, or `None` where it does
    /// not exist; `sidecar` holds those of its sidecar file (at
    /// [`sidecar_path`]), or `None` where it does not exist. Without a sidecar
    /// (or with an empty one) the table covers nothing and uses 1 MiB chunks.
    /// The covered length read from the sidecar is cut to the length of the
    /// primary file. Later changes to the sidecar file do not affect the table.
    pub fn new(path: &str, primary: Option<&[u8]>, sidecar: Option<Vec<u8>>) -> (r: Result<
        ChecksumTable,
        Error,
    >)
        ensures
            match primary {
                None => r matches Err(e) && e.is_not_found(path@),
                Some(view) => match parse_sidecar(sidecar_bytes(sidecar), view@.len()) {
                    SidecarContent::Missing => r matches Ok(t) && t.wf() && t@ == (TableModel {
                        path: path@,
                        fsync: false,
                        chunk_size_log: DEFAULT_CHUNK_SIZE_LOG as nat,
                        end: 0,
                        checksums: Seq::empty(),
                        verified: Set::empty(),
                    }) && t.spec_checksum_path() == sidecar_path(path@),
                    SidecarContent::TooShort => r matches Err(e) && e.is_sidecar_too_short(path@),
                    SidecarContent::BadChunkSizeLog { declared } => r matches Err(e)
                        && e.is_invalid_chunk_size_log(path@, declared),
                    SidecarContent::Table { chunk_size_log, end, checksums } => r matches Ok(t)
                        && t.wf() && t@ == (TableModel {
                        path: path@,
                        fsync: false,
                        chunk_size_log,
                        end,
                        checksums,
                        verified: Set::empty(),
                    }) && t.spec_checksum_path() == sidecar_path(path@),
                },
            },
    {
        let view = match primary {
            Some(view) => view,
            None => {
                return Err(Error::NotFound { path: String::from_str(path) });
            },
        };
        let checksum_path = path_appendext(path, "sum");
        proof {
            reveal_strlit("sum");
            assert(checksum_path@ =~= sidecar_path(path@));
        }
        let bytes: Vec<u8> = match sidecar {
            Some(bytes) => bytes,
            None => Vec::new(),
        };
        assert(bytes@ == sidecar_bytes(sidecar));
        let len = view.len() as u64;
        if bytes.len() == 0 {
            let t = ChecksumTable {
                path: String::from_str(path),
                checksum_path,
                fsync: false,
                chunk_size_log: DEFAULT_CHUNK_SIZE_LOG,
                end: 0,
                checksums: Vec::new(),
                checked: Vec::new(),
            };
            proof {
                lemma_u64_pow2_no_overflow(DEFAULT_CHUNK_SIZE_LOG as nat);
                assert(t@.checksums =~= Seq::<u64>::empty());
                assert(t@.verified =~= Set::<int>::empty());
                assert(chunk_count(0, t@.chunk_size()) == 0);
            }
            return Ok(t);
        }
        if bytes.len() < 8 {
            return Err(Error::SidecarTooShort { path: String::from_str(path) });
        }
        let log = u64_from_le_bytes(slice_subrange(bytes.as_slice(), 0, 8));
        if log > MAX_CHUNK_SIZE_LOG as u64 {
            return Err(Error::InvalidChunkSizeLog { path: String::from_str(path), chunk_size_log: log });
        }
        if bytes.len() < 16 {
            return Err(Error::SidecarTooShort { path: String::from_str(path) });
        }
        let stored = u64_from_le_bytes(slice_subrange(bytes.as_slice(), 8, 16));
        let end = if stored <= len {
            stored
        } else {
            len
        };
        let log = log as u32;
        let cs = chunk_size_of(log);
        proof {
            lemma_chunk_count_bound(end as int, cs as int);
        }
        let n: u64 = if end % cs == 0 {
            end / cs
        } else {
            end / cs + 1
        };
        let room = (bytes.len() - 16) / 8;
        assert((room as int) < n <==> bytes@.len() < 16 + 8 * n) by (nonlinear_arith)
            requires
                room == (bytes@.len() - 16) / 8,
                bytes@.len() >= 16,
        ;
        if room < n as usize {
            return Err(Error::SidecarTooShort { path: String::from_str(path) });
        }
        let n = n as usize;
        let blen = bytes.len();
        let mut checksums: Vec<u64> = Vec::with_capacity(n);
        let mut i: usize = 0;
        while i < n
            invariant
                i <= n,
                16 + 8 * n <= bytes@.len(),
                blen == bytes@.len(),
                checksums@.len() == i,
                forall|j: int| 0 <= j < i ==> checksums@[j] == le_u64_at(bytes@, 16 + 8 * j),
            decreases n - i,
        {
            let at = 16 + 8 * i;
            checksums.push(u64_from_le_bytes(slice_subrange(bytes.as_slice(), at, at + 8)));
            i += 1;
        }
        let checked = zero_words(word_count(n));
        let t = ChecksumTable {
            path: String::from_str(path),
            checksum_path,
            fsync: false,
            chunk_size_log: log,
            end,
            checksums,
            checked,
        };
        proof {
            lemma_zero_words_verify_nothing(t.checked@, n as int);
            assert(t@.checksums =~= Seq::new(n as nat, |i: int| le_u64_at(bytes@, 16 + 8 * i)));
        }
        Ok(t)
    }

    fn checksum_error(&self, offset: u64, length: u64) -> (e: Error)
        ensures
            e.is_checksum(self@.path, offset, saturating_sum(offset, length)),
    {
        let end = if length <= u64::MAX - offset {
            offset + length
        } else {
            u64::MAX
        };
        Error::Checksum { path: self.path.clone(), start: offset, end }
    }

    /// Whether chunk `index` passes against `view`; remembers a positive answer.
    fn check_chunk(&mut self, view: &[u8], index: usize) -> (r: bool)
        requires
            old(self).wf(),
            index < old(self)@.checksums.len(),
        ensures
            final(self).wf(),
            final(self).spec_checksum_path() == old(self).spec_checksum_path(),
            r == old(self)@.chunk_ok(view@, index as int),
            final(self)@ == old(self)@.with_verified(
                if r {
                    old(self)@.verified.insert(index as int)
                } else {
                    old(self)@.verified
                },
            ),
    {
        proof {
            lemma_chunk_of_byte(index as int, self.checksums@.len() as int, 64);
        }
        let word = self.checked[index / 64];
        let bit = (index % 64) as u64;
        if (word >> bit) & 1 == 1 {
            assert(bit_set(self.checked@, index as int));
            assert(self@.verified.insert(index as int) =~= self@.verified);
            return true;
        }
        let cs = chunk_size_of(self.chunk_size_log);
        proof {
            lemma_chunk_index(index as int, self.end as int, cs as int);
        }
        let start: u64 = index as u64 * cs;
        let stop: u64 = if self.end - start < cs {
            self.end
        } else {
            start + cs
        };
        assert(stop as int == self@.chunk_stop(index as int)) by (nonlinear_arith)
            requires
                start == index * cs,
                stop == (if self.end - start < cs { self.end as int } else { start + cs }),
                self@.chunk_size() == cs,
                self@.end == self.end,
        ;
        if stop > view.len() as u64 {
            return false;
        }
        let hash = xxhash(slice_subrange(view, start as usize, stop as usize));
        if hash == self.checksums[index] {
            let ghost old_checked = self.checked@;
            self.checked.set(index / 64, word | (1u64 << bit));
            proof {
                assert forall|i: int| 0 <= i < self.checksums@.len() implies #[trigger] bit_set(
                    self.checked@,
                    i,
                ) == (i == index || bit_set(old_checked, i)) by {
                    lemma_fundamental_div_mod(i, 64);
                    lemma_fundamental_div_mod(index as int, 64);
                    if i / 64 == index / 64 {
                        lemma_set_bit(word, (i % 64) as u64, bit);
                    }
                }
                assert(self@.verified =~= old(self)@.verified.insert(index as int));
            }
            true
        } else {
            false
        }
    }

    /// Brings the table up to date with the primary file, whose bytes are now
    /// `view`, and returns whether the sidecar file must be written again
    /// (from [`ChecksumTable::to_sidecar`]).
    ///
    /// The chunk size exponent is `chunk_size_log`, or the current one where
    /// it is `None`. With the same exponent the table is extended: all
    /// checksums but that of a last, partial chunk are kept. With another
    /// exponent it is rebuilt from the start. Before checksums are dropped,
    /// the covered bytes under them are checked against `view`; the update
    /// fails where they do not pass, and where `view` is shorter than the
    /// covered length. On failure the table is unchanged.
    pub fn update(&mut self, view: &[u8], chunk_size_log: Option<u32>) -> (r: Result<bool, Error>)
        requires
            old(self).wf(),
        ensures
            final(self).wf(),
            final(self).spec_checksum_path() == old(self).spec_checksum_path(),
            match old(self)@.update_outcome(view@, chunk_size_log) {
                UpdateOutcome::TooLarge { requested } => r matches Err(e)
                    && e.is_chunk_size_log_too_large(requested) && final(self)@ == old(self)@,
                UpdateOutcome::Unchanged => r matches Ok(changed) && !changed && final(self)@
                    == old(self)@,
                UpdateOutcome::Truncated => r matches Err(e) && e.is_truncated(old(self)@.path)
                    && final(self)@ == old(self)@,
                UpdateOutcome::Corrupt { start, end } => r matches Err(e) && e.is_checksum(
                    old(self)@.path,
                    start,
                    end,
                ) && final(self)@ == old(self)@,
                UpdateOutcome::Rebuilt { table } => r matches Ok(changed) && changed
                    && final(self)@ == table,
            },
    {
        let log = match chunk_size_log {
            Some(log) => log,
            None => self.chunk_size_log,
        };
        if log > MAX_CHUNK_SIZE_LOG {
            return Err(Error::ChunkSizeLogTooLarge { requested: log });
        }
        let cs = chunk_size_of(log);
        let old_cs = chunk_size_of(self.chunk_size_log);
        let len = view.len() as u64;
        if len == self.end && log == self.chunk_size_log {
            return Ok(false);
        }
        if len < self.end {
            return Err(Error::Truncated { path: self.path.clone() });
        }
        proof {
            lemma_kept(self@, log as nat);
        }
        let kept: usize = if log != self.chunk_size_log {
            0
        } else if self.end % cs == 0 {
            self.checksums.len()
        } else {
            self.checksums.len() - 1
        };
        assert(kept == self@.kept(log as nat));
        let start: u64 = kept as u64 * old_cs;

        // The bytes under the checksums that are dropped must still pass. The
        // check may mark chunks as verified; the update drops those marks in
        // either case.
        let saved = slice_to_vec(self.checked.as_slice());
        match self.check_range(view, start, self.end - start) {
            Ok(()) => {},
            Err(e) => {
                self.checked = saved;
                assert(self@ =~= old(self)@);
                return Err(e);
            },
        }

        // Fresh checksums from the first dropped chunk on.
        let mut checksums = slice_to_vec(self.checksums.as_slice());
        checksums.truncate(kept);
        let mut offset: u64 = kept as u64 * cs;
        while offset < len
            invariant
                len == view@.len(),
                len <= usize::MAX,
                kept <= checksums@.len(),
                offset <= len,
                offset == (if checksums@.len() * cs < len {
                    checksums@.len() * cs
                } else {
                    len as int
                }),
                checksums@.len() > 0 ==> (checksums@.len() - 1) * cs < len,
                1 <= cs <= 0x8000_0000,
                cs == pow2(log as nat),
                forall|i: int| 0 <= i < kept ==> checksums@[i] == old(self)@.checksums[i],
                forall|i: int|
                    kept <= i < checksums@.len() ==> checksums@[i] == fresh_checksum(
                        view@,
                        cs as nat,
                        i,
                    ),
            decreases len - offset,
        {
            let stop: u64 = if len - offset < cs {
                len
            } else {
                offset + cs
            };
            let ghost j = checksums@.len() as int;
            assert(stop == (if view@.len() < (j + 1) * cs {
                view@.len() as int
            } else {
                (j + 1) * cs
            })) by (nonlinear_arith)
                requires
                    offset == j * cs,
                    stop == (if len - offset < cs { len as int } else { offset + cs }),
                    len == view@.len(),
            ;
            checksums.push(xxhash(slice_subrange(view, offset as usize, stop as usize)));
            assert((j + 1) * cs == j * cs + cs) by (nonlinear_arith);
            offset = stop;
        }
        proof {
            let n = checksums@.len() as int;
            lemma_chunk_index(n, len as int, cs as int);
            if n > 0 {
                lemma_chunk_index(n - 1, len as int, cs as int);
            }
            assert(n == chunk_count(len as nat, cs as nat));
        }
        let checked = zero_words(word_count(checksums.len()));
        self.chunk_size_log = log;
        self.end = len;
        self.checksums = checksums;
        self.checked = checked;
        proof {
            lemma_zero_words_verify_nothing(self.checked@, self.checksums@.len() as int);
            assert(self@.checksums =~= old(self)@.rebuilt(view@, log as nat).checksums);
            assert(self@ =~= old(self)@.rebuilt(view@, log as nat));
        }
        Ok(true)
    }

    /// Forgets the covered length, all checksums and all verified chunks, in
    /// memory only, so that the next update rebuilds the table from the start
    /// of the file.
    pub fn clear(&mut self)
        requires
            old(self).wf(),
        ensures
            final(self).wf(),
            final(self).spec_checksum_path() == old(self).spec_checksum_path(),
            final(self)@ == (TableModel {
                end: 0,
                checksums: Seq::empty(),
                verified: Set::empty(),
                ..old(self)@
            }),
    {
        self.end = 0;
        self.checksums = Vec::new();
        self.checked = Vec::new();
        proof {
            lemma_u64_pow2_no_overflow(self.chunk_size_log as nat);
            assert(self@.checksums =~= Seq::<u64>::empty());
            assert(self@.verified =~= Set::<int>::empty());
        }
    }

    /// Sets whether writing the sidecar file should be made durable.
    pub fn fsync(self, fsync: bool) -> (r: ChecksumTable)
        requires
            self.wf(),
        ensures
            r.wf(),
            r.spec_checksum_path() == self.spec_checksum_path(),
            r@ == (TableModel { fsync, ..self@ }),
    {
        let mut r = self;
        r.fsync = fsync;
        r
    }

    /// An independent copy of the table, with the same checksums and the same
    /// verified chunks.
    pub fn clone(&self) -> (r: ChecksumTable)
        requires
            self.wf(),
        ensures
            r.wf(),
            r.spec_checksum_path() == self.spec_checksum_path(),
            r@ == self@,
    {
        let r = ChecksumTable {
            path: self.path.clone(),
            checksum_path: self.checksum_path.clone(),
            fsync: self.fsync,
            chunk_size_log: self.chunk_size_log,
            end: self.end,
            checksums: slice_to_vec(self.checksums.as_slice()),
            checked: slice_to_vec(self.checked.as_slice()),
        };
        assert(r@ =~= self@);
        r
    }

    /// The bytes of the sidecar file that stores this table.
    pub fn to_sidecar(&self) -> (r: Vec<u8>)
        requires
            self.wf(),
        ensures
            r@ == self@.sidecar(),
    {
        let mut r = u64_to_le_bytes(self.chunk_size_log as u64);
        let mut end = u64_to_le_bytes(self.end);
        r.append(&mut end);
        let ghost header = r@;
        let mut i: usize = 0;
        while i < self.checksums.len()
            invariant
                i <= self.checksums@.len(),
                header == spec_u64_to_le_bytes(self.chunk_size_log as u64) + spec_u64_to_le_bytes(
                    self.end,
                ),
                r@ == header + checksums_image(self.checksums@.take(i as int)),
            decreases self.checksums@.len() - i,
        {
            let mut sum = u64_to_le_bytes(self.checksums[i]);
            r.append(&mut sum);
            proof {
                let next = self.checksums@.take(i + 1);
                assert(next.drop_last() =~= self.checksums@.take(i as int));
                assert(r@ =~= header + checksums_image(next));
            }
            i += 1;
        }
        proof {
            assert(self.checksums@.take(i as int) =~= self.checksums@);
        }
        r
    }

    /// Path of the primary file.
    pub fn path(&self) -> (r: &str)
        ensures
            r@ == self@.path,
    {
        self.path.as_str()
    }

    /// Path of the sidecar file (see [`sidecar_path`]).
    pub fn checksum_path(&self) -> (r: &str)
        ensures
            r@ == self.spec_checksum_path(),
    {
        self.checksum_path.as_str()
    }

    /// Whether writing the sidecar file should be made durable.
    pub fn fsync_enabled(&self) -> (r: bool)
        ensures
            r == self@.fsync,
    {
        self.fsync
    }

    /// Covered length: the bytes that [`ChecksumTable::check_range`] can vouch for.
    pub fn covered_length(&self) -> (r: u64)
        ensures
            r == self@.end,
    {
        self.end
    }

    /// Chunk size exponent.
    pub fn chunk_size_log(&self) -> (r: u32)
        ensures
            r == self@.chunk_size_log,
    {
        self.chunk_size_log
    }

    /// Checks bytes `[offset, offset + length)` of the primary file, whose
    /// current bytes are `view`. An empty range always passes; a range that
    /// reaches past the covered length or past `view` always fails; any other
    /// range passes exactly when every chunk that it touches was verified
    /// before or hashes to its checksum now. Chunks that hash correctly are
    /// remembered and not hashed again. A failure names the whole requested
    /// range, not the chunk that failed.
    pub fn check_range(&mut self, view: &[u8], offset: u64, length: u64) -> (r: Result<(), Error>)
        requires
            old(self).wf(),
        ensures
            final(self).wf(),
            final(self).spec_checksum_path() == old(self).spec_checksum_path(),
            final(self)@ == old(self)@.with_verified(final(self)@.verified),
            old(self)@.verified.subset_of(final(self)@.verified),
            forall|i: int|
                #[trigger] final(self)@.verified.contains(i) && !old(self)@.verified.contains(i)
                    ==> old(self)@.chunk_hashes(view@, i),
            match r {
                Ok(_) => old(self)@.range_ok(view@, offset as int, length as int) && (length > 0
                    ==> forall|i: int|
                    offset as int / (old(self)@.chunk_size() as int) <= i <= (offset + length - 1) / (
                    old(self)@.chunk_size() as int) ==> #[trigger] final(self)@.verified.contains(
                    i,
                )),
                Err(e) => !old(self)@.range_ok(view@, offset as int, length as int)
                    && e.is_checksum(old(self)@.path, offset, saturating_sum(offset, length)),
            },
    {
        if length == 0 {
            return Ok(());
        }
        if length > self.end || offset > self.end - length || offset + length > view.len() as u64 {
            return Err(self.checksum_error(offset, length));
        }
        let cs = chunk_size_of(self.chunk_size_log);
        let last_byte = offset + length - 1;
        proof {
            lemma_chunk_of_byte(last_byte as int, self.end as int, cs as int);
            lemma_div_is_ordered(offset as int, last_byte as int, cs as int);
            assert(last_byte / cs < self@.checksums.len());
        }
        let first = (offset / cs) as usize;
        let last = (last_byte / cs) as usize;
        let mut i: usize = first;
        while i <= last
            invariant
                self.wf(),
                self@ == old(self)@.with_verified(self@.verified),
                old(self)@.verified.subset_of(self@.verified),
                forall|k: int|
                    #[trigger] self@.verified.contains(k) && !old(self)@.verified.contains(k)
                        ==> old(self)@.chunk_hashes(view@, k),
                self.spec_checksum_path() == old(self).spec_checksum_path(),
                first <= i <= last + 1,
                first == offset / cs,
                0 < length,
                last_byte == offset + length - 1,
                offset + length <= old(self)@.end,
                offset + length <= view@.len(),
                last == last_byte / cs,
                last < self@.checksums.len(),
                cs == self@.chunk_size(),
                forall|j: int| first <= j < i ==> #[trigger] old(self)@.chunk_ok(view@, j),
                forall|j: int| first <= j < i ==> #[trigger] self@.verified.contains(j),
            decreases last + 1 - i,
        {
            let ghost before = self@;
            let ok = self.check_chunk(view, i);
            assert(ok == old(self)@.chunk_ok(view@, i as int)) by {
                if before.verified.contains(i as int) && !old(self)@.verified.contains(i as int) {
                    assert(old(self)@.chunk_hashes(view@, i as int));
                }
            }
            if !ok {
                return Err(self.checksum_error(offset, length));
            }
            i += 1;
        }
        Ok(())
    }
}

} // verus!

verus! {

/// An empty range always passes the check, wherever it starts.
pub proof fn lemma_empty_range_passes(m: TableModel, view: Seq<u8>, offset: int)
    ensures
        m.range_ok(view, offset, 0),
{
}

/// A non-empty range that reaches past the covered length never passes.
pub proof fn lemma_uncovered_range_fails(m: TableModel, view: Seq<u8>, offset: int, length: int)
    requires
        length > 0,
        offset + length > m.end,
    ensures
        !m.range_ok(view, offset, length),
{
}

/// After an update that rebuilds the table, every range of the bytes it was
/// given passes, provided the chunks whose checksums were kept still hash
/// correctly in those bytes (as they do when the file was only appended to).
pub proof fn lemma_rebuilt_table_passes(m: TableModel, view: Seq<u8>, requested: Option<u32>)
    requires
        m.valid(),
        m.update_outcome(view, requested) is Rebuilt,
        forall|i: int|
            0 <= i < m.kept(m.update_outcome(view, requested)->table.chunk_size_log)
                ==> #[trigger] m.chunk_hashes(view, i),
    ensures
        forall|offset: int, length: int|
            0 <= offset && 0 <= length && offset + length <= view.len() ==> #[trigger] m.update_outcome(
                view,
                requested,
            )->table.range_ok(view, offset, length),
{
    let t = m.update_outcome(view, requested)->table;
    let log = t.chunk_size_log;
    assert(log <= MAX_CHUNK_SIZE_LOG);
    lemma_u64_pow2_no_overflow(log);
    lemma_kept(m, log);
    let cs = t.chunk_size() as int;
    assert forall|i: int| 0 <= i < t.checksums.len() implies #[trigger] t.chunk_hashes(view, i) by {
        if i < m.kept(log) {
            // A kept chunk was full and lies below the old covered length.
            assert(log == m.chunk_size_log);
            assert((i + 1) * cs <= m.kept(log) * cs) by (nonlinear_arith)
                requires
                    i + 1 <= m.kept(log),
                    cs > 0,
            ;
            assert(m.chunk_hashes(view, i));
        }
    }
    assert forall|offset: int, length: int|
        0 <= offset && 0 <= length && offset + length <= view.len() implies #[trigger] t.range_ok(
        view,
        offset,
        length,
    ) by {
        if length > 0 {
            assert forall|i: int|
                offset / cs <= i <= (offset + length - 1) / cs implies #[trigger] t.chunk_ok(
                view,
                i,
            ) by {
                lemma_chunk_of_byte(offset + length - 1, view.len() as int, cs);
                assert(0 <= offset / cs) by (nonlinear_arith)
                    requires
                        0 <= offset,
                        0 < cs,
                ;
                assert(t.chunk_hashes(view, i));
            }
        }
    }
}

/// Writing a table's sidecar file and loading it again beside a primary file
/// that still holds the covered length gives back the same chunk size,
/// covered length and checksums.
pub proof fn lemma_sidecar_round_trip(t: ChecksumTable, len: nat)
    requires
        t.wf(),
        t@.end <= len,
    ensures
        parse_sidecar(t@.sidecar(), len) == (SidecarContent::Table {
            chunk_size_log: t@.chunk_size_log,
            end: t@.end,
            checksums: t@.checksums,
        }),
{
    let m = t@;
    let b = m.sidecar();
    let sums = m.checksums;
    lemma_auto_spec_u64_to_from_le_bytes();
    lemma_checksums_image(sums);
    lemma_u64_pow2_no_overflow(m.chunk_size_log);
    assert(b.subrange(0, 8) =~= spec_u64_to_le_bytes(m.chunk_size_log as u64));
    assert(b.subrange(8, 16) =~= spec_u64_to_le_bytes(m.end as u64));
    assert(le_u64_at(b, 0) == m.chunk_size_log);
    assert(le_u64_at(b, 8) == m.end);
    let n = sums.len() as int;
    assert forall|i: int| 0 <= i < n implies #[trigger] le_u64_at(b, 16 + 8 * i) == sums[i] by {
        assert(b.subrange(16 + 8 * i, 16 + 8 * i + 8) =~= checksums_image(sums).subrange(
            8 * i,
            8 * i + 8,
        ));
    }
    match parse_sidecar(b, len) {
        SidecarContent::Table { chunk_size_log, end, checksums } => {
            assert(checksums =~= sums);
        },
        _ => {},
    }
}

/// Bytes of the same chunk: `p` lies in chunk `i`.
proof fn lemma_byte_in_chunk(p: int, i: int, cs: int)
    requires
        0 < cs,
        i * cs <= p < (i + 1) * cs,
    ensures
        p / cs == i,
{
    lemma_fundamental_div_mod(p, cs);
    let q = p / cs;
    let r = p % cs;
    assert(q == i) by (nonlinear_arith)
        requires
            p == cs * q + r,
            0 <= r < cs,
            i * cs <= p < (i + 1) * cs,
            0 < cs,
    ;
}


/// Changing bytes of the primary file does not change the outcome of a
/// check when no changed byte lies in a chunk that the checked range touches.
pub proof fn lemma_untouched_chunks_unaffected(
    m: TableModel,
    before: Seq<u8>,
    after: Seq<u8>,
    offset: int,
    length: int,
)
    requires
        m.valid(),
        before.len() == after.len(),
        0 <= offset,
        0 <= length,
        forall|p: int|
            0 <= p < after.len() && after[p] != before[p] ==> !(offset / (m.chunk_size() as int)
                <= p / (m.chunk_size() as int) <= (offset + length - 1) / (m.chunk_size() as int)),
    ensures
        m.range_ok(after, offset, length) == m.range_ok(before, offset, length),
{
    lemma_u64_pow2_no_overflow(m.chunk_size_log);
    let cs = m.chunk_size() as int;
    let lo = offset / cs;
    let hi = (offset + length - 1) / cs;
    assert(0 <= lo) by (nonlinear_arith)
        requires
            lo == offset / cs,
            0 <= offset,
            0 < cs,
    ;
    if length > 0 && offset + length <= m.end && offset + length <= after.len() {
        lemma_chunk_of_byte(offset + length - 1, m.end as int, cs);
        assert forall|i: int| lo <= i <= hi implies #[trigger] m.chunk_ok(after, i) == m.chunk_ok(
            before,
            i,
        ) by {
            assert(i * cs <= hi * cs) by (nonlinear_arith)
                requires
                    i <= hi,
                    cs > 0,
            ;
            assert((i + 1) * cs == i * cs + cs) by (nonlinear_arith);
            assert(m.chunk_start(i) < m.chunk_stop(i));
            if m.chunk_stop(i) <= after.len() {
                assert forall|p: int| m.chunk_start(i) <= p < m.chunk_stop(i) implies after[p]
                    == before[p] by {
                    lemma_byte_in_chunk(p, i, cs);
                }
                assert(after.subrange(m.chunk_start(i), m.chunk_stop(i)) =~= before.subrange(
                    m.chunk_start(i),
                    m.chunk_stop(i),
                ));
            }
        }
        if m.range_ok(before, offset, length) {
            assert forall|i: int| lo <= i <= hi implies #[trigger] m.chunk_ok(after, i) by {
                assert(m.chunk_ok(before, i));
            }
        }
        if m.range_ok(after, offset, length) {
            assert forall|i: int| lo <= i <= hi implies #[trigger] m.chunk_ok(before, i) by {
                assert(m.chunk_ok(after, i));
            }
        }
    }
}

/// A primary file cut below the covered length: an update refuses it, and a
/// table loaded from the sidecar file beside it covers exactly what is left,
/// so no check of a range past the new end passes.
pub proof fn lemma_truncated_file(t: ChecksumTable, view: Seq<u8>, requested: Option<u32>)
    requires
        t.wf(),
        view.len() < t@.end,
        requested matches Some(log) ==> log <= MAX_CHUNK_SIZE_LOG,
    ensures
        t@.update_outcome(view, requested) is Truncated,
        parse_sidecar(t@.sidecar(), view.len()) matches SidecarContent::Table {
            chunk_size_log,
            end,
            checksums,
        } && end == view.len() && forall|offset: int, length: int|
            length > 0 && offset + length > view.len() ==> !(#[trigger] (TableModel {
                path: t@.path,
                fsync: false,
                chunk_size_log,
                end,
                checksums,
                verified: Set::empty(),
            }).range_ok(view, offset, length)),
{
    let m = t@;
    let b = m.sidecar();
    lemma_auto_spec_u64_to_from_le_bytes();
    lemma_checksums_image(m.checksums);
    lemma_u64_pow2_no_overflow(m.chunk_size_log);
    assert(b.subrange(0, 8) =~= spec_u64_to_le_bytes(m.chunk_size_log as u64));
    assert(b.subrange(8, 16) =~= spec_u64_to_le_bytes(m.end as u64));
    let cs = m.chunk_size() as int;
    let n = chunk_count(view.len(), m.chunk_size()) as int;
    if n > 0 {
        lemma_chunk_index(n - 1, view.len() as int, cs);
        lemma_chunk_index(n - 1, m.end as int, cs);
    }
    assert(n <= m.checksums.len());
}

/// After `clear`, an update never has old bytes to check: it rebuilds the
/// table from the start (or, for an empty file with the same chunk size,
/// leaves it empty), and every range of the bytes it was given then passes.
pub proof fn lemma_cleared_update_rebuilds(m: TableModel, view: Seq<u8>, requested: Option<u32>)
    requires
        m.valid(),
        requested matches Some(log) ==> log <= MAX_CHUNK_SIZE_LOG,
    ensures
        ({
            let c = TableModel { end: 0, checksums: Seq::empty(), verified: Set::empty(), ..m };
            let outcome = c.update_outcome(view, requested);
            &&& outcome is Unchanged ==> view.len() == 0
            &&& outcome is Unchanged || outcome is Rebuilt
            &&& outcome is Rebuilt ==> c.kept(outcome->table.chunk_size_log) == 0
                && forall|offset: int, length: int|
                0 <= offset && 0 <= length && offset + length <= view.len()
                    ==> #[trigger] outcome->table.range_ok(view, offset, length)
        }),
{
    let c = TableModel { end: 0, checksums: Seq::empty(), verified: Set::empty(), ..m };
    lemma_u64_pow2_no_overflow(m.chunk_size_log);
    assert(0nat % c.chunk_size() == 0);
    let cz = c.chunk_size();
    assert(0 * cz == 0) by (nonlinear_arith);
    assert(c.valid());
    let outcome = c.update_outcome(view, requested);
    if outcome is Rebuilt {
        lemma_rebuilt_table_passes(c, view, requested);
    }
}

} // verus!
