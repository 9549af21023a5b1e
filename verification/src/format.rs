//! Binary archive format: record structures, their wire encodings, and the
//! codec that reads and writes them.
//!
//! All integers are little-endian. Every record is padded with zero bytes to
//! a whole number of block-size slots.

use vstd::prelude::*;

verus! {

/// Current archive format version.
pub const REFTAR_VERSION: u16 = 1;

/// Default block size (4 KiB).
pub const DEFAULT_BLOCK_SIZE: u32 = 4096;

/// Errors the archive core distinguishes.
///
/// End-of-archive is not an error: the reader reports it as a sentinel when
/// the input ends exactly at a file-record boundary.
#[derive(Clone, Copy, Debug, PartialEq, Eq, Structural)]
pub enum ArchiveError {
    /// A magic field did not hold its expected literal, or the archive header
    /// carried a zero block size.
    FormatMagic,
    /// The file-type byte is not one of the known kinds.
    UnknownFileType(u8),
    /// The extent-type byte is not one of the known kinds.
    UnknownExtentType(u8),
    /// The input ended in the middle of a record.
    TruncatedRecord,
    /// A data extent's payload hashed to a different value than its stored
    /// checksum: (extent id, stored checksum, computed checksum).
    ChecksumMismatch(u64, u32, u32),
    /// A reference extent named an extent id with no earlier data extent.
    DanglingReference(u64),
    /// A length-prefixed name field's bytes are not valid UTF-8.
    Utf8Error,
}

// ---------------------------------------------------------------------------
// Little-endian encoding of unsigned integers
// ---------------------------------------------------------------------------

/// 256 to the power `n`.
pub open spec fn pow256(n: nat) -> nat
    decreases n,
{
    if n == 0 {
        1
    } else {
        256 * pow256((n - 1) as nat)
    }
}

/// The `n`-byte little-endian encoding of `v`.
pub open spec fn le_bytes(v: nat, n: nat) -> Seq<u8>
    decreases n,
{
    if n == 0 {
        Seq::empty()
    } else {
        seq![(v % 256) as u8] + le_bytes(v / 256, (n - 1) as nat)
    }
}

/// The value of a little-endian byte sequence.
pub open spec fn le_val(s: Seq<u8>) -> nat
    decreases s.len(),
{
    if s.len() == 0 {
        0
    } else {
        s[0] as nat + 256 * le_val(s.skip(1))
    }
}

pub proof fn lemma_le_bytes_len(v: nat, n: nat)
    ensures
        le_bytes(v, n).len() == n,
    decreases n,
{
    if n > 0 {
        lemma_le_bytes_len(v / 256, (n - 1) as nat);
    }
}

pub proof fn lemma_pow256_positive(n: nat)
    ensures
        pow256(n) >= 1,
    decreases n,
{
    if n > 0 {
        lemma_pow256_positive((n - 1) as nat);
    }
}

pub proof fn lemma_pow256_increases(m: nat, n: nat)
    requires
        m <= n,
    ensures
        pow256(m) <= pow256(n),
    decreases n,
{
    if m < n {
        lemma_pow256_increases(m, (n - 1) as nat);
        lemma_pow256_positive((n - 1) as nat);
    }
}

/// Reading back the little-endian encoding of `v` yields `v`.
pub proof fn lemma_le_val_le_bytes(v: nat, n: nat)
    requires
        v < pow256(n),
    ensures
        le_val(le_bytes(v, n)) == v,
    decreases n,
{
    if n > 0 {
        let rest = le_bytes(v / 256, (n - 1) as nat);
        lemma_le_bytes_len(v / 256, (n - 1) as nat);
        let whole = seq![(v % 256) as u8] + rest;
        assert(whole[0] == (v % 256) as u8);
        assert(whole.skip(1) =~= rest);
        lemma_le_val_le_bytes(v / 256, (n - 1) as nat);
    }
}

/// A little-endian byte sequence's value is bounded by 256^len.
pub proof fn lemma_le_val_bound(s: Seq<u8>)
    ensures
        le_val(s) < pow256(s.len()),
    decreases s.len(),
{
    if s.len() > 0 {
        lemma_le_val_bound(s.skip(1));
    }
}

/// `n` zero bytes.
pub open spec fn zero_bytes(n: int) -> Seq<u8> {
    Seq::new(n as nat, |i: int| 0u8)
}

/// The number of zero bytes that pad a record of logical size `l` to a
/// multiple of the block size `bs`.
pub open spec fn spec_pad_len(l: int, bs: int) -> int {
    (bs - (l % bs)) % bs
}

pub proof fn lemma_pad_len_bounds(l: int, bs: int)
    requires
        bs > 0,
        l >= 0,
    ensures
        0 <= spec_pad_len(l, bs) < bs,
        (l + spec_pad_len(l, bs)) % bs == 0,
{
    let r = l % bs;
    vstd::arithmetic::div_mod::lemma_mod_bound(l, bs);
    if r == 0 {
        assert(spec_pad_len(l, bs) == 0) by {
            vstd::arithmetic::div_mod::lemma_mod_self_0(bs);
        }
    } else {
        assert((bs - r) % bs == bs - r) by {
            vstd::arithmetic::div_mod::lemma_small_mod((bs - r) as nat, bs as nat);
        }
    }
    assert((l + spec_pad_len(l, bs)) % bs == 0) by {
        vstd::arithmetic::div_mod::lemma_add_mod_noop(l, spec_pad_len(l, bs), bs);
        if r != 0 {
            assert((r + (bs - r)) % bs == 0) by {
                vstd::arithmetic::div_mod::lemma_mod_self_0(bs);
            }
        }
    }
}

// ---------------------------------------------------------------------------
// Executable little-endian helpers
// ---------------------------------------------------------------------------

/// Append the `n`-byte little-endian encoding of `v`.
fn push_le_bytes(out: &mut Vec<u8>, v: u128, n: usize)
    requires
        n <= 16,
        (v as nat) < pow256(n as nat),
    ensures
        final(out)@ == old(out)@ + le_bytes(v as nat, n as nat),
{
    let mut cur: u128 = v;
    let mut i: usize = 0;
    while i < n
        invariant
            i <= n,
            out@ + le_bytes(cur as nat, (n - i) as nat) == old(out)@ + le_bytes(
                v as nat,
                n as nat,
            ),
        decreases n - i,
    {
        let b: u8 = (cur % 256) as u8;
        proof {
            assert(le_bytes(cur as nat, (n - i) as nat) == seq![b] + le_bytes(
                (cur as nat) / 256,
                (n - i - 1) as nat,
            ));
            assert(out@.push(b) =~= out@ + seq![b]);
            assert((out@ + seq![b]) + le_bytes((cur as nat) / 256, (n - i - 1) as nat) =~= out@ + (
            seq![b] + le_bytes((cur as nat) / 256, (n - i - 1) as nat)));
        }
        out.push(b);
        cur = cur / 256;
        i = i + 1;
    }
    proof {
        assert(le_bytes(cur as nat, 0) =~= Seq::<u8>::empty());
        assert(out@ + Seq::<u8>::empty() =~= out@);
    }
}

/// Read the value of `n` little-endian bytes at `pos`.
fn read_le_bytes(s: &Vec<u8>, pos: usize, n: usize) -> (r: u128)
    requires
        n <= 16,
        pos + n <= s.len(),
    ensures
        r as nat == le_val(s@.subrange(pos as int, pos + n)),
        (r as nat) < pow256(n as nat),
{
    let mut acc: u128 = 0;
    let mut i: usize = n;
    proof {
        assert(s@.subrange(pos + n, pos + n) =~= Seq::<u8>::empty());
    }
    while i > 0
        invariant
            i <= n,
            n <= 16,
            pos + n <= s.len(),
            acc as nat == le_val(s@.subrange(pos + i, pos + n)),
            (acc as nat) < pow256((n - i) as nat),
        decreases i,
    {
        let b: u8 = s[pos + i - 1];
        proof {
            let t = s@.subrange(pos + i - 1, pos + n);
            assert(t[0] == b);
            assert(t.skip(1) =~= s@.subrange(pos + i, pos + n));
            lemma_pow256_increases((n - i) as nat, 15);
            lemma_pow256_unfold_16();
            assert((acc as nat) * 256 <= (pow256(15) - 1) * 256) by (nonlinear_arith)
                requires
                    (acc as nat) <= pow256(15) - 1,
            ;
            assert((acc as nat) * 256 + (b as nat) < 0x100000000000000000000000000000000);
        }
        acc = acc * 256 + (b as u128);
        i = i - 1;
    }
    proof {
        lemma_le_val_bound(s@.subrange(pos as int, pos + n));
        assert(s@.subrange(pos as int, pos + n).len() == n);
    }
    acc
}

proof fn lemma_pow256_unfold_16()
    ensures
        pow256(15) * 256 == pow256(16),
        pow256(16) == 0x100000000000000000000000000000000,
        pow256(12) == 0x1000000000000000000000000,
        pow256(8) == 0x10000000000000000,
        pow256(4) == 0x100000000,
        pow256(2) == 0x10000,
        pow256(1) == 0x100,
{
    reveal_with_fuel(pow256, 17);
    assert(pow256(16) == 0x100000000000000000000000000000000);
    assert(pow256(15) == 0x1000000000000000000000000000000);
    assert(pow256(12) == 0x1000000000000000000000000);
    assert(pow256(8) == 0x10000000000000000);
}

/// Append `n` zero bytes.
fn push_zeros(out: &mut Vec<u8>, n: usize)
    ensures
        final(out)@ == old(out)@ + zero_bytes(n as int),
{
    let mut i: usize = 0;
    while i < n
        invariant
            i <= n,
            out@ == old(out)@ + zero_bytes(i as int),
        decreases n - i,
    {
        proof {
            assert((old(out)@ + zero_bytes(i as int)).push(0u8) =~= old(out)@ + zero_bytes(
                i + 1,
            ));
        }
        out.push(0u8);
        i = i + 1;
    }
}

/// Append a two-byte little-endian integer.
fn push_le_u16(out: &mut Vec<u8>, v: u16)
    ensures
        final(out)@ == old(out)@ + le_bytes(v as nat, 2),
{
    proof {
        lemma_pow256_unfold_16();
    }
    push_le_bytes(out, v as u128, 2);
}

/// Append a four-byte little-endian integer.
fn push_le_u32(out: &mut Vec<u8>, v: u32)
    ensures
        final(out)@ == old(out)@ + le_bytes(v as nat, 4),
{
    proof {
        lemma_pow256_unfold_16();
        lemma_pow256_increases(4, 8);
    }
    push_le_bytes(out, v as u128, 4);
}

/// Append an eight-byte little-endian integer.
fn push_le_u64(out: &mut Vec<u8>, v: u64)
    ensures
        final(out)@ == old(out)@ + le_bytes(v as nat, 8),
{
    proof {
        lemma_pow256_unfold_16();
    }
    push_le_bytes(out, v as u128, 8);
}

/// Read a four-byte little-endian integer at `pos`.
pub fn read_u32(s: &Vec<u8>, pos: usize) -> (r: u32)
    requires
        pos + 4 <= s.len(),
    ensures
        r as nat == le_val(s@.subrange(pos as int, pos + 4)),
{
    proof {
        lemma_pow256_unfold_16();
        lemma_pow256_increases(4, 8);
    }
    let v = read_le_bytes(s, pos, 4);
    v as u32
}

/// Read an eight-byte little-endian integer at `pos`.
pub fn read_u64(s: &Vec<u8>, pos: usize) -> (r: u64)
    requires
        pos + 8 <= s.len(),
    ensures
        r as nat == le_val(s@.subrange(pos as int, pos + 8)),
{
    proof {
        lemma_pow256_unfold_16();
    }
    let v = read_le_bytes(s, pos, 8);
    v as u64
}

// ---------------------------------------------------------------------------
// Archive header
// ---------------------------------------------------------------------------

/// The magic bytes at the start of every archive: the ASCII literal "reftar".
pub open spec fn reftar_magic() -> Seq<u8> {
    seq![0x72u8, 0x65u8, 0x66u8, 0x74u8, 0x61u8, 0x72u8]
}

/// The first record of every archive. Its logical size is 12 bytes; it is
/// padded to one whole block.
#[derive(Clone, Debug, PartialEq, Eq, Structural)]
pub struct ArchiveHeader {
    pub version: u16,
    pub block_size: u32,
}

/// The wire encoding of an archive header, padding included.
pub open spec fn archive_header_bytes(h: ArchiveHeader) -> Seq<u8> {
    reftar_magic() + le_bytes(h.version as nat, 2) + le_bytes(h.block_size as nat, 4)
        + zero_bytes(spec_pad_len(12, h.block_size as int))
}

/// Parse an archive header from the start of `s`: the header and the number
/// of bytes consumed, or the error the input forces.
pub open spec fn spec_parse_archive_header(s: Seq<u8>) -> Result<(ArchiveHeader, int), ArchiveError> {
    if s.len() < 12 {
        Err(ArchiveError::TruncatedRecord)
    } else if s.subrange(0, 6) != reftar_magic() {
        Err(ArchiveError::FormatMagic)
    } else {
        let version = le_val(s.subrange(6, 8));
        let block_size = le_val(s.subrange(8, 12));
        if block_size == 0 {
            Err(ArchiveError::FormatMagic)
        } else {
            let total = 12 + spec_pad_len(12, block_size as int);
            if s.len() < total {
                Err(ArchiveError::TruncatedRecord)
            } else {
                Ok((ArchiveHeader { version: version as u16, block_size: block_size as u32 }, total))
            }
        }
    }
}

impl ArchiveHeader {
    /// A header for a fresh archive with the current format version.
    pub fn new(block_size: u32) -> (h: Self)
        ensures
            h.version == REFTAR_VERSION,
            h.block_size == block_size,
    {
        Self { version: REFTAR_VERSION, block_size }
    }

    /// Append the header's encoding, padded to one whole block.
    pub fn write(&self, out: &mut Vec<u8>)
        requires
            self.block_size > 0,
        ensures
            final(out)@ == old(out)@ + archive_header_bytes(*self),
            final(out)@.len() - old(out)@.len() == archive_header_bytes(*self).len(),
    {
        let ghost start = out@;
        out.push(0x72u8);
        out.push(0x65u8);
        out.push(0x66u8);
        out.push(0x74u8);
        out.push(0x61u8);
        out.push(0x72u8);
        proof {
            assert(out@ =~= start + reftar_magic());
        }
        push_le_u16(out, self.version);
        push_le_u32(out, self.block_size);
        let pad = pad_for(12, self.block_size);
        push_zeros(out, pad);
        proof {
            assert(out@ =~= start + archive_header_bytes(*self));
        }
    }

    /// Parse an archive header from the start of `s`, mirroring
    /// [`spec_parse_archive_header`] exactly. On success, returns the header
    /// and the number of bytes consumed.
    pub fn read(s: &Vec<u8>) -> (r: Result<(Self, usize), ArchiveError>)
        ensures
            match r {
                Ok((h, n)) => spec_parse_archive_header(s@) == Ok::<(ArchiveHeader, int),
                    ArchiveError,
                >((h, n as int)) && n <= s.len() && h.block_size > 0,
                Err(e) => spec_parse_archive_header(s@) == Err::<(ArchiveHeader, int),
                    ArchiveError,
                >(e),
            },
    {
        if s.len() < 12 {
            return Err(ArchiveError::TruncatedRecord);
        }
        if !(s[0] == 0x72u8 && s[1] == 0x65u8 && s[2] == 0x66u8 && s[3] == 0x74u8 && s[4] == 0x61u8 && s[5]
            == 0x72u8) {
            proof {
                assert(s@.subrange(0, 6) != reftar_magic());
            }
            return Err(ArchiveError::FormatMagic);
        }
        proof {
            assert(s@.subrange(0, 6) =~= reftar_magic());
        }
        let version_val = read_le_bytes(s, 6, 2);
        let block_size_val = read_le_bytes(s, 8, 4);
        proof {
            lemma_pow256_unfold_16();
            lemma_pow256_increases(2, 16);
            lemma_pow256_increases(4, 16);
        }
        let version = version_val as u16;
        let block_size = block_size_val as u32;
        if block_size == 0 {
            return Err(ArchiveError::FormatMagic);
        }
        let pad = pad_for(12, block_size);
        if s.len() - 12 < pad {
            return Err(ArchiveError::TruncatedRecord);
        }
        Ok((Self { version, block_size }, 12 + pad))
    }
}

/// The padding that aligns a record of logical size `l` to the block size.
fn pad_for(l: u32, bs: u32) -> (r: usize)
    requires
        bs > 0,
    ensures
        r == spec_pad_len(l as int, bs as int),
        r < bs,
{
    proof {
        lemma_pad_len_bounds(l as int, bs as int);
    }
    ((bs - l % bs) % bs) as usize
}

/// Writing an archive header and parsing it back yields the header again,
/// whatever bytes follow; the parse consumes exactly the encoding.
pub proof fn lemma_archive_header_roundtrip(h: ArchiveHeader, rest: Seq<u8>)
    requires
        h.block_size > 0,
    ensures
        spec_parse_archive_header(archive_header_bytes(h) + rest) == Ok::<(ArchiveHeader, int),
            ArchiveError,
        >((h, archive_header_bytes(h).len() as int)),
{
    let enc = archive_header_bytes(h);
    let s = enc + rest;
    lemma_le_bytes_len(h.version as nat, 2);
    lemma_le_bytes_len(h.block_size as nat, 4);
    lemma_pad_len_bounds(12, h.block_size as int);
    assert(enc.len() == 12 + spec_pad_len(12, h.block_size as int));
    assert(s.subrange(0, 6) =~= reftar_magic());
    assert(s.subrange(6, 8) =~= le_bytes(h.version as nat, 2));
    assert(s.subrange(8, 12) =~= le_bytes(h.block_size as nat, 4));
    lemma_pow256_unfold_16();
    lemma_le_val_le_bytes(h.version as nat, 2);
    lemma_le_val_le_bytes(h.block_size as nat, 4);
}

/// An archive header's encoding occupies a whole number of blocks: one.
pub proof fn lemma_archive_header_aligned(h: ArchiveHeader)
    requires
        h.block_size > 0,
    ensures
        (archive_header_bytes(h).len() as int) % (h.block_size as int) == 0,
{
    lemma_le_bytes_len(h.version as nat, 2);
    lemma_le_bytes_len(h.block_size as nat, 4);
    lemma_pad_len_bounds(12, h.block_size as int);
}


// ---------------------------------------------------------------------------
// File and extent type discriminators
// ---------------------------------------------------------------------------

/// The kind of a filesystem entry, dispatched on a one-byte discriminator
/// compatible with tar type flags.
#[derive(Clone, Copy, Debug, PartialEq, Eq, Structural)]
pub enum FileType {
    Regular,
    HardLink,
    SymbolicLink,
    CharDevice,
    BlockDevice,
    Directory,
    FIFO,
}

/// The wire byte of a file type: the ASCII digits '0' through '6'.
pub open spec fn file_type_byte(t: FileType) -> u8 {
    match t {
        FileType::Regular => 0x30,
        FileType::HardLink => 0x31,
        FileType::SymbolicLink => 0x32,
        FileType::CharDevice => 0x33,
        FileType::BlockDevice => 0x34,
        FileType::Directory => 0x35,
        FileType::FIFO => 0x36,
    }
}

/// The file type a wire byte denotes, or the error an unknown byte forces.
pub open spec fn spec_file_type_of(b: u8) -> Result<FileType, ArchiveError> {
    if b == 0x30 {
        Ok(FileType::Regular)
    } else if b == 0x31 {
        Ok(FileType::HardLink)
    } else if b == 0x32 {
        Ok(FileType::SymbolicLink)
    } else if b == 0x33 {
        Ok(FileType::CharDevice)
    } else if b == 0x34 {
        Ok(FileType::BlockDevice)
    } else if b == 0x35 {
        Ok(FileType::Directory)
    } else if b == 0x36 {
        Ok(FileType::FIFO)
    } else {
        Err(ArchiveError::UnknownFileType(b))
    }
}

impl FileType {
    /// Decode a file-type byte; exactly the bytes '0' through '6' succeed.
    pub fn from_byte(b: u8) -> (r: Result<Self, ArchiveError>)
        ensures
            r == spec_file_type_of(b),
            r matches Ok(t) ==> file_type_byte(t) == b,
    {
        match b {
            0x30 => Ok(FileType::Regular),
            0x31 => Ok(FileType::HardLink),
            0x32 => Ok(FileType::SymbolicLink),
            0x33 => Ok(FileType::CharDevice),
            0x34 => Ok(FileType::BlockDevice),
            0x35 => Ok(FileType::Directory),
            0x36 => Ok(FileType::FIFO),
            _ => Err(ArchiveError::UnknownFileType(b)),
        }
    }

    /// The wire byte of this file type.
    pub fn to_byte(&self) -> (r: u8)
        ensures
            r == file_type_byte(*self),
            spec_file_type_of(r) == Ok::<FileType, ArchiveError>(*self),
    {
        match self {
            FileType::Regular => 0x30,
            FileType::HardLink => 0x31,
            FileType::SymbolicLink => 0x32,
            FileType::CharDevice => 0x33,
            FileType::BlockDevice => 0x34,
            FileType::Directory => 0x35,
            FileType::FIFO => 0x36,
        }
    }
}

/// The kind of an extent record.
#[derive(Clone, Copy, Debug, PartialEq, Eq, Structural)]
pub enum ExtentType {
    /// A run of raw blocks; the payload follows the extent header.
    Data,
    /// A hole: no payload, the output file provides zeros.
    Sparse,
    /// A request to materialize the content of an earlier data extent.
    Reference,
}

/// The wire byte of an extent type: ASCII 'D', 'S' or 'R'.
pub open spec fn extent_type_byte(t: ExtentType) -> u8 {
    match t {
        ExtentType::Data => 0x44,
        ExtentType::Sparse => 0x53,
        ExtentType::Reference => 0x52,
    }
}

/// The extent type a wire byte denotes, or the error an unknown byte forces.
pub open spec fn spec_extent_type_of(b: u8) -> Result<ExtentType, ArchiveError> {
    if b == 0x44 {
        Ok(ExtentType::Data)
    } else if b == 0x53 {
        Ok(ExtentType::Sparse)
    } else if b == 0x52 {
        Ok(ExtentType::Reference)
    } else {
        Err(ArchiveError::UnknownExtentType(b))
    }
}

impl ExtentType {
    /// Decode an extent-type byte; exactly 'D', 'S' and 'R' succeed.
    pub fn from_byte(b: u8) -> (r: Result<Self, ArchiveError>)
        ensures
            r == spec_extent_type_of(b),
            r matches Ok(t) ==> extent_type_byte(t) == b,
    {
        match b {
            0x44 => Ok(ExtentType::Data),
            0x53 => Ok(ExtentType::Sparse),
            0x52 => Ok(ExtentType::Reference),
            _ => Err(ArchiveError::UnknownExtentType(b)),
        }
    }

    /// The wire byte of this extent type.
    pub fn to_byte(&self) -> (r: u8)
        ensures
            r == extent_type_byte(*self),
            spec_extent_type_of(r) == Ok::<ExtentType, ArchiveError>(*self),
    {
        match self {
            ExtentType::Data => 0x44,
            ExtentType::Sparse => 0x53,
            ExtentType::Reference => 0x52,
        }
    }
}

// ---------------------------------------------------------------------------
// Extent header
// ---------------------------------------------------------------------------

/// The header of one extent record. Its logical size is 25 bytes; it is
/// padded to a block boundary, and a data extent's payload follows the
/// padding.
#[derive(Clone, Copy, Debug, PartialEq, Eq, Structural)]
pub struct ExtentHeader {
    pub extent_id: u64,
    pub length_in_blocks: u32,
    pub extent_type: ExtentType,
    pub source_extent_start: u64,
    pub checksum: u32,
}

/// The wire encoding of an extent header, padding included.
pub open spec fn extent_header_bytes(h: ExtentHeader, bs: int) -> Seq<u8> {
    le_bytes(h.extent_id as nat, 8) + le_bytes(h.length_in_blocks as nat, 4) + seq![
        extent_type_byte(h.extent_type),
    ] + le_bytes(h.source_extent_start as nat, 8) + le_bytes(h.checksum as nat, 4) + zero_bytes(
        spec_pad_len(25, bs),
    )
}

/// Parse an extent header at `pos`: the header and the number of bytes
/// consumed, or the error the input forces.
pub open spec fn spec_parse_extent_header(s: Seq<u8>, pos: int, bs: int) -> Result<
    (ExtentHeader, int),
    ArchiveError,
> {
    if s.len() - pos < 25 {
        Err(ArchiveError::TruncatedRecord)
    } else {
        match spec_extent_type_of(s[pos + 12]) {
            Err(e) => Err(e),
            Ok(et) => {
                let total = 25 + spec_pad_len(25, bs);
                if s.len() - pos < total {
                    Err(ArchiveError::TruncatedRecord)
                } else {
                    Ok(
                        (
                            ExtentHeader {
                                extent_id: le_val(s.subrange(pos, pos + 8)) as u64,
                                length_in_blocks: le_val(s.subrange(pos + 8, pos + 12)) as u32,
                                extent_type: et,
                                source_extent_start: le_val(s.subrange(pos + 13, pos + 21)) as u64,
                                checksum: le_val(s.subrange(pos + 21, pos + 25)) as u32,
                            },
                            total,
                        ),
                    )
                }
            },
        }
    }
}

impl ExtentHeader {
    /// Append the header's encoding, padded to a block boundary.
    pub fn write(&self, out: &mut Vec<u8>, block_size: u32)
        requires
            block_size > 0,
        ensures
            final(out)@ == old(out)@ + extent_header_bytes(*self, block_size as int),
    {
        let ghost start = out@;
        push_le_u64(out, self.extent_id);
        push_le_u32(out, self.length_in_blocks);
        out.push(self.extent_type.to_byte());
        push_le_u64(out, self.source_extent_start);
        push_le_u32(out, self.checksum);
        let pad = pad_for(25, block_size);
        push_zeros(out, pad);
        proof {
            assert(out@ =~= start + extent_header_bytes(*self, block_size as int));
        }
    }

    /// Parse an extent header at `pos`, mirroring
    /// [`spec_parse_extent_header`] exactly. On success, returns the header
    /// and the number of bytes consumed.
    pub fn read(s: &Vec<u8>, pos: usize, block_size: u32) -> (r: Result<
        (Self, usize),
        ArchiveError,
    >)
        requires
            block_size > 0,
            pos <= s.len(),
        ensures
            match r {
                Ok((h, n)) => spec_parse_extent_header(s@, pos as int, block_size as int)
                    == Ok::<(ExtentHeader, int), ArchiveError>((h, n as int)) && pos + n <= s.len()
                    && n >= 25,
                Err(e) => spec_parse_extent_header(s@, pos as int, block_size as int) == Err::<
                    (ExtentHeader, int),
                    ArchiveError,
                >(e),
            },
    {
        if s.len() - pos < 25 {
            return Err(ArchiveError::TruncatedRecord);
        }
        let extent_id = read_u64(s, pos);
        let length_in_blocks = read_u32(s, pos + 8);
        let extent_type = match ExtentType::from_byte(s[pos + 12]) {
            Ok(t) => t,
            Err(e) => {
                return Err(e);
            },
        };
        let source_extent_start = read_u64(s, pos + 13);
        let checksum = read_u32(s, pos + 21);
        let pad = pad_for(25, block_size);
        if s.len() - pos - 25 < pad {
            return Err(ArchiveError::TruncatedRecord);
        }
        proof {
            lemma_le_val_bound(s@.subrange(pos as int, pos + 8));
            lemma_le_val_bound(s@.subrange(pos + 8, pos + 12));
            lemma_le_val_bound(s@.subrange(pos + 13, pos + 21));
            lemma_le_val_bound(s@.subrange(pos + 21, pos + 25));
            lemma_pow256_unfold_16();
        }
        Ok(
            (
                Self { extent_id, length_in_blocks, extent_type, source_extent_start, checksum },
                25 + pad,
            ),
        )
    }
}

/// Writing an extent header and parsing it back yields the header again,
/// whatever stands before and after; the parse consumes exactly the encoding.
pub proof fn lemma_extent_header_roundtrip(h: ExtentHeader, prefix: Seq<u8>, rest: Seq<u8>, bs: int)
    requires
        bs > 0,
    ensures
        spec_parse_extent_header(
            prefix + extent_header_bytes(h, bs) + rest,
            prefix.len() as int,
            bs,
        ) == Ok::<(ExtentHeader, int), ArchiveError>((h, extent_header_bytes(h, bs).len() as int)),
{
    let enc = extent_header_bytes(h, bs);
    let s = prefix + enc + rest;
    let p = prefix.len() as int;
    lemma_le_bytes_len(h.extent_id as nat, 8);
    lemma_le_bytes_len(h.length_in_blocks as nat, 4);
    lemma_le_bytes_len(h.source_extent_start as nat, 8);
    lemma_le_bytes_len(h.checksum as nat, 4);
    lemma_pad_len_bounds(25, bs);
    assert(enc.len() == 25 + spec_pad_len(25, bs));
    assert(s[p + 12] == extent_type_byte(h.extent_type));
    assert(s.subrange(p, p + 8) =~= le_bytes(h.extent_id as nat, 8));
    assert(s.subrange(p + 8, p + 12) =~= le_bytes(h.length_in_blocks as nat, 4));
    assert(s.subrange(p + 13, p + 21) =~= le_bytes(h.source_extent_start as nat, 8));
    assert(s.subrange(p + 21, p + 25) =~= le_bytes(h.checksum as nat, 4));
    lemma_pow256_unfold_16();
    lemma_le_val_le_bytes(h.extent_id as nat, 8);
    lemma_le_val_le_bytes(h.length_in_blocks as nat, 4);
    lemma_le_val_le_bytes(h.source_extent_start as nat, 8);
    lemma_le_val_le_bytes(h.checksum as nat, 4);
}

/// An extent header's encoding occupies a whole number of blocks.
pub proof fn lemma_extent_header_aligned(h: ExtentHeader, bs: int)
    requires
        bs > 0,
    ensures
        (extent_header_bytes(h, bs).len() as int) % bs == 0,
{
    lemma_le_bytes_len(h.extent_id as nat, 8);
    lemma_le_bytes_len(h.length_in_blocks as nat, 4);
    lemma_le_bytes_len(h.source_extent_start as nat, 8);
    lemma_le_bytes_len(h.checksum as nat, 4);
    lemma_pad_len_bounds(25, bs);
}


// ---------------------------------------------------------------------------
// File header
// ---------------------------------------------------------------------------

/// The magic bytes of a file header: the ASCII literal "FILE".
pub open spec fn file_header_magic() -> Seq<u8> {
    seq![0x46u8, 0x49u8, 0x4cu8, 0x45u8]
}

/// Per-entry header. Name and path fields are byte strings as they stand on
/// the wire; `inline_data` carries the whole content of a small regular file.
#[derive(Clone, Debug, PartialEq, Eq)]
pub struct FileHeader {
    pub file_size: u128,
    pub file_type: FileType,
    pub uid: u64,
    pub gid: u64,
    pub device_major: u64,
    pub device_minor: u64,
    pub access_time: u64,
    pub modify_time: u64,
    pub creation_time: u64,
    pub username: Vec<u8>,
    pub groupname: Vec<u8>,
    pub file_path: Vec<u8>,
    pub file_name: Vec<u8>,
    pub link_name: Vec<u8>,
    pub extended_permissions: Vec<u8>,
    pub source_filesystem_type: Vec<u8>,
    pub source_filesystem_id: u64,
    pub inline_data: Vec<u8>,
}

/// The mathematical model of a file header.
pub ghost struct FileHeaderV {
    pub file_size: u128,
    pub file_type: FileType,
    pub uid: u64,
    pub gid: u64,
    pub device_major: u64,
    pub device_minor: u64,
    pub access_time: u64,
    pub modify_time: u64,
    pub creation_time: u64,
    pub username: Seq<u8>,
    pub groupname: Seq<u8>,
    pub file_path: Seq<u8>,
    pub file_name: Seq<u8>,
    pub link_name: Seq<u8>,
    pub extended_permissions: Seq<u8>,
    pub source_filesystem_type: Seq<u8>,
    pub source_filesystem_id: u64,
    pub inline_data: Seq<u8>,
}

impl View for FileHeader {
    type V = FileHeaderV;

    open spec fn view(&self) -> FileHeaderV {
        FileHeaderV {
            file_size: self.file_size,
            file_type: self.file_type,
            uid: self.uid,
            gid: self.gid,
            device_major: self.device_major,
            device_minor: self.device_minor,
            access_time: self.access_time,
            modify_time: self.modify_time,
            creation_time: self.creation_time,
            username: self.username@,
            groupname: self.groupname@,
            file_path: self.file_path@,
            file_name: self.file_name@,
            link_name: self.link_name@,
            extended_permissions: self.extended_permissions@,
            source_filesystem_type: self.source_filesystem_type@,
            source_filesystem_id: self.source_filesystem_id,
            inline_data: self.inline_data@,
        }
    }
}

/// The logical size of a file header on the wire: every fixed field, the
/// length-prefixed variable fields, and the inline data.
pub open spec fn file_header_size(v: FileHeaderV) -> int {
    237 + v.username.len() as int + v.groupname.len() as int + v.file_path.len() as int
        + v.file_name.len() as int + v.link_name.len() as int + v.extended_permissions.len() as int
        + v.inline_data.len() as int
}

/// A well-formed file header: the writer's domain. The filesystem-type label
/// fits its fixed buffer and carries no trailing zero of its own; the file
/// size fits the twelve stored bytes; the whole header size fits its
/// four-byte field; and inline data is present exactly for a regular file
/// smaller than a block, in which case it is the whole content.
#[verifier::opaque]
pub open spec fn file_header_wf(v: FileHeaderV, bs: int) -> bool {
    &&& is_valid_utf8(v.username)
    &&& is_valid_utf8(v.groupname)
    &&& is_valid_utf8(v.file_path)
    &&& is_valid_utf8(v.file_name)
    &&& is_valid_utf8(v.link_name)
    &&& v.source_filesystem_type.len() <= 128
    &&& (v.source_filesystem_type.len() == 0 || v.source_filesystem_type.last() != 0)
    &&& (v.file_size as nat) < pow256(12)
    &&& file_header_size(v) <= 0xffffffff
    &&& if v.file_type == FileType::Regular && 0 < v.file_size && (v.file_size as int) < bs {
        v.inline_data.len() == v.file_size
    } else {
        v.inline_data.len() == 0
    }
}

/// A UTF-8 continuation byte.
pub open spec fn utf8_cont(b: u8) -> bool {
    0x80 <= b && b <= 0xbf
}

/// The length of the well-formed UTF-8 sequence at the start of `s`, or
/// zero when there is none: ASCII, two-byte, three-byte and four-byte
/// sequences, with overlong encodings, surrogates and values past U+10FFFF
/// excluded.
pub open spec fn utf8_step(s: Seq<u8>) -> int {
    if s.len() >= 1 && s[0] <= 0x7f {
        1
    } else if s.len() >= 2 && 0xc2 <= s[0] && s[0] <= 0xdf && utf8_cont(s[1]) {
        2
    } else if s.len() >= 3 && s[0] == 0xe0 && 0xa0 <= s[1] && s[1] <= 0xbf && utf8_cont(s[2]) {
        3
    } else if s.len() >= 3 && 0xe1 <= s[0] && s[0] <= 0xec && utf8_cont(s[1]) && utf8_cont(s[2]) {
        3
    } else if s.len() >= 3 && s[0] == 0xed && 0x80 <= s[1] && s[1] <= 0x9f && utf8_cont(s[2]) {
        3
    } else if s.len() >= 3 && 0xee <= s[0] && s[0] <= 0xef && utf8_cont(s[1]) && utf8_cont(s[2]) {
        3
    } else if s.len() >= 4 && s[0] == 0xf0 && 0x90 <= s[1] && s[1] <= 0xbf && utf8_cont(s[2])
        && utf8_cont(s[3]) {
        4
    } else if s.len() >= 4 && 0xf1 <= s[0] && s[0] <= 0xf3 && utf8_cont(s[1]) && utf8_cont(s[2])
        && utf8_cont(s[3]) {
        4
    } else if s.len() >= 4 && s[0] == 0xf4 && 0x80 <= s[1] && s[1] <= 0x8f && utf8_cont(s[2])
        && utf8_cont(s[3]) {
        4
    } else {
        0
    }
}

/// Every byte of `s` belongs to a well-formed UTF-8 sequence.
#[verifier::opaque]
pub open spec fn is_valid_utf8(s: Seq<u8>) -> bool
    decreases s.len(),
{
    s.len() == 0 || (utf8_step(s) > 0 && is_valid_utf8(s.skip(utf8_step(s))))
}

/// Decide whether the bytes are well-formed UTF-8.
#[verifier::rlimit(100)]
pub fn is_utf8(v: &Vec<u8>) -> (r: bool)
    ensures
        r == is_valid_utf8(v@),
{
    let mut i: usize = 0;
    proof {
        reveal(is_valid_utf8);
        assert(v@.skip(0) =~= v@);
    }
    while i < v.len()
        invariant
            i <= v.len(),
            is_valid_utf8(v@) == is_valid_utf8(v@.skip(i as int)),
        decreases v.len() - i,
    {
        let b0 = v[i];
        let rem = v.len() - i;
        let step: usize = if b0 <= 0x7f {
            1
        } else if 0xc2 <= b0 && b0 <= 0xdf {
            if rem >= 2 && 0x80 <= v[i + 1] && v[i + 1] <= 0xbf {
                2
            } else {
                0
            }
        } else if b0 == 0xe0 {
            if rem >= 3 && 0xa0 <= v[i + 1] && v[i + 1] <= 0xbf && 0x80 <= v[i + 2] && v[i + 2]
                <= 0xbf {
                3
            } else {
                0
            }
        } else if 0xe1 <= b0 && b0 <= 0xec {
            if rem >= 3 && 0x80 <= v[i + 1] && v[i + 1] <= 0xbf && 0x80 <= v[i + 2] && v[i + 2]
                <= 0xbf {
                3
            } else {
                0
            }
        } else if b0 == 0xed {
            if rem >= 3 && 0x80 <= v[i + 1] && v[i + 1] <= 0x9f && 0x80 <= v[i + 2] && v[i + 2]
                <= 0xbf {
                3
            } else {
                0
            }
        } else if 0xee <= b0 && b0 <= 0xef {
            if rem >= 3 && 0x80 <= v[i + 1] && v[i + 1] <= 0xbf && 0x80 <= v[i + 2] && v[i + 2]
                <= 0xbf {
                3
            } else {
                0
            }
        } else if b0 == 0xf0 {
            if rem >= 4 && 0x90 <= v[i + 1] && v[i + 1] <= 0xbf && 0x80 <= v[i + 2] && v[i + 2]
                <= 0xbf && 0x80 <= v[i + 3] && v[i + 3] <= 0xbf {
                4
            } else {
                0
            }
        } else if 0xf1 <= b0 && b0 <= 0xf3 {
            if rem >= 4 && 0x80 <= v[i + 1] && v[i + 1] <= 0xbf && 0x80 <= v[i + 2] && v[i + 2]
                <= 0xbf && 0x80 <= v[i + 3] && v[i + 3] <= 0xbf {
                4
            } else {
                0
            }
        } else if b0 == 0xf4 {
            if rem >= 4 && 0x80 <= v[i + 1] && v[i + 1] <= 0x8f && 0x80 <= v[i + 2] && v[i + 2]
                <= 0xbf && 0x80 <= v[i + 3] && v[i + 3] <= 0xbf {
                4
            } else {
                0
            }
        } else {
            0
        };
        proof {
            reveal(is_valid_utf8);
            let t = v@.skip(i as int);
            assert(t.len() == v@.len() - i);
            assert(t[0] == v@[i as int]);
            if t.len() >= 2 {
                assert(t[1] == v@[i + 1]);
            }
            if t.len() >= 3 {
                assert(t[2] == v@[i + 2]);
            }
            if t.len() >= 4 {
                assert(t[3] == v@[i + 3]);
            }
            assert(utf8_step(t) == step);
        }
        if step == 0 {
            proof {
                reveal(is_valid_utf8);
            }
            return false;
        }
        proof {
            reveal(is_valid_utf8);
            assert(v@.skip(i as int).skip(step as int) =~= v@.skip(i + step));
        }
        i = i + step;
    }
    proof {
        reveal(is_valid_utf8);
        assert(v@.skip(v@.len() as int) =~= Seq::<u8>::empty());
    }
    true
}

/// A length-prefixed byte string on the wire: a four-byte length, then the
/// bytes, no terminator.
pub open spec fn lp_bytes(b: Seq<u8>) -> Seq<u8> {
    le_bytes(b.len() as nat, 4) + b
}

/// `s` with every trailing zero byte removed.
pub open spec fn trim_trailing_zeros(s: Seq<u8>) -> Seq<u8>
    decreases s.len(),
{
    if s.len() > 0 && s.last() == 0 {
        trim_trailing_zeros(s.drop_last())
    } else {
        s
    }
}

/// Trimming does not disturb a sequence without trailing zeros, however many
/// zeros pad it.
pub proof fn lemma_trim_pad(t: Seq<u8>, k: int)
    requires
        k >= 0,
        t.len() == 0 || t.last() != 0,
    ensures
        trim_trailing_zeros(t + zero_bytes(k)) == t,
    decreases k,
{
    if k == 0 {
        assert(t + zero_bytes(0) =~= t);
    } else {
        let w = t + zero_bytes(k);
        assert(w.last() == 0);
        assert(w.drop_last() =~= t + zero_bytes(k - 1));
        lemma_trim_pad(t, k - 1);
    }
}

/// The wire encoding of a file header, padding included.
#[verifier::opaque]
pub open spec fn file_header_bytes(v: FileHeaderV, bs: int) -> Seq<u8> {
    let sz = file_header_size(v);
    file_header_magic() + le_bytes(sz as nat, 4) + le_bytes(v.file_size as nat, 12) + seq![
        file_type_byte(v.file_type),
    ] + le_bytes(v.uid as nat, 8) + le_bytes(v.gid as nat, 8) + le_bytes(v.device_major as nat, 8)
        + le_bytes(v.device_minor as nat, 8) + le_bytes(v.access_time as nat, 8) + le_bytes(
        v.modify_time as nat,
        8,
    ) + le_bytes(v.creation_time as nat, 8) + lp_bytes(v.username) + lp_bytes(v.groupname)
        + lp_bytes(v.file_path) + lp_bytes(v.file_name) + lp_bytes(v.link_name) + lp_bytes(
        v.extended_permissions,
    ) + v.source_filesystem_type + zero_bytes(128 - v.source_filesystem_type.len()) + le_bytes(
        v.source_filesystem_id as nat,
        8,
    ) + v.inline_data + zero_bytes(spec_pad_len(sz, bs))
}

/// Parse a length-prefixed byte string at `pos`, with no demand on what
/// the bytes hold: the bytes and the number of bytes consumed, or the
/// truncation error.
pub open spec fn spec_parse_lp_raw(s: Seq<u8>, pos: int) -> Result<(Seq<u8>, int), ArchiveError> {
    if s.len() - pos < 4 {
        Err(ArchiveError::TruncatedRecord)
    } else {
        let l = le_val(s.subrange(pos, pos + 4)) as int;
        if s.len() - pos - 4 < l {
            Err(ArchiveError::TruncatedRecord)
        } else {
            Ok((s.subrange(pos + 4, pos + 4 + l), 4 + l))
        }
    }
}

/// Parse a length-prefixed string field at `pos`: as [`spec_parse_lp_raw`],
/// but bytes that are not well-formed UTF-8 are rejected.
pub open spec fn spec_parse_lp(s: Seq<u8>, pos: int) -> Result<(Seq<u8>, int), ArchiveError> {
    match spec_parse_lp_raw(s, pos) {
        Err(e) => Err(e),
        Ok((b, n)) => if is_valid_utf8(b) {
            Ok((b, n))
        } else {
            Err(ArchiveError::Utf8Error)
        },
    }
}

/// Parse a file header at `pos`: the header's model and the number of bytes
/// consumed, or the error the input forces. The `header_size` field on the
/// wire is the single source of truth for the record's padding.
#[verifier::opaque]
pub open spec fn spec_parse_file_header(s: Seq<u8>, pos: int, bs: int) -> Result<
    (FileHeaderV, int),
    ArchiveError,
> {
    if s.len() - pos < 4 {
        Err(ArchiveError::TruncatedRecord)
    } else if s.subrange(pos, pos + 4) != file_header_magic() {
        Err(ArchiveError::FormatMagic)
    } else if s.len() - pos < 77 {
        Err(ArchiveError::TruncatedRecord)
    } else {
        let header_size = le_val(s.subrange(pos + 4, pos + 8)) as int;
        let file_size = le_val(s.subrange(pos + 8, pos + 20)) as u128;
        match spec_file_type_of(s[pos + 20]) {
            Err(e) => Err(e),
            Ok(file_type) => match spec_parse_lp(s, pos + 77) {
                Err(e) => Err(e),
                Ok((username, n1)) => match spec_parse_lp(s, pos + 77 + n1) {
                    Err(e) => Err(e),
                    Ok((groupname, n2)) => match spec_parse_lp(s, pos + 77 + n1 + n2) {
                        Err(e) => Err(e),
                        Ok((file_path, n3)) => match spec_parse_lp(s, pos + 77 + n1 + n2 + n3) {
                            Err(e) => Err(e),
                            Ok((file_name, n4)) => match spec_parse_lp(
                                s,
                                pos + 77 + n1 + n2 + n3 + n4,
                            ) {
                                Err(e) => Err(e),
                                Ok((link_name, n5)) => match spec_parse_lp_raw(
                                    s,
                                    pos + 77 + n1 + n2 + n3 + n4 + n5,
                                ) {
                                    Err(e) => Err(e),
                                    Ok((extended_permissions, n6)) => {
                                        let q = pos + 77 + n1 + n2 + n3 + n4 + n5 + n6;
                                        if s.len() - q < 136 {
                                            Err(ArchiveError::TruncatedRecord)
                                        } else {
                                            let source_filesystem_type = trim_trailing_zeros(
                                                s.subrange(q, q + 128),
                                            );
                                            let source_filesystem_id = le_val(
                                                s.subrange(q + 128, q + 136),
                                            ) as u64;
                                            let has_inline = file_type == FileType::Regular && (
                                            file_size as int) < bs;
                                            let ilen: int = if has_inline {
                                                file_size as int
                                            } else {
                                                0
                                            };
                                            if s.len() - (q + 136) < ilen {
                                                Err(ArchiveError::TruncatedRecord)
                                            } else {
                                                let inline_data = s.subrange(
                                                    q + 136,
                                                    q + 136 + ilen,
                                                );
                                                let pad = spec_pad_len(header_size, bs);
                                                if s.len() - (q + 136 + ilen) < pad {
                                                    Err(ArchiveError::TruncatedRecord)
                                                } else {
                                                    Ok(
                                                        (
                                                            FileHeaderV {
                                                                file_size,
                                                                file_type,
                                                                uid: le_val(
                                                                    s.subrange(pos + 21, pos + 29),
                                                                ) as u64,
                                                                gid: le_val(
                                                                    s.subrange(pos + 29, pos + 37),
                                                                ) as u64,
                                                                device_major: le_val(
                                                                    s.subrange(pos + 37, pos + 45),
                                                                ) as u64,
                                                                device_minor: le_val(
                                                                    s.subrange(pos + 45, pos + 53),
                                                                ) as u64,
                                                                access_time: le_val(
                                                                    s.subrange(pos + 53, pos + 61),
                                                                ) as u64,
                                                                modify_time: le_val(
                                                                    s.subrange(pos + 61, pos + 69),
                                                                ) as u64,
                                                                creation_time: le_val(
                                                                    s.subrange(pos + 69, pos + 77),
                                                                ) as u64,
                                                                username,
                                                                groupname,
                                                                file_path,
                                                                file_name,
                                                                link_name,
                                                                extended_permissions,
                                                                source_filesystem_type,
                                                                source_filesystem_id,
                                                                inline_data,
                                                            },
                                                            q + 136 + ilen + pad - pos,
                                                        ),
                                                    )
                                                }
                                            }
                                        }
                                    },
                                },
                            },
                        },
                    },
                },
            },
        }
    }
}

/// Copy `n` bytes at `pos` into a fresh vector.
pub(crate) fn copy_range(s: &Vec<u8>, pos: usize, n: usize) -> (v: Vec<u8>)
    requires
        pos + n <= s.len(),
    ensures
        v@ == s@.subrange(pos as int, pos + n),
{
    let mut v: Vec<u8> = Vec::new();
    let mut i: usize = 0;
    while i < n
        invariant
            i <= n,
            pos + n <= s.len(),
            v@ == s@.subrange(pos as int, pos + i),
        decreases n - i,
    {
        proof {
            assert(s@.subrange(pos as int, pos + i).push(s@[pos + i]) =~= s@.subrange(
                pos as int,
                pos + i + 1,
            ));
        }
        v.push(s[pos + i]);
        i = i + 1;
    }
    v
}

/// Copy a whole vector's bytes into a fresh vector.
pub(crate) fn clone_bytes(s: &Vec<u8>) -> (v: Vec<u8>)
    ensures
        v@ == s@,
{
    let v = copy_range(s, 0, s.len());
    proof {
        assert(s@.subrange(0, s@.len() as int) =~= s@);
    }
    v
}

/// Append every byte of `b`.
pub(crate) fn push_bytes(out: &mut Vec<u8>, b: &Vec<u8>)
    ensures
        final(out)@ == old(out)@ + b@,
{
    let mut i: usize = 0;
    while i < b.len()
        invariant
            i <= b.len(),
            out@ == old(out)@ + b@.subrange(0, i as int),
        decreases b.len() - i,
    {
        proof {
            assert((old(out)@ + b@.subrange(0, i as int)).push(b@[i as int]) =~= old(out)@
                + b@.subrange(0, i + 1));
        }
        out.push(b[i]);
        i = i + 1;
    }
    proof {
        assert(b@.subrange(0, b@.len() as int) =~= b@);
    }
}

/// Append a length-prefixed byte string: a four-byte length, then the bytes.
pub fn write_length_prefixed_string(out: &mut Vec<u8>, b: &Vec<u8>)
    requires
        b@.len() <= 0xffffffff,
    ensures
        final(out)@ == old(out)@ + lp_bytes(b@),
{
    let ghost start = out@;
    push_le_u32(out, b.len() as u32);
    push_bytes(out, b);
    proof {
        assert(out@ =~= start + lp_bytes(b@));
    }
}

/// Read a length-prefixed byte string at `pos`, with no demand on what the
/// bytes hold, mirroring [`spec_parse_lp_raw`] exactly.
fn read_length_prefixed_bytes(s: &Vec<u8>, pos: usize) -> (r: Result<
    (Vec<u8>, usize),
    ArchiveError,
>)
    requires
        pos <= s.len(),
    ensures
        match r {
            Ok((v, n)) => spec_parse_lp_raw(s@, pos as int) == Ok::<(Seq<u8>, int), ArchiveError>(
                (v@, n as int),
            ) && pos + n <= s.len() && n >= 4,
            Err(e) => spec_parse_lp_raw(s@, pos as int) == Err::<(Seq<u8>, int), ArchiveError>(e),
        },
{
    if s.len() - pos < 4 {
        return Err(ArchiveError::TruncatedRecord);
    }
    let l = read_u32(s, pos);
    proof {
        lemma_le_val_bound(s@.subrange(pos as int, pos + 4));
        lemma_pow256_unfold_16();
        lemma_pow256_increases(4, 8);
    }
    let l = l as usize;
    if s.len() - pos - 4 < l {
        return Err(ArchiveError::TruncatedRecord);
    }
    let v = copy_range(s, pos + 4, l);
    Ok((v, 4 + l))
}

/// Read a length-prefixed string field at `pos`, mirroring
/// [`spec_parse_lp`] exactly: bytes that are not well-formed UTF-8 are
/// rejected.
pub fn read_length_prefixed_string(s: &Vec<u8>, pos: usize) -> (r: Result<
    (Vec<u8>, usize),
    ArchiveError,
>)
    requires
        pos <= s.len(),
    ensures
        match r {
            Ok((v, n)) => spec_parse_lp(s@, pos as int) == Ok::<(Seq<u8>, int), ArchiveError>(
                (v@, n as int),
            ) && pos + n <= s.len() && n >= 4,
            Err(e) => spec_parse_lp(s@, pos as int) == Err::<(Seq<u8>, int), ArchiveError>(e),
        },
{
    let (v, n) = match read_length_prefixed_bytes(s, pos) {
        Ok(x) => x,
        Err(e) => {
            return Err(e);
        },
    };
    if !is_utf8(&v) {
        return Err(ArchiveError::Utf8Error);
    }
    Ok((v, n))
}

/// Read the 128-byte filesystem-type buffer at `pos`, trimming trailing
/// zeros.
fn read_trimmed(s: &Vec<u8>, pos: usize) -> (v: Vec<u8>)
    requires
        pos + 128 <= s.len(),
    ensures
        v@ == trim_trailing_zeros(s@.subrange(pos as int, pos + 128)),
{
    let mut end: usize = 128;
    while end > 0 && s[pos + end - 1] == 0
        invariant
            pos + 128 <= s.len(),
            end <= 128,
            trim_trailing_zeros(s@.subrange(pos as int, pos + end)) == trim_trailing_zeros(
                s@.subrange(pos as int, pos + 128),
            ),
        decreases end,
    {
        proof {
            let t = s@.subrange(pos as int, pos + end);
            assert(t.last() == 0);
            assert(t.drop_last() =~= s@.subrange(pos as int, pos + end - 1));
        }
        end = end - 1;
    }
    proof {
        let t = s@.subrange(pos as int, pos + end);
        if end > 0 {
            assert(t.last() == s@[pos + end - 1]);
        }
        assert(trim_trailing_zeros(t) == t);
    }
    copy_range(s, pos, end)
}

impl FileHeader {
    /// The total size of this header when serialized, inline data included.
    pub fn calculate_size(&self) -> (r: u32)
        requires
            file_header_size(self@) <= 0xffffffff,
        ensures
            r == file_header_size(self@),
    {
        let total: u64 = 237 + self.username.len() as u64 + self.groupname.len() as u64
            + self.file_path.len() as u64 + self.file_name.len() as u64 + self.link_name.len()
            as u64 + self.extended_permissions.len() as u64 + self.inline_data.len() as u64;
        total as u32
    }

    /// Append the header's encoding, padded to a block boundary.
    #[verifier::rlimit(100)]
    pub fn write(&self, out: &mut Vec<u8>, block_size: u32)
        requires
            block_size > 0,
            file_header_wf(self@, block_size as int),
        ensures
            final(out)@ == old(out)@ + file_header_bytes(self@, block_size as int),
    {
        let ghost start = out@;
        let ghost v = self@;
        let ghost sz = file_header_size(v);
        proof {
            reveal(file_header_wf);
        }
        out.push(0x46u8);
        out.push(0x49u8);
        out.push(0x4cu8);
        out.push(0x45u8);
        proof {
            assert(out@ =~= start + file_header_magic());
        }
        let header_size = self.calculate_size();
        push_le_u32(out, header_size);
        proof {
            lemma_pow256_unfold_16();
        }
        push_le_bytes(out, self.file_size, 12);
        out.push(self.file_type.to_byte());
        let ghost e1 = file_header_magic() + le_bytes(sz as nat, 4) + le_bytes(
            v.file_size as nat,
            12,
        ) + seq![file_type_byte(v.file_type)];
        proof {
            assert(out@ =~= start + e1);
        }
        push_le_u64(out, self.uid);
        push_le_u64(out, self.gid);
        push_le_u64(out, self.device_major);
        push_le_u64(out, self.device_minor);
        let ghost e2 = e1 + le_bytes(v.uid as nat, 8) + le_bytes(v.gid as nat, 8) + le_bytes(
            v.device_major as nat,
            8,
        ) + le_bytes(v.device_minor as nat, 8);
        proof {
            assert(out@ =~= start + e2);
        }
        push_le_u64(out, self.access_time);
        push_le_u64(out, self.modify_time);
        push_le_u64(out, self.creation_time);
        let ghost e3 = e2 + le_bytes(v.access_time as nat, 8) + le_bytes(v.modify_time as nat, 8)
            + le_bytes(v.creation_time as nat, 8);
        proof {
            assert(out@ =~= start + e3);
        }
        write_length_prefixed_string(out, &self.username);
        write_length_prefixed_string(out, &self.groupname);
        write_length_prefixed_string(out, &self.file_path);
        let ghost e4 = e3 + lp_bytes(v.username) + lp_bytes(v.groupname) + lp_bytes(v.file_path);
        proof {
            assert(out@ =~= start + e4);
        }
        write_length_prefixed_string(out, &self.file_name);
        write_length_prefixed_string(out, &self.link_name);
        write_length_prefixed_string(out, &self.extended_permissions);
        let ghost e5 = e4 + lp_bytes(v.file_name) + lp_bytes(v.link_name) + lp_bytes(
            v.extended_permissions,
        );
        proof {
            assert(out@ =~= start + e5);
        }
        push_bytes(out, &self.source_filesystem_type);
        push_zeros(out, 128 - self.source_filesystem_type.len());
        push_le_u64(out, self.source_filesystem_id);
        let ghost e6 = e5 + v.source_filesystem_type + zero_bytes(
            128 - v.source_filesystem_type.len(),
        ) + le_bytes(v.source_filesystem_id as nat, 8);
        proof {
            assert(out@ =~= start + e6);
        }
        push_bytes(out, &self.inline_data);
        let pad = pad_for(header_size, block_size);
        push_zeros(out, pad);
        proof {
            reveal(file_header_bytes);
            let e7 = e6 + v.inline_data + zero_bytes(spec_pad_len(sz, block_size as int));
            assert(out@ =~= start + e7);
            assert(e7 == file_header_bytes(v, block_size as int));
        }
    }

    /// Parse a file header at `pos`, mirroring [`spec_parse_file_header`]
    /// exactly. On success, returns the header and the number of bytes
    /// consumed.
    #[verifier::rlimit(100)]
    pub fn read(s: &Vec<u8>, pos: usize, block_size: u32) -> (r: Result<
        (Self, usize),
        ArchiveError,
    >)
        requires
            block_size > 0,
            pos <= s.len(),
        ensures
            match r {
                Ok((h, n)) => spec_parse_file_header(s@, pos as int, block_size as int) == Ok::<
                    (FileHeaderV, int),
                    ArchiveError,
                >((h@, n as int)) && pos + n <= s.len() && n >= 4,
                Err(e) => spec_parse_file_header(s@, pos as int, block_size as int) == Err::<
                    (FileHeaderV, int),
                    ArchiveError,
                >(e),
            },
    {
        proof {
            reveal(spec_parse_file_header);
        }
        if s.len() - pos < 4 {
            return Err(ArchiveError::TruncatedRecord);
        }
        if !(s[pos] == 0x46 && s[pos + 1] == 0x49 && s[pos + 2] == 0x4c && s[pos + 3] == 0x45) {
            proof {
                assert(s@.subrange(pos as int, pos + 4) != file_header_magic());
            }
            return Err(ArchiveError::FormatMagic);
        }
        proof {
            assert(s@.subrange(pos as int, pos + 4) =~= file_header_magic());
        }
        if s.len() - pos < 77 {
            return Err(ArchiveError::TruncatedRecord);
        }
        let header_size = read_u32(s, pos + 4);
        let file_size = read_le_bytes(s, pos + 8, 12);
        let file_type = match FileType::from_byte(s[pos + 20]) {
            Ok(t) => t,
            Err(e) => {
                return Err(e);
            },
        };
        let uid = read_u64(s, pos + 21);
        let gid = read_u64(s, pos + 29);
        let device_major = read_u64(s, pos + 37);
        let device_minor = read_u64(s, pos + 45);
        let access_time = read_u64(s, pos + 53);
        let modify_time = read_u64(s, pos + 61);
        let creation_time = read_u64(s, pos + 69);
        let (username, n1) = match read_length_prefixed_string(s, pos + 77) {
            Ok(x) => x,
            Err(e) => {
                return Err(e);
            },
        };
        let (groupname, n2) = match read_length_prefixed_string(s, pos + 77 + n1) {
            Ok(x) => x,
            Err(e) => {
                return Err(e);
            },
        };
        let (file_path, n3) = match read_length_prefixed_string(s, pos + 77 + n1 + n2) {
            Ok(x) => x,
            Err(e) => {
                return Err(e);
            },
        };
        let (file_name, n4) = match read_length_prefixed_string(s, pos + 77 + n1 + n2 + n3) {
            Ok(x) => x,
            Err(e) => {
                return Err(e);
            },
        };
        let (link_name, n5) = match read_length_prefixed_string(s, pos + 77 + n1 + n2 + n3 + n4) {
            Ok(x) => x,
            Err(e) => {
                return Err(e);
            },
        };
        let (extended_permissions, n6) = match read_length_prefixed_bytes(
            s,
            pos + 77 + n1 + n2 + n3 + n4 + n5,
        ) {
            Ok(x) => x,
            Err(e) => {
                return Err(e);
            },
        };
        let q = pos + 77 + n1 + n2 + n3 + n4 + n5 + n6;
        if s.len() - q < 136 {
            return Err(ArchiveError::TruncatedRecord);
        }
        let source_filesystem_type = read_trimmed(s, q);
        let source_filesystem_id = read_u64(s, q + 128);
        let has_inline = file_type == FileType::Regular && file_size < block_size as u128;
        let ilen: usize = if has_inline {
            file_size as usize
        } else {
            0
        };
        if s.len() - (q + 136) < ilen {
            return Err(ArchiveError::TruncatedRecord);
        }
        let inline_data = copy_range(s, q + 136, ilen);
        let pad = pad_for(header_size, block_size);
        if s.len() - (q + 136 + ilen) < pad {
            return Err(ArchiveError::TruncatedRecord);
        }
        let h = Self {
            file_size,
            file_type,
            uid,
            gid,
            device_major,
            device_minor,
            access_time,
            modify_time,
            creation_time,
            username,
            groupname,
            file_path,
            file_name,
            link_name,
            extended_permissions,
            source_filesystem_type,
            source_filesystem_id,
            inline_data,
        };
        Ok((h, q + 136 + ilen + pad - pos))
    }
}


/// The length of a file header's encoding: its logical size plus the padding
/// that aligns it.
pub proof fn lemma_file_header_bytes_len(v: FileHeaderV, bs: int)
    requires
        bs > 0,
        v.source_filesystem_type.len() <= 128,
    ensures
        file_header_bytes(v, bs).len() == file_header_size(v) + spec_pad_len(
            file_header_size(v),
            bs,
        ),
        spec_pad_len(file_header_size(v), bs) >= 0,
{
    reveal(file_header_bytes);
    let sz = file_header_size(v);
    lemma_le_bytes_len(sz as nat, 4);
    lemma_le_bytes_len(v.file_size as nat, 12);
    lemma_le_bytes_len(v.uid as nat, 8);
    lemma_le_bytes_len(v.gid as nat, 8);
    lemma_le_bytes_len(v.device_major as nat, 8);
    lemma_le_bytes_len(v.device_minor as nat, 8);
    lemma_le_bytes_len(v.access_time as nat, 8);
    lemma_le_bytes_len(v.modify_time as nat, 8);
    lemma_le_bytes_len(v.creation_time as nat, 8);
    lemma_le_bytes_len(v.username.len() as nat, 4);
    lemma_le_bytes_len(v.groupname.len() as nat, 4);
    lemma_le_bytes_len(v.file_path.len() as nat, 4);
    lemma_le_bytes_len(v.file_name.len() as nat, 4);
    lemma_le_bytes_len(v.link_name.len() as nat, 4);
    lemma_le_bytes_len(v.extended_permissions.len() as nat, 4);
    lemma_le_bytes_len(v.source_filesystem_id as nat, 8);
    lemma_pad_len_bounds(sz, bs);
}

/// A well-formed file header's encoding occupies a whole number of blocks.
pub proof fn lemma_file_header_aligned(v: FileHeaderV, bs: int)
    requires
        bs > 0,
        v.source_filesystem_type.len() <= 128,
    ensures
        (file_header_bytes(v, bs).len() as int) % bs == 0,
{
    lemma_file_header_bytes_len(v, bs);
    lemma_pad_len_bounds(file_header_size(v), bs);
}

/// The fixed-offset head of a file header's encoding: the magic through
/// the seven metadata words, 77 bytes.
spec fn fh_fixed(v: FileHeaderV) -> Seq<u8> {
    file_header_magic() + le_bytes(file_header_size(v) as nat, 4) + le_bytes(
        v.file_size as nat,
        12,
    ) + seq![file_type_byte(v.file_type)] + le_bytes(v.uid as nat, 8) + le_bytes(v.gid as nat, 8)
        + le_bytes(v.device_major as nat, 8) + le_bytes(v.device_minor as nat, 8) + le_bytes(
        v.access_time as nat,
        8,
    ) + le_bytes(v.modify_time as nat, 8) + le_bytes(v.creation_time as nat, 8)
}

/// The six length-prefixed fields of a file header's encoding.
spec fn fh_names(v: FileHeaderV) -> Seq<u8> {
    lp_bytes(v.username) + lp_bytes(v.groupname) + lp_bytes(v.file_path) + lp_bytes(v.file_name)
        + lp_bytes(v.link_name) + lp_bytes(v.extended_permissions)
}

/// The tail of a file header's encoding: the fixed filesystem-type buffer,
/// the filesystem id, the inline data and the record padding.
spec fn fh_tail(v: FileHeaderV, bs: int) -> Seq<u8> {
    v.source_filesystem_type + zero_bytes(128 - v.source_filesystem_type.len()) + le_bytes(
        v.source_filesystem_id as nat,
        8,
    ) + v.inline_data + zero_bytes(spec_pad_len(file_header_size(v), bs))
}

/// The length of each group of a file header's encoding.
proof fn lemma_fh_group_lens(v: FileHeaderV, bs: int)
    requires
        bs > 0,
        v.source_filesystem_type.len() <= 128,
    ensures
        fh_fixed(v).len() == 77,
        fh_names(v).len() == 24 + v.username.len() + v.groupname.len() + v.file_path.len()
            + v.file_name.len() + v.link_name.len() + v.extended_permissions.len(),
        fh_tail(v, bs).len() == 136 + v.inline_data.len() + spec_pad_len(
            file_header_size(v),
            bs,
        ),
{
    lemma_le_bytes_len(file_header_size(v) as nat, 4);
    lemma_le_bytes_len(v.file_size as nat, 12);
    lemma_le_bytes_len(v.uid as nat, 8);
    lemma_le_bytes_len(v.gid as nat, 8);
    lemma_le_bytes_len(v.device_major as nat, 8);
    lemma_le_bytes_len(v.device_minor as nat, 8);
    lemma_le_bytes_len(v.access_time as nat, 8);
    lemma_le_bytes_len(v.modify_time as nat, 8);
    lemma_le_bytes_len(v.creation_time as nat, 8);
    lemma_le_bytes_len(v.username.len() as nat, 4);
    lemma_le_bytes_len(v.groupname.len() as nat, 4);
    lemma_le_bytes_len(v.file_path.len() as nat, 4);
    lemma_le_bytes_len(v.file_name.len() as nat, 4);
    lemma_le_bytes_len(v.link_name.len() as nat, 4);
    lemma_le_bytes_len(v.extended_permissions.len() as nat, 4);
    lemma_le_bytes_len(v.source_filesystem_id as nat, 8);
    lemma_pad_len_bounds(file_header_size(v), bs);
}

/// A file header's encoding splits into its three groups.
#[verifier::rlimit(100)]
proof fn lemma_file_header_bytes_split(v: FileHeaderV, bs: int)
    requires
        bs > 0,
        v.source_filesystem_type.len() <= 128,
    ensures
        file_header_bytes(v, bs) == fh_fixed(v) + fh_names(v) + fh_tail(v, bs),
{
    reveal(file_header_bytes);
    lemma_fh_group_lens(v, bs);
    lemma_file_header_bytes_len(v, bs);
    assert(file_header_bytes(v, bs) =~= fh_fixed(v) + fh_names(v) + fh_tail(v, bs));
}

/// The fixed-offset head of an encoded file header reads back field by
/// field.
#[verifier::rlimit(100)]
proof fn lemma_file_header_fields_head(v: FileHeaderV, prefix: Seq<u8>, rest: Seq<u8>, bs: int)
    requires
        bs > 0,
        file_header_wf(v, bs),
    ensures
        ({
            let s = prefix + file_header_bytes(v, bs) + rest;
            let p = prefix.len() as int;
            &&& s.len() == p + file_header_bytes(v, bs).len() + rest.len()
            &&& s.subrange(p, p + 4) == file_header_magic()
            &&& le_val(s.subrange(p + 4, p + 8)) == file_header_size(v)
            &&& le_val(s.subrange(p + 8, p + 20)) == v.file_size
            &&& s[p + 20] == file_type_byte(v.file_type)
        }),
{
    reveal(file_header_wf);
    let sz = file_header_size(v);
    let enc = file_header_bytes(v, bs);
    let s = prefix + enc + rest;
    let p = prefix.len() as int;
    lemma_file_header_bytes_len(v, bs);
    lemma_file_header_bytes_split(v, bs);
    lemma_fh_group_lens(v, bs);
    let g = fh_fixed(v);
    assert(s.subrange(p, p + 77) =~= g);
    lemma_le_bytes_len(sz as nat, 4);
    lemma_le_bytes_len(v.file_size as nat, 12);
    lemma_pow256_unfold_16();
    assert(s.subrange(p, p + 4) =~= g.subrange(0, 4));
    assert(g.subrange(0, 4) =~= file_header_magic());
    assert(s.subrange(p + 4, p + 8) =~= g.subrange(4, 8));
    assert(g.subrange(4, 8) =~= le_bytes(sz as nat, 4));
    assert(s.subrange(p + 8, p + 20) =~= g.subrange(8, 20));
    assert(g.subrange(8, 20) =~= le_bytes(v.file_size as nat, 12));
    assert(s[p + 20] == g[20]);
    assert(g[20] == file_type_byte(v.file_type));
    lemma_le_val_le_bytes(sz as nat, 4);
    lemma_le_val_le_bytes(v.file_size as nat, 12);
}

/// The seven fixed metadata words of an encoded file header read back
/// field by field.
#[verifier::rlimit(100)]
proof fn lemma_file_header_fields_meta(v: FileHeaderV, prefix: Seq<u8>, rest: Seq<u8>, bs: int)
    requires
        bs > 0,
        file_header_wf(v, bs),
    ensures
        ({
            let s = prefix + file_header_bytes(v, bs) + rest;
            let p = prefix.len() as int;
            &&& le_val(s.subrange(p + 21, p + 29)) == v.uid
            &&& le_val(s.subrange(p + 29, p + 37)) == v.gid
            &&& le_val(s.subrange(p + 37, p + 45)) == v.device_major
            &&& le_val(s.subrange(p + 45, p + 53)) == v.device_minor
            &&& le_val(s.subrange(p + 53, p + 61)) == v.access_time
            &&& le_val(s.subrange(p + 61, p + 69)) == v.modify_time
            &&& le_val(s.subrange(p + 69, p + 77)) == v.creation_time
        }),
{
    reveal(file_header_wf);
    let sz = file_header_size(v);
    let enc = file_header_bytes(v, bs);
    let s = prefix + enc + rest;
    let p = prefix.len() as int;
    lemma_file_header_bytes_len(v, bs);
    lemma_file_header_bytes_split(v, bs);
    lemma_fh_group_lens(v, bs);
    let g = fh_fixed(v);
    assert(s.subrange(p, p + 77) =~= g);
    lemma_le_bytes_len(sz as nat, 4);
    lemma_le_bytes_len(v.file_size as nat, 12);
    lemma_le_bytes_len(v.uid as nat, 8);
    lemma_le_bytes_len(v.gid as nat, 8);
    lemma_le_bytes_len(v.device_major as nat, 8);
    lemma_le_bytes_len(v.device_minor as nat, 8);
    lemma_le_bytes_len(v.access_time as nat, 8);
    lemma_le_bytes_len(v.modify_time as nat, 8);
    lemma_le_bytes_len(v.creation_time as nat, 8);
    lemma_pow256_unfold_16();
    assert(s.subrange(p + 21, p + 29) =~= g.subrange(21, 29));
    assert(g.subrange(21, 29) =~= le_bytes(v.uid as nat, 8));
    assert(s.subrange(p + 29, p + 37) =~= g.subrange(29, 37));
    assert(g.subrange(29, 37) =~= le_bytes(v.gid as nat, 8));
    assert(s.subrange(p + 37, p + 45) =~= g.subrange(37, 45));
    assert(g.subrange(37, 45) =~= le_bytes(v.device_major as nat, 8));
    assert(s.subrange(p + 45, p + 53) =~= g.subrange(45, 53));
    assert(g.subrange(45, 53) =~= le_bytes(v.device_minor as nat, 8));
    assert(s.subrange(p + 53, p + 61) =~= g.subrange(53, 61));
    assert(g.subrange(53, 61) =~= le_bytes(v.access_time as nat, 8));
    assert(s.subrange(p + 61, p + 69) =~= g.subrange(61, 69));
    assert(g.subrange(61, 69) =~= le_bytes(v.modify_time as nat, 8));
    assert(s.subrange(p + 69, p + 77) =~= g.subrange(69, 77));
    assert(g.subrange(69, 77) =~= le_bytes(v.creation_time as nat, 8));
    lemma_le_val_le_bytes(v.uid as nat, 8);
    lemma_le_val_le_bytes(v.gid as nat, 8);
    lemma_le_val_le_bytes(v.device_major as nat, 8);
    lemma_le_val_le_bytes(v.device_minor as nat, 8);
    lemma_le_val_le_bytes(v.access_time as nat, 8);
    lemma_le_val_le_bytes(v.modify_time as nat, 8);
    lemma_le_val_le_bytes(v.creation_time as nat, 8);
}

/// The first three length-prefixed fields of an encoded file header parse
/// back one after the other.
#[verifier::rlimit(100)]
proof fn lemma_file_header_fields_var_a(v: FileHeaderV, prefix: Seq<u8>, rest: Seq<u8>, bs: int)
    requires
        bs > 0,
        file_header_wf(v, bs),
    ensures
        ({
            let s = prefix + file_header_bytes(v, bs) + rest;
            let p = prefix.len() as int;
            let q1 = p + 77;
            let q2 = q1 + 4 + v.username.len();
            let q3 = q2 + 4 + v.groupname.len();
            &&& spec_parse_lp(s, q1) == Ok::<(Seq<u8>, int), ArchiveError>(
                (v.username, 4 + v.username.len() as int),
            )
            &&& spec_parse_lp(s, q2) == Ok::<(Seq<u8>, int), ArchiveError>(
                (v.groupname, 4 + v.groupname.len() as int),
            )
            &&& spec_parse_lp(s, q3) == Ok::<(Seq<u8>, int), ArchiveError>(
                (v.file_path, 4 + v.file_path.len() as int),
            )
        }),
{
    reveal(file_header_wf);
    let sz = file_header_size(v);
    let enc = file_header_bytes(v, bs);
    let s = prefix + enc + rest;
    let p = prefix.len() as int;
    lemma_file_header_bytes_len(v, bs);
    lemma_file_header_bytes_split(v, bs);
    lemma_fh_group_lens(v, bs);
    lemma_le_bytes_len(v.username.len() as nat, 4);
    lemma_le_bytes_len(v.groupname.len() as nat, 4);
    lemma_le_bytes_len(v.file_path.len() as nat, 4);
    lemma_le_bytes_len(v.file_name.len() as nat, 4);
    lemma_le_bytes_len(v.link_name.len() as nat, 4);
    lemma_le_bytes_len(v.extended_permissions.len() as nat, 4);
    lemma_pow256_unfold_16();
    let ul = v.username.len() as int;
    let gl = v.groupname.len() as int;
    let pl = v.file_path.len() as int;
    let nl = v.file_name.len() as int;
    let ll = v.link_name.len() as int;
    let xl = v.extended_permissions.len() as int;
    let g = fh_names(v);
    let nlen = 24 + ul + gl + pl + nl + ll + xl;
    assert(s.subrange(p + 77, p + 77 + nlen) =~= g);
    let q1 = p + 77;
    let q2 = q1 + 4 + ul;
    let q3 = q2 + 4 + gl;
    let q4 = q3 + 4 + pl;
    assert(s.subrange(q1, q1 + 4) =~= g.subrange(0, 4));
    assert(g.subrange(0, 4) =~= le_bytes(ul as nat, 4));
    assert(s.subrange(q1 + 4, q2) =~= g.subrange(4, 4 + ul));
    assert(g.subrange(4, 4 + ul) =~= v.username);
    lemma_le_val_le_bytes(ul as nat, 4);
    let o2 = 4 + ul;
    assert(s.subrange(q2, q2 + 4) =~= g.subrange(o2, o2 + 4));
    assert(g.subrange(o2, o2 + 4) =~= le_bytes(gl as nat, 4));
    assert(s.subrange(q2 + 4, q3) =~= g.subrange(o2 + 4, o2 + 4 + gl));
    assert(g.subrange(o2 + 4, o2 + 4 + gl) =~= v.groupname);
    lemma_le_val_le_bytes(gl as nat, 4);
    let o3 = o2 + 4 + gl;
    assert(s.subrange(q3, q3 + 4) =~= g.subrange(o3, o3 + 4));
    assert(g.subrange(o3, o3 + 4) =~= le_bytes(pl as nat, 4));
    assert(s.subrange(q3 + 4, q4) =~= g.subrange(o3 + 4, o3 + 4 + pl));
    assert(g.subrange(o3 + 4, o3 + 4 + pl) =~= v.file_path);
    lemma_le_val_le_bytes(pl as nat, 4);
}

/// The last three length-prefixed fields of an encoded file header parse
/// back one after the other.
#[verifier::rlimit(100)]
proof fn lemma_file_header_fields_var_b(v: FileHeaderV, prefix: Seq<u8>, rest: Seq<u8>, bs: int)
    requires
        bs > 0,
        file_header_wf(v, bs),
    ensures
        ({
            let s = prefix + file_header_bytes(v, bs) + rest;
            let p = prefix.len() as int;
            let q4 = p + 77 + 4 + v.username.len() + 4 + v.groupname.len() + 4
                + v.file_path.len();
            let q5 = q4 + 4 + v.file_name.len();
            let q6 = q5 + 4 + v.link_name.len();
            &&& spec_parse_lp(s, q4) == Ok::<(Seq<u8>, int), ArchiveError>(
                (v.file_name, 4 + v.file_name.len() as int),
            )
            &&& spec_parse_lp(s, q5) == Ok::<(Seq<u8>, int), ArchiveError>(
                (v.link_name, 4 + v.link_name.len() as int),
            )
            &&& spec_parse_lp_raw(s, q6) == Ok::<(Seq<u8>, int), ArchiveError>(
                (v.extended_permissions, 4 + v.extended_permissions.len() as int),
            )
        }),
{
    reveal(file_header_wf);
    let sz = file_header_size(v);
    let enc = file_header_bytes(v, bs);
    let s = prefix + enc + rest;
    let p = prefix.len() as int;
    lemma_file_header_bytes_len(v, bs);
    lemma_file_header_bytes_split(v, bs);
    lemma_fh_group_lens(v, bs);
    lemma_le_bytes_len(v.username.len() as nat, 4);
    lemma_le_bytes_len(v.groupname.len() as nat, 4);
    lemma_le_bytes_len(v.file_path.len() as nat, 4);
    lemma_le_bytes_len(v.file_name.len() as nat, 4);
    lemma_le_bytes_len(v.link_name.len() as nat, 4);
    lemma_le_bytes_len(v.extended_permissions.len() as nat, 4);
    lemma_pow256_unfold_16();
    let ul = v.username.len() as int;
    let gl = v.groupname.len() as int;
    let pl = v.file_path.len() as int;
    let nl = v.file_name.len() as int;
    let ll = v.link_name.len() as int;
    let xl = v.extended_permissions.len() as int;
    let g = fh_names(v);
    let nlen = 24 + ul + gl + pl + nl + ll + xl;
    assert(s.subrange(p + 77, p + 77 + nlen) =~= g);
    let q4 = p + 77 + 12 + ul + gl + pl;
    let q5 = q4 + 4 + nl;
    let q6 = q5 + 4 + ll;
    let q7 = q6 + 4 + xl;
    let o4 = 12 + ul + gl + pl;
    assert(s.subrange(q4, q4 + 4) =~= g.subrange(o4, o4 + 4));
    assert(g.subrange(o4, o4 + 4) =~= le_bytes(nl as nat, 4));
    assert(s.subrange(q4 + 4, q5) =~= g.subrange(o4 + 4, o4 + 4 + nl));
    assert(g.subrange(o4 + 4, o4 + 4 + nl) =~= v.file_name);
    lemma_le_val_le_bytes(nl as nat, 4);
    let o5 = o4 + 4 + nl;
    assert(s.subrange(q5, q5 + 4) =~= g.subrange(o5, o5 + 4));
    assert(g.subrange(o5, o5 + 4) =~= le_bytes(ll as nat, 4));
    assert(s.subrange(q5 + 4, q6) =~= g.subrange(o5 + 4, o5 + 4 + ll));
    assert(g.subrange(o5 + 4, o5 + 4 + ll) =~= v.link_name);
    lemma_le_val_le_bytes(ll as nat, 4);
    let o6 = o5 + 4 + ll;
    assert(s.subrange(q6, q6 + 4) =~= g.subrange(o6, o6 + 4));
    assert(g.subrange(o6, o6 + 4) =~= le_bytes(xl as nat, 4));
    assert(s.subrange(q6 + 4, q7) =~= g.subrange(o6 + 4, o6 + 4 + xl));
    assert(g.subrange(o6 + 4, o6 + 4 + xl) =~= v.extended_permissions);
    lemma_le_val_le_bytes(xl as nat, 4);
}

/// The tail of an encoded file header - the filesystem label, the
/// filesystem id and the inline data - reads back field by field.
#[verifier::rlimit(100)]
proof fn lemma_file_header_fields_tail(v: FileHeaderV, prefix: Seq<u8>, rest: Seq<u8>, bs: int)
    requires
        bs > 0,
        file_header_wf(v, bs),
    ensures
        ({
            let s = prefix + file_header_bytes(v, bs) + rest;
            let p = prefix.len() as int;
            let q7 = p + 77 + 4 + v.username.len() + 4 + v.groupname.len() + 4 + v.file_path.len()
                + 4 + v.file_name.len() + 4 + v.link_name.len() + 4
                + v.extended_permissions.len();
            &&& trim_trailing_zeros(s.subrange(q7, q7 + 128)) == v.source_filesystem_type
            &&& le_val(s.subrange(q7 + 128, q7 + 136)) == v.source_filesystem_id
            &&& s.subrange(q7 + 136, q7 + 136 + v.inline_data.len()) == v.inline_data
            &&& q7 + 136 + v.inline_data.len() + spec_pad_len(file_header_size(v), bs) == p
                + file_header_bytes(v, bs).len()
        }),
{
    reveal(file_header_wf);
    let sz = file_header_size(v);
    let enc = file_header_bytes(v, bs);
    let s = prefix + enc + rest;
    let p = prefix.len() as int;
    lemma_file_header_bytes_len(v, bs);
    lemma_file_header_bytes_split(v, bs);
    lemma_fh_group_lens(v, bs);
    lemma_le_bytes_len(v.source_filesystem_id as nat, 8);
    lemma_pow256_unfold_16();
    let fl = v.source_filesystem_type.len() as int;
    let il = v.inline_data.len() as int;
    let q7 = p + 77 + 4 + v.username.len() + 4 + v.groupname.len() + 4 + v.file_path.len() + 4
        + v.file_name.len() + 4 + v.link_name.len() + 4 + v.extended_permissions.len();
    let g = fh_tail(v, bs);
    assert(s.subrange(q7, q7 + g.len()) =~= g);
    assert(s.subrange(q7, q7 + 128) =~= g.subrange(0, 128));
    assert(g.subrange(0, 128) =~= v.source_filesystem_type + zero_bytes(128 - fl));
    lemma_trim_pad(v.source_filesystem_type, 128 - fl);
    assert(s.subrange(q7 + 128, q7 + 136) =~= g.subrange(128, 136));
    assert(g.subrange(128, 136) =~= le_bytes(v.source_filesystem_id as nat, 8));
    lemma_le_val_le_bytes(v.source_filesystem_id as nat, 8);
    assert(s.subrange(q7 + 136, q7 + 136 + il) =~= g.subrange(136, 136 + il));
    assert(g.subrange(136, 136 + il) =~= v.inline_data);
}

/// Parsing succeeds at `p` in any byte string whose fields read back as the
/// fields of `v`.
#[verifier::rlimit(100)]
proof fn lemma_parse_file_header_assemble(s: Seq<u8>, p: int, bs: int, v: FileHeaderV, encl: int)
    requires
        bs > 0,
        0 <= p,
        file_header_wf(v, bs),
        s.len() - p >= 77,
        s.subrange(p, p + 4) == file_header_magic(),
        le_val(s.subrange(p + 4, p + 8)) == file_header_size(v),
        le_val(s.subrange(p + 8, p + 20)) == v.file_size,
        s[p + 20] == file_type_byte(v.file_type),
        le_val(s.subrange(p + 21, p + 29)) == v.uid,
        le_val(s.subrange(p + 29, p + 37)) == v.gid,
        le_val(s.subrange(p + 37, p + 45)) == v.device_major,
        le_val(s.subrange(p + 45, p + 53)) == v.device_minor,
        le_val(s.subrange(p + 53, p + 61)) == v.access_time,
        le_val(s.subrange(p + 61, p + 69)) == v.modify_time,
        le_val(s.subrange(p + 69, p + 77)) == v.creation_time,
        spec_parse_lp(s, p + 77) == Ok::<(Seq<u8>, int), ArchiveError>(
            (v.username, 4 + v.username.len() as int),
        ),
        spec_parse_lp(s, p + 77 + 4 + v.username.len()) == Ok::<(Seq<u8>, int), ArchiveError>(
            (v.groupname, 4 + v.groupname.len() as int),
        ),
        spec_parse_lp(s, p + 77 + 8 + v.username.len() + v.groupname.len()) == Ok::<
            (Seq<u8>, int),
            ArchiveError,
        >((v.file_path, 4 + v.file_path.len() as int)),
        spec_parse_lp(s, p + 77 + 12 + v.username.len() + v.groupname.len() + v.file_path.len())
            == Ok::<(Seq<u8>, int), ArchiveError>((v.file_name, 4 + v.file_name.len() as int)),
        spec_parse_lp(
            s,
            p + 77 + 16 + v.username.len() + v.groupname.len() + v.file_path.len()
                + v.file_name.len(),
        ) == Ok::<(Seq<u8>, int), ArchiveError>((v.link_name, 4 + v.link_name.len() as int)),
        spec_parse_lp_raw(
            s,
            p + 77 + 20 + v.username.len() + v.groupname.len() + v.file_path.len()
                + v.file_name.len() + v.link_name.len(),
        ) == Ok::<(Seq<u8>, int), ArchiveError>(
            (v.extended_permissions, 4 + v.extended_permissions.len() as int),
        ),
        ({
            let q7 = p + 77 + 24 + v.username.len() + v.groupname.len() + v.file_path.len()
                + v.file_name.len() + v.link_name.len() + v.extended_permissions.len();
            &&& s.len() - q7 >= 136
            &&& trim_trailing_zeros(s.subrange(q7, q7 + 128)) == v.source_filesystem_type
            &&& le_val(s.subrange(q7 + 128, q7 + 136)) == v.source_filesystem_id
            &&& s.subrange(q7 + 136, q7 + 136 + v.inline_data.len()) == v.inline_data
            &&& encl == q7 + 136 + v.inline_data.len() + spec_pad_len(file_header_size(v), bs)
                - p
            &&& s.len() - (q7 + 136 + v.inline_data.len()) >= spec_pad_len(
                file_header_size(v),
                bs,
            )
        }),
    ensures
        spec_parse_file_header(s, p, bs) == Ok::<(FileHeaderV, int), ArchiveError>((v, encl)),
{
    reveal(spec_parse_file_header);
    reveal(file_header_wf);
    lemma_pow256_unfold_16();
    lemma_pad_len_bounds(file_header_size(v), bs);
    assert(spec_file_type_of(s[p + 20]) == Ok::<FileType, ArchiveError>(v.file_type));
    let has_inline = v.file_type == FileType::Regular && (v.file_size as int) < bs;
    let ilen: int = if has_inline {
        v.file_size as int
    } else {
        0
    };
    assert(ilen == v.inline_data.len());
}

/// Writing a well-formed file header and parsing it back yields the header
/// again, whatever stands before and after; the parse consumes exactly the
/// encoding.
#[verifier::rlimit(100)]
pub proof fn lemma_file_header_roundtrip(v: FileHeaderV, prefix: Seq<u8>, rest: Seq<u8>, bs: int)
    requires
        bs > 0,
        file_header_wf(v, bs),
    ensures
        spec_parse_file_header(prefix + file_header_bytes(v, bs) + rest, prefix.len() as int, bs)
            == Ok::<(FileHeaderV, int), ArchiveError>(
            (v, file_header_bytes(v, bs).len() as int),
        ),
{
    reveal(file_header_wf);
    let sz = file_header_size(v);
    let enc = file_header_bytes(v, bs);
    let s = prefix + enc + rest;
    let p = prefix.len() as int;
    lemma_file_header_bytes_len(v, bs);
    lemma_pad_len_bounds(sz, bs);
    lemma_file_header_fields_head(v, prefix, rest, bs);
    lemma_file_header_fields_meta(v, prefix, rest, bs);
    lemma_file_header_fields_var_a(v, prefix, rest, bs);
    lemma_file_header_fields_var_b(v, prefix, rest, bs);
    lemma_file_header_fields_tail(v, prefix, rest, bs);
    lemma_parse_file_header_assemble(s, p, bs, v, enc.len() as int);
}


/// A successfully parsed file header consumes at least one byte, and ends
/// inside the input.
pub proof fn lemma_spec_parse_file_header_advances(s: Seq<u8>, pos: int, bs: int)
    requires
        bs > 0,
        0 <= pos,
    ensures
        spec_parse_file_header(s, pos, bs) matches Ok((hv, n)) ==> 0 < n && pos + n <= s.len(),
{
    reveal(spec_parse_file_header);
    match spec_parse_file_header(s, pos, bs) {
        Ok((hv, n)) => {
            let header_size = le_val(s.subrange(pos + 4, pos + 8)) as int;
            lemma_pad_len_bounds(header_size, bs);
        },
        Err(_) => {},
    }
}

} // verus!
