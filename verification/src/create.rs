//! Archive creation: building file headers from entry metadata and emitting
//! extent records with block-level deduplication.
//!
//! The creator fingerprints every padded block with its CRC-32. The first
//! block with a given fingerprint is written as a data extent under a fresh
//! extent id; every later block with the same fingerprint is written as a
//! reference extent naming that id, with no payload.

use vstd::prelude::*;

use std::collections::HashMap;

use crate::checksum::crc32;
use crate::checksum::crc32_of;
use crate::format::ArchiveHeader;
use crate::format::DEFAULT_BLOCK_SIZE;
use crate::format::ExtentHeader;
use crate::format::ExtentType;
use crate::format::FileHeader;
use crate::format::FileHeaderV;
use crate::format::FileType;
use crate::format::REFTAR_VERSION;
use crate::format::archive_header_bytes;
use crate::format::clone_bytes;
use crate::format::file_header_bytes;
use crate::format::file_header_wf;
use crate::format::push_bytes;
use crate::records::ExtentRecordV;
use crate::records::cache_after;
use crate::records::data_ids_unique;
use crate::records::extent_record_bytes;
use crate::records::lemma_block_offset_bounds;
use crate::records::lemma_num_blocks_bounds;
use crate::records::lemma_reconstruct_push;
use crate::records::lemma_records_bytes_push;
use crate::records::padded_block;
use crate::records::record_wf;
use crate::records::records_bytes;
use crate::records::reconstruct;
use crate::records::records_wf;
use crate::records::references_resolve;
use crate::records::spec_num_blocks;

verus! {

broadcast use vstd::std_specs::hash::group_hash_axioms;

/// The metadata of one filesystem entry, as the caller collected it: plain
/// values only. Byte strings stand as they will stand on the wire.
#[derive(Clone, Debug)]
pub struct FileMeta {
    /// The size recorded for a non-regular entry; for a regular file the
    /// content's own length is used instead.
    pub file_size: u64,
    pub file_type: FileType,
    pub uid: u64,
    pub gid: u64,
    pub access_time: u64,
    pub modify_time: u64,
    pub creation_time: u64,
    pub username: Vec<u8>,
    pub groupname: Vec<u8>,
    pub file_path: Vec<u8>,
    pub file_name: Vec<u8>,
    pub link_name: Vec<u8>,
    pub source_filesystem_type: Vec<u8>,
    pub source_filesystem_id: u64,
    /// The path the content was read from, recorded for dedup bookkeeping.
    pub source_path: Vec<u8>,
}

/// The mathematical model of entry metadata.
pub ghost struct FileMetaV {
    pub file_size: u64,
    pub file_type: FileType,
    pub uid: u64,
    pub gid: u64,
    pub access_time: u64,
    pub modify_time: u64,
    pub creation_time: u64,
    pub username: Seq<u8>,
    pub groupname: Seq<u8>,
    pub file_path: Seq<u8>,
    pub file_name: Seq<u8>,
    pub link_name: Seq<u8>,
    pub source_filesystem_type: Seq<u8>,
    pub source_filesystem_id: u64,
    pub source_path: Seq<u8>,
}

impl View for FileMeta {
    type V = FileMetaV;

    open spec fn view(&self) -> FileMetaV {
        FileMetaV {
            file_size: self.file_size,
            file_type: self.file_type,
            uid: self.uid,
            gid: self.gid,
            access_time: self.access_time,
            modify_time: self.modify_time,
            creation_time: self.creation_time,
            username: self.username@,
            groupname: self.groupname@,
            file_path: self.file_path@,
            file_name: self.file_name@,
            link_name: self.link_name@,
            source_filesystem_type: self.source_filesystem_type@,
            source_filesystem_id: self.source_filesystem_id,
            source_path: self.source_path@,
        }
    }
}

/// The file header built from entry metadata and content: a regular file's
/// size is the content's length, and content smaller than a block is
/// inlined; device numbers and extended permissions are not recorded.
#[verifier::opaque]
pub open spec fn spec_build_header(m: FileMetaV, content: Seq<u8>, bs: int) -> FileHeaderV {
    FileHeaderV {
        file_size: if m.file_type == FileType::Regular {
            content.len() as u128
        } else {
            m.file_size as u128
        },
        file_type: m.file_type,
        uid: m.uid,
        gid: m.gid,
        device_major: 0,
        device_minor: 0,
        access_time: m.access_time,
        modify_time: m.modify_time,
        creation_time: m.creation_time,
        username: m.username,
        groupname: m.groupname,
        file_path: m.file_path,
        file_name: m.file_name,
        link_name: m.link_name,
        extended_permissions: Seq::empty(),
        source_filesystem_type: m.source_filesystem_type,
        source_filesystem_id: m.source_filesystem_id,
        inline_data: if m.file_type == FileType::Regular && 0 < content.len() && content.len() < bs {
            content
        } else {
            Seq::empty()
        },
    }
}

/// Dedup bookkeeping for one data extent: where its content came from and
/// the fingerprint it is filed under.
#[derive(Clone, Debug)]
pub struct ExtentInfo {
    pub extent_id: u64,
    pub file_path: Vec<u8>,
    pub offset: u64,
    pub length: u64,
    pub checksum: u32,
}

/// The creator's bookkeeping invariant over its record log, fingerprint map
/// and id allocator: the log is well formed, each extent id defines content
/// at most once, every reference resolves backward to a data extent with
/// the same checksum, every data extent's id lies below the allocator, and
/// the fingerprint map indexes data extents by their checksum.
pub open spec fn creator_inv(log: Seq<ExtentRecordV>, m: Map<u32, ExtentInfo>, next: u64, bs: int) -> bool {
    &&& records_wf(log, bs)
    &&& data_ids_unique(log)
    &&& references_resolve(log)
    &&& forall|i: int|
        0 <= i < log.len() && (#[trigger] log[i]).header.extent_type == ExtentType::Data
            ==> log[i].header.extent_id < next
    &&& forall|c: u32|
        #[trigger] m.contains_key(c) ==> exists|i: int|
            0 <= i < log.len() && (#[trigger] log[i]).header.extent_type == ExtentType::Data
                && log[i].header.extent_id == m[c].extent_id && log[i].header.checksum == c
}

/// What the creator emits for block `j` of a file's content: a one-block
/// extent fingerprinted with the block's CRC-32, either a data extent whose
/// payload is the padded block itself or a reference to an equal
/// fingerprint.
pub open spec fn block_record_matches(r: ExtentRecordV, content: Seq<u8>, j: int, bs: int) -> bool {
    &&& r.header.length_in_blocks == 1
    &&& r.header.source_extent_start == j * bs
    &&& r.header.checksum == crc32_of(padded_block(content, j, bs))
    &&& (r.header.extent_type == ExtentType::Data || r.header.extent_type
        == ExtentType::Reference)
    &&& (r.header.extent_type == ExtentType::Data ==> r.payload == padded_block(content, j, bs))
}

/// Every record of a run matches its block of the content.
pub open spec fn blocks_match(nrecs: Seq<ExtentRecordV>, content: Seq<u8>, bs: int) -> bool {
    forall|j: int|
        0 <= j < nrecs.len() ==> block_record_matches(#[trigger] nrecs[j], content, j, bs)
}

/// The fingerprint map and the id allocator after the creator has processed
/// the first `j` blocks of `content`, starting from map `m` and allocator
/// `next`: a block whose fingerprint is already filed changes nothing; any
/// other block files its fingerprint under the next consecutive id.
#[verifier::opaque]
pub open spec fn fp_after(m: Map<u32, u64>, next: u64, content: Seq<u8>, j: int, bs: int) -> (
    Map<u32, u64>,
    u64,
)
    decreases j,
{
    if j <= 0 {
        (m, next)
    } else {
        let prev = fp_after(m, next, content, j - 1, bs);
        let c = crc32_of(padded_block(content, j - 1, bs));
        if prev.0.contains_key(c) {
            prev
        } else {
            (prev.0.insert(c, prev.1), (prev.1 + 1) as u64)
        }
    }
}

/// The creator's dedup decision for block `j`: a reference exactly when the
/// block's fingerprint is already filed, naming the filed id; otherwise a
/// data extent under the allocator's next consecutive id.
pub open spec fn block_decision_matches(
    r: ExtentRecordV,
    content: Seq<u8>,
    j: int,
    bs: int,
    m0: Map<u32, u64>,
    next0: u64,
) -> bool {
    let st = fp_after(m0, next0, content, j, bs);
    let c = crc32_of(padded_block(content, j, bs));
    if st.0.contains_key(c) {
        r.header.extent_type == ExtentType::Reference && r.header.extent_id == st.0[c]
    } else {
        r.header.extent_type == ExtentType::Data && r.header.extent_id == st.1
    }
}

/// Every record of a run follows the dedup decision for its block.
pub open spec fn blocks_decided(
    nrecs: Seq<ExtentRecordV>,
    content: Seq<u8>,
    bs: int,
    m0: Map<u32, u64>,
    next0: u64,
) -> bool {
    forall|j: int|
        0 <= j < nrecs.len() ==> block_decision_matches(
            #[trigger] nrecs[j],
            content,
            j,
            bs,
            m0,
            next0,
        )
}

/// Appending one block's record to a run keeps every per-block fact.
proof fn lemma_blocks_extend(
    pre_n: Seq<ExtentRecordV>,
    emitted: ExtentRecordV,
    content: Seq<u8>,
    bs: int,
    m0: Map<u32, u64>,
    next0: u64,
)
    requires
        blocks_match(pre_n, content, bs),
        blocks_decided(pre_n, content, bs, m0, next0),
        block_record_matches(emitted, content, pre_n.len() as int, bs),
        block_decision_matches(emitted, content, pre_n.len() as int, bs, m0, next0),
    ensures
        blocks_match(pre_n.push(emitted), content, bs),
        blocks_decided(pre_n.push(emitted), content, bs, m0, next0),
{
    let new_n = pre_n.push(emitted);
    assert forall|j: int| 0 <= j < new_n.len() implies block_record_matches(
        #[trigger] new_n[j],
        content,
        j,
        bs,
    ) && block_decision_matches(new_n[j], content, j, bs, m0, next0) by {
        if j < pre_n.len() {
            assert(new_n[j] == pre_n[j]);
            assert(block_record_matches(pre_n[j], content, j, bs));
            assert(block_decision_matches(pre_n[j], content, j, bs, m0, next0));
        } else {
            assert(new_n[j] == emitted);
        }
    }
}

/// Appending a reference to a fingerprint the map already indexes keeps the
/// creator's invariant.
proof fn lemma_push_reference_inv(
    log: Seq<ExtentRecordV>,
    r: ExtentRecordV,
    m: Map<u32, ExtentInfo>,
    next: u64,
    bs: int,
)
    requires
        creator_inv(log, m, next, bs),
        r.header.extent_type == ExtentType::Reference,
        r.payload.len() == 0,
        m.contains_key(r.header.checksum),
        m[r.header.checksum].extent_id == r.header.extent_id,
    ensures
        creator_inv(log.push(r), m, next, bs),
{
    let log2 = log.push(r);
    assert forall|i: int| 0 <= i < log2.len() implies record_wf(#[trigger] log2[i], bs) by {
        if i < log.len() {
            assert(record_wf(log[i], bs));
        }
    }
    assert forall|j: int|
        0 <= j < log2.len() && (#[trigger] log2[j]).header.extent_type
            == ExtentType::Reference implies exists|i: int|
        0 <= i < j && (#[trigger] log2[i]).header.extent_type == ExtentType::Data
            && log2[i].header.extent_id == log2[j].header.extent_id && log2[i].header.checksum
            == log2[j].header.checksum by {
        if j < log.len() {
            let wi = choose|i: int|
                0 <= i < j && (#[trigger] log[i]).header.extent_type == ExtentType::Data
                    && log[i].header.extent_id == log[j].header.extent_id
                    && log[i].header.checksum == log[j].header.checksum;
            assert(0 <= wi < j && log2[wi].header.extent_type == ExtentType::Data
                && log2[wi].header.extent_id == log2[j].header.extent_id
                && log2[wi].header.checksum == log2[j].header.checksum);
        } else {
            let c = r.header.checksum;
            let wi = choose|i: int|
                0 <= i < log.len() && (#[trigger] log[i]).header.extent_type == ExtentType::Data
                    && log[i].header.extent_id == m[c].extent_id && log[i].header.checksum == c;
            assert(0 <= wi < j && log2[wi].header.extent_type == ExtentType::Data
                && log2[wi].header.extent_id == log2[j].header.extent_id
                && log2[wi].header.checksum == log2[j].header.checksum);
        }
    }
    assert forall|c: u32| #[trigger] m.contains_key(c) implies exists|i: int|
        0 <= i < log2.len() && (#[trigger] log2[i]).header.extent_type == ExtentType::Data
            && log2[i].header.extent_id == m[c].extent_id && log2[i].header.checksum == c by {
        let wi = choose|i: int|
            0 <= i < log.len() && (#[trigger] log[i]).header.extent_type == ExtentType::Data
                && log[i].header.extent_id == m[c].extent_id && log[i].header.checksum == c;
        assert(0 <= wi < log2.len() && log2[wi].header.extent_type == ExtentType::Data
            && log2[wi].header.extent_id == m[c].extent_id && log2[wi].header.checksum == c);
    }
}

/// Appending a data extent under the freshly allocated id, and filing it in
/// the fingerprint map, keeps the creator's invariant.
proof fn lemma_push_data_inv(
    log: Seq<ExtentRecordV>,
    r: ExtentRecordV,
    m: Map<u32, ExtentInfo>,
    info: ExtentInfo,
    next: u64,
    bs: int,
)
    requires
        creator_inv(log, m, next, bs),
        r.header.extent_type == ExtentType::Data,
        r.header.extent_id == next,
        r.header.length_in_blocks == 1,
        r.payload.len() == bs,
        crc32_of(r.payload) == r.header.checksum,
        next < u64::MAX,
        info.extent_id == next,
    ensures
        creator_inv(log.push(r), m.insert(r.header.checksum, info), (next + 1) as u64, bs),
{
    let log2 = log.push(r);
    let m2 = m.insert(r.header.checksum, info);
    assert forall|i: int| 0 <= i < log2.len() implies record_wf(#[trigger] log2[i], bs) by {
        if i < log.len() {
            assert(record_wf(log[i], bs));
        } else {
            assert(1 * bs == bs);
        }
    }
    assert forall|j: int|
        0 <= j < log2.len() && (#[trigger] log2[j]).header.extent_type
            == ExtentType::Reference implies exists|i: int|
        0 <= i < j && (#[trigger] log2[i]).header.extent_type == ExtentType::Data
            && log2[i].header.extent_id == log2[j].header.extent_id && log2[i].header.checksum
            == log2[j].header.checksum by {
        let wi = choose|i: int|
            0 <= i < j && (#[trigger] log[i]).header.extent_type == ExtentType::Data
                && log[i].header.extent_id == log[j].header.extent_id && log[i].header.checksum
                == log[j].header.checksum;
        assert(0 <= wi < j && log2[wi].header.extent_type == ExtentType::Data
            && log2[wi].header.extent_id == log2[j].header.extent_id && log2[wi].header.checksum
            == log2[j].header.checksum);
    }
    assert forall|c: u32| #[trigger] m2.contains_key(c) implies exists|i: int|
        0 <= i < log2.len() && (#[trigger] log2[i]).header.extent_type == ExtentType::Data
            && log2[i].header.extent_id == m2[c].extent_id && log2[i].header.checksum == c by {
        if c == r.header.checksum {
            let wi = log.len() as int;
            assert(0 <= wi < log2.len() && log2[wi].header.extent_type == ExtentType::Data
                && log2[wi].header.extent_id == m2[c].extent_id && log2[wi].header.checksum == c);
        } else {
            let wi = choose|i: int|
                0 <= i < log.len() && (#[trigger] log[i]).header.extent_type == ExtentType::Data
                    && log[i].header.extent_id == m[c].extent_id && log[i].header.checksum == c;
            assert(0 <= wi < log2.len() && log2[wi].header.extent_type == ExtentType::Data
                && log2[wi].header.extent_id == m2[c].extent_id && log2[wi].header.checksum == c);
        }
    }
}

/// A regular file's content goes to extent records exactly when it cannot
/// be inlined: when it is at least one block long.
proof fn lemma_inline_rule(m: FileMetaV, content: Seq<u8>, bs: int)
    requires
        bs > 0,
    ensures
        (m.file_type == FileType::Regular && spec_build_header(m, content, bs).inline_data.len()
            == 0 && content.len() > 0) == (m.file_type == FileType::Regular && content.len() as int
            >= bs),
{
    reveal(spec_build_header);
}

/// Block `i` of the content, zero-padded to the block size.
fn padded_block_exec(content: &Vec<u8>, i: usize, block_size: u32) -> (v: Vec<u8>)
    requires
        block_size > 0,
        (i as int) * (block_size as int) < content@.len(),
        content@.len() + block_size <= u64::MAX,
    ensures
        v@ == padded_block(content@, i as int, block_size as int),
{
    let ghost gbs = block_size as int;
    let bs = block_size as usize;
    let mut v: Vec<u8> = Vec::new();
    let mut k: usize = 0;
    while k < bs
        invariant
            k <= bs,
            bs == block_size,
            block_size > 0,
            (i as int) * gbs < content@.len(),
            content@.len() + block_size <= u64::MAX,
            gbs == block_size as int,
            v@ == padded_block(content@, i as int, gbs).subrange(0, k as int),
        decreases bs - k,
    {
        proof {
            assert(padded_block(content@, i as int, gbs).subrange(0, k as int).push(
                padded_block(content@, i as int, gbs)[k as int],
            ) =~= padded_block(content@, i as int, gbs).subrange(0, k + 1));
        }
        let idx: u64 = (i as u64) * (block_size as u64) + (k as u64);
        let b: u8 = if idx < content.len() as u64 {
            content[idx as usize]
        } else {
            0
        };
        v.push(b);
        k = k + 1;
    }
    proof {
        assert(padded_block(content@, i as int, gbs).subrange(0, gbs) =~= padded_block(
            content@,
            i as int,
            gbs,
        ));
    }
    v
}

/// The archive creator: accumulates the archive's bytes, the fingerprint
/// map, and a ghost log of every extent record emitted.
pub struct ArchiveCreator {
    out: Vec<u8>,
    block_size: u32,
    extent_map: HashMap<u32, ExtentInfo>,
    next_extent_id: u64,
    rec_log: Ghost<Seq<ExtentRecordV>>,
}

impl ArchiveCreator {
    /// The archive bytes written so far.
    pub closed spec fn bytes(&self) -> Seq<u8> {
        self.out@
    }

    /// Every extent record emitted so far, in order.
    pub closed spec fn records(&self) -> Seq<ExtentRecordV> {
        self.rec_log@
    }

    /// The block size every record is aligned to.
    pub closed spec fn spec_block_size(&self) -> u32 {
        self.block_size
    }

    /// The next extent id to be allocated; ids are handed out from zero
    /// upward.
    pub closed spec fn id_ceiling(&self) -> u64 {
        self.next_extent_id
    }

    /// The fingerprint map: each filed checksum and the extent id that
    /// introduced it.
    pub closed spec fn fingerprints(&self) -> Map<u32, u64> {
        Map::new(
            |c: u32| self.extent_map@.contains_key(c),
            |c: u32| self.extent_map@[c].extent_id,
        )
    }

    /// The creator's invariant: the record log is well formed, each extent
    /// id defines content at most once, every reference resolves backward,
    /// and the fingerprint map indexes data extents by their checksum.
    pub closed spec fn wf(&self) -> bool {
        &&& self.block_size > 0
        &&& creator_inv(
            self.rec_log@,
            self.extent_map@,
            self.next_extent_id,
            self.block_size as int,
        )
    }

    /// A fresh creator: writes the archive header immediately, so that even
    /// a partial archive is self-identifying.
    pub fn new(block_size: Option<u32>) -> (c: Self)
        requires
            block_size matches Some(b) ==> b > 0,
        ensures
            c.wf(),
            c.records() == Seq::<ExtentRecordV>::empty(),
            c.id_ceiling() == 0,
            c.fingerprints() == Map::<u32, u64>::empty(),
            c.spec_block_size() == (match block_size {
                Some(b) => b,
                None => DEFAULT_BLOCK_SIZE,
            }),
            c.bytes() == archive_header_bytes(
                ArchiveHeader { version: REFTAR_VERSION, block_size: c.spec_block_size() },
            ),
    {
        let bs = match block_size {
            Some(b) => b,
            None => DEFAULT_BLOCK_SIZE,
        };
        let header = ArchiveHeader::new(bs);
        let mut out: Vec<u8> = Vec::new();
        header.write(&mut out);
        proof {
            assert(out@ =~= archive_header_bytes(
                ArchiveHeader { version: REFTAR_VERSION, block_size: bs },
            ));
        }
        let c = Self {
            out,
            block_size: bs,
            extent_map: HashMap::new(),
            next_extent_id: 0,
            rec_log: Ghost(Seq::empty()),
        };
        proof {
            assert(c.fingerprints() =~= Map::<u32, u64>::empty());
        }
        c
    }

    /// Build the file header for one entry, as [`spec_build_header`]
    /// describes it.
    pub fn build_file_header(&self, meta: &FileMeta, content: &Vec<u8>) -> (h: FileHeader)
        requires
            self.wf(),
        ensures
            h@ == spec_build_header(meta@, content@, self.spec_block_size() as int),
    {
        let inline_data: Vec<u8> = if matches!(meta.file_type, FileType::Regular)
            && content.len() > 0 && content.len() < self.block_size as usize {
            clone_bytes(content)
        } else {
            Vec::new()
        };
        let file_size: u128 = if matches!(meta.file_type, FileType::Regular) {
            content.len() as u128
        } else {
            meta.file_size as u128
        };
        proof {
            reveal(spec_build_header);
            assert(content@.subrange(0, content@.len() as int) =~= content@);
        }
        FileHeader {
            file_size,
            file_type: meta.file_type,
            uid: meta.uid,
            gid: meta.gid,
            device_major: 0,
            device_minor: 0,
            access_time: meta.access_time,
            modify_time: meta.modify_time,
            creation_time: meta.creation_time,
            username: clone_bytes(&meta.username),
            groupname: clone_bytes(&meta.groupname),
            file_path: clone_bytes(&meta.file_path),
            file_name: clone_bytes(&meta.file_name),
            link_name: clone_bytes(&meta.link_name),
            extended_permissions: Vec::new(),
            source_filesystem_type: clone_bytes(&meta.source_filesystem_type),
            source_filesystem_id: meta.source_filesystem_id,
            inline_data,
        }
    }

    /// Emit one reference extent: header only, no payload. The fingerprint
    /// map must already index the named extent under this checksum.
    fn emit_reference(&mut self, header: ExtentHeader)
        requires
            old(self).wf(),
            header.extent_type == ExtentType::Reference,
            old(self).extent_map@.contains_key(header.checksum),
            old(self).extent_map@[header.checksum].extent_id == header.extent_id,
        ensures
            final(self).wf(),
            final(self).block_size == old(self).block_size,
            final(self).next_extent_id == old(self).next_extent_id,
            final(self).extent_map@ == old(self).extent_map@,
            final(self).rec_log@ == old(self).rec_log@.push(
                ExtentRecordV { header, payload: Seq::<u8>::empty() },
            ),
            final(self).out@ == old(self).out@ + extent_record_bytes(
                ExtentRecordV { header, payload: Seq::<u8>::empty() },
                old(self).block_size as int,
            ),
    {
        let ghost bs_g = self.block_size as int;
        let ghost pre = self.rec_log@;
        header.write(&mut self.out, self.block_size);
        self.rec_log = Ghost(pre.push(ExtentRecordV { header, payload: Seq::empty() }));
        proof {
            let r = ExtentRecordV { header, payload: Seq::<u8>::empty() };
            lemma_push_reference_inv(pre, r, self.extent_map@, self.next_extent_id, bs_g);
            assert(extent_record_bytes(r, bs_g) =~= crate::format::extent_header_bytes(
                header,
                bs_g,
            ));
        }
    }

    /// Emit one data extent: header, then the padded payload; allocate its
    /// id and file its fingerprint in the map.
    #[verifier::rlimit(100)]
    fn emit_data(&mut self, header: ExtentHeader, block: &Vec<u8>, info: ExtentInfo)
        requires
            old(self).wf(),
            header.extent_type == ExtentType::Data,
            header.extent_id == old(self).next_extent_id,
            header.length_in_blocks == 1,
            block@.len() == old(self).block_size,
            crc32_of(block@) == header.checksum,
            old(self).next_extent_id < u64::MAX,
            info.extent_id == header.extent_id,
        ensures
            final(self).wf(),
            final(self).block_size == old(self).block_size,
            final(self).next_extent_id == old(self).next_extent_id + 1,
            final(self).extent_map@ == old(self).extent_map@.insert(header.checksum, info),
            final(self).rec_log@ == old(self).rec_log@.push(
                ExtentRecordV { header, payload: block@ },
            ),
            final(self).out@ == old(self).out@ + extent_record_bytes(
                ExtentRecordV { header, payload: block@ },
                old(self).block_size as int,
            ),
    {
        let ghost bs_g = self.block_size as int;
        let ghost pre = self.rec_log@;
        let ghost pre_map = self.extent_map@;
        let ghost info_g = info;
        header.write(&mut self.out, self.block_size);
        push_bytes(&mut self.out, block);
        self.extent_map.insert(header.checksum, info);
        self.next_extent_id = header.extent_id + 1;
        self.rec_log = Ghost(pre.push(ExtentRecordV { header, payload: block@ }));
        proof {
            let r = ExtentRecordV { header, payload: block@ };
            lemma_push_data_inv(pre, r, pre_map, info_g, header.extent_id, bs_g);
            assert(self.out@ =~= old(self).out@ + extent_record_bytes(r, bs_g));
        }
    }

    /// Emit the extent records that carry one file's content, block by
    /// block: a block whose fingerprint is already in the map becomes a
    /// reference to the extent that introduced that fingerprint; any other
    /// block becomes a data extent under a fresh id and is filed in the map.
    #[verifier::rlimit(100)]
    fn write_file_extents(&mut self, source_path: &Vec<u8>, content: &Vec<u8>)
        requires
            old(self).wf(),
            content@.len() > 0,
            content@.len() + old(self).spec_block_size() <= u64::MAX,
            old(self).id_ceiling() + content@.len() <= u64::MAX,
        ensures
            final(self).wf(),
            final(self).spec_block_size() == old(self).spec_block_size(),
            old(self).id_ceiling() <= final(self).id_ceiling(),
            final(self).id_ceiling() <= old(self).id_ceiling() + content@.len(),
            final(self).records().len() == old(self).records().len() + spec_num_blocks(
                content@.len() as int,
                old(self).spec_block_size() as int,
            ),
            final(self).records().subrange(0, old(self).records().len() as int) == old(
                self,
            ).records(),
            final(self).bytes() == old(self).bytes() + records_bytes(
                final(self).records().skip(old(self).records().len() as int),
                old(self).spec_block_size() as int,
            ),
            blocks_match(
                final(self).records().skip(old(self).records().len() as int),
                content@,
                old(self).spec_block_size() as int,
            ),
            blocks_decided(
                final(self).records().skip(old(self).records().len() as int),
                content@,
                old(self).spec_block_size() as int,
                old(self).fingerprints(),
                old(self).id_ceiling(),
            ),
            final(self).fingerprints() == fp_after(
                old(self).fingerprints(),
                old(self).id_ceiling(),
                content@,
                spec_num_blocks(content@.len() as int, old(self).spec_block_size() as int),
                old(self).spec_block_size() as int,
            ).0,
            final(self).id_ceiling() == fp_after(
                old(self).fingerprints(),
                old(self).id_ceiling(),
                content@,
                spec_num_blocks(content@.len() as int, old(self).spec_block_size() as int),
                old(self).spec_block_size() as int,
            ).1,
    {
        let ghost old_log = self.rec_log@;
        let ghost old_out = self.out@;
        let ghost bs_g = self.block_size as int;
        let ghost clen = content@.len() as int;
        let ghost nb_g = spec_num_blocks(clen, bs_g);
        let ghost old_next = self.next_extent_id;
        let ghost m0 = self.fingerprints();
        proof {
            lemma_num_blocks_bounds(clen, bs_g);
            reveal(fp_after);
        }
        let bs64: u64 = self.block_size as u64;
        let len64: u64 = content.len() as u64;
        let num_blocks: u64 = (len64 + bs64 - 1) / bs64;
        let mut i: u64 = 0;
        while i < num_blocks
            invariant
                i <= num_blocks,
                num_blocks == nb_g,
                nb_g == spec_num_blocks(clen, bs_g),
                1 <= nb_g <= clen,
                clen == content@.len(),
                clen <= usize::MAX,
                bs64 == self.block_size,
                len64 == clen,
                clen + self.block_size <= u64::MAX,
                bs_g == self.block_size as int,
                self.wf(),
                old_next + clen <= u64::MAX,
                old_next <= self.next_extent_id,
                self.next_extent_id <= old_next + i,
                self.rec_log@.len() == old_log.len() + i,
                self.rec_log@.subrange(0, old_log.len() as int) == old_log,
                self.out@ == old_out + records_bytes(
                    self.rec_log@.skip(old_log.len() as int),
                    bs_g,
                ),
                blocks_match(self.rec_log@.skip(old_log.len() as int), content@, bs_g),
                blocks_decided(
                    self.rec_log@.skip(old_log.len() as int),
                    content@,
                    bs_g,
                    m0,
                    old_next,
                ),
                m0 == old(self).fingerprints(),
                self.fingerprints() == fp_after(m0, old_next, content@, i as int, bs_g).0,
                self.next_extent_id == fp_after(m0, old_next, content@, i as int, bs_g).1,
            decreases num_blocks - i,
        {
            proof {
                lemma_block_offset_bounds(clen, bs_g, i as int);
                assert(i <= usize::MAX as u64);
            }
            let block = padded_block_exec(content, i as usize, self.block_size);
            let c = crc32(&block);
            let start: u64 = i * bs64;
            let existing_id: Option<u64> = match self.extent_map.get(&c) {
                Some(info) => Some(info.extent_id),
                None => None,
            };
            let ghost pre = self.rec_log@;
            let ghost fpm_old = self.fingerprints();
            let ghost emitted: ExtentRecordV;
            match existing_id {
                Some(eid) => {
                    let header = ExtentHeader {
                        extent_id: eid,
                        length_in_blocks: 1,
                        extent_type: ExtentType::Reference,
                        source_extent_start: start,
                        checksum: c,
                    };
                    self.emit_reference(header);
                    proof {
                        emitted = ExtentRecordV { header, payload: Seq::<u8>::empty() };
                        assert(fpm_old.contains_key(c) && fpm_old[c] == eid);
                        assert(self.fingerprints() =~= fpm_old);
                    }
                },
                None => {
                    let id = self.next_extent_id;
                    let header = ExtentHeader {
                        extent_id: id,
                        length_in_blocks: 1,
                        extent_type: ExtentType::Data,
                        source_extent_start: start,
                        checksum: c,
                    };
                    let remaining = content.len() - start as usize;
                    let blen: u64 = if remaining < self.block_size as usize {
                        remaining as u64
                    } else {
                        self.block_size as u64
                    };
                    let info = ExtentInfo {
                        extent_id: id,
                        file_path: clone_bytes(source_path),
                        offset: start,
                        length: blen,
                        checksum: c,
                    };
                    let ghost info_id = info.extent_id;
                    self.emit_data(header, &block, info);
                    proof {
                        emitted = ExtentRecordV { header, payload: block@ };
                        assert(!fpm_old.contains_key(c));
                        assert(self.fingerprints() =~= fpm_old.insert(c, id));
                    }
                },
            }
            i = i + 1;
            proof {
                lemma_records_bytes_push(pre.skip(old_log.len() as int), emitted, bs_g);
                assert(self.rec_log@.skip(old_log.len() as int) =~= pre.skip(
                    old_log.len() as int,
                ).push(emitted));
                assert(self.rec_log@.subrange(0, old_log.len() as int) =~= old_log);
                assert(self.out@ =~= old_out + records_bytes(
                    self.rec_log@.skip(old_log.len() as int),
                    bs_g,
                ));
                assert(block_record_matches(emitted, content@, i - 1, bs_g));
                reveal(fp_after);
                assert(fp_after(m0, old_next, content@, i as int, bs_g) == (
                if fp_after(m0, old_next, content@, i - 1, bs_g).0.contains_key(c) {
                    fp_after(m0, old_next, content@, i - 1, bs_g)
                } else {
                    (
                        fp_after(m0, old_next, content@, i - 1, bs_g).0.insert(
                            c,
                            fp_after(m0, old_next, content@, i - 1, bs_g).1,
                        ),
                        (fp_after(m0, old_next, content@, i - 1, bs_g).1 + 1) as u64,
                    )
                }));
                assert(block_decision_matches(emitted, content@, i - 1, bs_g, m0, old_next));
                lemma_blocks_extend(
                    pre.skip(old_log.len() as int),
                    emitted,
                    content@,
                    bs_g,
                    m0,
                    old_next,
                );
            }
        }
    }

    /// Add one filesystem entry: write its header, and for a regular file
    /// too large to inline, its extent records with deduplication.
    #[verifier::rlimit(100)]
    pub fn add_file(&mut self, meta: &FileMeta, content: &Vec<u8>)
        requires
            old(self).wf(),
            file_header_wf(
                spec_build_header(meta@, content@, old(self).spec_block_size() as int),
                old(self).spec_block_size() as int,
            ),
            content@.len() + old(self).spec_block_size() <= u64::MAX,
            old(self).id_ceiling() + content@.len() <= u64::MAX,
        ensures
            final(self).wf(),
            final(self).spec_block_size() == old(self).spec_block_size(),
            old(self).id_ceiling() <= final(self).id_ceiling(),
            final(self).id_ceiling() <= old(self).id_ceiling() + content@.len(),
            final(self).records().subrange(0, old(self).records().len() as int) == old(
                self,
            ).records(),
            final(self).records().len() == old(self).records().len() + (
            if meta@.file_type == FileType::Regular && content@.len()
                >= old(self).spec_block_size() {
                spec_num_blocks(content@.len() as int, old(self).spec_block_size() as int)
            } else {
                0
            }),
            final(self).bytes() == old(self).bytes() + file_header_bytes(
                spec_build_header(meta@, content@, old(self).spec_block_size() as int),
                old(self).spec_block_size() as int,
            ) + records_bytes(
                final(self).records().skip(old(self).records().len() as int),
                old(self).spec_block_size() as int,
            ),
            blocks_match(
                final(self).records().skip(old(self).records().len() as int),
                content@,
                old(self).spec_block_size() as int,
            ),
            blocks_decided(
                final(self).records().skip(old(self).records().len() as int),
                content@,
                old(self).spec_block_size() as int,
                old(self).fingerprints(),
                old(self).id_ceiling(),
            ),
            final(self).fingerprints() == (if meta@.file_type == FileType::Regular
                && content@.len() >= old(self).spec_block_size() {
                fp_after(
                    old(self).fingerprints(),
                    old(self).id_ceiling(),
                    content@,
                    spec_num_blocks(content@.len() as int, old(self).spec_block_size() as int),
                    old(self).spec_block_size() as int,
                ).0
            } else {
                old(self).fingerprints()
            }),
            final(self).id_ceiling() == (if meta@.file_type == FileType::Regular
                && content@.len() >= old(self).spec_block_size() {
                fp_after(
                    old(self).fingerprints(),
                    old(self).id_ceiling(),
                    content@,
                    spec_num_blocks(content@.len() as int, old(self).spec_block_size() as int),
                    old(self).spec_block_size() as int,
                ).1
            } else {
                old(self).id_ceiling()
            }),
    {
        let ghost old_out = self.out@;
        let ghost old_log = self.rec_log@;
        let ghost bs_g = self.block_size as int;
        let ghost clen = content@.len() as int;
        let ghost hv = spec_build_header(meta@, content@, bs_g);
        let header = self.build_file_header(meta, content);
        header.write(&mut self.out, self.block_size);
        let has_extents = matches!(meta.file_type, FileType::Regular) && header.inline_data.len()
            == 0 && content.len() > 0;
        proof {
            lemma_inline_rule(meta@, content@, bs_g);
            assert(self.fingerprints() =~= old(self).fingerprints());
        }
        if has_extents {
            self.write_file_extents(&meta.source_path, content);
        } else {
            proof {
                assert(self.rec_log@.skip(old_log.len() as int) =~= Seq::<ExtentRecordV>::empty());
                assert(records_bytes(Seq::<ExtentRecordV>::empty(), bs_g) == Seq::<u8>::empty());
                Seq::<u8>::add_empty_right(self.out@, Seq::<u8>::empty());
                assert(self.fingerprints() =~= old(self).fingerprints());
            }
        }
    }

    /// Flush nothing, hand back the archive's bytes: end-of-archive is
    /// signalled by the end of the stream, no trailer is written.
    pub fn finish(self) -> (r: Vec<u8>)
        ensures
            r@ == self.bytes(),
    {
        self.out
    }
}


impl ArchiveCreator {
    /// Law: each extent id appears in at most one data extent of everything
    /// this creator has emitted; all later appearances are references.
    pub proof fn lemma_data_ids_unique(&self)
        requires
            self.wf(),
        ensures
            data_ids_unique(self.records()),
    {
    }

    /// Law: every reference this creator has emitted names an extent id
    /// that an earlier data extent defined, with the same checksum field.
    pub proof fn lemma_references_resolve(&self)
        requires
            self.wf(),
        ensures
            references_resolve(self.records()),
    {
    }

    /// Law: every data extent this creator has emitted carries exactly its
    /// blocks as payload, hashed by its checksum field.
    pub proof fn lemma_records_well_formed(&self)
        requires
            self.wf(),
        ensures
            records_wf(self.records(), self.spec_block_size() as int),
    {
    }
}

/// The first `j` blocks of the content, padded out to whole blocks.
pub open spec fn padded_prefix(content: Seq<u8>, j: int, bs: int) -> Seq<u8> {
    Seq::new(
        (j * bs) as nat,
        |x: int|
            if x < content.len() {
                content[x]
            } else {
                0u8
            },
    )
}

/// One step of the dedup round trip: the first `j` records emitted for a
/// file reconstruct its first `j` padded blocks.
#[verifier::rlimit(100)]
proof fn lemma_dedup_roundtrip_step(
    prior: Seq<ExtentRecordV>,
    nrecs: Seq<ExtentRecordV>,
    content: Seq<u8>,
    bs: int,
    j: int,
)
    requires
        bs > 0,
        content.len() > 0,
        records_wf(prior + nrecs, bs),
        data_ids_unique(prior + nrecs),
        references_resolve(prior + nrecs),
        forall|i: int|
            0 <= i < (prior + nrecs).len() ==> (#[trigger] (prior
                + nrecs)[i]).header.length_in_blocks == 1,
        nrecs.len() == spec_num_blocks(content.len() as int, bs),
        blocks_match(nrecs, content, bs),
        forall|x: Seq<u8>, y: Seq<u8>|
            x.len() == bs && y.len() == bs && #[trigger] crc32_of(x) == #[trigger] crc32_of(y)
                ==> x == y,
        0 <= j <= spec_num_blocks(content.len() as int, bs),
    ensures
        reconstruct(nrecs.take(j), cache_after(prior, Map::<u64, Seq<u8>>::empty()), bs) == Some(
            padded_prefix(content, j, bs),
        ),
    decreases j,
{
    let all = prior + nrecs;
    let c0 = cache_after(prior, Map::<u64, Seq<u8>>::empty());
    let nb = spec_num_blocks(content.len() as int, bs);
    lemma_num_blocks_bounds(content.len() as int, bs);
    if j == 0 {
        assert(nrecs.take(0) =~= Seq::<ExtentRecordV>::empty());
        assert(padded_prefix(content, 0, bs) =~= Seq::<u8>::empty());
    } else {
        lemma_dedup_roundtrip_step(prior, nrecs, content, bs, j - 1);
        let r = nrecs[j - 1];
        let flat = padded_prefix(content, j - 1, bs);
        let blk = padded_block(content, j - 1, bs);
        assert(block_record_matches(r, content, j - 1, bs));
        assert(nrecs.take(j) =~= nrecs.take(j - 1).push(r));
        lemma_reconstruct_push(nrecs.take(j - 1), r, c0, bs, flat);
        lemma_block_offset_bounds(content.len() as int, bs, j - 1);
        let chunk: Seq<u8>;
        if r.header.extent_type == ExtentType::Data {
            chunk = r.payload;
            assert(chunk == blk);
        } else {
            let gj = prior.len() + j - 1;
            assert(all[gj] == r);
            assert(all[gj].header.extent_type == ExtentType::Reference);
            let wi = choose|i: int|
                0 <= i < gj && (#[trigger] all[i]).header.extent_type == ExtentType::Data
                    && all[i].header.extent_id == all[gj].header.extent_id
                    && all[i].header.checksum == all[gj].header.checksum;
            assert(0 <= wi < gj);
            crate::records::lemma_cache_after_value(all, gj, wi);
            crate::records::lemma_cache_after_append(
                prior,
                nrecs.take(j - 1),
                Map::<u64, Seq<u8>>::empty(),
            );
            assert(all.take(gj) =~= prior + nrecs.take(j - 1));
            assert(cache_after(nrecs.take(j - 1), c0).contains_key(r.header.extent_id));
            chunk = cache_after(nrecs.take(j - 1), c0)[r.header.extent_id];
            assert(chunk == all[wi].payload);
            assert(record_wf(all[wi], bs));
            assert(chunk.len() == 1 * bs);
            assert(crc32_of(chunk) == all[wi].header.checksum);
            assert(crc32_of(chunk) == crc32_of(blk));
            assert(blk.len() == bs);
            assert(chunk == blk);
        }
        assert(reconstruct(nrecs.take(j), c0, bs) == Some(flat + chunk));
        assert(flat + blk =~= padded_prefix(content, j, bs)) by {
            assert(j * bs == (j - 1) * bs + bs) by (nonlinear_arith);
        }
    }
}

/// Law (round trip of deduplication): the records the creator emits for one
/// file's content, walked on top of any prior records of the same archive,
/// reconstruct that content's padded blocks - provided no two distinct
/// one-block payloads collide on their CRC-32. Truncating the
/// reconstruction to the content's length yields the content itself.
pub proof fn lemma_dedup_roundtrip(
    prior: Seq<ExtentRecordV>,
    nrecs: Seq<ExtentRecordV>,
    content: Seq<u8>,
    bs: int,
)
    requires
        bs > 0,
        content.len() > 0,
        records_wf(prior + nrecs, bs),
        data_ids_unique(prior + nrecs),
        references_resolve(prior + nrecs),
        forall|i: int|
            0 <= i < (prior + nrecs).len() ==> (#[trigger] (prior
                + nrecs)[i]).header.length_in_blocks == 1,
        nrecs.len() == spec_num_blocks(content.len() as int, bs),
        blocks_match(nrecs, content, bs),
        forall|x: Seq<u8>, y: Seq<u8>|
            x.len() == bs && y.len() == bs && #[trigger] crc32_of(x) == #[trigger] crc32_of(y)
                ==> x == y,
    ensures
        reconstruct(nrecs, cache_after(prior, Map::<u64, Seq<u8>>::empty()), bs) == Some(
            padded_prefix(content, spec_num_blocks(content.len() as int, bs), bs),
        ),
        padded_prefix(content, spec_num_blocks(content.len() as int, bs), bs).take(
            content.len() as int,
        ) == content,
{
    let nb = spec_num_blocks(content.len() as int, bs);
    lemma_num_blocks_bounds(content.len() as int, bs);
    lemma_dedup_roundtrip_step(prior, nrecs, content, bs, nb);
    assert(nrecs.take(nb) =~= nrecs);
    assert(padded_prefix(content, nb, bs).take(content.len() as int) =~= content);
}


} // verus!
