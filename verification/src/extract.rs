//! Archive extraction: parsing an archive's records, materializing file
//! contents, resolving references through the extent cache, and verifying
//! checksums.
//!
//! The extractor works on the archive's bytes and returns each entry's
//! content as plain bytes, together with the range-clone opportunities a
//! caller may exploit on a copy-on-write filesystem; copying the returned
//! bytes and cloning the hinted ranges materialize the same content.

use vstd::prelude::*;

use std::collections::HashMap;

use crate::checksum::crc32;
use crate::checksum::crc32_of;
use crate::format::ArchiveError;
use crate::format::ArchiveHeader;
use crate::format::ExtentHeader;
use crate::format::ExtentType;
use crate::format::FileHeader;
use crate::format::FileHeaderV;
use crate::format::FileType;
use crate::format::clone_bytes;
use crate::format::copy_range;
use crate::format::spec_parse_archive_header;
use crate::format::spec_parse_file_header;
use crate::format::zero_bytes;
use crate::records::ExtentRecordV;
use crate::records::cache_after;
use crate::records::extent_run;
use crate::records::lemma_cache_after_member;
use crate::records::lemma_cache_after_push;
use crate::records::lemma_extent_run_snoc;
use crate::records::lemma_reconstruct_push;
use crate::records::spec_extract_run;
use crate::records::spec_skip_run;
use crate::records::lemma_spec_extract_run_advances;
use crate::records::lemma_spec_skip_run_advances;
use crate::records::record_wf;
use crate::records::records_wf;
use crate::records::reconstruct;

verus! {

broadcast use vstd::std_specs::hash::group_hash_axioms;

/// One cached data extent: its bytes, and where in the output they were
/// placed, when a file location is known, for reflink resolution.
struct CachedExtent {
    extent_id: u64,
    data: Vec<u8>,
    file_location: Option<(Vec<u8>, u64)>,
}

/// One range-clone opportunity: the destination range of the current file
/// holds the same bytes as the source range of an already-extracted file, so
/// a caller may clone instead of copying.
#[derive(Clone, Debug)]
pub struct CloneOp {
    /// The extent id the reference named.
    pub extent_id: u64,
    pub source_path: Vec<u8>,
    pub source_offset: u64,
    pub dest_offset: u64,
    pub length: u64,
}

/// The library's side of reflink equivalence: each clone opportunity's
/// destination range of the materialized bytes holds exactly the payload of
/// the data extent that defined the referenced id, so cloning the placed
/// bytes and copying the returned bytes write the same content.
pub open spec fn clone_ops_tied(ops: Seq<CloneOp>, flat: Seq<u8>, recs: Seq<ExtentRecordV>) -> bool {
    forall|k: int|
        0 <= k < ops.len() ==> ({
            let op = #[trigger] ops[k];
            &&& op.dest_offset + op.length <= flat.len()
            &&& exists|i: int|
                0 <= i < recs.len() && (#[trigger] recs[i]).header.extent_type
                    == ExtentType::Data && recs[i].header.extent_id == op.extent_id
                    && recs[i].payload == flat.subrange(
                    op.dest_offset as int,
                    op.dest_offset as int + op.length as int,
                )
        })
}

/// One extracted entry: its header, the output path it belongs at, its
/// content when it is a regular file, and the clone opportunities found
/// while resolving references.
#[derive(Debug)]
pub struct ExtractedEntry {
    pub header: FileHeader,
    pub output_path: Vec<u8>,
    pub content: Option<Vec<u8>>,
    pub reflink_ops: Vec<CloneOp>,
}

/// Extending the materialized bytes and the record log preserves every
/// clone opportunity's tie.
proof fn lemma_clone_ops_extend(
    ops: Seq<CloneOp>,
    flat: Seq<u8>,
    recs: Seq<ExtentRecordV>,
    chunk: Seq<u8>,
    r: ExtentRecordV,
)
    requires
        clone_ops_tied(ops, flat, recs),
    ensures
        clone_ops_tied(ops, flat + chunk, recs.push(r)),
{
    assert forall|k: int| 0 <= k < ops.len() implies ({
        let op = #[trigger] ops[k];
        &&& op.dest_offset + op.length <= (flat + chunk).len()
        &&& exists|i: int|
            0 <= i < recs.push(r).len() && (#[trigger] recs.push(r)[i]).header.extent_type
                == ExtentType::Data && recs.push(r)[i].header.extent_id == op.extent_id
                && recs.push(r)[i].payload == (flat + chunk).subrange(
                op.dest_offset as int,
                op.dest_offset as int + op.length as int,
            )
    }) by {
        let op = ops[k];
        let wi = choose|i: int|
            0 <= i < recs.len() && (#[trigger] recs[i]).header.extent_type == ExtentType::Data
                && recs[i].header.extent_id == op.extent_id && recs[i].payload == flat.subrange(
                op.dest_offset as int,
                op.dest_offset as int + op.length as int,
            );
        assert((flat + chunk).subrange(
            op.dest_offset as int,
            op.dest_offset as int + op.length as int,
        ) =~= flat.subrange(op.dest_offset as int, op.dest_offset as int + op.length as int));
        assert(recs.push(r)[wi] == recs[wi]);
        assert(0 <= wi < recs.push(r).len() && recs.push(r)[wi].header.extent_type
            == ExtentType::Data && recs.push(r)[wi].header.extent_id == op.extent_id && recs.push(
            r,
        )[wi].payload == (flat + chunk).subrange(
            op.dest_offset as int,
            op.dest_offset as int + op.length as int,
        ));
    }
}

/// Two path fragments joined with a slash; an empty fragment joins to the
/// other alone.
pub open spec fn spec_join_path(a: Seq<u8>, b: Seq<u8>) -> Seq<u8> {
    if a.len() == 0 {
        b
    } else if b.len() == 0 {
        a
    } else {
        a + seq![0x2fu8] + b
    }
}

/// Join two path fragments with a slash.
pub fn join_path(a: &Vec<u8>, b: &Vec<u8>) -> (r: Vec<u8>)
    ensures
        r@ == spec_join_path(a@, b@),
{
    if a.len() == 0 {
        return clone_bytes(b);
    }
    if b.len() == 0 {
        return clone_bytes(a);
    }
    let mut r = clone_bytes(a);
    r.push(0x2f);
    let ghost mid = r@;
    crate::format::push_bytes(&mut r, b);
    proof {
        assert(a@.push(0x2fu8) =~= a@ + seq![0x2fu8]);
        assert(r@ =~= a@ + seq![0x2fu8] + b@);
    }
    r
}

/// The listed form of an entry's path: the directory part, a slash, the
/// name - the separator always written, so a root-level entry lists with a
/// leading slash.
pub open spec fn spec_list_path(a: Seq<u8>, b: Seq<u8>) -> Seq<u8> {
    a + seq![0x2fu8] + b
}

/// Join a directory part and a name for the listing, always with a slash.
pub fn list_path(a: &Vec<u8>, b: &Vec<u8>) -> (r: Vec<u8>)
    ensures
        r@ == spec_list_path(a@, b@),
{
    let mut r = clone_bytes(a);
    r.push(0x2f);
    crate::format::push_bytes(&mut r, b);
    proof {
        assert(a@.push(0x2fu8) =~= a@ + seq![0x2fu8]);
        assert(r@ =~= a@ + seq![0x2fu8] + b@);
    }
    r
}

/// The archive extractor: walks the archive's bytes forward, keeps the
/// extent cache, and logs every record and header it has parsed.
pub struct ArchiveExtractor {
    archive: Vec<u8>,
    pos: usize,
    block_size: u32,
    extent_cache: HashMap<u64, CachedExtent>,
    output_dir: Vec<u8>,
    rec_log: Ghost<Seq<ExtentRecordV>>,
    header_log: Ghost<Seq<FileHeaderV>>,
}

impl ArchiveExtractor {
    /// The archive bytes being extracted.
    pub closed spec fn source(&self) -> Seq<u8> {
        self.archive@
    }

    /// The current read position, from the start of the archive.
    pub closed spec fn spec_pos(&self) -> int {
        self.pos as int
    }

    /// The block size the archive header declared.
    pub closed spec fn spec_block_size(&self) -> u32 {
        self.block_size
    }

    /// The output directory every entry's path is joined under.
    pub closed spec fn spec_output_dir(&self) -> Seq<u8> {
        self.output_dir@
    }

    /// Every extent record parsed so far, in order.
    pub closed spec fn records(&self) -> Seq<ExtentRecordV> {
        self.rec_log@
    }

    /// Every file header parsed so far, in order.
    pub closed spec fn headers(&self) -> Seq<FileHeaderV> {
        self.header_log@
    }

    /// The extent cache as a map from extent id to the bytes it defined.
    pub closed spec fn cache_model(&self) -> Map<u64, Seq<u8>> {
        Map::new(
            |id: u64| self.extent_cache@.contains_key(id),
            |id: u64| self.extent_cache@[id].data@,
        )
    }

    /// The extractor's invariant: the position lies inside the archive,
    /// every data record parsed had a verified checksum, and the cache holds
    /// exactly what the data records walked so far defined.
    pub closed spec fn wf(&self) -> bool {
        &&& self.block_size > 0
        &&& self.pos <= self.archive@.len()
        &&& records_wf(self.rec_log@, self.block_size as int)
        &&& self.cache_model() == cache_after(self.rec_log@, Map::<u64, Seq<u8>>::empty())
    }

    /// A fresh extractor: reads the archive header eagerly and remembers its
    /// block size.
    pub fn new(archive: Vec<u8>, output_dir: Vec<u8>) -> (r: Result<Self, ArchiveError>)
        ensures
            match r {
                Ok(x) => spec_parse_archive_header(archive@) matches Ok((h, n)) && {
                    &&& x.wf()
                    &&& x.source() == archive@
                    &&& x.spec_pos() == n
                    &&& x.spec_block_size() == h.block_size
                    &&& x.spec_output_dir() == output_dir@
                    &&& x.records() == Seq::<ExtentRecordV>::empty()
                    &&& x.headers() == Seq::<FileHeaderV>::empty()
                    &&& x.cache_model() == Map::<u64, Seq<u8>>::empty()
                },
                Err(e) => spec_parse_archive_header(archive@) == Err::<(ArchiveHeader, int),
                    ArchiveError,
                >(e),
            },
    {
        let (header, n) = match ArchiveHeader::read(&archive) {
            Ok(x) => x,
            Err(e) => {
                return Err(e);
            },
        };
        let x = Self {
            archive,
            pos: n,
            block_size: header.block_size,
            extent_cache: HashMap::new(),
            output_dir,
            rec_log: Ghost(Seq::empty()),
            header_log: Ghost(Seq::empty()),
        };
        proof {
            assert(x.cache_model() =~= Map::<u64, Seq<u8>>::empty());
        }
        Ok(x)
    }
}


/// Append `data` to `content`, but never beyond `size` total bytes.
fn append_clipped(content: &mut Vec<u8>, data: &Vec<u8>, size: usize)
    requires
        old(content)@.len() <= size,
    ensures
        final(content)@ == old(content)@ + data@.take(
            if data@.len() <= size - old(content)@.len() {
                data@.len() as int
            } else {
                size - old(content)@.len()
            },
        ),
        final(content)@.len() <= size,
{
    let room = size - content.len();
    let keep = if data.len() < room {
        data.len()
    } else {
        room
    };
    let mut k: usize = 0;
    while k < keep
        invariant
            k <= keep,
            keep <= data@.len(),
            content@ == old(content)@ + data@.take(k as int),
        decreases keep - k,
    {
        proof {
            assert((old(content)@ + data@.take(k as int)).push(data@[k as int]) =~= old(content)@
                + data@.take(k + 1));
        }
        content.push(data[k]);
        k = k + 1;
    }
}

/// Append `count` zero bytes to `content`, but never beyond `size` total
/// bytes.
fn append_zeros_clipped(content: &mut Vec<u8>, count: u64, size: usize)
    requires
        old(content)@.len() <= size,
    ensures
        final(content)@ == old(content)@ + zero_bytes(count as int).take(
            if count <= size - old(content)@.len() {
                count as int
            } else {
                size - old(content)@.len()
            },
        ),
        final(content)@.len() <= size,
{
    let room: usize = size - content.len();
    let keep: usize = if count < room as u64 {
        count as usize
    } else {
        room
    };
    let mut k: usize = 0;
    while k < keep
        invariant
            k <= keep,
            keep <= count,
            content@ == old(content)@ + zero_bytes(count as int).take(k as int),
        decreases keep - k,
    {
        proof {
            assert((old(content)@ + zero_bytes(count as int).take(k as int)).push(0u8) =~= old(
                content,
            )@ + zero_bytes(count as int).take(k + 1));
        }
        content.push(0u8);
        k = k + 1;
    }
}

impl ArchiveExtractor {
    /// Materialize one regular file from its extent records: verify and
    /// place data extents, leave zeros for sparse extents, and resolve
    /// references through the cache, failing on an id no data extent has
    /// defined. Returns the content and the range-clone opportunities.
    #[verifier::rlimit(100)]
    fn extract_file_with_extents(&mut self, output_path: &Vec<u8>, size: usize) -> (r: Result<
        (Vec<u8>, Vec<CloneOp>),
        ArchiveError,
    >)
        requires
            old(self).wf(),
            size > 0,
        ensures
            final(self).wf(),
            final(self).source() == old(self).source(),
            final(self).spec_block_size() == old(self).spec_block_size(),
            final(self).spec_output_dir() == old(self).spec_output_dir(),
            final(self).headers() == old(self).headers(),
            final(self).records().len() >= old(self).records().len(),
            final(self).records().subrange(0, old(self).records().len() as int) == old(
                self,
            ).records(),
            final(self).spec_pos() >= old(self).spec_pos(),
            match r {
                Ok((content, ops)) => ({
                    let nrecs = final(self).records().skip(old(self).records().len() as int);
                    let bs = old(self).spec_block_size() as int;
                    &&& extent_run(
                        old(self).source(),
                        old(self).spec_pos(),
                        final(self).spec_pos(),
                        nrecs,
                        bs,
                    )
                    &&& (reconstruct(nrecs, old(self).cache_model(), bs) matches Some(flat)
                        && flat.len() >= size && content@ == flat.take(size as int))
                    &&& final(self).cache_model() == cache_after(nrecs, old(self).cache_model())
                    &&& (spec_extract_run(
                        old(self).source(),
                        old(self).spec_pos(),
                        old(self).cache_model(),
                        0,
                        size as int,
                        bs,
                    ) matches Ok((flat2, q, c2)) && content@ == flat2.take(size as int) && q
                        == final(self).spec_pos() && c2 == final(self).cache_model()
                        && clone_ops_tied(ops@, flat2, final(self).records()))
                }),
                Err(e) => ({
                    &&& spec_extract_run(
                        old(self).source(),
                        old(self).spec_pos(),
                        old(self).cache_model(),
                        0,
                        size as int,
                        old(self).spec_block_size() as int,
                    ) == Err::<(Seq<u8>, int, Map<u64, Seq<u8>>), ArchiveError>(e)
                    &&& (e matches ArchiveError::ChecksumMismatch(id, stored, got) ==> stored
                        != got)
                }),
            },
    {
        let ghost c0 = old(self).cache_model();
        let ghost old_log = self.rec_log@;
        let ghost start_pos = self.pos as int;
        let ghost bs_g = self.block_size as int;
        let mut content: Vec<u8> = Vec::new();
        let mut ops: Vec<CloneOp> = Vec::new();
        let mut current_offset: u128 = 0;
        let mut flat: Ghost<Seq<u8>> = Ghost(Seq::empty());
        let ghost full = spec_extract_run(self.archive@, start_pos, c0, 0, size as int, bs_g);
        proof {
            assert(self.rec_log@.skip(old_log.len() as int) =~= Seq::<ExtentRecordV>::empty());
            assert(content@ =~= flat@);
            if full is Ok {
                let t = full->Ok_0;
                assert(t.0 =~= Seq::<u8>::empty() + t.0);
            }
        }
        while current_offset < size as u128
            invariant
                self.wf(),
                size > 0,
                bs_g == self.block_size as int,
                self.archive@ == old(self).source(),
                self.block_size == old(self).spec_block_size(),
                self.output_dir@ == old(self).spec_output_dir(),
                self.header_log@ == old(self).headers(),
                start_pos == old(self).spec_pos(),
                self.pos >= start_pos,
                c0 == old(self).cache_model(),
                self.rec_log@.len() >= old_log.len(),
                self.rec_log@.subrange(0, old_log.len() as int) == old_log,
                old_log == old(self).records(),
                extent_run(
                    self.archive@,
                    start_pos,
                    self.pos as int,
                    self.rec_log@.skip(old_log.len() as int),
                    bs_g,
                ),
                reconstruct(self.rec_log@.skip(old_log.len() as int), c0, bs_g) == Some(flat@),
                self.cache_model() == cache_after(self.rec_log@.skip(old_log.len() as int), c0),
                current_offset == flat@.len(),
                content@ == (if flat@.len() <= size {
                    flat@
                } else {
                    flat@.take(size as int)
                }),
                content@.len() <= size,
                full == spec_extract_run(self.archive@, start_pos, c0, 0, size as int, bs_g),
                clone_ops_tied(ops@, flat@, self.rec_log@),
                ({
                    let local = spec_extract_run(
                        self.archive@,
                        self.pos as int,
                        self.cache_model(),
                        current_offset as int,
                        size as int,
                        bs_g,
                    );
                    match (full, local) {
                        (Ok((f, q, c)), Ok((r2, q2, cc2))) => f == flat@ + r2 && q == q2 && c
                            == cc2,
                        (Err(e1), Err(e2)) => e1 == e2,
                        _ => false,
                    }
                }),
            decreases self.archive@.len() - self.pos,
        {
            let ghost pre_cache = self.cache_model();
            let ghost off_old = current_offset as int;
            let ghost flat_old = flat@;
            let (eh, n) = match ExtentHeader::read(&self.archive, self.pos, self.block_size) {
                Ok(x) => x,
                Err(e) => {
                    proof {
                        let local = spec_extract_run(
                            self.archive@,
                            self.pos as int,
                            self.cache_model(),
                            current_offset as int,
                            size as int,
                            bs_g,
                        );
                        assert(local == Err::<(Seq<u8>, int, Map<u64, Seq<u8>>), ArchiveError>(e));
                        assert(full is Err);
                        assert(full == Err::<(Seq<u8>, int, Map<u64, Seq<u8>>), ArchiveError>(e));
                    }
                    return Err(e);
                },
            };
            let hdr_end = self.pos + n;
            let ghost pre = self.rec_log@;
            let ghost pre_pos = self.pos as int;
            match eh.extent_type {
                ExtentType::Data => {
                    proof {
                        assert((eh.length_in_blocks as int) * (self.block_size as int)
                            <= 0xffffffff * 0xffffffff) by (nonlinear_arith)
                            requires
                                (eh.length_in_blocks as int) <= 0xffffffff,
                                (self.block_size as int) <= 0xffffffff,
                        ;
                    }
                    let data_size: u64 = (eh.length_in_blocks as u64) * (self.block_size as u64);
                    if ((self.archive.len() - hdr_end) as u64) < data_size {
                        proof {
                            let local = spec_extract_run(
                                self.archive@,
                                pre_pos,
                                pre_cache,
                                off_old,
                                size as int,
                                bs_g,
                            );
                            assert(local == Err::<(Seq<u8>, int, Map<u64, Seq<u8>>), ArchiveError>(
                                ArchiveError::TruncatedRecord,
                            ));
                            assert(full is Err);
                            assert(full == Err::<(Seq<u8>, int, Map<u64, Seq<u8>>), ArchiveError>(
                                ArchiveError::TruncatedRecord,
                            ));
                        }
                        return Err(ArchiveError::TruncatedRecord);
                    }
                    let dsz = data_size as usize;
                    let data = copy_range(&self.archive, hdr_end, dsz);
                    let got = crc32(&data);
                    if got != eh.checksum {
                        proof {
                            let local = spec_extract_run(
                                self.archive@,
                                pre_pos,
                                pre_cache,
                                off_old,
                                size as int,
                                bs_g,
                            );
                            assert(local == Err::<(Seq<u8>, int, Map<u64, Seq<u8>>), ArchiveError>(
                                ArchiveError::ChecksumMismatch(eh.extent_id, eh.checksum, got),
                            ));
                            assert(full is Err);
                            assert(full == Err::<(Seq<u8>, int, Map<u64, Seq<u8>>), ArchiveError>(
                                ArchiveError::ChecksumMismatch(eh.extent_id, eh.checksum, got),
                            ));
                        }
                        return Err(ArchiveError::ChecksumMismatch(eh.extent_id, eh.checksum, got));
                    }
                    append_clipped(&mut content, &data, size);
                    let loc_off: u64 = current_offset as u64;
                    let ghost dview = data@;
                    self.extent_cache.insert(
                        eh.extent_id,
                        CachedExtent {
                            extent_id: eh.extent_id,
                            data,
                            file_location: Some((clone_bytes(output_path), loc_off)),
                        },
                    );
                    self.pos = hdr_end + dsz;
                    current_offset = current_offset + data_size as u128;
                    self.rec_log = Ghost(pre.push(ExtentRecordV { header: eh, payload: dview }));
                    proof {
                        let r = ExtentRecordV { header: eh, payload: dview };
                        let nrecs_pre = pre.skip(old_log.len() as int);
                        lemma_extent_run_snoc(
                            self.archive@,
                            start_pos,
                            pre_pos,
                            nrecs_pre,
                            r,
                            n as int,
                            bs_g,
                        );
                        lemma_reconstruct_push(nrecs_pre, r, c0, bs_g, flat@);
                        lemma_cache_after_push(nrecs_pre, r, c0);
                        lemma_cache_after_push(pre, r, Map::<u64, Seq<u8>>::empty());
                        assert(self.rec_log@.skip(old_log.len() as int) =~= nrecs_pre.push(r));
                        assert(self.rec_log@.subrange(0, old_log.len() as int) =~= old_log);
                        assert(self.cache_model() =~= cache_after(
                            pre,
                            Map::<u64, Seq<u8>>::empty(),
                        ).insert(eh.extent_id, dview));
                        assert forall|i: int| 0 <= i < self.rec_log@.len() implies record_wf(
                            #[trigger] self.rec_log@[i],
                            bs_g,
                        ) by {
                            if i < pre.len() {
                                assert(record_wf(pre[i], bs_g));
                            } else {
                                assert(self.rec_log@[i] == r);
                                assert(dview.len() == eh.length_in_blocks * bs_g);
                            }
                        }
                    }
                    flat = Ghost(flat@ + dview);
                    proof {
                        assert(content@ == (if flat@.len() <= size {
                            flat@
                        } else {
                            flat@.take(size as int)
                        })) by {
                            if flat@.len() <= size {
                                assert(content@ =~= flat@);
                            } else {
                                assert(content@ =~= flat@.take(size as int));
                            }
                        }
                        assert(self.cache_model() =~= pre_cache.insert(eh.extent_id, dview));
                        let local_new = spec_extract_run(
                            self.archive@,
                            self.pos as int,
                            self.cache_model(),
                            current_offset as int,
                            size as int,
                            bs_g,
                        );
                        let local_old = spec_extract_run(
                            self.archive@,
                            pre_pos,
                            pre_cache,
                            off_old,
                            size as int,
                            bs_g,
                        );
                        assert(local_old == (match local_new {
                            Ok((rest, q, c)) => Ok::<(Seq<u8>, int, Map<u64, Seq<u8>>),
                                ArchiveError,
                            >((dview + rest, q, c)),
                            Err(e) => Err::<(Seq<u8>, int, Map<u64, Seq<u8>>), ArchiveError>(e),
                        }));
                        if full is Ok {
                            let tt = full->Ok_0;
                            let uu = local_new->Ok_0;
                            assert(tt.0 == flat_old + (dview + uu.0));
                            assert(flat_old + (dview + uu.0) =~= (flat_old + dview) + uu.0);
                        }
                        lemma_clone_ops_extend(
                            ops@,
                            flat_old,
                            pre,
                            dview,
                            ExtentRecordV { header: eh, payload: dview },
                        );
                    }
                },
                ExtentType::Sparse => {
                    proof {
                        assert((eh.length_in_blocks as int) * (self.block_size as int)
                            <= 0xffffffff * 0xffffffff) by (nonlinear_arith)
                            requires
                                (eh.length_in_blocks as int) <= 0xffffffff,
                                (self.block_size as int) <= 0xffffffff,
                        ;
                    }
                    let data_size: u64 = (eh.length_in_blocks as u64) * (self.block_size as u64);
                    append_zeros_clipped(&mut content, data_size, size);
                    self.pos = hdr_end;
                    current_offset = current_offset + data_size as u128;
                    self.rec_log = Ghost(
                        pre.push(ExtentRecordV { header: eh, payload: Seq::empty() }),
                    );
                    proof {
                        let r = ExtentRecordV { header: eh, payload: Seq::<u8>::empty() };
                        let nrecs_pre = pre.skip(old_log.len() as int);
                        assert(r.payload =~= self.archive@.subrange(pre_pos + n, pre_pos + n));
                        lemma_extent_run_snoc(
                            self.archive@,
                            start_pos,
                            pre_pos,
                            nrecs_pre,
                            r,
                            n as int,
                            bs_g,
                        );
                        lemma_reconstruct_push(nrecs_pre, r, c0, bs_g, flat@);
                        lemma_cache_after_push(nrecs_pre, r, c0);
                        lemma_cache_after_push(pre, r, Map::<u64, Seq<u8>>::empty());
                        assert(self.rec_log@.skip(old_log.len() as int) =~= nrecs_pre.push(r));
                        assert(self.rec_log@.subrange(0, old_log.len() as int) =~= old_log);
                        assert forall|i: int| 0 <= i < self.rec_log@.len() implies record_wf(
                            #[trigger] self.rec_log@[i],
                            bs_g,
                        ) by {
                            if i < pre.len() {
                                assert(record_wf(pre[i], bs_g));
                            }
                        }
                    }
                    flat = Ghost(flat@ + zero_bytes(eh.length_in_blocks * bs_g));
                    proof {
                        assert(zero_bytes(eh.length_in_blocks * bs_g).len() == data_size);
                        assert(content@ == (if flat@.len() <= size {
                            flat@
                        } else {
                            flat@.take(size as int)
                        })) by {
                            if flat@.len() <= size {
                                assert(content@ =~= flat@);
                            } else {
                                assert(content@ =~= flat@.take(size as int));
                            }
                        }
                        let local_new = spec_extract_run(
                            self.archive@,
                            self.pos as int,
                            self.cache_model(),
                            current_offset as int,
                            size as int,
                            bs_g,
                        );
                        let local_old = spec_extract_run(
                            self.archive@,
                            pre_pos,
                            pre_cache,
                            off_old,
                            size as int,
                            bs_g,
                        );
                        assert(local_old == (match local_new {
                            Ok((rest, q, c)) => Ok::<(Seq<u8>, int, Map<u64, Seq<u8>>),
                                ArchiveError,
                            >((zero_bytes((eh.length_in_blocks as int) * bs_g) + rest, q, c)),
                            Err(e) => Err::<(Seq<u8>, int, Map<u64, Seq<u8>>), ArchiveError>(e),
                        }));
                        if full is Ok {
                            let tt = full->Ok_0;
                            let uu = local_new->Ok_0;
                            let zb = zero_bytes((eh.length_in_blocks as int) * bs_g);
                            assert(tt.0 == flat_old + (zb + uu.0));
                            assert(flat_old + (zb + uu.0) =~= (flat_old + zb) + uu.0);
                        }
                        lemma_clone_ops_extend(
                            ops@,
                            flat_old,
                            pre,
                            zero_bytes((eh.length_in_blocks as int) * bs_g),
                            ExtentRecordV { header: eh, payload: Seq::<u8>::empty() },
                        );
                    }
                },
                ExtentType::Reference => {
                    let looked = match self.extent_cache.get(&eh.extent_id) {
                        Some(ce) => Some(
                            (
                                clone_bytes(&ce.data),
                                match &ce.file_location {
                                    Some((p, o)) => Some((clone_bytes(p), *o)),
                                    None => None,
                                },
                            ),
                        ),
                        None => None,
                    };
                    let (data, location) = match looked {
                        Some(x) => x,
                        None => {
                            proof {
                                assert(!pre_cache.contains_key(eh.extent_id));
                                let local = spec_extract_run(
                                    self.archive@,
                                    pre_pos,
                                    pre_cache,
                                    off_old,
                                    size as int,
                                    bs_g,
                                );
                                assert(local == Err::<
                                    (Seq<u8>, int, Map<u64, Seq<u8>>),
                                    ArchiveError,
                                >(ArchiveError::DanglingReference(eh.extent_id)));
                                assert(full is Err);
                                assert(full == Err::<
                                    (Seq<u8>, int, Map<u64, Seq<u8>>),
                                    ArchiveError,
                                >(ArchiveError::DanglingReference(eh.extent_id)));
                            }
                            return Err(ArchiveError::DanglingReference(eh.extent_id));
                        },
                    };
                    append_clipped(&mut content, &data, size);
                    let ghost ops_old = ops@;
                    match location {
                        Some((src_path, src_off)) => {
                            ops.push(
                                CloneOp {
                                    extent_id: eh.extent_id,
                                    source_path: src_path,
                                    source_offset: src_off,
                                    dest_offset: current_offset as u64,
                                    length: data.len() as u64,
                                },
                            );
                        },
                        None => {},
                    }
                    self.pos = hdr_end;
                    current_offset = current_offset + data.len() as u128;
                    let ghost dview = data@;
                    self.rec_log = Ghost(
                        pre.push(ExtentRecordV { header: eh, payload: Seq::empty() }),
                    );
                    proof {
                        let r = ExtentRecordV { header: eh, payload: Seq::<u8>::empty() };
                        let nrecs_pre = pre.skip(old_log.len() as int);
                        assert(r.payload =~= self.archive@.subrange(pre_pos + n, pre_pos + n));
                        lemma_extent_run_snoc(
                            self.archive@,
                            start_pos,
                            pre_pos,
                            nrecs_pre,
                            r,
                            n as int,
                            bs_g,
                        );
                        assert(cache_after(nrecs_pre, c0).contains_key(eh.extent_id));
                        assert(cache_after(nrecs_pre, c0)[eh.extent_id] == dview);
                        lemma_reconstruct_push(nrecs_pre, r, c0, bs_g, flat@);
                        lemma_cache_after_push(nrecs_pre, r, c0);
                        lemma_cache_after_push(pre, r, Map::<u64, Seq<u8>>::empty());
                        assert(self.rec_log@.skip(old_log.len() as int) =~= nrecs_pre.push(r));
                        assert(self.rec_log@.subrange(0, old_log.len() as int) =~= old_log);
                        assert forall|i: int| 0 <= i < self.rec_log@.len() implies record_wf(
                            #[trigger] self.rec_log@[i],
                            bs_g,
                        ) by {
                            if i < pre.len() {
                                assert(record_wf(pre[i], bs_g));
                            }
                        }
                    }
                    flat = Ghost(flat@ + dview);
                    proof {
                        assert(content@ == (if flat@.len() <= size {
                            flat@
                        } else {
                            flat@.take(size as int)
                        })) by {
                            if flat@.len() <= size {
                                assert(content@ =~= flat@);
                            } else {
                                assert(content@ =~= flat@.take(size as int));
                            }
                        }
                        assert(pre_cache.contains_key(eh.extent_id));
                        assert(pre_cache[eh.extent_id] == dview);
                        let local_new = spec_extract_run(
                            self.archive@,
                            self.pos as int,
                            self.cache_model(),
                            current_offset as int,
                            size as int,
                            bs_g,
                        );
                        let local_old = spec_extract_run(
                            self.archive@,
                            pre_pos,
                            pre_cache,
                            off_old,
                            size as int,
                            bs_g,
                        );
                        assert(local_old == (match local_new {
                            Ok((rest, q, c)) => Ok::<(Seq<u8>, int, Map<u64, Seq<u8>>),
                                ArchiveError,
                            >((dview + rest, q, c)),
                            Err(e) => Err::<(Seq<u8>, int, Map<u64, Seq<u8>>), ArchiveError>(e),
                        }));
                        if full is Ok {
                            let tt = full->Ok_0;
                            let uu = local_new->Ok_0;
                            assert(tt.0 == flat_old + (dview + uu.0));
                            assert(flat_old + (dview + uu.0) =~= (flat_old + dview) + uu.0);
                        }
                        lemma_cache_after_member(pre, Map::<u64, Seq<u8>>::empty(), eh.extent_id);
                        let wi = choose|i: int|
                            0 <= i < pre.len() && (#[trigger] pre[i]).header.extent_type
                                == ExtentType::Data && pre[i].header.extent_id == eh.extent_id
                                && pre[i].payload == cache_after(
                                pre,
                                Map::<u64, Seq<u8>>::empty(),
                            )[eh.extent_id];
                        assert(pre[wi].payload == dview);
                        assert forall|k: int| 0 <= k < ops@.len() implies ({
                            let op = #[trigger] ops@[k];
                            &&& op.dest_offset + op.length <= flat@.len()
                            &&& exists|i: int|
                                0 <= i < self.rec_log@.len() && (
                                #[trigger] self.rec_log@[i]).header.extent_type
                                    == ExtentType::Data && self.rec_log@[i].header.extent_id
                                    == op.extent_id && self.rec_log@[i].payload
                                    == flat@.subrange(
                                    op.dest_offset as int,
                                    op.dest_offset as int + op.length as int,
                                )
                        }) by {
                            lemma_clone_ops_extend(
                                ops_old,
                                flat_old,
                                pre,
                                dview,
                                ExtentRecordV { header: eh, payload: Seq::<u8>::empty() },
                            );
                            if k < ops_old.len() {
                                assert(ops@[k] == ops_old[k]);
                            } else {
                                let op = ops@[k];
                                assert(op.extent_id == eh.extent_id && op.dest_offset == flat_old.len()
                                    && op.length == dview.len());
                                assert(flat@.subrange(
                                    op.dest_offset as int,
                                    op.dest_offset as int + op.length as int,
                                ) =~= dview);
                                assert(self.rec_log@[wi] == pre[wi]);
                                assert(0 <= wi < self.rec_log@.len()
                                    && self.rec_log@[wi].header.extent_type == ExtentType::Data
                                    && self.rec_log@[wi].header.extent_id == op.extent_id
                                    && self.rec_log@[wi].payload == flat@.subrange(
                                    op.dest_offset as int,
                                    op.dest_offset as int + op.length as int,
                                ));
                            }
                        }
                    }
                },
            }
        }
        proof {
            if flat@.len() <= size {
                assert(flat@.len() == size);
                assert(content@ =~= flat@.take(size as int));
            }
            let local = spec_extract_run(
                self.archive@,
                self.pos as int,
                self.cache_model(),
                current_offset as int,
                size as int,
                bs_g,
            );
            assert(local == Ok::<(Seq<u8>, int, Map<u64, Seq<u8>>), ArchiveError>(
                (Seq::<u8>::empty(), self.pos as int, self.cache_model()),
            ));
            assert(full is Ok);
            let t = full->Ok_0;
            assert(t.0 =~= flat@ + Seq::<u8>::empty());
            assert(t.0 == flat@);
        }
        Ok((content, ops))
    }
}


/// One step of the archive walk: the header parsed at `pos`, the position
/// after the whole file record, and the extent cache afterwards - or the
/// end of the archive, or the error the input forces. A recorded file size
/// beyond what can be materialized in memory is a truncated record.
pub open spec fn spec_extract_next(
    s: Seq<u8>,
    pos: int,
    cache: Map<u64, Seq<u8>>,
    bs: int,
) -> Result<Option<(FileHeaderV, int, Map<u64, Seq<u8>>)>, ArchiveError> {
    if pos == s.len() {
        Ok(None)
    } else {
        match spec_parse_file_header(s, pos, bs) {
            Err(e) => Err(e),
            Ok((hv, n)) => {
                if hv.file_type == FileType::Regular && hv.inline_data.len() == 0 && hv.file_size
                    > 0 {
                    if hv.file_size > usize::MAX as u128 {
                        Err(ArchiveError::TruncatedRecord)
                    } else {
                        match spec_extract_run(s, pos + n, cache, 0, hv.file_size as int, bs) {
                            Err(e) => Err(e),
                            Ok((flat, q, c)) => Ok(Some((hv, q, c))),
                        }
                    }
                } else {
                    Ok(Some((hv, pos + n, cache)))
                }
            },
        }
    }
}

/// A successful step of the archive walk moves strictly forward, and ends
/// inside the input.
proof fn lemma_spec_extract_next_advances(s: Seq<u8>, pos: int, cache: Map<u64, Seq<u8>>, bs: int)
    requires
        bs > 0,
        0 <= pos <= s.len(),
    ensures
        spec_extract_next(s, pos, cache, bs) matches Ok(Some((hv, q, c))) ==> pos < q <= s.len(),
{
    if pos < s.len() {
        crate::format::lemma_spec_parse_file_header_advances(s, pos, bs);
        match spec_parse_file_header(s, pos, bs) {
            Ok((hv, n)) => {
                if hv.file_type == FileType::Regular && hv.inline_data.len() == 0 && hv.file_size
                    > 0 && hv.file_size <= usize::MAX as u128 {
                    lemma_spec_extract_run_advances(s, pos + n, cache, 0, hv.file_size as int, bs);
                }
            },
            Err(_) => {},
        }
    }
}

/// The whole archive walk: every header in order - or the error the input
/// forces at the position it forces it.
pub open spec fn spec_extract_all(s: Seq<u8>, pos: int, cache: Map<u64, Seq<u8>>, bs: int) -> Result<
    Seq<FileHeaderV>,
    ArchiveError,
>
    decreases s.len() - pos
        when bs > 0 && 0 <= pos <= s.len()
        via spec_extract_all_decreases
{
    match spec_extract_next(s, pos, cache, bs) {
        Err(e) => Err(e),
        Ok(None) => Ok(Seq::empty()),
        Ok(Some((hv, q, c))) => match spec_extract_all(s, q, c, bs) {
            Err(e) => Err(e),
            Ok(tail) => Ok(seq![hv] + tail),
        },
    }
}

#[via_fn]
proof fn spec_extract_all_decreases(s: Seq<u8>, pos: int, cache: Map<u64, Seq<u8>>, bs: int) {
    lemma_spec_extract_next_advances(s, pos, cache, bs);
}

/// The whole listing walk: every header in order, data payloads sought
/// past - or the error the input forces.
pub open spec fn spec_list_all(s: Seq<u8>, pos: int, bs: int) -> Result<
    Seq<FileHeaderV>,
    ArchiveError,
>
    decreases s.len() - pos
        when bs > 0 && 0 <= pos <= s.len()
        via spec_list_all_decreases
{
    if pos == s.len() {
        Ok(Seq::empty())
    } else {
        match spec_parse_file_header(s, pos, bs) {
            Err(e) => Err(e),
            Ok((hv, n)) => {
                if hv.file_type == FileType::Regular && hv.inline_data.len() == 0 && hv.file_size
                    > 0 {
                    if hv.file_size > usize::MAX as u128 {
                        Err(ArchiveError::TruncatedRecord)
                    } else {
                        match spec_skip_run(s, pos + n, 0, hv.file_size as int, bs) {
                            Err(e) => Err(e),
                            Ok(q) => match spec_list_all(s, q, bs) {
                                Err(e) => Err(e),
                                Ok(tail) => Ok(seq![hv] + tail),
                            },
                        }
                    }
                } else {
                    match spec_list_all(s, pos + n, bs) {
                        Err(e) => Err(e),
                        Ok(tail) => Ok(seq![hv] + tail),
                    }
                }
            },
        }
    }
}

#[via_fn]
proof fn spec_list_all_decreases(s: Seq<u8>, pos: int, bs: int) {
    if 0 <= pos && pos < s.len() {
        crate::format::lemma_spec_parse_file_header_advances(s, pos, bs);
        match spec_parse_file_header(s, pos, bs) {
            Ok((hv, n)) => {
                if hv.file_type == FileType::Regular && hv.inline_data.len() == 0 && hv.file_size
                    > 0 && hv.file_size <= usize::MAX as u128 {
                    lemma_spec_skip_run_advances(s, pos + n, 0, hv.file_size as int, bs);
                }
            },
            Err(_) => {},
        }
    }
}

/// The span in bytes of an extent of `lb` blocks./// The span in bytes of an extent of `lb` blocks.
fn extent_span(lb: u32, bs: u32) -> (r: u64)
    ensures
        r as int == (lb as int) * (bs as int),
{
    proof {
        assert((lb as int) * (bs as int) <= 0xffffffff * 0xffffffff) by (nonlinear_arith)
            requires
                (lb as int) <= 0xffffffff,
                (bs as int) <= 0xffffffff,
        ;
    }
    (lb as u64) * (bs as u64)
}

impl ArchiveExtractor {
    /// Walk one file's extent records without materializing anything: skip
    /// data payloads, count sparse and reference spans. Mirrors
    /// [`spec_skip_run`] exactly.
    fn skip_extents(&mut self, size: usize) -> (r: Result<(), ArchiveError>)
        requires
            old(self).wf(),
            size > 0,
        ensures
            final(self).wf(),
            final(self).source() == old(self).source(),
            final(self).spec_block_size() == old(self).spec_block_size(),
            final(self).spec_output_dir() == old(self).spec_output_dir(),
            final(self).headers() == old(self).headers(),
            final(self).records() == old(self).records(),
            final(self).cache_model() == old(self).cache_model(),
            final(self).spec_pos() >= old(self).spec_pos(),
            match r {
                Ok(()) => spec_skip_run(
                    old(self).source(),
                    old(self).spec_pos(),
                    0,
                    size as int,
                    old(self).spec_block_size() as int,
                ) == Ok::<int, ArchiveError>(final(self).spec_pos()),
                Err(e) => spec_skip_run(
                    old(self).source(),
                    old(self).spec_pos(),
                    0,
                    size as int,
                    old(self).spec_block_size() as int,
                ) == Err::<int, ArchiveError>(e),
            },
    {
        let ghost bs_g = self.block_size as int;
        let ghost sfull = spec_skip_run(self.archive@, self.pos as int, 0, size as int, bs_g);
        let mut current_offset: u128 = 0;
        while current_offset < size as u128
            invariant
                self.wf(),
                self.archive@ == old(self).source(),
                self.block_size == old(self).spec_block_size(),
                self.output_dir@ == old(self).spec_output_dir(),
                self.header_log@ == old(self).headers(),
                self.rec_log@ == old(self).records(),
                self.cache_model() == old(self).cache_model(),
                self.pos >= old(self).spec_pos(),
                size > 0,
                bs_g == self.block_size as int,
                sfull == spec_skip_run(
                    old(self).source(),
                    old(self).spec_pos(),
                    0,
                    size as int,
                    bs_g,
                ),
                sfull == spec_skip_run(
                    self.archive@,
                    self.pos as int,
                    current_offset as int,
                    size as int,
                    bs_g,
                ),
            decreases self.archive@.len() - self.pos,
        {
            let ghost pre_pos = self.pos as int;
            let ghost off_old = current_offset as int;
            let (eh, n) = match ExtentHeader::read(&self.archive, self.pos, self.block_size) {
                Ok(x) => x,
                Err(e) => {
                    proof {
                        assert(spec_skip_run(self.archive@, pre_pos, off_old, size as int, bs_g)
                            == Err::<int, ArchiveError>(e));
                    }
                    return Err(e);
                },
            };
            let hdr_end = self.pos + n;
            let data_size: u64 = extent_span(eh.length_in_blocks, self.block_size);
            match eh.extent_type {
                ExtentType::Data => {
                    if ((self.archive.len() - hdr_end) as u64) < data_size {
                        proof {
                            assert(spec_skip_run(
                                self.archive@,
                                pre_pos,
                                off_old,
                                size as int,
                                bs_g,
                            ) == Err::<int, ArchiveError>(ArchiveError::TruncatedRecord));
                        }
                        return Err(ArchiveError::TruncatedRecord);
                    }
                    self.pos = hdr_end + data_size as usize;
                },
                ExtentType::Sparse => {
                    self.pos = hdr_end;
                },
                ExtentType::Reference => {
                    self.pos = hdr_end;
                },
            }
            current_offset = current_offset + data_size as u128;
            proof {
                assert(spec_skip_run(self.archive@, pre_pos, off_old, size as int, bs_g)
                    == spec_skip_run(
                    self.archive@,
                    self.pos as int,
                    current_offset as int,
                    size as int,
                    bs_g,
                ));
            }
        }
        proof {
            assert(spec_skip_run(
                self.archive@,
                self.pos as int,
                current_offset as int,
                size as int,
                bs_g,
            ) == Ok::<int, ArchiveError>(self.pos as int));
        }
        Ok(())
    }

    /// Read the next file record: its header, output path, content and
    /// clone opportunities. An input that ends exactly at a file-record
    /// boundary is the end of the archive, reported as no entry; an input
    /// that ends anywhere else is a truncated record.
    ///
    /// A recorded file size too large to materialize in memory is reported
    /// as a truncated record, since the input cannot deliver it.
    #[verifier::rlimit(100)]
    pub fn extract_next_file(&mut self) -> (r: Result<Option<ExtractedEntry>, ArchiveError>)
        requires
            old(self).wf(),
        ensures
            final(self).wf(),
            final(self).source() == old(self).source(),
            final(self).spec_block_size() == old(self).spec_block_size(),
            final(self).spec_output_dir() == old(self).spec_output_dir(),
            final(self).records().len() >= old(self).records().len(),
            final(self).records().subrange(0, old(self).records().len() as int) == old(
                self,
            ).records(),
            match r {
                Ok(None) => old(self).spec_pos() == old(self).source().len() && *final(self)
                    == *old(self) && spec_extract_next(
                    old(self).source(),
                    old(self).spec_pos(),
                    old(self).cache_model(),
                    old(self).spec_block_size() as int,
                ) == Ok::<Option<(FileHeaderV, int, Map<u64, Seq<u8>>)>, ArchiveError>(None),
                Ok(Some(entry)) => ({
                    let src = old(self).source();
                    let bs = old(self).spec_block_size() as int;
                    let p0 = old(self).spec_pos();
                    &&& final(self).spec_pos() > p0
                    &&& spec_parse_file_header(src, p0, bs) matches Ok((hv, n)) && {
                        &&& entry.header@ == hv
                        &&& final(self).headers() == old(self).headers().push(hv)
                        &&& entry.output_path@ == spec_join_path(
                            spec_join_path(old(self).spec_output_dir(), hv.file_path),
                            hv.file_name,
                        )
                        &&& (hv.file_type == FileType::Regular && hv.inline_data.len() > 0 ==> (
                        entry.content is Some && (entry.content->Some_0)@ == hv.inline_data && final(self).spec_pos() == p0 + n && final(self).records() == old(self).records()))
                        &&& (hv.file_type == FileType::Regular && hv.inline_data.len() == 0
                            && hv.file_size == 0 ==> (entry.content is Some
                            && (entry.content->Some_0)@ == Seq::<u8>::empty() && final(self).spec_pos() == p0 + n && final(self).records() == old(self).records()))
                        &&& (hv.file_type == FileType::Regular && hv.inline_data.len() == 0
                            && hv.file_size > 0 ==> ({
                            let nrecs = final(self).records().skip(
                                old(self).records().len() as int,
                            );
                            &&& extent_run(src, p0 + n, final(self).spec_pos(), nrecs, bs)
                            &&& entry.content is Some
                            &&& reconstruct(nrecs, old(self).cache_model(), bs) is Some
                            &&& (reconstruct(nrecs, old(self).cache_model(), bs)->Some_0).len()
                                >= hv.file_size
                            &&& (entry.content->Some_0)@ == (reconstruct(
                                nrecs,
                                old(self).cache_model(),
                                bs,
                            )->Some_0).take(hv.file_size as int)
                            &&& final(self).cache_model() == cache_after(
                                nrecs,
                                old(self).cache_model(),
                            )
                            &&& (spec_extract_run(
                                src,
                                p0 + n,
                                old(self).cache_model(),
                                0,
                                hv.file_size as int,
                                bs,
                            ) matches Ok((flat3, q3, c3)) ==> clone_ops_tied(
                                entry.reflink_ops@,
                                flat3,
                                final(self).records(),
                            ))
                        }))
                        &&& (hv.file_type != FileType::Regular ==> entry.content is None && final(self).spec_pos() == p0 + n && final(self).records() == old(self).records())
                        &&& (spec_extract_next(src, p0, old(self).cache_model(), bs) matches
                            Ok(step) && step matches Some((hv2, q2, c2)) && hv2 == hv && q2
                            == final(self).spec_pos() && c2 == final(self).cache_model())
                    }
                }),
                Err(e) => spec_extract_next(
                    old(self).source(),
                    old(self).spec_pos(),
                    old(self).cache_model(),
                    old(self).spec_block_size() as int,
                ) == Err::<Option<(FileHeaderV, int, Map<u64, Seq<u8>>)>, ArchiveError>(e),
            },
    {
        if self.pos == self.archive.len() {
            return Ok(None);
        }
        let p0 = self.pos;
        let (fh, n) = match FileHeader::read(&self.archive, p0, self.block_size) {
            Ok(x) => x,
            Err(e) => {
                return Err(e);
            },
        };
        self.pos = p0 + n;
        let ghost hv = fh@;
        self.header_log = Ghost(self.header_log@.push(hv));
        let dir_and_path = join_path(&self.output_dir, &fh.file_path);
        let output_path = join_path(&dir_and_path, &fh.file_name);
        let mut content: Option<Vec<u8>> = None;
        let mut reflink_ops: Vec<CloneOp> = Vec::new();
        if matches!(fh.file_type, FileType::Regular) {
            if fh.inline_data.len() > 0 {
                content = Some(clone_bytes(&fh.inline_data));
            } else if fh.file_size > 0 {
                if fh.file_size > usize::MAX as u128 {
                    return Err(ArchiveError::TruncatedRecord);
                }
                let size = fh.file_size as usize;
                let (c, ops) = match self.extract_file_with_extents(&output_path, size) {
                    Ok(x) => x,
                    Err(e) => {
                        return Err(e);
                    },
                };
                content = Some(c);
                reflink_ops = ops;
            } else {
                content = Some(Vec::new());
            }
        }
        Ok(Some(ExtractedEntry { header: fh, output_path, content, reflink_ops }))
    }

    /// Extract every file record until the end of the archive. Mirrors
    /// [`spec_extract_all`] exactly: the returned entries carry the parsed
    /// headers in order, and any error is the one the input forces.
    #[verifier::rlimit(100)]
    pub fn extract_all(&mut self) -> (r: Result<Vec<ExtractedEntry>, ArchiveError>)
        requires
            old(self).wf(),
        ensures
            final(self).wf(),
            final(self).source() == old(self).source(),
            final(self).spec_block_size() == old(self).spec_block_size(),
            final(self).spec_output_dir() == old(self).spec_output_dir(),
            match r {
                Ok(entries) => ({
                    &&& final(self).spec_pos() == final(self).source().len()
                    &&& final(self).headers().len() == old(self).headers().len() + entries.len()
                    &&& final(self).headers().subrange(0, old(self).headers().len() as int)
                        == old(self).headers()
                    &&& forall|k: int|
                        0 <= k < entries.len() ==> (#[trigger] entries[k]).header@ == final(self).headers()[old(self).headers().len() + k]
                    &&& (spec_extract_all(
                        old(self).source(),
                        old(self).spec_pos(),
                        old(self).cache_model(),
                        old(self).spec_block_size() as int,
                    ) matches Ok(hdrs) && hdrs.len() == entries.len() && final(self).headers()
                        == old(self).headers() + hdrs)
                }),
                Err(e) => spec_extract_all(
                    old(self).source(),
                    old(self).spec_pos(),
                    old(self).cache_model(),
                    old(self).spec_block_size() as int,
                ) == Err::<Seq<FileHeaderV>, ArchiveError>(e),
            },
    {
        let ghost old_hlen = self.header_log@.len();
        let ghost bs_g = self.block_size as int;
        let ghost allfull = spec_extract_all(
            self.archive@,
            self.pos as int,
            self.cache_model(),
            bs_g,
        );
        let mut entries: Vec<ExtractedEntry> = Vec::new();
        proof {
            assert(self.header_log@.skip(old_hlen as int) =~= Seq::<FileHeaderV>::empty());
            if allfull is Ok {
                let h = allfull->Ok_0;
                assert(h =~= Seq::<FileHeaderV>::empty() + h);
            }
        }
        while self.pos < self.archive.len()
            invariant
                self.wf(),
                self.archive@ == old(self).source(),
                self.block_size == old(self).spec_block_size(),
                self.output_dir@ == old(self).spec_output_dir(),
                bs_g == self.block_size as int,
                old_hlen == old(self).headers().len(),
                self.header_log@.len() == old_hlen + entries.len(),
                self.header_log@.subrange(0, old_hlen as int) == old(self).headers(),
                forall|k: int|
                    0 <= k < entries.len() ==> (#[trigger] entries[k]).header@
                        == self.header_log@[old_hlen + k],
                allfull == spec_extract_all(
                    old(self).source(),
                    old(self).spec_pos(),
                    old(self).cache_model(),
                    bs_g,
                ),
                ({
                    let rem = spec_extract_all(
                        self.archive@,
                        self.pos as int,
                        self.cache_model(),
                        bs_g,
                    );
                    let done = self.header_log@.skip(old_hlen as int);
                    match (allfull, rem) {
                        (Ok(h), Ok(hr)) => h == done + hr,
                        (Err(e1), Err(e2)) => e1 == e2,
                        _ => false,
                    }
                }),
            decreases self.archive@.len() - self.pos,
        {
            let ghost pre_h = self.header_log@;
            let ghost pre_pos = self.pos as int;
            let ghost pre_cache = self.cache_model();
            match self.extract_next_file() {
                Ok(Some(entry)) => {
                    proof {
                        assert(self.header_log@.subrange(0, old_hlen as int) =~= pre_h.subrange(
                            0,
                            old_hlen as int,
                        ));
                        let rem_old = spec_extract_all(self.archive@, pre_pos, pre_cache, bs_g);
                        let rem_new = spec_extract_all(
                            self.archive@,
                            self.pos as int,
                            self.cache_model(),
                            bs_g,
                        );
                        let hv = entry.header@;
                        assert(rem_old == (match rem_new {
                            Ok(tail) => Ok::<Seq<FileHeaderV>, ArchiveError>(seq![hv] + tail),
                            Err(e) => Err::<Seq<FileHeaderV>, ArchiveError>(e),
                        }));
                        let done_old = pre_h.skip(old_hlen as int);
                        let done_new = self.header_log@.skip(old_hlen as int);
                        assert(done_new =~= done_old.push(hv));
                        if allfull is Ok {
                            let h = allfull->Ok_0;
                            let tail = rem_new->Ok_0;
                            assert(h == done_old + (seq![hv] + tail));
                            assert(done_old + (seq![hv] + tail) =~= done_old.push(hv) + tail);
                        }
                    }
                    entries.push(entry);
                },
                Ok(None) => {
                    proof {
                        assert(false);
                    }
                },
                Err(e) => {
                    proof {
                        let rem_old = spec_extract_all(self.archive@, pre_pos, pre_cache, bs_g);
                        assert(rem_old == Err::<Seq<FileHeaderV>, ArchiveError>(e));
                        assert(allfull == Err::<Seq<FileHeaderV>, ArchiveError>(e));
                    }
                    return Err(e);
                },
            }
        }
        proof {
            let rem = spec_extract_all(self.archive@, self.pos as int, self.cache_model(), bs_g);
            assert(rem == Ok::<Seq<FileHeaderV>, ArchiveError>(Seq::<FileHeaderV>::empty()));
            assert(allfull is Ok);
            let h = allfull->Ok_0;
            let done = self.header_log@.skip(old_hlen as int);
            assert(h =~= done + Seq::<FileHeaderV>::empty());
            assert(h == done);
            assert(self.header_log@ =~= self.header_log@.subrange(0, old_hlen as int) + done);
        }
        Ok(entries)
    }

    /// List the path of every file record, skipping extent payloads.
    /// Mirrors [`spec_list_all`] exactly: the returned paths are those of
    /// the parsed headers in order, and any error is the one the input
    /// forces.
    #[verifier::rlimit(100)]
    pub fn list_files(&mut self) -> (r: Result<Vec<Vec<u8>>, ArchiveError>)
        requires
            old(self).wf(),
        ensures
            final(self).wf(),
            final(self).source() == old(self).source(),
            final(self).spec_block_size() == old(self).spec_block_size(),
            final(self).spec_output_dir() == old(self).spec_output_dir(),
            match r {
                Ok(paths) => ({
                    &&& final(self).spec_pos() == final(self).source().len()
                    &&& final(self).headers().len() == old(self).headers().len() + paths.len()
                    &&& final(self).headers().subrange(0, old(self).headers().len() as int)
                        == old(self).headers()
                    &&& forall|k: int|
                        0 <= k < paths.len() ==> (#[trigger] paths[k])@ == spec_list_path(
                            final(self).headers()[old(self).headers().len() + k].file_path,
                            final(self).headers()[old(self).headers().len() + k].file_name,
                        )
                    &&& (spec_list_all(
                        old(self).source(),
                        old(self).spec_pos(),
                        old(self).spec_block_size() as int,
                    ) matches Ok(hdrs) && hdrs.len() == paths.len() && final(self).headers()
                        == old(self).headers() + hdrs)
                }),
                Err(e) => spec_list_all(
                    old(self).source(),
                    old(self).spec_pos(),
                    old(self).spec_block_size() as int,
                ) == Err::<Seq<FileHeaderV>, ArchiveError>(e),
            },
    {
        let ghost old_hlen = self.header_log@.len();
        let ghost bs_g = self.block_size as int;
        let ghost lfull = spec_list_all(self.archive@, self.pos as int, bs_g);
        let mut paths: Vec<Vec<u8>> = Vec::new();
        proof {
            assert(self.header_log@.skip(old_hlen as int) =~= Seq::<FileHeaderV>::empty());
            if lfull is Ok {
                let h = lfull->Ok_0;
                assert(h =~= Seq::<FileHeaderV>::empty() + h);
            }
        }
        while self.pos < self.archive.len()
            invariant
                self.wf(),
                self.archive@ == old(self).source(),
                self.block_size == old(self).spec_block_size(),
                self.output_dir@ == old(self).spec_output_dir(),
                bs_g == self.block_size as int,
                old_hlen == old(self).headers().len(),
                self.header_log@.len() == old_hlen + paths.len(),
                self.header_log@.subrange(0, old_hlen as int) == old(self).headers(),
                forall|k: int|
                    0 <= k < paths.len() ==> (#[trigger] paths[k])@ == spec_list_path(
                        self.header_log@[old_hlen + k].file_path,
                        self.header_log@[old_hlen + k].file_name,
                    ),
                lfull == spec_list_all(
                    old(self).source(),
                    old(self).spec_pos(),
                    bs_g,
                ),
                ({
                    let rem = spec_list_all(self.archive@, self.pos as int, bs_g);
                    let done = self.header_log@.skip(old_hlen as int);
                    match (lfull, rem) {
                        (Ok(h), Ok(hr)) => h == done + hr,
                        (Err(e1), Err(e2)) => e1 == e2,
                        _ => false,
                    }
                }),
            decreases self.archive@.len() - self.pos,
        {
            let ghost pre_h = self.header_log@;
            let ghost pre_pos = self.pos as int;
            let p0 = self.pos;
            let (fh, n) = match FileHeader::read(&self.archive, p0, self.block_size) {
                Ok(x) => x,
                Err(e) => {
                    proof {
                        assert(spec_list_all(self.archive@, pre_pos, bs_g) == Err::<
                            Seq<FileHeaderV>,
                            ArchiveError,
                        >(e));
                        assert(lfull == Err::<Seq<FileHeaderV>, ArchiveError>(e));
                    }
                    return Err(e);
                },
            };
            self.pos = p0 + n;
            self.header_log = Ghost(self.header_log@.push(fh@));
            let path = list_path(&fh.file_path, &fh.file_name);
            paths.push(path);
            proof {
                assert(self.header_log@.subrange(0, old_hlen as int) =~= pre_h.subrange(
                    0,
                    old_hlen as int,
                ));
                assert(self.header_log@.skip(old_hlen as int) =~= pre_h.skip(
                    old_hlen as int,
                ).push(fh@));
            }
            let has_extents = matches!(fh.file_type, FileType::Regular) && fh.inline_data.len()
                == 0 && fh.file_size > 0;
            if has_extents {
                if fh.file_size > usize::MAX as u128 {
                    proof {
                        assert(spec_list_all(self.archive@, pre_pos, bs_g) == Err::<
                            Seq<FileHeaderV>,
                            ArchiveError,
                        >(ArchiveError::TruncatedRecord));
                        assert(lfull == Err::<Seq<FileHeaderV>, ArchiveError>(
                            ArchiveError::TruncatedRecord,
                        ));
                    }
                    return Err(ArchiveError::TruncatedRecord);
                }
                match self.skip_extents(fh.file_size as usize) {
                    Ok(()) => {},
                    Err(e) => {
                        proof {
                            assert(spec_list_all(self.archive@, pre_pos, bs_g) == Err::<
                                Seq<FileHeaderV>,
                                ArchiveError,
                            >(e));
                            assert(lfull == Err::<Seq<FileHeaderV>, ArchiveError>(e));
                        }
                        return Err(e);
                    },
                }
            }
            proof {
                let rem_old = spec_list_all(self.archive@, pre_pos, bs_g);
                let rem_new = spec_list_all(self.archive@, self.pos as int, bs_g);
                assert(rem_old == (match rem_new {
                    Ok(tail) => Ok::<Seq<FileHeaderV>, ArchiveError>(seq![fh@] + tail),
                    Err(e) => Err::<Seq<FileHeaderV>, ArchiveError>(e),
                }));
                let done_old = pre_h.skip(old_hlen as int);
                let done_new = self.header_log@.skip(old_hlen as int);
                if lfull is Ok {
                    let h = lfull->Ok_0;
                    let tail = rem_new->Ok_0;
                    assert(h == done_old + (seq![fh@] + tail));
                    assert(done_old + (seq![fh@] + tail) =~= done_old.push(fh@) + tail);
                }
            }
        }
        proof {
            let rem = spec_list_all(self.archive@, self.pos as int, bs_g);
            assert(rem == Ok::<Seq<FileHeaderV>, ArchiveError>(Seq::<FileHeaderV>::empty()));
            assert(lfull is Ok);
            let h = lfull->Ok_0;
            let done = self.header_log@.skip(old_hlen as int);
            assert(h =~= done + Seq::<FileHeaderV>::empty());
            assert(h == done);
            assert(self.header_log@ =~= self.header_log@.subrange(0, old_hlen as int) + done);
        }
        Ok(paths)
    }
}

} // verus!
