//! Extent records at the specification level: what a run of records looks
//! like on the wire, when such a run is well formed, and what bytes a reader
//! materializes from it.

use vstd::prelude::*;

use crate::checksum::crc32_of;
use crate::format::ExtentHeader;
use crate::format::ExtentType;
use crate::format::extent_header_bytes;
use crate::format::spec_parse_extent_header;
use crate::format::zero_bytes;

verus! {

/// One extent record as it stands in an archive: its header and, for a data
/// extent, its padded payload.
pub ghost struct ExtentRecordV {
    pub header: ExtentHeader,
    pub payload: Seq<u8>,
}

/// The wire bytes of one extent record: the padded header, then the payload.
pub open spec fn extent_record_bytes(r: ExtentRecordV, bs: int) -> Seq<u8> {
    extent_header_bytes(r.header, bs) + r.payload
}

/// The wire bytes of a run of extent records.
pub open spec fn records_bytes(rs: Seq<ExtentRecordV>, bs: int) -> Seq<u8>
    decreases rs.len(),
{
    if rs.len() == 0 {
        Seq::empty()
    } else {
        extent_record_bytes(rs[0], bs) + records_bytes(rs.skip(1), bs)
    }
}

/// A single well-formed record: a data extent carries exactly its blocks and
/// its checksum field is the CRC-32 of that payload; other kinds carry no
/// payload.
pub open spec fn record_wf(r: ExtentRecordV, bs: int) -> bool {
    match r.header.extent_type {
        ExtentType::Data => r.payload.len() == r.header.length_in_blocks * bs && crc32_of(
            r.payload,
        ) == r.header.checksum,
        _ => r.payload.len() == 0,
    }
}

pub open spec fn records_wf(rs: Seq<ExtentRecordV>, bs: int) -> bool {
    forall|i: int| 0 <= i < rs.len() ==> record_wf(#[trigger] rs[i], bs)
}

/// Each extent id defines content at most once: no two data extents share an
/// id.
pub open spec fn data_ids_unique(rs: Seq<ExtentRecordV>) -> bool {
    forall|i: int, j: int|
        0 <= i < rs.len() && 0 <= j < rs.len() && i != j && rs[i].header.extent_type
            == ExtentType::Data && rs[j].header.extent_type == ExtentType::Data
            ==> #[trigger] rs[i].header.extent_id != #[trigger] rs[j].header.extent_id
}

/// Every reference is preceded by a data extent that defines its id, with
/// the same checksum field.
pub open spec fn references_resolve(rs: Seq<ExtentRecordV>) -> bool {
    forall|j: int|
        0 <= j < rs.len() && (#[trigger] rs[j]).header.extent_type == ExtentType::Reference
            ==> exists|i: int|
            0 <= i < j && (#[trigger] rs[i]).header.extent_type == ExtentType::Data
                && rs[i].header.extent_id == rs[j].header.extent_id && rs[i].header.checksum
                == rs[j].header.checksum
}

/// The records at positions `pos` to `end` of the byte string `s`, as the
/// extent reader walks them: each header parses in turn, and a data
/// extent's payload is the bytes that follow its padded header.
pub open spec fn extent_run(s: Seq<u8>, pos: int, end: int, rs: Seq<ExtentRecordV>, bs: int) -> bool
    decreases rs.len(),
{
    if rs.len() == 0 {
        pos == end
    } else {
        match spec_parse_extent_header(s, pos, bs) {
            Ok((h, n)) => {
                let psize: int = if h.extent_type == ExtentType::Data {
                    h.length_in_blocks * bs
                } else {
                    0
                };
                &&& h == rs[0].header
                &&& pos + n + psize <= s.len()
                &&& rs[0].payload == s.subrange(pos + n, pos + n + psize)
                &&& extent_run(s, pos + n + psize, end, rs.skip(1), bs)
            },
            Err(_) => false,
        }
    }
}

/// The number of blocks that cover `len` bytes.
pub open spec fn spec_num_blocks(len: int, bs: int) -> int {
    (len + bs - 1) / bs
}

/// Block `i` of `content`, zero-padded to the block size.
pub open spec fn padded_block(content: Seq<u8>, i: int, bs: int) -> Seq<u8> {
    Seq::new(
        bs as nat,
        |k: int|
            if i * bs + k < content.len() {
                content[i * bs + k]
            } else {
                0u8
            },
    )
}

/// The bytes a reader materializes for a run of records, threading the
/// extent cache: a data extent appends its payload and defines its id; a
/// sparse extent appends zeros; a reference appends the bytes its id
/// defined, and fails when no data extent has defined them.
pub open spec fn reconstruct(rs: Seq<ExtentRecordV>, cache: Map<u64, Seq<u8>>, bs: int) -> Option<
    Seq<u8>,
>
    decreases rs.len(),
{
    if rs.len() == 0 {
        Some(Seq::empty())
    } else {
        let r = rs[0];
        let step: Option<Seq<u8>> = match r.header.extent_type {
            ExtentType::Data => Some(r.payload),
            ExtentType::Sparse => Some(zero_bytes(r.header.length_in_blocks * bs)),
            ExtentType::Reference => if cache.contains_key(r.header.extent_id) {
                Some(cache[r.header.extent_id])
            } else {
                None
            },
        };
        let cache2 = if r.header.extent_type == ExtentType::Data {
            cache.insert(r.header.extent_id, r.payload)
        } else {
            cache
        };
        match (step, reconstruct(rs.skip(1), cache2, bs)) {
            (Some(c), Some(tail)) => Some(c + tail),
            _ => None,
        }
    }
}

/// The extent cache after a reader has walked a run of records: every data
/// extent's id maps to its payload.
pub open spec fn cache_after(rs: Seq<ExtentRecordV>, cache: Map<u64, Seq<u8>>) -> Map<u64, Seq<u8>>
    decreases rs.len(),
{
    if rs.len() == 0 {
        cache
    } else {
        cache_after(
            rs.skip(1),
            if rs[0].header.extent_type == ExtentType::Data {
                cache.insert(rs[0].header.extent_id, rs[0].payload)
            } else {
                cache
            },
        )
    }
}


/// Appending one record appends its bytes.
pub proof fn lemma_records_bytes_push(rs: Seq<ExtentRecordV>, r: ExtentRecordV, bs: int)
    ensures
        records_bytes(rs.push(r), bs) == records_bytes(rs, bs) + extent_record_bytes(r, bs),
    decreases rs.len(),
{
    if rs.len() == 0 {
        let pushed = rs.push(r);
        assert(pushed[0] == r);
        assert(pushed.skip(1) =~= Seq::<ExtentRecordV>::empty());
        assert(records_bytes(pushed.skip(1), bs) == Seq::<u8>::empty());
        assert(records_bytes(pushed, bs) == extent_record_bytes(r, bs) + Seq::<u8>::empty());
        assert(extent_record_bytes(r, bs) + Seq::<u8>::empty() =~= Seq::<u8>::empty()
            + extent_record_bytes(r, bs));
    } else {
        assert(rs.push(r).skip(1) =~= rs.skip(1).push(r));
        lemma_records_bytes_push(rs.skip(1), r, bs);
        assert(extent_record_bytes(rs[0], bs) + (records_bytes(rs.skip(1), bs)
            + extent_record_bytes(r, bs)) =~= (extent_record_bytes(rs[0], bs) + records_bytes(
            rs.skip(1),
            bs,
        )) + extent_record_bytes(r, bs));
    }
}

/// How many blocks cover a positive length, and how far they reach.
pub proof fn lemma_num_blocks_bounds(len: int, bs: int)
    requires
        bs > 0,
        len > 0,
    ensures
        spec_num_blocks(len, bs) >= 1,
        spec_num_blocks(len, bs) <= len,
        (spec_num_blocks(len, bs) - 1) * bs < len,
        spec_num_blocks(len, bs) * bs >= len,
{
    let nb = (len + bs - 1) / bs;
    vstd::arithmetic::div_mod::lemma_fundamental_div_mod(len + bs - 1, bs);
    vstd::arithmetic::div_mod::lemma_mod_bound(len + bs - 1, bs);
    let r = (len + bs - 1) % bs;
    assert(len + bs - 1 == bs * nb + r);
    assert(bs * nb >= len);
    assert(bs * nb <= len + bs - 1);
    assert((nb - 1) * bs < len) by (nonlinear_arith)
        requires
            bs * nb <= len + bs - 1,
    ;
    assert(nb >= 1) by (nonlinear_arith)
        requires
            bs > 0,
            bs * nb >= len,
            len > 0,
    ;
    assert(nb <= len) by (nonlinear_arith)
        requires
            bs > 0,
            len > 0,
            bs * nb <= len + bs - 1,
    ;
}

/// Blocks before the last lie wholly inside the content.
pub proof fn lemma_block_offset_bounds(len: int, bs: int, i: int)
    requires
        bs > 0,
        len > 0,
        0 <= i < spec_num_blocks(len, bs),
    ensures
        i * bs < len,
        i * bs + bs <= spec_num_blocks(len, bs) * bs,
        i * bs >= 0,
{
    lemma_num_blocks_bounds(len, bs);
    let nb = spec_num_blocks(len, bs);
    vstd::arithmetic::mul::lemma_mul_inequality(i, nb - 1, bs);
    vstd::arithmetic::mul::lemma_mul_inequality(i + 1, nb, bs);
    assert((i + 1) * bs == i * bs + bs) by (nonlinear_arith);
    vstd::arithmetic::mul::lemma_mul_nonnegative(i, bs);
}


/// Walking one more record extends the cache by that record's definition,
/// if any.
pub proof fn lemma_cache_after_push(rs: Seq<ExtentRecordV>, r: ExtentRecordV, c0: Map<u64, Seq<u8>>)
    ensures
        cache_after(rs.push(r), c0) == (if r.header.extent_type == ExtentType::Data {
            cache_after(rs, c0).insert(r.header.extent_id, r.payload)
        } else {
            cache_after(rs, c0)
        }),
    decreases rs.len(),
{
    let c1x = if r.header.extent_type == ExtentType::Data {
        c0.insert(r.header.extent_id, r.payload)
    } else {
        c0
    };
    if rs.len() == 0 {
        let pushed = rs.push(r);
        assert(pushed[0] == r);
        assert(pushed.skip(1) =~= Seq::<ExtentRecordV>::empty());
        assert(cache_after(pushed.skip(1), c1x) == c1x);
        assert(cache_after(pushed, c0) == c1x);
        assert(cache_after(rs, c0) == c0);
    } else {
        assert(rs.push(r)[0] == rs[0]);
        assert(rs.push(r).skip(1) =~= rs.skip(1).push(r));
        let c1 = if rs[0].header.extent_type == ExtentType::Data {
            c0.insert(rs[0].header.extent_id, rs[0].payload)
        } else {
            c0
        };
        lemma_cache_after_push(rs.skip(1), r, c1);
        assert(cache_after(rs.push(r), c0) == cache_after(rs.skip(1).push(r), c1));
        assert(cache_after(rs, c0) == cache_after(rs.skip(1), c1));
    }
}

/// Walking one more record appends its materialized bytes, or fails on an
/// unresolved reference.
pub proof fn lemma_reconstruct_push(
    rs: Seq<ExtentRecordV>,
    r: ExtentRecordV,
    c0: Map<u64, Seq<u8>>,
    bs: int,
    f: Seq<u8>,
)
    requires
        reconstruct(rs, c0, bs) == Some(f),
    ensures
        r.header.extent_type == ExtentType::Data ==> reconstruct(rs.push(r), c0, bs) == Some(
            f + r.payload,
        ),
        r.header.extent_type == ExtentType::Sparse ==> reconstruct(rs.push(r), c0, bs) == Some(
            f + zero_bytes(r.header.length_in_blocks * bs),
        ),
        r.header.extent_type == ExtentType::Reference && cache_after(rs, c0).contains_key(
            r.header.extent_id,
        ) ==> reconstruct(rs.push(r), c0, bs) == Some(f + cache_after(rs, c0)[r.header.extent_id]),
        r.header.extent_type == ExtentType::Reference && !cache_after(rs, c0).contains_key(
            r.header.extent_id,
        ) ==> reconstruct(rs.push(r), c0, bs) == None::<Seq<u8>>,
    decreases rs.len(),
{
    if rs.len() == 0 {
        let pushed = rs.push(r);
        assert(pushed[0] == r);
        assert(pushed.skip(1) =~= Seq::<ExtentRecordV>::empty());
        assert(f.len() == 0);
        assert(cache_after(rs, c0) == c0);
        let c1x = if r.header.extent_type == ExtentType::Data {
            c0.insert(r.header.extent_id, r.payload)
        } else {
            c0
        };
        assert(reconstruct(pushed.skip(1), c1x, bs) == Some(Seq::<u8>::empty()));
        if r.header.extent_type == ExtentType::Data {
            assert(reconstruct(pushed, c0, bs) == Some(r.payload + Seq::<u8>::empty()));
            assert(f + r.payload =~= r.payload + Seq::<u8>::empty());
        } else if r.header.extent_type == ExtentType::Sparse {
            assert(reconstruct(pushed, c0, bs) == Some(
                zero_bytes(r.header.length_in_blocks * bs) + Seq::<u8>::empty(),
            ));
            assert(f + zero_bytes(r.header.length_in_blocks * bs) =~= zero_bytes(
                r.header.length_in_blocks * bs,
            ) + Seq::<u8>::empty());
        } else if c0.contains_key(r.header.extent_id) {
            assert(reconstruct(pushed, c0, bs) == Some(
                c0[r.header.extent_id] + Seq::<u8>::empty(),
            ));
            assert(f + c0[r.header.extent_id] =~= c0[r.header.extent_id] + Seq::<u8>::empty());
        } else {
            assert(reconstruct(pushed, c0, bs) == None::<Seq<u8>>);
        }
    } else {
        assert(rs.push(r)[0] == rs[0]);
        assert(rs.push(r).skip(1) =~= rs.skip(1).push(r));
        let c1 = if rs[0].header.extent_type == ExtentType::Data {
            c0.insert(rs[0].header.extent_id, rs[0].payload)
        } else {
            c0
        };
        let head: Seq<u8> = match rs[0].header.extent_type {
            ExtentType::Data => rs[0].payload,
            ExtentType::Sparse => zero_bytes(rs[0].header.length_in_blocks * bs),
            ExtentType::Reference => c1[rs[0].header.extent_id],
        };
        assert(reconstruct(rs, c0, bs) == (match (
            match rs[0].header.extent_type {
                ExtentType::Data => Some(rs[0].payload),
                ExtentType::Sparse => Some(zero_bytes(rs[0].header.length_in_blocks * bs)),
                ExtentType::Reference => if c0.contains_key(rs[0].header.extent_id) {
                    Some(c0[rs[0].header.extent_id])
                } else {
                    None
                },
            },
            reconstruct(rs.skip(1), c1, bs),
        ) {
            (Some(c), Some(tail0)) => Some(c + tail0),
            _ => None::<Seq<u8>>,
        }));
        let tail = reconstruct(rs.skip(1), c1, bs);
        assert(tail is Some);
        let ft = tail->Some_0;
        assert(f == head + ft);
        lemma_reconstruct_push(rs.skip(1), r, c1, bs, ft);
        lemma_cache_after_push(rs, r, c0);
        assert(cache_after(rs, c0) == cache_after(rs.skip(1), c1));
        assert(reconstruct(rs.push(r), c0, bs) == (match (
            match rs[0].header.extent_type {
                ExtentType::Data => Some(rs[0].payload),
                ExtentType::Sparse => Some(zero_bytes(rs[0].header.length_in_blocks * bs)),
                ExtentType::Reference => if c0.contains_key(rs[0].header.extent_id) {
                    Some(c0[rs[0].header.extent_id])
                } else {
                    None
                },
            },
            reconstruct(rs.skip(1).push(r), c1, bs),
        ) {
            (Some(c), Some(tail0)) => Some(c + tail0),
            _ => None::<Seq<u8>>,
        }));
        if r.header.extent_type == ExtentType::Data {
            assert((head + ft) + r.payload =~= head + (ft + r.payload));
        } else if r.header.extent_type == ExtentType::Sparse {
            assert((head + ft) + zero_bytes(r.header.length_in_blocks * bs) =~= head + (ft
                + zero_bytes(r.header.length_in_blocks * bs)));
        } else if cache_after(rs, c0).contains_key(r.header.extent_id) {
            assert((head + ft) + cache_after(rs, c0)[r.header.extent_id] =~= head + (ft
                + cache_after(rs, c0)[r.header.extent_id]));
        }
    }
}

/// A run of records followed by one more that parses at its end is a run to
/// the new position.
pub proof fn lemma_extent_run_snoc(
    s: Seq<u8>,
    p: int,
    q: int,
    rs: Seq<ExtentRecordV>,
    r: ExtentRecordV,
    n: int,
    bs: int,
)
    requires
        extent_run(s, p, q, rs, bs),
        spec_parse_extent_header(s, q, bs) == Ok::<(ExtentHeader, int), crate::format::ArchiveError>(
            (r.header, n),
        ),
        q + n + (if r.header.extent_type == ExtentType::Data {
            r.header.length_in_blocks * bs
        } else {
            0
        }) <= s.len(),
        r.payload == s.subrange(
            q + n,
            q + n + (if r.header.extent_type == ExtentType::Data {
                r.header.length_in_blocks * bs
            } else {
                0
            }),
        ),
    ensures
        extent_run(
            s,
            p,
            q + n + (if r.header.extent_type == ExtentType::Data {
                r.header.length_in_blocks * bs
            } else {
                0
            }),
            rs.push(r),
            bs,
        ),
    decreases rs.len(),
{
    let psize: int = if r.header.extent_type == ExtentType::Data {
        r.header.length_in_blocks * bs
    } else {
        0
    };
    if rs.len() == 0 {
        let pushed = rs.push(r);
        assert(pushed[0] == r);
        assert(pushed.skip(1) =~= Seq::<ExtentRecordV>::empty());
        assert(p == q);
        assert(extent_run(s, q + n + psize, q + n + psize, pushed.skip(1), bs));
    } else {
        assert(rs.push(r)[0] == rs[0]);
        assert(rs.push(r).skip(1) =~= rs.skip(1).push(r));
        match spec_parse_extent_header(s, p, bs) {
            Ok((h0, n0)) => {
                let psize0: int = if h0.extent_type == ExtentType::Data {
                    h0.length_in_blocks * bs
                } else {
                    0
                };
                lemma_extent_run_snoc(s, p + n0 + psize0, q, rs.skip(1), r, n, bs);
            },
            Err(_) => {
                assert(false);
            },
        }
    }
}


/// Walking two runs in turn is walking their concatenation.
pub proof fn lemma_cache_after_append(a: Seq<ExtentRecordV>, b: Seq<ExtentRecordV>, c0: Map<u64, Seq<u8>>)
    ensures
        cache_after(a + b, c0) == cache_after(b, cache_after(a, c0)),
    decreases a.len(),
{
    if a.len() == 0 {
        assert(a + b =~= b);
        assert(cache_after(a, c0) == c0);
    } else {
        let c1 = if a[0].header.extent_type == ExtentType::Data {
            c0.insert(a[0].header.extent_id, a[0].payload)
        } else {
            c0
        };
        assert((a + b)[0] == a[0]);
        assert((a + b).skip(1) =~= a.skip(1) + b);
        lemma_cache_after_append(a.skip(1), b, c1);
        assert(cache_after(a + b, c0) == cache_after(a.skip(1) + b, c1));
        assert(cache_after(a, c0) == cache_after(a.skip(1), c1));
    }
}

/// After walking past a data extent, the cache holds its payload under its
/// id, as long as no later data extent shares the id.
pub proof fn lemma_cache_after_value(all: Seq<ExtentRecordV>, k: int, i: int)
    requires
        0 <= i < k <= all.len(),
        all[i].header.extent_type == ExtentType::Data,
        data_ids_unique(all),
    ensures
        cache_after(all.take(k), Map::<u64, Seq<u8>>::empty()).contains_key(
            all[i].header.extent_id,
        ),
        cache_after(all.take(k), Map::<u64, Seq<u8>>::empty())[all[i].header.extent_id]
            == all[i].payload,
    decreases k,
{
    let id = all[i].header.extent_id;
    if k == i + 1 {
        assert(all.take(k) =~= all.take(k - 1).push(all[k - 1]));
        lemma_cache_after_push(all.take(k - 1), all[k - 1], Map::<u64, Seq<u8>>::empty());
    } else {
        lemma_cache_after_value(all, k - 1, i);
        assert(all.take(k) =~= all.take(k - 1).push(all[k - 1]));
        lemma_cache_after_push(all.take(k - 1), all[k - 1], Map::<u64, Seq<u8>>::empty());
        if all[k - 1].header.extent_type == ExtentType::Data {
            assert(all[k - 1].header.extent_id != id);
        }
    }
}


/// A well-formed extent record's bytes occupy a whole number of blocks: the
/// padded header, and for a data extent its whole-block payload.
pub proof fn lemma_extent_record_aligned(r: ExtentRecordV, bs: int)
    requires
        bs > 0,
        record_wf(r, bs),
    ensures
        (extent_record_bytes(r, bs).len() as int) % bs == 0,
{
    crate::format::lemma_extent_header_aligned(r.header, bs);
    let hl = extent_header_bytes(r.header, bs).len() as int;
    let pl = r.payload.len() as int;
    if r.header.extent_type == ExtentType::Data {
        assert(pl % bs == 0) by {
            vstd::arithmetic::div_mod::lemma_mod_multiples_basic(
                r.header.length_in_blocks as int,
                bs,
            );
        }
    } else {
        assert(pl % bs == 0) by {
            vstd::arithmetic::div_mod::lemma_small_mod(0, bs as nat);
        }
    }
    assert((hl + pl) % bs == 0) by {
        vstd::arithmetic::div_mod::lemma_add_mod_noop(hl, pl, bs);
        vstd::arithmetic::div_mod::lemma_small_mod(0, bs as nat);
    }
}

/// Law (reflink equivalence, the library's side): what a reference
/// materializes is exactly the payload of the data extent that defined its
/// id, so cloning that extent's placed bytes and copying the returned bytes
/// write the same content.
pub proof fn lemma_reference_resolves_to_its_data(all: Seq<ExtentRecordV>, j: int, i: int)
    requires
        0 <= i < j < all.len(),
        data_ids_unique(all),
        all[i].header.extent_type == ExtentType::Data,
        all[j].header.extent_type == ExtentType::Reference,
        all[i].header.extent_id == all[j].header.extent_id,
    ensures
        cache_after(all.take(j), Map::<u64, Seq<u8>>::empty()).contains_key(
            all[j].header.extent_id,
        ),
        cache_after(all.take(j), Map::<u64, Seq<u8>>::empty())[all[j].header.extent_id]
            == all[i].payload,
{
    lemma_cache_after_value(all, j, i);
}


/// Writing a well-formed run of records and walking it back yields the same
/// records, whatever stands before and after; the walk consumes exactly the
/// run's bytes.
#[verifier::rlimit(100)]
pub proof fn lemma_records_run_roundtrip(
    rs: Seq<ExtentRecordV>,
    prefix: Seq<u8>,
    rest: Seq<u8>,
    bs: int,
)
    requires
        bs > 0,
        records_wf(rs, bs),
    ensures
        extent_run(
            prefix + records_bytes(rs, bs) + rest,
            prefix.len() as int,
            prefix.len() + records_bytes(rs, bs).len() as int,
            rs,
            bs,
        ),
    decreases rs.len(),
{
    let s = prefix + records_bytes(rs, bs) + rest;
    let p = prefix.len() as int;
    if rs.len() == 0 {
        assert(records_bytes(rs, bs).len() == 0);
    } else {
        let r = rs[0];
        assert(record_wf(r, bs));
        let ehb = crate::format::extent_header_bytes(r.header, bs);
        let tailb = records_bytes(rs.skip(1), bs);
        let psize: int = if r.header.extent_type == ExtentType::Data {
            r.header.length_in_blocks * bs
        } else {
            0
        };
        assert(r.payload.len() == psize);
        crate::format::lemma_extent_header_roundtrip(
            r.header,
            prefix,
            r.payload + tailb + rest,
            bs,
        );
        assert(s =~= prefix + ehb + (r.payload + tailb + rest));
        assert(spec_parse_extent_header(s, p, bs) == Ok::<
            (ExtentHeader, int),
            crate::format::ArchiveError,
        >((r.header, ehb.len() as int)));
        let n = ehb.len() as int;
        assert(s.subrange(p + n, p + n + psize) =~= r.payload);
        assert(records_wf(rs.skip(1), bs)) by {
            assert forall|i: int| 0 <= i < rs.skip(1).len() implies record_wf(
                #[trigger] rs.skip(1)[i],
                bs,
            ) by {
                assert(rs.skip(1)[i] == rs[i + 1]);
                assert(record_wf(rs[i + 1], bs));
            }
        }
        lemma_records_run_roundtrip(rs.skip(1), prefix + extent_record_bytes(r, bs), rest, bs);
        assert((prefix + extent_record_bytes(r, bs)) + tailb + rest =~= s);
        assert(extent_run(s, p + n + psize, p + records_bytes(rs, bs).len() as int, rs.skip(1), bs));
        assert(extent_run(s, p, p + records_bytes(rs, bs).len() as int, rs, bs));
    }
}


/// One reader pass over a file's extent records, standing at `pos` with
/// `produced` of `size` bytes already materialized: the bytes materialized
/// from here on, the end position, and the extent cache afterwards - or
/// the error the input forces. This is the extent reader's exact decision
/// function: data extents must carry their payload and hash to their stored
/// checksum, references must name a cached id, sparse extents yield zeros.
pub open spec fn spec_extract_run(
    s: Seq<u8>,
    pos: int,
    cache: Map<u64, Seq<u8>>,
    produced: int,
    size: int,
    bs: int,
) -> Result<(Seq<u8>, int, Map<u64, Seq<u8>>), crate::format::ArchiveError>
    decreases s.len() - pos
        when bs > 0 && 0 <= pos <= s.len()
        via spec_extract_run_decreases
{
    if produced >= size {
        Ok((Seq::empty(), pos, cache))
    } else {
        match spec_parse_extent_header(s, pos, bs) {
            Err(e) => Err(e),
            Ok((h, n)) => match h.extent_type {
                ExtentType::Data => {
                    let psize = h.length_in_blocks * bs;
                    if s.len() - (pos + n) < psize {
                        Err(crate::format::ArchiveError::TruncatedRecord)
                    } else {
                        let payload = s.subrange(pos + n, pos + n + psize);
                        if crc32_of(payload) != h.checksum {
                            Err(
                                crate::format::ArchiveError::ChecksumMismatch(
                                    h.extent_id,
                                    h.checksum,
                                    crc32_of(payload),
                                ),
                            )
                        } else {
                            match spec_extract_run(
                                s,
                                pos + n + psize,
                                cache.insert(h.extent_id, payload),
                                produced + psize,
                                size,
                                bs,
                            ) {
                                Err(e) => Err(e),
                                Ok((rest, q, c)) => Ok((payload + rest, q, c)),
                            }
                        }
                    }
                },
                ExtentType::Sparse => {
                    let psize = h.length_in_blocks * bs;
                    match spec_extract_run(s, pos + n, cache, produced + psize, size, bs) {
                        Err(e) => Err(e),
                        Ok((rest, q, c)) => Ok((zero_bytes(psize) + rest, q, c)),
                    }
                },
                ExtentType::Reference => {
                    if !cache.contains_key(h.extent_id) {
                        Err(crate::format::ArchiveError::DanglingReference(h.extent_id))
                    } else {
                        let chunk = cache[h.extent_id];
                        match spec_extract_run(
                            s,
                            pos + n,
                            cache,
                            produced + chunk.len(),
                            size,
                            bs,
                        ) {
                            Err(e) => Err(e),
                            Ok((rest, q, c)) => Ok((chunk + rest, q, c)),
                        }
                    }
                },
            },
        }
    }
}

#[via_fn]
proof fn spec_extract_run_decreases(
    s: Seq<u8>,
    pos: int,
    cache: Map<u64, Seq<u8>>,
    produced: int,
    size: int,
    bs: int,
) {
    match spec_parse_extent_header(s, pos, bs) {
        Ok((h, n)) => {
            crate::format::lemma_pad_len_bounds(25, bs);
            assert(n >= 25);
            vstd::arithmetic::mul::lemma_mul_nonnegative(h.length_in_blocks as int, bs);
        },
        Err(_) => {},
    }
}

/// A successful reader pass never moves backward, and ends inside the
/// input.
pub proof fn lemma_spec_extract_run_advances(
    s: Seq<u8>,
    pos: int,
    cache: Map<u64, Seq<u8>>,
    produced: int,
    size: int,
    bs: int,
)
    requires
        bs > 0,
        0 <= pos <= s.len(),
    ensures
        spec_extract_run(s, pos, cache, produced, size, bs) matches Ok((f, q, c)) ==> pos <= q
            <= s.len(),
    decreases s.len() - pos,
{
    if produced >= size {
    } else {
        match spec_parse_extent_header(s, pos, bs) {
            Ok((h, n)) => {
                crate::format::lemma_pad_len_bounds(25, bs);
                vstd::arithmetic::mul::lemma_mul_nonnegative(h.length_in_blocks as int, bs);
                let psize = h.length_in_blocks * bs;
                match h.extent_type {
                    ExtentType::Data => {
                        if s.len() - (pos + n) >= psize {
                            let payload = s.subrange(pos + n, pos + n + psize);
                            lemma_spec_extract_run_advances(
                                s,
                                pos + n + psize,
                                cache.insert(h.extent_id, payload),
                                produced + psize,
                                size,
                                bs,
                            );
                        }
                    },
                    ExtentType::Sparse => {
                        lemma_spec_extract_run_advances(
                            s,
                            pos + n,
                            cache,
                            produced + psize,
                            size,
                            bs,
                        );
                    },
                    ExtentType::Reference => {
                        if cache.contains_key(h.extent_id) {
                            lemma_spec_extract_run_advances(
                                s,
                                pos + n,
                                cache,
                                produced + cache[h.extent_id].len(),
                                size,
                                bs,
                            );
                        }
                    },
                }
            },
            Err(_) => {},
        }
    }
}


/// One lister pass over a file's extent records, standing at `pos` with
/// `produced` of `size` bytes already accounted: the end position, or the
/// error the input forces. Data payloads are sought past, not read; no
/// checksum is verified and no reference resolved.
pub open spec fn spec_skip_run(s: Seq<u8>, pos: int, produced: int, size: int, bs: int) -> Result<
    int,
    crate::format::ArchiveError,
>
    decreases s.len() - pos
        when bs > 0 && 0 <= pos <= s.len()
        via spec_skip_run_decreases
{
    if produced >= size {
        Ok(pos)
    } else {
        match spec_parse_extent_header(s, pos, bs) {
            Err(e) => Err(e),
            Ok((h, n)) => {
                let psize = h.length_in_blocks * bs;
                match h.extent_type {
                    ExtentType::Data => if s.len() - (pos + n) < psize {
                        Err(crate::format::ArchiveError::TruncatedRecord)
                    } else {
                        spec_skip_run(s, pos + n + psize, produced + psize, size, bs)
                    },
                    ExtentType::Sparse => spec_skip_run(s, pos + n, produced + psize, size, bs),
                    ExtentType::Reference => spec_skip_run(
                        s,
                        pos + n,
                        produced + psize,
                        size,
                        bs,
                    ),
                }
            },
        }
    }
}

#[via_fn]
proof fn spec_skip_run_decreases(s: Seq<u8>, pos: int, produced: int, size: int, bs: int) {
    match spec_parse_extent_header(s, pos, bs) {
        Ok((h, n)) => {
            crate::format::lemma_pad_len_bounds(25, bs);
            assert(n >= 25);
            vstd::arithmetic::mul::lemma_mul_nonnegative(h.length_in_blocks as int, bs);
        },
        Err(_) => {},
    }
}

/// A successful lister pass never moves backward, and ends inside the
/// input.
pub proof fn lemma_spec_skip_run_advances(s: Seq<u8>, pos: int, produced: int, size: int, bs: int)
    requires
        bs > 0,
        0 <= pos <= s.len(),
    ensures
        spec_skip_run(s, pos, produced, size, bs) matches Ok(q) ==> pos <= q <= s.len(),
    decreases s.len() - pos,
{
    if produced >= size {
    } else {
        match spec_parse_extent_header(s, pos, bs) {
            Ok((h, n)) => {
                crate::format::lemma_pad_len_bounds(25, bs);
                vstd::arithmetic::mul::lemma_mul_nonnegative(h.length_in_blocks as int, bs);
                let psize = h.length_in_blocks * bs;
                match h.extent_type {
                    ExtentType::Data => {
                        if s.len() - (pos + n) >= psize {
                            lemma_spec_skip_run_advances(
                                s,
                                pos + n + psize,
                                produced + psize,
                                size,
                                bs,
                            );
                        }
                    },
                    ExtentType::Sparse => {
                        lemma_spec_skip_run_advances(s, pos + n, produced + psize, size, bs);
                    },
                    ExtentType::Reference => {
                        lemma_spec_skip_run_advances(s, pos + n, produced + psize, size, bs);
                    },
                }
            },
            Err(_) => {},
        }
    }
}


/// Whatever the cache holds after a walk came from a data extent of the
/// walk, or stood in the cache already.
pub proof fn lemma_cache_after_member(rs: Seq<ExtentRecordV>, c0: Map<u64, Seq<u8>>, id: u64)
    requires
        cache_after(rs, c0).contains_key(id),
    ensures
        (exists|i: int|
            0 <= i < rs.len() && (#[trigger] rs[i]).header.extent_type == ExtentType::Data
                && rs[i].header.extent_id == id && rs[i].payload == cache_after(rs, c0)[id]) || (
        c0.contains_key(id) && c0[id] == cache_after(rs, c0)[id]),
    decreases rs.len(),
{
    if rs.len() == 0 {
    } else {
        let c1 = if rs[0].header.extent_type == ExtentType::Data {
            c0.insert(rs[0].header.extent_id, rs[0].payload)
        } else {
            c0
        };
        lemma_cache_after_member(rs.skip(1), c1, id);
        if exists|i: int|
            0 <= i < rs.skip(1).len() && (#[trigger] rs.skip(1)[i]).header.extent_type
                == ExtentType::Data && rs.skip(1)[i].header.extent_id == id && rs.skip(1)[i].payload
                == cache_after(rs.skip(1), c1)[id] {
            let wi = choose|i: int|
                0 <= i < rs.skip(1).len() && (#[trigger] rs.skip(1)[i]).header.extent_type
                    == ExtentType::Data && rs.skip(1)[i].header.extent_id == id && rs.skip(
                    1,
                )[i].payload == cache_after(rs.skip(1), c1)[id];
            assert(rs[wi + 1] == rs.skip(1)[wi]);
            assert(0 <= wi + 1 < rs.len() && rs[wi + 1].header.extent_type == ExtentType::Data
                && rs[wi + 1].header.extent_id == id && rs[wi + 1].payload == cache_after(
                rs,
                c0,
            )[id]);
        } else {
            if rs[0].header.extent_type == ExtentType::Data && rs[0].header.extent_id == id {
                assert(0 <= 0 < rs.len() && rs[0].header.extent_type == ExtentType::Data && rs[0].header.extent_id
                    == id && rs[0].payload == cache_after(rs, c0)[id]);
            }
        }
    }
}


/// The extraction interpreter, walked over a well-formed run of one-block
/// records that its reconstruction resolves, succeeds and materializes
/// exactly that reconstruction: it consumes the whole run and ends with the
/// run's cache.
#[verifier::rlimit(100)]
pub proof fn lemma_extract_run_of_records(
    s: Seq<u8>,
    p: int,
    pend: int,
    rs: Seq<ExtentRecordV>,
    c0: Map<u64, Seq<u8>>,
    flat: Seq<u8>,
    produced: int,
    size: int,
    bs: int,
)
    requires
        bs > 0,
        0 <= p <= s.len(),
        extent_run(s, p, pend, rs, bs),
        records_wf(rs, bs),
        forall|i: int| 0 <= i < rs.len() ==> (#[trigger] rs[i]).header.length_in_blocks == 1,
        reconstruct(rs, c0, bs) == Some(flat),
        forall|id: u64| #[trigger] c0.contains_key(id) ==> c0[id].len() == bs,
        produced + rs.len() * bs >= size,
        rs.len() > 0 ==> produced + (rs.len() - 1) * bs < size,
    ensures
        spec_extract_run(s, p, c0, produced, size, bs) == Ok::<
            (Seq<u8>, int, Map<u64, Seq<u8>>),
            crate::format::ArchiveError,
        >((flat, pend, cache_after(rs, c0))),
    decreases rs.len(),
{
    if rs.len() == 0 {
        assert(flat.len() == 0);
        assert(flat =~= Seq::<u8>::empty());
        assert(cache_after(rs, c0) == c0);
    } else {
        let r = rs[0];
        assert(record_wf(r, bs));
        assert(r.header.length_in_blocks == 1);
        assert(produced < size);
        match spec_parse_extent_header(s, p, bs) {
            Ok((h, n)) => {
                assert(h == r.header);
                let psize: int = if h.extent_type == ExtentType::Data {
                    h.length_in_blocks * bs
                } else {
                    0
                };
                assert(1 * bs == bs);
                let c1 = if r.header.extent_type == ExtentType::Data {
                    c0.insert(r.header.extent_id, r.payload)
                } else {
                    c0
                };
                let chunk: Seq<u8> = match r.header.extent_type {
                    ExtentType::Data => r.payload,
                    ExtentType::Sparse => zero_bytes(r.header.length_in_blocks * bs),
                    ExtentType::Reference => c0[r.header.extent_id],
                };
                if r.header.extent_type == ExtentType::Reference {
                    assert(c0.contains_key(r.header.extent_id));
                }
                assert(chunk.len() == bs);
                let tail = reconstruct(rs.skip(1), c1, bs);
                assert(tail is Some);
                let ft = tail->Some_0;
                assert(flat == chunk + ft);
                assert(records_wf(rs.skip(1), bs)) by {
                    assert forall|i: int| 0 <= i < rs.skip(1).len() implies record_wf(
                        #[trigger] rs.skip(1)[i],
                        bs,
                    ) by {
                        assert(rs.skip(1)[i] == rs[i + 1]);
                        assert(record_wf(rs[i + 1], bs));
                    }
                }
                assert forall|i: int| 0 <= i < rs.skip(1).len() implies (
                #[trigger] rs.skip(1)[i]).header.length_in_blocks == 1 by {
                    assert(rs.skip(1)[i] == rs[i + 1]);
                }
                assert forall|id: u64| #[trigger] c1.contains_key(id) implies c1[id].len()
                    == bs by {
                    if r.header.extent_type == ExtentType::Data && id == r.header.extent_id {
                        assert(c1[id] == r.payload);
                    } else {
                        assert(c1[id] == c0[id]);
                    }
                }
                assert((rs.len() - 1) * bs == (rs.len() - 2) * bs + bs) by (nonlinear_arith);
                assert(rs.len() * bs == (rs.len() - 1) * bs + bs) by (nonlinear_arith);
                lemma_extract_run_of_records(
                    s,
                    p + n + psize,
                    pend,
                    rs.skip(1),
                    c1,
                    ft,
                    produced + bs,
                    size,
                    bs,
                );
                lemma_cache_after_push(rs.skip(1), r, c1);
                assert(cache_after(rs, c0) == cache_after(rs.skip(1), c1));
                assert(spec_extract_run(s, p, c0, produced, size, bs) == Ok::<
                    (Seq<u8>, int, Map<u64, Seq<u8>>),
                    crate::format::ArchiveError,
                >((chunk + ft, pend, cache_after(rs.skip(1), c1))));
            },
            Err(_) => {
                assert(false);
            },
        }
    }
}

} // verus!
