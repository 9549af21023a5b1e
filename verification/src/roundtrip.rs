//! The archive's round trip, end to end: what the creator emits, the
//! extraction interpreter materializes back.

use vstd::prelude::*;

use crate::checksum::crc32_of;
use crate::create::blocks_match;
use crate::create::lemma_dedup_roundtrip;
use crate::create::padded_prefix;
use crate::format::ExtentType;
use crate::records::ExtentRecordV;
use crate::records::cache_after;
use crate::records::data_ids_unique;
use crate::records::lemma_cache_after_member;
use crate::records::lemma_extract_run_of_records;
use crate::records::lemma_num_blocks_bounds;
use crate::records::lemma_records_run_roundtrip;
use crate::records::record_wf;
use crate::records::records_bytes;
use crate::records::records_wf;
use crate::records::references_resolve;
use crate::records::spec_extract_run;
use crate::records::spec_num_blocks;

verus! {

/// Law (round trip, one file, end to end): the extent records the creator
/// emits for a file's content, written after any earlier bytes and walked
/// back by the extraction interpreter with the cache the prior records
/// define, succeed and materialize exactly that content, consuming exactly
/// the emitted bytes - provided no two distinct one-block payloads collide
/// on their CRC-32.
#[verifier::rlimit(100)]
pub proof fn lemma_file_roundtrip(
    prior: Seq<ExtentRecordV>,
    nrecs: Seq<ExtentRecordV>,
    content: Seq<u8>,
    prefix: Seq<u8>,
    rest: Seq<u8>,
    bs: int,
)
    requires
        bs > 0,
        content.len() > 0,
        records_wf(prior + nrecs, bs),
        data_ids_unique(prior + nrecs),
        references_resolve(prior + nrecs),
        forall|i: int|
            0 <= i < (prior + nrecs).len() ==> (#[trigger] (prior
                + nrecs)[i]).header.length_in_blocks == 1,
        nrecs.len() == spec_num_blocks(content.len() as int, bs),
        blocks_match(nrecs, content, bs),
        forall|x: Seq<u8>, y: Seq<u8>|
            x.len() == bs && y.len() == bs && #[trigger] crc32_of(x) == #[trigger] crc32_of(y)
                ==> x == y,
    ensures
        spec_extract_run(
            prefix + records_bytes(nrecs, bs) + rest,
            prefix.len() as int,
            cache_after(prior, Map::<u64, Seq<u8>>::empty()),
            0,
            content.len() as int,
            bs,
        ) matches Ok((flat, q, c)) && flat.take(content.len() as int) == content && q
            == prefix.len() + records_bytes(nrecs, bs).len(),
{
    let all = prior + nrecs;
    let c0 = cache_after(prior, Map::<u64, Seq<u8>>::empty());
    let s = prefix + records_bytes(nrecs, bs) + rest;
    let p = prefix.len() as int;
    let nb = spec_num_blocks(content.len() as int, bs);
    lemma_num_blocks_bounds(content.len() as int, bs);
    lemma_dedup_roundtrip(prior, nrecs, content, bs);
    let flat = padded_prefix(content, nb, bs);
    assert(records_wf(nrecs, bs)) by {
        assert forall|i: int| 0 <= i < nrecs.len() implies record_wf(#[trigger] nrecs[i], bs) by {
            assert(all[prior.len() + i] == nrecs[i]);
            assert(record_wf(all[prior.len() + i], bs));
        }
    }
    assert forall|i: int| 0 <= i < nrecs.len() implies (
    #[trigger] nrecs[i]).header.length_in_blocks == 1 by {
        assert(all[prior.len() + i] == nrecs[i]);
    }
    lemma_records_run_roundtrip(nrecs, prefix, rest, bs);
    assert forall|id: u64| #[trigger] c0.contains_key(id) implies c0[id].len() == bs by {
        lemma_cache_after_member(prior, Map::<u64, Seq<u8>>::empty(), id);
        let wi = choose|i: int|
            0 <= i < prior.len() && (#[trigger] prior[i]).header.extent_type == ExtentType::Data
                && prior[i].header.extent_id == id && prior[i].payload == c0[id];
        assert(all[wi] == prior[wi]);
        assert(record_wf(all[wi], bs));
        assert(all[wi].header.length_in_blocks == 1);
        assert(c0[id].len() == 1 * bs);
    }
    assert(0 + nrecs.len() * bs >= content.len()) by {
        assert(nb * bs >= content.len());
    }
    assert(nrecs.len() > 0 ==> 0 + (nrecs.len() - 1) * bs < content.len()) by {
        assert((nb - 1) * bs < content.len());
    }
    lemma_extract_run_of_records(
        s,
        p,
        p + records_bytes(nrecs, bs).len(),
        nrecs,
        c0,
        flat,
        0,
        content.len() as int,
        bs,
    );
}


} // verus!
