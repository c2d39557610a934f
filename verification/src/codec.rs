//! The persisted form of the override store: packed 20-byte records, each
//! an 8-byte little-endian channel id, an 8-byte little-endian signed Unix
//! timestamp, and a 4-byte little-endian signed UTC offset.  A file whose
//! length is not a multiple of the record size is corrupt and is discarded
//! wholesale, yielding an empty store.

use crate::model::Timestamp;
use crate::store::{has_override, unique_ids, OverrideEntry, OverrideStore};
use vstd::bytes::{
    lemma_auto_spec_u32_to_from_le_bytes, lemma_auto_spec_u64_to_from_le_bytes,
    spec_u32_from_le_bytes, spec_u32_to_le_bytes, spec_u64_from_le_bytes, spec_u64_to_le_bytes,
    u32_from_le_bytes, u32_to_le_bytes, u64_from_le_bytes, u64_to_le_bytes,
};
use vstd::prelude::*;
use vstd::slice::slice_subrange;

verus! {

/// Bytes per persisted record.
pub const RECORD_BYTES: usize = 20;

/// The two's-complement bit pattern of a signed 64-bit value.
pub open spec fn u64_of_i64(v: i64) -> u64 {
    if v >= 0 {
        v as u64
    } else {
        ((v as int) + 0x1_0000_0000_0000_0000) as u64
    }
}

/// The signed 64-bit value of a two's-complement bit pattern.
pub open spec fn i64_of_u64(u: u64) -> i64 {
    if u < 0x8000_0000_0000_0000 {
        u as i64
    } else {
        ((u as int) - 0x1_0000_0000_0000_0000) as i64
    }
}

/// The two's-complement bit pattern of a signed 32-bit value.
pub open spec fn u32_of_i32(v: i32) -> u32 {
    if v >= 0 {
        v as u32
    } else {
        ((v as int) + 0x1_0000_0000) as u32
    }
}

/// The signed 32-bit value of a two's-complement bit pattern.
pub open spec fn i32_of_u32(u: u32) -> i32 {
    if u < 0x8000_0000 {
        u as i32
    } else {
        ((u as int) - 0x1_0000_0000) as i32
    }
}

pub fn i64_to_bits(v: i64) -> (u: u64)
    ensures
        u == u64_of_i64(v),
{
    if v >= 0 {
        v as u64
    } else {
        ((v as i128) + 0x1_0000_0000_0000_0000i128) as u64
    }
}

pub fn bits_to_i64(u: u64) -> (v: i64)
    ensures
        v == i64_of_u64(u),
{
    if u < 0x8000_0000_0000_0000 {
        u as i64
    } else {
        ((u as i128) - 0x1_0000_0000_0000_0000i128) as i64
    }
}

pub fn i32_to_bits(v: i32) -> (u: u32)
    ensures
        u == u32_of_i32(v),
{
    if v >= 0 {
        v as u32
    } else {
        ((v as i64) + 0x1_0000_0000i64) as u32
    }
}

pub fn bits_to_i32(u: u32) -> (v: i32)
    ensures
        v == i32_of_u32(u),
{
    if u < 0x8000_0000 {
        u as i32
    } else {
        ((u as i64) - 0x1_0000_0000i64) as i32
    }
}

/// The 20 bytes of one record.
pub open spec fn spec_encode_entry(e: OverrideEntry) -> Seq<u8> {
    spec_u64_to_le_bytes(e.channel_id) + spec_u64_to_le_bytes(u64_of_i64(e.time.secs))
        + spec_u32_to_le_bytes(u32_of_i32(e.time.utc_offset_secs))
}

/// The entry denoted by one 20-byte record.
pub open spec fn spec_decode_entry(b: Seq<u8>) -> OverrideEntry
    recommends
        b.len() == RECORD_BYTES,
{
    OverrideEntry {
        channel_id: spec_u64_from_le_bytes(b.subrange(0, 8)),
        time: Timestamp {
            secs: i64_of_u64(spec_u64_from_le_bytes(b.subrange(8, 16))),
            utc_offset_secs: i32_of_u32(spec_u32_from_le_bytes(b.subrange(16, 20))),
        },
    }
}

/// The whole-file encoding: records packed in entry order, no delimiter.
pub open spec fn spec_encode(s: Seq<OverrideEntry>) -> Seq<u8>
    decreases s.len(),
{
    if s.len() == 0 {
        Seq::empty()
    } else {
        spec_encode(s.drop_last()) + spec_encode_entry(s.last())
    }
}

/// The entries of a file whose length is a whole number of records.
pub open spec fn spec_decode(b: Seq<u8>) -> Seq<OverrideEntry> {
    Seq::new(
        b.len() / RECORD_BYTES as nat,
        |i: int|
            spec_decode_entry(
                b.subrange((RECORD_BYTES as int) * i, (RECORD_BYTES as int) * i + RECORD_BYTES),
            ),
    )
}

/// Decoded entries with every repeated channel id dropped, keeping the first
/// record of each id, so the at-most-one-entry-per-channel invariant holds
/// whatever the file held.
pub open spec fn dedup_first(s: Seq<OverrideEntry>) -> Seq<OverrideEntry>
    decreases s.len(),
{
    if s.len() == 0 {
        Seq::empty()
    } else if has_override(s.drop_last(), s.last().channel_id) {
        dedup_first(s.drop_last())
    } else {
        dedup_first(s.drop_last()).push(s.last())
    }
}

pub proof fn lemma_encode_len(s: Seq<OverrideEntry>)
    ensures
        spec_encode(s).len() == (RECORD_BYTES as int) * s.len(),
    decreases s.len(),
{
    lemma_auto_spec_u64_to_from_le_bytes();
    lemma_auto_spec_u32_to_from_le_bytes();
    if s.len() > 0 {
        lemma_encode_len(s.drop_last());
    }
}

pub proof fn lemma_entry_round_trip(e: OverrideEntry)
    ensures
        spec_encode_entry(e).len() == RECORD_BYTES,
        spec_decode_entry(spec_encode_entry(e)) == e,
{
    lemma_auto_spec_u64_to_from_le_bytes();
    lemma_auto_spec_u32_to_from_le_bytes();
    let b = spec_encode_entry(e);
    assert(b.subrange(0, 8) =~= spec_u64_to_le_bytes(e.channel_id));
    assert(b.subrange(8, 16) =~= spec_u64_to_le_bytes(u64_of_i64(e.time.secs)));
    assert(b.subrange(16, 20) =~= spec_u32_to_le_bytes(u32_of_i32(e.time.utc_offset_secs)));
}

/// Decoding inverts encoding: a restart reconstructs the same table the
/// process persisted.
pub proof fn lemma_codec_round_trip(s: Seq<OverrideEntry>)
    ensures
        spec_decode(spec_encode(s)) == s,
    decreases s.len(),
{
    lemma_encode_len(s);
    let b = spec_encode(s);
    let d = spec_decode(b);
    assert(d.len() == s.len());
    if s.len() > 0 {
        lemma_codec_round_trip(s.drop_last());
        lemma_encode_len(s.drop_last());
        let bp = spec_encode(s.drop_last());
        assert forall|i: int| 0 <= i < s.len() implies d[i] == s[i] by {
            let w = RECORD_BYTES as int;
            if i < s.len() - 1 {
                assert(b.subrange(w * i, w * i + w) =~= bp.subrange(w * i, w * i + w));
                assert(spec_decode(bp)[i] == s.drop_last()[i]);
            } else {
                lemma_entry_round_trip(s.last());
                assert(b.subrange(w * i, w * i + w) =~= spec_encode_entry(s.last()));
            }
        }
        assert(d =~= s);
    } else {
        assert(d =~= s);
    }
}

/// A restart reconstructs the table exactly: loading the bytes a
/// well-formed store persisted yields that store back, entry for entry.
pub proof fn lemma_store_round_trip(s: Seq<OverrideEntry>)
    requires
        unique_ids(s),
    ensures
        dedup_first(spec_decode(spec_encode(s))) == s,
{
    lemma_codec_round_trip(s);
    lemma_dedup_first(s);
}

pub proof fn lemma_dedup_first(s: Seq<OverrideEntry>)
    ensures
        unique_ids(dedup_first(s)),
        forall|id: u64| has_override(dedup_first(s), id) == has_override(s, id),
        unique_ids(s) ==> dedup_first(s) == s,
    decreases s.len(),
{
    if s.len() > 0 {
        lemma_dedup_first(s.drop_last());
        let p = s.drop_last();
        let dp = dedup_first(p);
        assert forall|id: u64| has_override(dedup_first(s), id) == has_override(s, id) by {
            if has_override(p, s.last().channel_id) {
                // dedup_first(s) == dp
                if has_override(s, id) {
                    let k = choose|k: int| 0 <= k < s.len() && s[k].channel_id == id;
                    if k == s.len() - 1 {
                        assert(has_override(p, id));
                    } else {
                        assert(p[k].channel_id == id);
                        assert(has_override(p, id));
                    }
                }
                if has_override(p, id) {
                    let k = choose|k: int| 0 <= k < p.len() && p[k].channel_id == id;
                    assert(s[k].channel_id == id);
                }
            } else {
                let d = dedup_first(s);
                // d == dp.push(s.last())
                if has_override(s, id) {
                    let k = choose|k: int| 0 <= k < s.len() && s[k].channel_id == id;
                    if k == s.len() - 1 {
                        assert(d[d.len() - 1].channel_id == id);
                    } else {
                        assert(p[k].channel_id == id);
                        assert(has_override(p, id));
                        assert(has_override(dp, id));
                        let m = choose|m: int| 0 <= m < dp.len() && dp[m].channel_id == id;
                        assert(d[m].channel_id == id);
                    }
                }
                if has_override(d, id) {
                    let k = choose|k: int| 0 <= k < d.len() && d[k].channel_id == id;
                    if k == d.len() - 1 {
                        assert(s[s.len() - 1].channel_id == id);
                    } else {
                        assert(dp[k].channel_id == id);
                        assert(has_override(dp, id));
                        assert(has_override(p, id));
                        let m = choose|m: int| 0 <= m < p.len() && p[m].channel_id == id;
                        assert(s[m].channel_id == id);
                    }
                }
            }
        }
        if !has_override(p, s.last().channel_id) {
            let d = dedup_first(s);
            assert forall|i: int, j: int|
                0 <= i < j < d.len() implies d[i].channel_id != d[j].channel_id by {
                if j < d.len() - 1 {
                    assert(dp[i] == d[i] && dp[j] == d[j]);
                } else {
                    assert(d[i] == dp[i]);
                    if dp[i].channel_id == s.last().channel_id {
                        assert(has_override(dp, s.last().channel_id));
                    }
                }
            }
        }
        if unique_ids(s) {
            assert(unique_ids(p)) by {
                assert forall|i: int, j: int|
                    0 <= i < j < p.len() implies p[i].channel_id != p[j].channel_id by {
                    assert(s[i] == p[i] && s[j] == p[j]);
                }
            }
            assert(!has_override(p, s.last().channel_id)) by {
                if has_override(p, s.last().channel_id) {
                    let k = choose|k: int|
                        0 <= k < p.len() && p[k].channel_id == s.last().channel_id;
                    assert(s[k].channel_id == s[s.len() - 1].channel_id);
                }
            }
            assert(dedup_first(s) =~= s);
        }
    }
}

/// Encodes entries as the persisted file's bytes.
pub fn encode_entries(entries: &Vec<OverrideEntry>) -> (out: Vec<u8>)
    ensures
        out@ == spec_encode(entries@),
{
    let n = entries.len();
    let mut out: Vec<u8> = Vec::new();
    let mut i: usize = 0;
    assert(entries@.take(0) =~= Seq::<OverrideEntry>::empty());
    while i < n
        invariant
            0 <= i <= n,
            n == entries@.len(),
            out@ == spec_encode(entries@.take(i as int)),
        decreases n - i,
    {
        let e = entries[i];
        let mut id_bytes = u64_to_le_bytes(e.channel_id);
        let mut secs_bytes = u64_to_le_bytes(i64_to_bits(e.time.secs));
        let mut off_bytes = u32_to_le_bytes(i32_to_bits(e.time.utc_offset_secs));
        out.append(&mut id_bytes);
        out.append(&mut secs_bytes);
        out.append(&mut off_bytes);
        proof {
            assert(entries@.take(i as int + 1).drop_last() =~= entries@.take(i as int));
            assert(entries@.take(i as int + 1).last() == entries@[i as int]);
            assert(out@ =~= spec_encode(entries@.take(i as int))
                + spec_encode_entry(entries@[i as int]));
        }
        i = i + 1;
    }
    proof {
        assert(entries@.take(n as int) =~= entries@);
    }
    out
}

/// The persisted image of a store.
pub fn encode_store(store: &OverrideStore) -> (out: Vec<u8>)
    ensures
        out@ == spec_encode(store@),
{
    encode_entries(store.entries())
}

/// Decodes a file image into raw records.  A length that is not a whole
/// number of records is corrupt: the whole file is discarded and no entry is
/// returned.
pub fn decode_bytes(bytes: &Vec<u8>) -> (r: Vec<OverrideEntry>)
    ensures
        bytes@.len() % (RECORD_BYTES as nat) == 0 ==> r@ == spec_decode(bytes@),
        bytes@.len() % (RECORD_BYTES as nat) != 0 ==> r@ == Seq::<OverrideEntry>::empty(),
{
    let n = bytes.len();
    if n % RECORD_BYTES != 0 {
        return Vec::new();
    }
    let count = n / RECORD_BYTES;
    let mut out: Vec<OverrideEntry> = Vec::new();
    let mut k: usize = 0;
    while k < count
        invariant
            0 <= k <= count,
            n == bytes@.len(),
            count == n / RECORD_BYTES,
            n % RECORD_BYTES == 0,
            out@.len() == k,
            forall|j: int| 0 <= j < k ==> out@[j] == spec_decode(bytes@)[j],
        decreases count - k,
    {
        proof {
            assert((k as int) * (RECORD_BYTES as int) + (RECORD_BYTES as int)
                <= n as int) by (nonlinear_arith)
                requires
                    k < count,
                    count == n / RECORD_BYTES,
                    n % RECORD_BYTES == 0,
                    RECORD_BYTES == 20,
            ;
        }
        let base = k * RECORD_BYTES;
        let id = u64_from_le_bytes(slice_subrange(bytes.as_slice(), base, base + 8));
        let secs_bits = u64_from_le_bytes(slice_subrange(bytes.as_slice(), base + 8, base + 16));
        let off_bits = u32_from_le_bytes(slice_subrange(bytes.as_slice(), base + 16, base + 20));
        let entry = OverrideEntry {
            channel_id: id,
            time: Timestamp {
                secs: bits_to_i64(secs_bits),
                utc_offset_secs: bits_to_i32(off_bits),
            },
        };
        proof {
            assert(base as int == (RECORD_BYTES as int) * (k as int)) by (nonlinear_arith)
                requires
                    base == k * RECORD_BYTES,
            ;
            let w = RECORD_BYTES as int;
            let chunk = bytes@.subrange(w * (k as int), w * (k as int) + w);
            assert(bytes@.subrange(base as int, base as int + 8) =~= chunk.subrange(0, 8));
            assert(bytes@.subrange(base as int + 8, base as int + 16) =~= chunk.subrange(8, 16));
            assert(bytes@.subrange(base as int + 16, base as int + 20) =~= chunk.subrange(16, 20));
            assert(k < bytes@.len() / (RECORD_BYTES as nat)) by (nonlinear_arith)
                requires
                    k < count,
                    count == n / RECORD_BYTES,
                    n == bytes@.len(),
                    RECORD_BYTES == 20,
            ;
            assert(entry == spec_decode(bytes@)[k as int]);
        }
        out.push(entry);
        k = k + 1;
    }
    proof {
        assert(out@.len() == bytes@.len() / (RECORD_BYTES as nat)) by (nonlinear_arith)
            requires
                out@.len() == count,
                count == n / RECORD_BYTES,
                n == bytes@.len(),
                RECORD_BYTES == 20,
        ;
        assert(out@ =~= spec_decode(bytes@));
    }
    out
}

/// Whether some entry of `v` names `id`.
pub fn entries_contain_id(v: &Vec<OverrideEntry>, id: u64) -> (r: bool)
    ensures
        r == has_override(v@, id),
{
    let n = v.len();
    let mut i: usize = 0;
    while i < n
        invariant
            0 <= i <= n,
            n == v@.len(),
            forall|j: int| 0 <= j < i ==> v@[j].channel_id != id,
        decreases n - i,
    {
        if v[i].channel_id == id {
            return true;
        }
        i = i + 1;
    }
    false
}

/// Reconstructs the override store from a persisted file image.  A corrupt
/// image (length not a whole number of records) yields the empty store; a
/// repeated channel id keeps its first record, so the store is well-formed
/// whatever the file held.  The missing-file case is the caller's: it loads
/// from an empty image.
pub fn load_store(bytes: &Vec<u8>) -> (r: OverrideStore)
    ensures
        r.wf(),
        bytes@.len() % (RECORD_BYTES as nat) == 0 ==> r@ == dedup_first(spec_decode(bytes@)),
        bytes@.len() % (RECORD_BYTES as nat) != 0 ==> r@ == Seq::<OverrideEntry>::empty(),
{
    let raw = decode_bytes(bytes);
    let n = raw.len();
    let mut kept: Vec<OverrideEntry> = Vec::new();
    let mut i: usize = 0;
    assert(raw@.take(0) =~= Seq::<OverrideEntry>::empty());
    while i < n
        invariant
            0 <= i <= n,
            n == raw@.len(),
            kept@ == dedup_first(raw@.take(i as int)),
            forall|id: u64|
                has_override(kept@, id) == has_override(raw@.take(i as int), id),
        decreases n - i,
    {
        let e = raw[i];
        proof {
            assert(raw@.take(i as int + 1).drop_last() =~= raw@.take(i as int));
            assert(raw@.take(i as int + 1).last() == raw@[i as int]);
        }
        let ghost kept0 = kept@;
        let dup = entries_contain_id(&kept, e.channel_id);
        if !dup {
            kept.push(e);
        }
        proof {
            let t1 = raw@.take(i as int + 1);
            let t0 = raw@.take(i as int);
            assert(dup == has_override(t0, e.channel_id));
            assert forall|id: u64|
                has_override(kept@, id) == has_override(t1, id) by {
                if has_override(t1, id) {
                    let k = choose|k: int| 0 <= k < t1.len() && #[trigger] t1[k].channel_id == id;
                    if k < i {
                        assert(t0[k].channel_id == id);
                        assert(has_override(t0, id));
                        assert(has_override(kept0, id));
                        let m = choose|m: int|
                            0 <= m < kept0.len() && #[trigger] kept0[m].channel_id == id;
                        assert(kept@[m].channel_id == id);
                        assert(has_override(kept@, id));
                    } else {
                        assert(id == e.channel_id);
                        if dup {
                            assert(has_override(kept0, id));
                            let m = choose|m: int|
                                0 <= m < kept0.len() && #[trigger] kept0[m].channel_id == id;
                            assert(kept@[m].channel_id == id);
                        } else {
                            assert(kept@[kept@.len() - 1].channel_id == id);
                        }
                        assert(has_override(kept@, id));
                    }
                }
                if has_override(kept@, id) {
                    let k = choose|k: int|
                        0 <= k < kept@.len() && #[trigger] kept@[k].channel_id == id;
                    if !dup && k == kept@.len() - 1 {
                        assert(t1[i as int].channel_id == id);
                        assert(has_override(t1, id));
                    } else {
                        assert(kept0[k].channel_id == id);
                        assert(has_override(kept0, id));
                        assert(has_override(t0, id));
                        let m = choose|m: int|
                            0 <= m < t0.len() && #[trigger] t0[m].channel_id == id;
                        assert(t1[m].channel_id == id);
                        assert(has_override(t1, id));
                    }
                }
            }
            assert(kept@ == dedup_first(t1));
        }
        i = i + 1;
    }
    proof {
        assert(raw@.take(n as int) =~= raw@);
        lemma_dedup_first(raw@);
    }
    OverrideStore::from_entries(kept)
}

} // verus!
