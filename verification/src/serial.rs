//! The stable serialized form of a data map: a version byte, a child-marker
//! byte, the child level and the record count as 64-bit little-endian words,
//! then one 80-byte record per chunk (index, raw hash, address, size).
//! Decoding accepts exactly what encoding produces: the round trip is lossless.
use vstd::prelude::*;
use vstd::bytes::{
    spec_u64_to_le_bytes,
    spec_u64_from_le_bytes,
    lemma_auto_spec_u64_to_from_le_bytes,
    u64_to_le_bytes,
    u64_from_le_bytes,
};
use vstd::slice::{slice_subrange, slice_to_vec};
use crate::datamap::{
    ChunkInfo,
    ChunkInfoModel,
    DataMap,
    DataMapModel,
    Error,
    ErrorModel,
    map_wf,
    info_wf,
};
use crate::cipher::append_bytes;

verus! {

/// Serialized form of one record: index, raw hash, address, size.
pub open spec fn spec_ser_info(ci: ChunkInfoModel) -> Seq<u8> {
    spec_u64_to_le_bytes(ci.index as u64) + ci.src_hash + ci.dst_hash + spec_u64_to_le_bytes(
        ci.size as u64,
    )
}

/// Serialized form of the records from position `k` on.
pub open spec fn spec_ser_infos_from(infos: Seq<ChunkInfoModel>, k: int) -> Seq<u8>
    decreases infos.len() - k,
{
    if k < 0 || k >= infos.len() {
        Seq::empty()
    } else {
        spec_ser_info(infos[k]) + spec_ser_infos_from(infos, k + 1)
    }
}

/// The child-marker byte: 0 for a base map, 1 above a child.
pub open spec fn spec_child_flag(child: Option<nat>) -> u8 {
    match child {
        Option::None => 0u8,
        Option::Some(_) => 1u8,
    }
}

/// The recorded child level, 0 for a base map.
pub open spec fn spec_child_level(child: Option<nat>) -> u64 {
    match child {
        Option::None => 0u64,
        Option::Some(l) => l as u64,
    }
}

/// The full serialized form of a data map.
pub open spec fn spec_serialize(infos: Seq<ChunkInfoModel>, child: Option<nat>) -> Seq<u8> {
    seq![1u8, spec_child_flag(child)] + spec_u64_to_le_bytes(spec_child_level(child))
        + spec_u64_to_le_bytes(infos.len() as u64) + spec_ser_infos_from(infos, 0)
}

/// Offset of record `k` in the serialized form.
pub open spec fn rec_off(k: int) -> int {
    18 + 80 * k
}

/// The index word of record `k` of serialized bytes `s`.
pub open spec fn rec_idx(s: Seq<u8>, k: int) -> u64 {
    spec_u64_from_le_bytes(s.subrange(rec_off(k), rec_off(k) + 8))
}

/// The raw hash of record `k` of serialized bytes `s`.
pub open spec fn rec_src(s: Seq<u8>, k: int) -> Seq<u8> {
    s.subrange(rec_off(k) + 8, rec_off(k) + 40)
}

/// The address of record `k` of serialized bytes `s`.
pub open spec fn rec_dst(s: Seq<u8>, k: int) -> Seq<u8> {
    s.subrange(rec_off(k) + 40, rec_off(k) + 72)
}

/// The size word of record `k` of serialized bytes `s`.
pub open spec fn rec_size(s: Seq<u8>, k: int) -> u64 {
    spec_u64_from_le_bytes(s.subrange(rec_off(k) + 72, rec_off(k) + 80))
}

/// Record `k` decodes only if its stored index is its position and its size
/// fits a machine word.
pub open spec fn rec_ok(s: Seq<u8>, k: int) -> bool {
    rec_idx(s, k) == k && rec_size(s, k) <= usize::MAX
}

/// The record model decoded from record `k` of serialized bytes `s`.
pub open spec fn rec_model(s: Seq<u8>, k: int) -> ChunkInfoModel {
    ChunkInfoModel {
        index: rec_idx(s, k) as usize,
        src_hash: rec_src(s, k),
        dst_hash: rec_dst(s, k),
        size: rec_size(s, k) as usize,
    }
}

/// Decoding of the records `k` to `n` of serialized bytes `s`.
pub open spec fn spec_deser_infos(s: Seq<u8>, n: int, k: int) -> Option<Seq<ChunkInfoModel>>
    decreases n - k,
{
    if k >= n {
        Option::Some(Seq::empty())
    } else if !rec_ok(s, k) {
        Option::None
    } else {
        match spec_deser_infos(s, n, k + 1) {
            Option::None => Option::None,
            Option::Some(rest) => Option::Some(seq![rec_model(s, k)] + rest),
        }
    }
}

/// Decoding of a full serialized data map; `None` where the bytes are not
/// the serialized form of any map.
pub open spec fn spec_deserialize(s: Seq<u8>) -> Option<DataMapModel> {
    if s.len() < 18 {
        Option::None
    } else if s[0] != 1 {
        Option::None
    } else if s[1] != 0 && s[1] != 1 {
        Option::None
    } else {
        let lvl = spec_u64_from_le_bytes(s.subrange(2, 10));
        let n = spec_u64_from_le_bytes(s.subrange(10, 18));
        if s[1] == 0 && lvl != 0 {
            Option::None
        } else if n > usize::MAX || lvl > usize::MAX {
            Option::None
        } else if s.len() != 18 + 80 * n {
            Option::None
        } else {
            match spec_deser_infos(s, n as int, 0) {
                Option::None => Option::None,
                Option::Some(infos) => Option::Some(
                    DataMapModel {
                        infos,
                        child: if s[1] == 0 {
                            Option::None
                        } else {
                            Option::Some(lvl as nat)
                        },
                    },
                ),
            }
        }
    }
}

/// Records of 32-byte hashes serialize to 80 bytes each.
pub proof fn lemma_ser_infos_from_len(infos: Seq<ChunkInfoModel>, k: int)
    requires
        0 <= k <= infos.len(),
        forall|i: int|
            0 <= i < infos.len() ==> (#[trigger] infos[i]).src_hash.len() == 32
                && infos[i].dst_hash.len() == 32,
    ensures
        spec_ser_infos_from(infos, k).len() == 80 * (infos.len() - k),
    decreases infos.len() - k,
{
    lemma_auto_spec_u64_to_from_le_bytes();
    if k < infos.len() {
        lemma_ser_infos_from_len(infos, k + 1);
    }
}

/// A serialized well-formed map is 18 bytes of header plus 80 per record.
pub proof fn lemma_serialize_len(infos: Seq<ChunkInfoModel>, child: Option<nat>)
    requires
        forall|i: int|
            0 <= i < infos.len() ==> (#[trigger] infos[i]).src_hash.len() == 32
                && infos[i].dst_hash.len() == 32,
    ensures
        spec_serialize(infos, child).len() == 18 + 80 * infos.len(),
{
    lemma_auto_spec_u64_to_from_le_bytes();
    lemma_ser_infos_from_len(infos, 0);
}

/// The record region of a serialized map, from record `k` on, is exactly the
/// serialization of the records from `k` on.
proof fn lemma_ser_align(infos: Seq<ChunkInfoModel>, child: Option<nat>, k: int)
    requires
        0 <= k <= infos.len(),
        forall|i: int|
            0 <= i < infos.len() ==> (#[trigger] infos[i]).src_hash.len() == 32
                && infos[i].dst_hash.len() == 32,
    ensures
        spec_serialize(infos, child).subrange(
            rec_off(k),
            spec_serialize(infos, child).len() as int,
        ) == spec_ser_infos_from(infos, k),
    decreases k,
{
    lemma_auto_spec_u64_to_from_le_bytes();
    lemma_serialize_len(infos, child);
    lemma_ser_infos_from_len(infos, k);
    let s = spec_serialize(infos, child);
    if k == 0 {
        assert(s.subrange(18, s.len() as int) =~= spec_ser_infos_from(infos, 0));
    } else {
        lemma_ser_align(infos, child, k - 1);
        lemma_ser_infos_from_len(infos, k - 1);
        assert(spec_ser_infos_from(infos, k - 1) == spec_ser_info(infos[k - 1])
            + spec_ser_infos_from(infos, k));
        assert(s.subrange(rec_off(k), s.len() as int) =~= s.subrange(
            rec_off(k - 1),
            s.len() as int,
        ).subrange(80, 80 * (infos.len() - k + 1)));
        assert(s.subrange(rec_off(k - 1), s.len() as int).subrange(
            80,
            80 * (infos.len() - k + 1),
        ) =~= spec_ser_infos_from(infos, k));
    }
}

/// Record `k` of a serialized well-formed map decodes back to record `k`.
proof fn lemma_ser_rec(infos: Seq<ChunkInfoModel>, child: Option<nat>, k: int)
    requires
        0 <= k < infos.len(),
        forall|i: int|
            0 <= i < infos.len() ==> (#[trigger] infos[i]).src_hash.len() == 32
                && infos[i].dst_hash.len() == 32,
        infos[k].index == k,
    ensures
        rec_ok(spec_serialize(infos, child), k),
        rec_model(spec_serialize(infos, child), k) == infos[k],
{
    lemma_auto_spec_u64_to_from_le_bytes();
    lemma_serialize_len(infos, child);
    lemma_ser_align(infos, child, k);
    lemma_ser_infos_from_len(infos, k);
    let s = spec_serialize(infos, child);
    let ci = infos[k];
    let record = spec_ser_info(ci);
    assert(record.len() == 80);
    assert(s.subrange(rec_off(k), rec_off(k) + 80) =~= spec_ser_infos_from(infos, k).subrange(
        0,
        80,
    ));
    assert(spec_ser_infos_from(infos, k).subrange(0, 80) =~= record);
    assert(s.subrange(rec_off(k), rec_off(k) + 8) =~= record.subrange(0, 8));
    assert(record.subrange(0, 8) =~= spec_u64_to_le_bytes(ci.index as u64));
    assert(rec_idx(s, k) == ci.index as u64);
    assert(s.subrange(rec_off(k) + 8, rec_off(k) + 40) =~= record.subrange(8, 40));
    assert(record.subrange(8, 40) =~= ci.src_hash);
    assert(s.subrange(rec_off(k) + 40, rec_off(k) + 72) =~= record.subrange(40, 72));
    assert(record.subrange(40, 72) =~= ci.dst_hash);
    assert(s.subrange(rec_off(k) + 72, rec_off(k) + 80) =~= record.subrange(72, 80));
    assert(record.subrange(72, 80) =~= spec_u64_to_le_bytes(ci.size as u64));
    assert(rec_size(s, k) == ci.size as u64);
}

/// Where every record from `k` on decodes, the decoded sequence is exactly
/// the models of those records.
proof fn lemma_deser_infos_some(s: Seq<u8>, n: int, k: int)
    requires
        0 <= k <= n,
        forall|j: int| k <= j < n ==> rec_ok(s, j),
    ensures
        spec_deser_infos(s, n, k) matches Option::Some(r) && r.len() == n - k && (forall|t: int|
            0 <= t < n - k ==> r[t] == rec_model(s, k + t)),
    decreases n - k,
{
    if k < n {
        lemma_deser_infos_some(s, n, k + 1);
    }
}

/// Where record `j0` fails to decode, the whole record region fails.
proof fn lemma_deser_infos_none(s: Seq<u8>, n: int, k: int, j0: int)
    requires
        0 <= k <= j0 < n,
        !rec_ok(s, j0),
    ensures
        spec_deser_infos(s, n, k) is None,
    decreases n - k,
{
    if k < j0 {
        lemma_deser_infos_none(s, n, k + 1, j0);
    }
}

/// Decoding inverts encoding: the serialized form of a well-formed map
/// decodes back to exactly that map.
pub proof fn lemma_serialize_round_trip(infos: Seq<ChunkInfoModel>, child: Option<nat>)
    requires
        map_wf(DataMapModel { infos, child }),
        infos.len() <= usize::MAX,
    ensures
        spec_deserialize(spec_serialize(infos, child)) == Option::Some(
            DataMapModel { infos, child },
        ),
{
    lemma_auto_spec_u64_to_from_le_bytes();
    let ghost dm = DataMapModel { infos, child };
    assert forall|i: int|
        0 <= i < infos.len() implies (#[trigger] infos[i]).src_hash.len() == 32
        && infos[i].dst_hash.len() == 32 && infos[i].index == i by {
        assert(info_wf(dm.infos[i]) && dm.infos[i].index == i);
    }
    lemma_serialize_len(infos, child);
    let s = spec_serialize(infos, child);
    let n = infos.len() as int;
    assert(s[0] == 1);
    assert(s[1] == spec_child_flag(child));
    assert(s.subrange(2, 10) =~= spec_u64_to_le_bytes(spec_child_level(child)));
    assert(s.subrange(10, 18) =~= spec_u64_to_le_bytes(n as u64));
    assert(spec_u64_from_le_bytes(s.subrange(2, 10)) == spec_child_level(child));
    assert(spec_u64_from_le_bytes(s.subrange(10, 18)) == n as u64);
    assert forall|j: int| 0 <= j < n implies rec_ok(s, j) by {
        lemma_ser_rec(infos, child, j);
    }
    lemma_deser_infos_some(s, n, 0);
    let decoded = spec_deser_infos(s, n, 0)->Some_0;
    assert forall|t: int| 0 <= t < n implies decoded[t] == infos[t] by {
        lemma_ser_rec(infos, child, t);
    }
    assert(decoded =~= infos);
    match child {
        Option::None => {
            assert(spec_deserialize(s) == Option::Some(DataMapModel { infos, child }));
        },
        Option::Some(l) => {
            assert(spec_child_level(child) as nat == l);
            assert(spec_deserialize(s) == Option::Some(DataMapModel { infos, child }));
        },
    }
}

impl DataMap {
    /// Encodes this map in its stable serialized form.
    pub fn serialize(&self) -> (r: Vec<u8>)
        ensures
            r@ == spec_serialize(self@.infos, self@.child),
    {
        let infos: &Vec<ChunkInfo> = self.infos();
        let child: Option<usize> = self.child();
        let ghost ginfos = self@.infos;
        let mut out: Vec<u8> = Vec::new();
        out.push(1u8);
        match child {
            Option::None => out.push(0u8),
            Option::Some(_) => out.push(1u8),
        }
        let level: u64 = match child {
            Option::None => 0,
            Option::Some(l) => l as u64,
        };
        let lvl_bytes: Vec<u8> = u64_to_le_bytes(level);
        append_bytes(&mut out, &lvl_bytes);
        let n_bytes: Vec<u8> = u64_to_le_bytes(infos.len() as u64);
        append_bytes(&mut out, &n_bytes);
        let ghost header = seq![1u8, spec_child_flag(self@.child)] + spec_u64_to_le_bytes(
            spec_child_level(self@.child),
        ) + spec_u64_to_le_bytes(ginfos.len() as u64);
        proof {
            assert(level == spec_child_level(self@.child));
            assert(infos@.len() == ginfos.len());
            assert(out@ =~= header);
        }
        let mut k: usize = 0;
        while k < infos.len()
            invariant
                k <= infos@.len(),
                ginfos == infos@.map_values(|ci: ChunkInfo| ci@),
                ginfos.len() == infos@.len(),
                out@ + spec_ser_infos_from(ginfos, k as int) == header + spec_ser_infos_from(
                    ginfos,
                    0,
                ),
            decreases infos@.len() - k,
        {
            let ci: &ChunkInfo = &infos[k];
            proof {
                assert(ginfos[k as int] == ci@);
            }
            let idx_bytes: Vec<u8> = u64_to_le_bytes(ci.index as u64);
            append_bytes(&mut out, &idx_bytes);
            append_bytes(&mut out, &ci.src_hash);
            append_bytes(&mut out, &ci.dst_hash);
            let size_bytes: Vec<u8> = u64_to_le_bytes(ci.size as u64);
            append_bytes(&mut out, &size_bytes);
            proof {
                assert(spec_ser_infos_from(ginfos, k as int) == spec_ser_info(ginfos[k as int])
                    + spec_ser_infos_from(ginfos, k as int + 1));
                assert(out@ + spec_ser_infos_from(ginfos, k as int + 1) =~= header
                    + spec_ser_infos_from(ginfos, 0));
            }
            k = k + 1;
        }
        proof {
            assert(spec_ser_infos_from(ginfos, ginfos.len() as int) =~= Seq::<u8>::empty());
            assert(out@ =~= out@ + spec_ser_infos_from(ginfos, ginfos.len() as int));
            assert(out@ =~= spec_serialize(self@.infos, self@.child));
        }
        out
    }

    /// Decodes a map from its stable serialized form; refuses all bytes that
    /// `serialize` cannot produce.
    pub fn deserialize(bytes: &[u8]) -> (r: Result<DataMap, Error>)
        ensures
            match spec_deserialize(bytes@) {
                Option::Some(dm) => r matches Ok(d) && d@ == dm,
                Option::None => r matches Err(e) && e@ == ErrorModel::SerializationError,
            },
    {
        proof {
            lemma_auto_spec_u64_to_from_le_bytes();
        }
        let len: usize = bytes.len();
        if len < 18 {
            return Err(Error::SerializationError);
        }
        if bytes[0] != 1 {
            return Err(Error::SerializationError);
        }
        let flag: u8 = bytes[1];
        if flag != 0 && flag != 1 {
            return Err(Error::SerializationError);
        }
        let lvl: u64 = u64_from_le_bytes(slice_subrange(bytes, 2, 10));
        let n64: u64 = u64_from_le_bytes(slice_subrange(bytes, 10, 18));
        if flag == 0 && lvl != 0 {
            return Err(Error::SerializationError);
        }
        if n64 > usize::MAX as u64 || lvl > usize::MAX as u64 {
            return Err(Error::SerializationError);
        }
        let n: usize = n64 as usize;
        if n > (usize::MAX - 18) / 80 {
            proof {
                vstd::arithmetic::div_mod::lemma_fundamental_div_mod(
                    usize::MAX as int - 18,
                    80,
                );
                assert(18 + 80 * (n as int) > usize::MAX as int);
            }
            return Err(Error::SerializationError);
        }
        if len != 18 + 80 * n {
            return Err(Error::SerializationError);
        }
        let mut infos: Vec<ChunkInfo> = Vec::new();
        let mut k: usize = 0;
        while k < n
            invariant
                k <= n,
                n <= (usize::MAX - 18) / 80,
                18 + 80 * (n as int) == bytes@.len(),
                infos@.len() == k as int,
                forall|j: int| 0 <= j < k as int ==> rec_ok(bytes@, j),
                forall|j: int|
                    0 <= j < k as int ==> (#[trigger] infos@[j])@ == rec_model(bytes@, j),
            decreases n - k,
        {
            let off: usize = 18 + 80 * k;
            let idx64: u64 = u64_from_le_bytes(slice_subrange(bytes, off, off + 8));
            let size64: u64 = u64_from_le_bytes(slice_subrange(bytes, off + 72, off + 80));
            if idx64 != k as u64 || size64 > usize::MAX as u64 {
                proof {
                    lemma_deser_infos_none(bytes@, n as int, 0, k as int);
                }
                return Err(Error::SerializationError);
            }
            let src: Vec<u8> = slice_to_vec(slice_subrange(bytes, off + 8, off + 40));
            let dst: Vec<u8> = slice_to_vec(slice_subrange(bytes, off + 40, off + 72));
            let ci = ChunkInfo { index: k, src_hash: src, dst_hash: dst, size: size64 as usize };
            proof {
                assert(rec_ok(bytes@, k as int));
                assert(ci@ == rec_model(bytes@, k as int));
            }
            infos.push(ci);
            k = k + 1;
        }
        proof {
            lemma_deser_infos_some(bytes@, n as int, 0);
            let decoded = spec_deser_infos(bytes@, n as int, 0)->Some_0;
            assert(infos@.map_values(|ci: ChunkInfo| ci@) =~= decoded);
        }
        if flag == 0 {
            Ok(DataMap::new(infos))
        } else {
            Ok(DataMap::new_with_child(infos, lvl as usize))
        }
    }
}

} // verus!
