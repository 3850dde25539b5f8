//! Streaming reconstruction: the child chain is resolved once, then the
//! base level's chunks are decrypted one at a time, in index order, without
//! holding more than one decrypted segment in memory. A failed segment does
//! not advance the stream, so a caller may refill the store and ask again.
use vstd::prelude::*;
use crate::cipher::{seq_views, derive_seed, apply_pad, append_bytes};
use crate::hashing::{hash_of, content_hash};
use crate::datamap::{
    ChunkInfo,
    ChunkInfoModel,
    DataMap,
    DataMapModel,
    Error,
    ErrorModel,
    child_depth,
    child_view,
};
use crate::decrypt::{
    ChunkStore,
    bytes_eq,
    infos_hashes,
    spec_decrypt_chunk,
    spec_decrypt_level_from,
    spec_decrypt_level,
    decrypt_level,
};
use crate::serial::spec_deserialize;

verus! {

/// The base level of a data map chain: the records that describe the
/// original stream, after every child marker has been resolved through the
/// store. Fails exactly where buffered reconstruction would fail while
/// resolving the chain.
pub open spec fn spec_base_infos(
    infos: Seq<ChunkInfoModel>,
    child: Option<nat>,
    store: Map<Seq<u8>, Seq<u8>>,
) -> Result<Seq<ChunkInfoModel>, ErrorModel>
    decreases child_depth(child),
{
    match child {
        Option::None => Result::Ok(infos),
        Option::Some(lvl) => match spec_decrypt_level(infos, store) {
            Result::Err(e) => Result::Err(e),
            Result::Ok(bytes) => match spec_deserialize(bytes) {
                Option::None => Result::Err(ErrorModel::SerializationError),
                Option::Some(dm2) => if child_depth(dm2.child) <= lvl {
                    spec_base_infos(dm2.infos, dm2.child, store)
                } else {
                    Result::Err(ErrorModel::SerializationError)
                },
            },
        },
    }
}

/// What one streaming step yields at position `i`: the decrypted segment,
/// the end of the stream, or the failure buffered reconstruction would
/// report for that chunk.
pub open spec fn spec_stream_step(
    infos: Seq<ChunkInfoModel>,
    store: Map<Seq<u8>, Seq<u8>>,
    i: int,
) -> Result<Option<Seq<u8>>, ErrorModel> {
    if i >= infos.len() {
        Result::Ok(Option::None)
    } else {
        let addr = infos[i].dst_hash;
        if !store.contains_key(addr) {
            Result::Err(ErrorModel::ChunkFetchError(addr))
        } else {
            let raw = spec_decrypt_chunk(infos, i, store[addr]);
            if hash_of(raw) != infos[i].src_hash {
                Result::Err(ErrorModel::IntegrityMismatch(addr))
            } else {
                Result::Ok(Option::Some(raw))
            }
        }
    }
}

/// Buffered reconstruction is the concatenation of the streaming steps:
/// where the whole level decrypts to `b`, step `i` yields exactly the bytes
/// that `b` holds between the accumulated lengths, and never an error.
pub proof fn lemma_stream_matches_decrypt(
    infos: Seq<ChunkInfoModel>,
    store: Map<Seq<u8>, Seq<u8>>,
    i: int,
)
    requires
        0 <= i <= infos.len(),
        spec_decrypt_level(infos, store) is Ok,
    ensures
        spec_decrypt_level_from(infos, store, i) is Ok,
        i < infos.len() ==> spec_stream_step(infos, store, i) == Result::<
            Option<Seq<u8>>,
            ErrorModel,
        >::Ok(
            Option::Some(
                spec_decrypt_level_from(infos, store, i)->Ok_0.take(
                    spec_decrypt_chunk(infos, i, store[infos[i].dst_hash]).len() as int,
                ),
            ),
        ),
        i >= infos.len() ==> spec_stream_step(infos, store, i) == Result::<
            Option<Seq<u8>>,
            ErrorModel,
        >::Ok(Option::<Seq<u8>>::None),
    decreases i,
{
    if i > 0 {
        lemma_stream_matches_decrypt(infos, store, i - 1);
    }
    if i < infos.len() {
        let raw = spec_decrypt_chunk(infos, i, store[infos[i].dst_hash]);
        let rest = spec_decrypt_level_from(infos, store, i + 1)->Ok_0;
        assert((raw + rest).take(raw.len() as int) =~= raw);
    }
}

/// The streaming path reconstructs exactly what the buffered path does:
/// resolving the chain to its base records and then decrypting them level
/// style is the same function as full reconstruction, failures included.
pub proof fn lemma_streaming_resolves_like_decrypt(
    infos: Seq<ChunkInfoModel>,
    child: Option<nat>,
    store: Map<Seq<u8>, Seq<u8>>,
)
    ensures
        crate::decrypt::spec_decrypt(DataMapModel { infos, child }, store) == (
        match spec_base_infos(infos, child, store) {
            Result::Err(e) => Result::<Seq<u8>, ErrorModel>::Err(e),
            Result::Ok(base) => spec_decrypt_level(base, store),
        }),
    decreases child_depth(child),
{
    if let Option::Some(lvl) = child {
        if let Result::Ok(bytes) = spec_decrypt_level(infos, store) {
            if let Option::Some(dm2) = spec_deserialize(bytes) {
                if child_depth(dm2.child) <= lvl {
                    lemma_streaming_resolves_like_decrypt(dm2.infos, dm2.child, store);
                }
            }
        }
    }
}

/// A single-pass reconstruction of a data map chain, one segment at a time.
pub struct StreamingDecrypt {
    infos: Vec<ChunkInfo>,
    hashes: Vec<Vec<u8>>,
    pos: usize,
}

/// The mathematical shadow of a streaming reconstruction: the base records
/// and the position of the next segment.
pub ghost struct StreamModel {
    pub infos: Seq<ChunkInfoModel>,
    pub pos: usize,
}

impl View for StreamingDecrypt {
    type V = StreamModel;

    closed spec fn view(&self) -> StreamModel {
        StreamModel { infos: self.infos@.map_values(|ci: ChunkInfo| ci@), pos: self.pos }
    }
}

impl StreamingDecrypt {
    /// The stream's private parts agree: one recorded raw hash per record,
    /// and a position no further than one past the last record.
    pub closed spec fn wf(&self) -> bool {
        &&& self.pos <= self.infos@.len()
        &&& self.hashes@.len() == self.infos@.len()
        &&& seq_views(self.hashes@) == infos_hashes(self.infos@.map_values(|ci: ChunkInfo| ci@))
    }

    /// Opens a stream over the base level of `dm`, resolving any chain of
    /// child maps through the store first.
    pub fn new(dm: &DataMap, store: &ChunkStore) -> (r: Result<StreamingDecrypt, Error>)
        ensures
            (match spec_base_infos(dm@.infos, dm@.child, store@) {
                Result::Ok(base) => r matches Ok(s) && s.wf() && s@.infos == base && s@.pos == 0,
                Result::Err(e) => r matches Err(er) && er@ == e,
            }),
    {
        let mut infos: Vec<ChunkInfo> = copy_infos(dm.infos());
        let mut child: Option<usize> = dm.child();
        loop
            invariant
                (spec_base_infos(dm@.infos, dm@.child, store@) == spec_base_infos(
                    infos@.map_values(|ci: ChunkInfo| ci@),
                    child_view(child),
                    store@,
                )),
            ensures
                child is None,
            decreases child_depth(child_view(child)),
        {
            match child {
                Option::None => {
                    break ;
                },
                Option::Some(lvl) => {
                    let bytes: Vec<u8> = match decrypt_level(&infos, store) {
                        Ok(b) => b,
                        Err(e) => {
                            return Err(e);
                        },
                    };
                    let dm2: DataMap = match DataMap::deserialize(bytes.as_slice()) {
                        Ok(d) => d,
                        Err(e) => {
                            return Err(e);
                        },
                    };
                    let ok_depth: bool = match dm2.child() {
                        Option::None => true,
                        Option::Some(l2) => l2 < lvl,
                    };
                    if !ok_depth {
                        return Err(Error::SerializationError);
                    }
                    let parts = dm2.into_parts();
                    infos = parts.0;
                    child = parts.1;
                },
            }
        }
        let ghost v = infos@.map_values(|ci: ChunkInfo| ci@);
        let n: usize = infos.len();
        let mut hashes: Vec<Vec<u8>> = Vec::new();
        let mut k: usize = 0;
        while k < n
            invariant
                k <= n,
                n as int == infos@.len(),
                v == infos@.map_values(|ci: ChunkInfo| ci@),
                hashes@.len() == k as int,
                forall|j: int| 0 <= j < k as int ==> #[trigger] hashes@[j]@ == v[j].src_hash,
            decreases n - k,
        {
            let mut h: Vec<u8> = Vec::new();
            append_bytes(&mut h, &infos[k].src_hash);
            hashes.push(h);
            k = k + 1;
        }
        proof {
            assert(seq_views(hashes@) =~= infos_hashes(v));
        }
        Ok(StreamingDecrypt { infos, hashes, pos: 0 })
    }

    /// How many segments the stream will yield in all.
    pub fn segment_count(&self) -> (r: usize)
        ensures
            r as int == self@.infos.len(),
    {
        self.infos.len()
    }

    /// The content address the next segment will be fetched from, if the
    /// stream is not exhausted: what a caller should load into the store
    /// before asking for the segment.
    pub fn next_address(&self) -> (r: Option<Vec<u8>>)
        requires
            self.wf(),
        ensures
            (match r {
                Option::Some(a) => self@.pos < self@.infos.len() && a@ == self@.infos[
                    self@.pos as int
                ].dst_hash,
                Option::None => self@.pos >= self@.infos.len(),
            }),
    {
        if self.pos < self.infos.len() {
            let mut addr: Vec<u8> = Vec::new();
            append_bytes(&mut addr, &self.infos[self.pos].dst_hash);
            Option::Some(addr)
        } else {
            Option::None
        }
    }

    /// Decrypts and yields the next segment, in index order; `None` once the
    /// stream is exhausted. A failure reports the address at fault and does
    /// not advance the stream.
    pub fn next_segment(&mut self, store: &ChunkStore) -> (r: Result<Option<Vec<u8>>, Error>)
        requires
            old(self).wf(),
        ensures
            final(self).wf(),
            final(self)@.infos == old(self)@.infos,
            (match spec_stream_step(old(self)@.infos, store@, old(self)@.pos as int) {
                Result::Ok(Option::Some(seg)) => r matches Ok(o) && o matches Some(v) && v@ == seg
                    && final(self)@.pos == old(self)@.pos + 1,
                Result::Ok(Option::None) => r matches Ok(o) && o is None && final(self)@.pos
                    == old(self)@.pos,
                Result::Err(e) => r matches Err(er) && er@ == e && final(self)@.pos == old(
                    self,
                )@.pos,
            }),
    {
        let ghost v = self.infos@.map_values(|ci: ChunkInfo| ci@);
        if self.pos >= self.infos.len() {
            return Ok(Option::None);
        }
        let i: usize = self.pos;
        proof {
            assert(v[i as int] == self.infos@[i as int]@);
        }
        match store.get(self.infos[i].dst_hash.as_slice()) {
            Option::None => {
                let mut addr: Vec<u8> = Vec::new();
                append_bytes(&mut addr, &self.infos[i].dst_hash);
                Err(Error::ChunkFetchError(addr))
            },
            Option::Some(ct) => {
                let seed: Vec<u8> = derive_seed(&self.hashes, i);
                let raw: Vec<u8> = apply_pad(&seed, ct.as_slice());
                let h: Vec<u8> = content_hash(raw.as_slice());
                proof {
                    assert(raw@ == spec_decrypt_chunk(v, i as int, store@[v[i as int].dst_hash]));
                }
                if !bytes_eq(h.as_slice(), self.infos[i].src_hash.as_slice()) {
                    let mut addr: Vec<u8> = Vec::new();
                    append_bytes(&mut addr, &self.infos[i].dst_hash);
                    return Err(Error::IntegrityMismatch(addr));
                }
                self.pos = i + 1;
                Ok(Option::Some(raw))
            },
        }
    }
}

/// A fresh copy of a sequence of chunk records.
fn copy_infos(infos: &Vec<ChunkInfo>) -> (r: Vec<ChunkInfo>)
    ensures
        r@.map_values(|ci: ChunkInfo| ci@) == infos@.map_values(|ci: ChunkInfo| ci@),
{
    let mut out: Vec<ChunkInfo> = Vec::new();
    let mut k: usize = 0;
    while k < infos.len()
        invariant
            k <= infos@.len(),
            out@.len() == k as int,
            forall|j: int| 0 <= j < k as int ==> #[trigger] out@[j]@ == infos@[j]@,
        decreases infos@.len() - k,
    {
        let ci: &ChunkInfo = &infos[k];
        let mut src: Vec<u8> = Vec::new();
        append_bytes(&mut src, &ci.src_hash);
        let mut dst: Vec<u8> = Vec::new();
        append_bytes(&mut dst, &ci.dst_hash);
        out.push(ChunkInfo { index: ci.index, src_hash: src, dst_hash: dst, size: ci.size });
        k = k + 1;
    }
    proof {
        assert(out@.map_values(|ci: ChunkInfo| ci@) =~= infos@.map_values(|ci: ChunkInfo| ci@));
    }
    out
}

} // verus!
