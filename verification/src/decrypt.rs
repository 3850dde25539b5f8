//! Reconstruction: fetch each ciphertext chunk by its content address,
//! re-derive its key seed from the raw hashes recorded in the data map,
//! strip the pad, check the recovered bytes against the recorded raw hash,
//! and concatenate in index order; data maps with child markers are resolved
//! level by level first.
use vstd::prelude::*;
use crate::cipher::{spec_seed, spec_apply_pad, seq_views, derive_seed, apply_pad, append_bytes};
use crate::hashing::{hash_of, content_hash};
use crate::datamap::{
    ChunkInfo,
    ChunkInfoModel,
    DataMap,
    DataMapModel,
    Error,
    ErrorModel,
    child_depth,
    child_view,
};
use crate::serial::spec_deserialize;

verus! {

/// An in-memory chunk store: content address to ciphertext bytes. Later
/// entries under the same address replace earlier ones.
pub struct ChunkStore {
    entries: Vec<(Vec<u8>, Vec<u8>)>,
}

/// The map held by a list of address/content entries, later entries winning.
pub open spec fn entries_map(s: Seq<(Vec<u8>, Vec<u8>)>) -> Map<Seq<u8>, Seq<u8>>
    decreases s.len(),
{
    if s.len() == 0 {
        Map::empty()
    } else {
        entries_map(s.drop_last()).insert(s.last().0@, s.last().1@)
    }
}

impl View for ChunkStore {
    type V = Map<Seq<u8>, Seq<u8>>;

    closed spec fn view(&self) -> Map<Seq<u8>, Seq<u8>> {
        entries_map(self.entries@)
    }
}

/// Entries whose keys differ from `k` do not affect the lookup of `k`.
proof fn lemma_entries_lookup(s: Seq<(Vec<u8>, Vec<u8>)>, i: int, k: Seq<u8>)
    requires
        0 <= i <= s.len(),
        forall|j: int| i <= j < s.len() ==> (#[trigger] s[j]).0@ != k,
    ensures
        entries_map(s).contains_key(k) <==> entries_map(s.subrange(0, i)).contains_key(k),
        entries_map(s).contains_key(k) ==> entries_map(s)[k] == entries_map(s.subrange(0, i))[k],
    decreases s.len() - i,
{
    if i < s.len() {
        let shorter = s.drop_last();
        assert(s.last().0@ != k);
        lemma_entries_lookup(shorter, i, k);
        assert(shorter.subrange(0, i) =~= s.subrange(0, i));
    } else {
        assert(s.subrange(0, i) =~= s);
    }
}

impl ChunkStore {
    /// An empty store.
    pub fn new() -> (r: ChunkStore)
        ensures
            r@ == Map::<Seq<u8>, Seq<u8>>::empty(),
    {
        ChunkStore { entries: Vec::new() }
    }

    /// Stores `content` under `address`, replacing what was there.
    pub fn put(&mut self, address: Vec<u8>, content: Vec<u8>) -> (r: ())
        ensures
            final(self)@ == old(self)@.insert(address@, content@),
    {
        let ghost before = self.entries@;
        self.entries.push((address, content));
        proof {
            assert(self.entries@.drop_last() =~= before);
        }
    }

    /// The ciphertext stored under `address`, if any.
    pub fn get(&self, address: &[u8]) -> (r: Option<&Vec<u8>>)
        ensures
            match r {
                Option::Some(c) => self@.contains_key(address@) && c@ == self@[address@],
                Option::None => !self@.contains_key(address@),
            },
    {
        let n: usize = self.entries.len();
        let mut i: usize = n;
        while i > 0
            invariant
                i <= n,
                n as int == self.entries@.len(),
                forall|j: int|
                    i as int <= j < n as int ==> (#[trigger] self.entries@[j]).0@ != address@,
            decreases i,
        {
            i = i - 1;
            if bytes_eq(self.entries[i].0.as_slice(), address) {
                proof {
                    lemma_entries_lookup(self.entries@, i as int + 1, address@);
                    let prefix = self.entries@.subrange(0, i as int + 1);
                    assert(prefix.drop_last() =~= self.entries@.subrange(0, i as int));
                    assert(prefix.last() == self.entries@[i as int]);
                }
                return Option::Some(&self.entries[i].1);
            }
        }
        proof {
            lemma_entries_lookup(self.entries@, 0, address@);
            assert(self.entries@.subrange(0, 0) =~= Seq::<(Vec<u8>, Vec<u8>)>::empty());
        }
        Option::None
    }
}

/// Compares two byte strings.
pub fn bytes_eq(a: &[u8], b: &[u8]) -> (r: bool)
    ensures
        r <==> a@ == b@,
{
    if a.len() != b.len() {
        proof {
            assert(a@.len() != b@.len());
        }
        return false;
    }
    let mut i: usize = 0;
    while i < a.len()
        invariant
            i <= a@.len(),
            a@.len() == b@.len(),
            forall|j: int| 0 <= j < i as int ==> a@[j] == b@[j],
        decreases a@.len() - i,
    {
        if a[i] != b[i] {
            return false;
        }
        i = i + 1;
    }
    proof {
        assert(a@ =~= b@);
    }
    true
}

/// The raw hashes recorded in a sequence of chunk records, in index order.
pub open spec fn infos_hashes(infos: Seq<ChunkInfoModel>) -> Seq<Seq<u8>> {
    infos.map_values(|ci: ChunkInfoModel| ci.src_hash)
}

/// The bytes chunk `i` decrypts to, given its fetched ciphertext: the pad
/// seeded by the recorded neighbourhood of raw hashes, stripped by XOR.
pub open spec fn spec_decrypt_chunk(infos: Seq<ChunkInfoModel>, i: int, ct: Seq<u8>) -> Seq<u8> {
    spec_apply_pad(spec_seed(infos_hashes(infos), i), ct)
}

/// Decryption of the chunks from record `i` on: fetch by recorded address,
/// strip the pad, check the raw hash, concatenate. The first failure wins.
pub open spec fn spec_decrypt_level_from(
    infos: Seq<ChunkInfoModel>,
    store: Map<Seq<u8>, Seq<u8>>,
    i: int,
) -> Result<Seq<u8>, ErrorModel>
    decreases infos.len() - i,
{
    if i < 0 || i >= infos.len() {
        Result::Ok(Seq::empty())
    } else {
        let addr = infos[i].dst_hash;
        if !store.contains_key(addr) {
            Result::Err(ErrorModel::ChunkFetchError(addr))
        } else {
            let raw = spec_decrypt_chunk(infos, i, store[addr]);
            if hash_of(raw) != infos[i].src_hash {
                Result::Err(ErrorModel::IntegrityMismatch(addr))
            } else {
                match spec_decrypt_level_from(infos, store, i + 1) {
                    Result::Ok(rest) => Result::Ok(raw + rest),
                    Result::Err(e) => Result::Err(e),
                }
            }
        }
    }
}

/// Decryption of one whole level.
pub open spec fn spec_decrypt_level(
    infos: Seq<ChunkInfoModel>,
    store: Map<Seq<u8>, Seq<u8>>,
) -> Result<Seq<u8>, ErrorModel> {
    spec_decrypt_level_from(infos, store, 0)
}

/// Resolution of what a decrypted level yielded: the original bytes for a
/// base map, otherwise the serialized map one level down, which must decode
/// and must carry a strictly shallower child marker.
pub open spec fn spec_resolve_tail(
    bytes: Seq<u8>,
    child: Option<nat>,
    store: Map<Seq<u8>, Seq<u8>>,
) -> Result<Seq<u8>, ErrorModel>
    decreases child_depth(child),
{
    match child {
        Option::None => Result::Ok(bytes),
        Option::Some(lvl) => match spec_deserialize(bytes) {
            Option::None => Result::Err(ErrorModel::SerializationError),
            Option::Some(dm2) => if child_depth(dm2.child) <= lvl {
                match spec_decrypt_level(dm2.infos, store) {
                    Result::Err(e) => Result::Err(e),
                    Result::Ok(b2) => spec_resolve_tail(b2, dm2.child, store),
                }
            } else {
                Result::Err(ErrorModel::SerializationError)
            },
        },
    }
}

/// Full reconstruction from a data map and a store.
pub open spec fn spec_decrypt(dm: DataMapModel, store: Map<Seq<u8>, Seq<u8>>) -> Result<
    Seq<u8>,
    ErrorModel,
> {
    match spec_decrypt_level(dm.infos, store) {
        Result::Err(e) => Result::Err(e),
        Result::Ok(bytes) => spec_resolve_tail(bytes, dm.child, store),
    }
}

/// Decrypts the chunks of one level in index order.
pub fn decrypt_level(infos: &Vec<ChunkInfo>, store: &ChunkStore) -> (r: Result<Vec<u8>, Error>)
    ensures
        (match spec_decrypt_level(infos@.map_values(|ci: ChunkInfo| ci@), store@) {
            Result::Ok(b) => r matches Ok(v) && v@ == b,
            Result::Err(e) => r matches Err(er) && er@ == e,
        }),
{
    let ghost v = infos@.map_values(|ci: ChunkInfo| ci@);
    let n: usize = infos.len();
    let mut hashes: Vec<Vec<u8>> = Vec::new();
    let mut k: usize = 0;
    while k < n
        invariant
            k <= n,
            n as int == infos@.len(),
            v == infos@.map_values(|ci: ChunkInfo| ci@),
            hashes@.len() == k as int,
            forall|j: int| 0 <= j < k as int ==> #[trigger] hashes@[j]@ == v[j].src_hash,
        decreases n - k,
    {
        let mut h: Vec<u8> = Vec::new();
        append_bytes(&mut h, &infos[k].src_hash);
        hashes.push(h);
        k = k + 1;
    }
    proof {
        assert(seq_views(hashes@) =~= infos_hashes(v));
    }
    let mut out: Vec<u8> = Vec::new();
    let mut i: usize = 0;
    while i < n
        invariant
            i <= n,
            n as int == infos@.len(),
            v == infos@.map_values(|ci: ChunkInfo| ci@),
            hashes@.len() == n as int,
            seq_views(hashes@) == infos_hashes(v),
            (spec_decrypt_level(v, store@) == match spec_decrypt_level_from(v, store@, i as int) {
                Result::<Seq<u8>, ErrorModel>::Ok(rest) => Result::<Seq<u8>, ErrorModel>::Ok(
                    out@ + rest,
                ),
                Result::<Seq<u8>, ErrorModel>::Err(e) => Result::<Seq<u8>, ErrorModel>::Err(e),
            }),
        decreases n - i,
    {
        proof {
            assert(v[i as int] == infos@[i as int]@);
        }
        match store.get(infos[i].dst_hash.as_slice()) {
            Option::None => {
                let mut addr: Vec<u8> = Vec::new();
                append_bytes(&mut addr, &infos[i].dst_hash);
                return Err(Error::ChunkFetchError(addr));
            },
            Option::Some(ct) => {
                let seed: Vec<u8> = derive_seed(&hashes, i);
                let raw: Vec<u8> = apply_pad(&seed, ct.as_slice());
                let h: Vec<u8> = content_hash(raw.as_slice());
                proof {
                    assert(raw@ == spec_decrypt_chunk(v, i as int, store@[v[i as int].dst_hash]));
                }
                if !bytes_eq(h.as_slice(), infos[i].src_hash.as_slice()) {
                    let mut addr: Vec<u8> = Vec::new();
                    append_bytes(&mut addr, &infos[i].dst_hash);
                    return Err(Error::IntegrityMismatch(addr));
                }
                let ghost out_before = out@;
                let mut raw_moved: Vec<u8> = raw;
                out.append(&mut raw_moved);
                proof {
                    let tail = spec_decrypt_level_from(v, store@, i as int + 1);
                    if tail is Ok {
                        assert(out_before + (spec_decrypt_chunk(
                            v,
                            i as int,
                            store@[v[i as int].dst_hash],
                        ) + tail->Ok_0) =~= out@ + tail->Ok_0);
                    }
                }
            },
        }
        i = i + 1;
    }
    proof {
        assert(out@ + Seq::<u8>::empty() =~= out@);
    }
    Ok(out)
}

/// Reconstructs the original bytes from a data map and a store holding the
/// ciphertext chunks: resolves any chain of child maps, then decrypts the
/// base level. Succeeds exactly where every required address is present,
/// every chunk passes its integrity check and every child level decodes.
pub fn decrypt(dm: &DataMap, store: &ChunkStore) -> (r: Result<Vec<u8>, Error>)
    ensures
        (match spec_decrypt(dm@, store@) {
            Result::Ok(b) => r matches Ok(v) && v@ == b,
            Result::Err(e) => r matches Err(er) && er@ == e,
        }),
{
    let first = decrypt_level(dm.infos(), store);
    let mut bytes: Vec<u8> = match first {
        Ok(b) => b,
        Err(e) => {
            return Err(e);
        },
    };
    let mut child: Option<usize> = dm.child();
    loop
        invariant
            (spec_decrypt(dm@, store@) == spec_resolve_tail(bytes@, child_view(child), store@)),
        decreases child_depth(child_view(child)),
    {
        match child {
            Option::None => {
                return Ok(bytes);
            },
            Option::Some(lvl) => {
                let dm2: DataMap = match DataMap::deserialize(bytes.as_slice()) {
                    Ok(d) => d,
                    Err(e) => {
                        return Err(e);
                    },
                };
                let ok_depth: bool = match dm2.child() {
                    Option::None => true,
                    Option::Some(l2) => l2 < lvl,
                };
                if !ok_depth {
                    return Err(Error::SerializationError);
                }
                let next = decrypt_level(dm2.infos(), store);
                bytes = match next {
                    Ok(b) => b,
                    Err(e) => {
                        return Err(e);
                    },
                };
                child = dm2.child();
            },
        }
    }
}

} // verus!
