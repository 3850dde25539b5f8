//! The encryption pipeline: hash every raw chunk, derive each chunk's seed
//! from its neighbourhood of raw hashes, pad each chunk into its ciphertext,
//! record the chunk infos, and re-encrypt the serialized data map itself for
//! as long as it is too large to be a chunk.
use vstd::prelude::*;
use vstd::arithmetic::div_mod::{lemma_div_is_ordered, lemma_div_multiples_vanish};
use crate::{MAX_CHUNK_SIZE, MIN_ENCRYPTABLE_BYTES};
use crate::chunker::{
    spec_chunk_count,
    spec_raw_chunk,
    lemma_chunk_layout,
    split_into_chunks,
};
use crate::cipher::{spec_seed, spec_apply_pad, seq_views, derive_seed, apply_pad, append_bytes};
use crate::hashing::{hash_of, content_hash};
use crate::datamap::{
    ChunkInfo,
    ChunkInfoModel,
    DataMap,
    Error,
    ErrorModel,
    child_depth,
    child_view,
};
use crate::serial::spec_serialize;

verus! {

/// One ciphertext chunk, ready to be stored under its content address.
pub struct EncryptedChunk {
    pub content: Vec<u8>,
}

impl View for EncryptedChunk {
    type V = Seq<u8>;

    open spec fn view(&self) -> Seq<u8> {
        self.content@
    }
}

impl EncryptedChunk {
    /// The content address this chunk is stored under: the hash of its bytes.
    pub fn address(&self) -> (r: Vec<u8>)
        ensures
            r@ == hash_of(self@),
    {
        content_hash(self.content.as_slice())
    }
}

/// The views of a sequence of ciphertext chunks.
pub open spec fn chunk_views(s: Seq<EncryptedChunk>) -> Seq<Seq<u8>> {
    s.map_values(|c: EncryptedChunk| c@)
}

/// The raw-content hashes of every chunk of `data`, in index order.
pub open spec fn spec_src_hashes(data: Seq<u8>) -> Seq<Seq<u8>> {
    Seq::new(
        spec_chunk_count(data.len() as int) as nat,
        |i: int| hash_of(spec_raw_chunk(data, i)),
    )
}

/// The ciphertext of chunk `i` of `data`.
pub open spec fn spec_cipher_chunk(data: Seq<u8>, i: int) -> Seq<u8> {
    spec_apply_pad(spec_seed(spec_src_hashes(data), i), spec_raw_chunk(data, i))
}

/// All ciphertext chunks of one level of `data`, in index order.
pub open spec fn spec_level_chunks(data: Seq<u8>) -> Seq<Seq<u8>> {
    Seq::new(spec_chunk_count(data.len() as int) as nat, |i: int| spec_cipher_chunk(data, i))
}

/// The chunk records of one level of `data`, in index order.
pub open spec fn spec_level_infos(data: Seq<u8>) -> Seq<ChunkInfoModel> {
    Seq::new(
        spec_chunk_count(data.len() as int) as nat,
        |i: int|
            ChunkInfoModel {
                index: i as usize,
                src_hash: hash_of(spec_raw_chunk(data, i)),
                dst_hash: hash_of(spec_cipher_chunk(data, i)),
                size: spec_cipher_chunk(data, i).len() as usize,
            },
    )
}

/// All hashes of these records are 32-byte content hashes.
pub open spec fn hashes_wf(infos: Seq<ChunkInfoModel>) -> bool {
    forall|i: int|
        0 <= i < infos.len() ==> (#[trigger] infos[i]).src_hash.len() == 32
            && infos[i].dst_hash.len() == 32
}

/// The child marker of the level wrapped around `child`: one level deeper.
pub open spec fn spec_next_child(child: Option<nat>) -> Option<nat> {
    Option::Some(child_depth(child))
}

/// The outcome of the shrink loop: the root map's records and child marker,
/// and the ciphertext chunks of every wrapping level.
pub ghost struct LevelsOut {
    pub infos: Seq<ChunkInfoModel>,
    pub child: Option<nat>,
    pub chunks: Seq<Seq<u8>>,
}

/// One level's records are well formed: 32-byte hashes, index equal to
/// position, ciphertext length equal to the raw chunk's length.
pub proof fn lemma_level_infos_wf(data: Seq<u8>)
    requires
        3 <= data.len() <= usize::MAX,
    ensures
        hashes_wf(spec_level_infos(data)),
        spec_level_infos(data).len() == spec_chunk_count(data.len() as int),
        3 <= spec_chunk_count(data.len() as int) <= data.len(),
        forall|i: int|
            0 <= i < spec_level_infos(data).len() ==> (#[trigger] spec_level_infos(data)[i]).index
                == i,
{
    lemma_chunk_layout(data.len() as int);
    crate::chunker::lemma_chunk_start_monotone(
        data.len() as int,
        0,
        spec_chunk_count(data.len() as int),
    );
    let n = spec_chunk_count(data.len() as int);
    assert(spec_chunk_count(data.len() as int) <= data.len() as int) by {
        assert(crate::chunker::spec_chunk_start(data.len() as int, n) == data.len() as int);
        lemma_start_grows(data.len() as int, n);
    }
}

/// Each start is at least its index: chunk sizes are at least one byte.
proof fn lemma_start_grows(len: int, i: int)
    requires
        3 <= len,
        0 <= i <= spec_chunk_count(len),
    ensures
        crate::chunker::spec_chunk_start(len, i) >= i,
    decreases i,
{
    lemma_chunk_layout(len);
    if i > 0 {
        lemma_start_grows(len, i - 1);
        let j = i - 1;
        assert(crate::chunker::spec_chunk_start(len, j + 1) == crate::chunker::spec_chunk_start(
            len,
            j,
        ) + crate::chunker::spec_chunk_size(len, j));
    }
}

/// Wrapping a too-large map strictly shrinks it: the next level has fewer
/// records than this one.
pub proof fn lemma_shrink_decreases(infos: Seq<ChunkInfoModel>, child: Option<nat>)
    requires
        hashes_wf(infos),
        spec_serialize(infos, child).len() > MAX_CHUNK_SIZE as int,
    ensures
        3 <= spec_serialize(infos, child).len(),
        spec_level_infos(spec_serialize(infos, child)).len() < infos.len(),
{
    crate::serial::lemma_serialize_len(infos, child);
    let s = spec_serialize(infos, child);
    let len = s.len() as int;
    let n = infos.len() as int;
    let m = MAX_CHUNK_SIZE as int;
    assert(len == 18 + 80 * n);
    assert(n > 13106);
    lemma_chunk_layout(len);
    let c = spec_chunk_count(len);
    if c == 3 {
        assert(c < n);
    } else {
        assert(len <= m * (n - 2)) by {
            assert(18 + 80 * n <= 1048576 * (n - 2)) by (nonlinear_arith)
                requires n > 13106;
        }
        assert(len / m <= (m * (n - 2)) / m) by {
            lemma_div_is_ordered(len, m * (n - 2), m);
        }
        assert((m * (n - 2)) / m == n - 2) by {
            lemma_div_multiples_vanish(n - 2, m);
        }
        assert(c <= len / m + 1);
        assert(c < n);
    }
}

/// Repeated self-encryption of the serialized map, until it fits a chunk.
/// Yields the root level's records and marker and every wrapping level's
/// ciphertext chunks, in level order.
pub open spec fn spec_shrink(infos: Seq<ChunkInfoModel>, child: Option<nat>) -> LevelsOut
    decreases infos.len(),
    when hashes_wf(infos)
    via spec_shrink_decreases
{
    if spec_serialize(infos, child).len() <= MAX_CHUNK_SIZE as int {
        LevelsOut { infos, child, chunks: Seq::empty() }
    } else {
        let bytes = spec_serialize(infos, child);
        let rest = spec_shrink(spec_level_infos(bytes), spec_next_child(child));
        LevelsOut {
            infos: rest.infos,
            child: rest.child,
            chunks: spec_level_chunks(bytes) + rest.chunks,
        }
    }
}

#[via_fn]
proof fn spec_shrink_decreases(infos: Seq<ChunkInfoModel>, child: Option<nat>) {
    if spec_serialize(infos, child).len() > MAX_CHUNK_SIZE as int {
        lemma_shrink_decreases(infos, child);
    }
}

/// The full outcome of encrypting `data`: the root map's records and child
/// marker, and every level's ciphertext chunks in level order, the chunks of
/// the data itself first.
pub open spec fn spec_encrypt(data: Seq<u8>) -> LevelsOut {
    let rest = spec_shrink(spec_level_infos(data), Option::None);
    LevelsOut {
        infos: rest.infos,
        child: rest.child,
        chunks: spec_level_chunks(data) + rest.chunks,
    }
}

/// Encrypts one level: cuts `data` into chunks, hashes them, pads each with
/// the keystream seeded by its neighbourhood, and records the chunk infos.
pub fn encrypt_level(data: &[u8]) -> (r: (Vec<ChunkInfo>, Vec<EncryptedChunk>))
    requires
        3 <= data@.len(),
    ensures
        r.0@.map_values(|ci: ChunkInfo| ci@) == spec_level_infos(data@),
        chunk_views(r.1@) == spec_level_chunks(data@),
{
    proof {
        lemma_chunk_layout(data@.len() as int);
    }
    let raw: Vec<Vec<u8>> = split_into_chunks(data);
    let n: usize = raw.len();
    let mut hashes: Vec<Vec<u8>> = Vec::new();
    let mut i: usize = 0;
    while i < n
        invariant
            i <= n,
            n as int == spec_chunk_count(data@.len() as int),
            raw@.len() == n as int,
            forall|k: int| 0 <= k < n as int ==> #[trigger] raw@[k]@ == spec_raw_chunk(data@, k),
            hashes@.len() == i as int,
            forall|k: int|
                0 <= k < i as int ==> #[trigger] hashes@[k]@ == hash_of(spec_raw_chunk(data@, k)),
        decreases n - i,
    {
        hashes.push(content_hash(raw[i].as_slice()));
        i = i + 1;
    }
    proof {
        assert(seq_views(hashes@) =~= spec_src_hashes(data@));
    }
    let mut infos: Vec<ChunkInfo> = Vec::new();
    let mut chunks: Vec<EncryptedChunk> = Vec::new();
    let mut j: usize = 0;
    while j < n
        invariant
            j <= n,
            3 <= n,
            n as int == spec_chunk_count(data@.len() as int),
            raw@.len() == n as int,
            hashes@.len() == n as int,
            forall|k: int| 0 <= k < n as int ==> #[trigger] raw@[k]@ == spec_raw_chunk(data@, k),
            forall|k: int|
                0 <= k < n as int ==> #[trigger] hashes@[k]@ == hash_of(spec_raw_chunk(data@, k)),
            seq_views(hashes@) == spec_src_hashes(data@),
            infos@.len() == j as int,
            chunks@.len() == j as int,
            forall|k: int|
                0 <= k < j as int ==> #[trigger] infos@[k]@ == spec_level_infos(data@)[k],
            forall|k: int| 0 <= k < j as int ==> #[trigger] chunks@[k]@ == spec_cipher_chunk(data@, k),
        decreases n - j,
    {
        let seed: Vec<u8> = derive_seed(&hashes, j);
        let ct: Vec<u8> = apply_pad(&seed, raw[j].as_slice());
        let dst: Vec<u8> = content_hash(ct.as_slice());
        let mut src: Vec<u8> = Vec::new();
        append_bytes(&mut src, &hashes[j]);
        proof {
            assert(ct@ == spec_cipher_chunk(data@, j as int));
        }
        let size: usize = ct.len();
        infos.push(ChunkInfo { index: j, src_hash: src, dst_hash: dst, size });
        chunks.push(EncryptedChunk { content: ct });
        j = j + 1;
    }
    proof {
        assert(infos@.map_values(|ci: ChunkInfo| ci@) =~= spec_level_infos(data@));
        assert(chunk_views(chunks@) =~= spec_level_chunks(data@));
    }
    (infos, chunks)
}

/// Encrypts `data` into content-addressed chunks and the root data map that
/// recovers them. Fails exactly on inputs shorter than
/// `MIN_ENCRYPTABLE_BYTES`; on success the map, the chunks and their
/// addresses are a function of `data` alone.
pub fn encrypt(data: &[u8]) -> (r: Result<(DataMap, Vec<EncryptedChunk>), Error>)
    ensures
        match r {
            Ok(p) => {
                &&& data@.len() >= MIN_ENCRYPTABLE_BYTES as int
                &&& p.0@.infos == spec_encrypt(data@).infos
                &&& p.0@.child == spec_encrypt(data@).child
                &&& chunk_views(p.1@) == spec_encrypt(data@).chunks
            },
            Err(e) => data@.len() < MIN_ENCRYPTABLE_BYTES as int && e@
                == ErrorModel::InputTooSmall,
        },
{
    if data.len() < MIN_ENCRYPTABLE_BYTES {
        return Err(Error::InputTooSmall);
    }
    let ghost full = spec_encrypt(data@);
    let (infos0, mut chunks) = encrypt_level(data);
    let ghost n0 = infos0@.len() as int;
    proof {
        lemma_level_infos_wf(data@);
    }
    let mut dm: DataMap = DataMap::new(infos0);
    loop
        invariant
            MIN_ENCRYPTABLE_BYTES as int <= data@.len(),
            full == spec_encrypt(data@),
            hashes_wf(dm@.infos),
            3 <= dm@.infos.len(),
            child_depth(dm@.child) + dm@.infos.len() <= n0,
            n0 <= usize::MAX,
            full.infos == spec_shrink(dm@.infos, dm@.child).infos,
            full.child == spec_shrink(dm@.infos, dm@.child).child,
            full.chunks == chunk_views(chunks@) + spec_shrink(dm@.infos, dm@.child).chunks,
        decreases dm@.infos.len(),
    {
        let ser: Vec<u8> = dm.serialize();
        if ser.len() <= MAX_CHUNK_SIZE {
            proof {
                assert(spec_serialize(dm@.infos, dm@.child).len() <= MAX_CHUNK_SIZE as int);
                assert(spec_shrink(dm@.infos, dm@.child) == LevelsOut {
                    infos: dm@.infos,
                    child: dm@.child,
                    chunks: Seq::<Seq<u8>>::empty(),
                });
                assert(full.chunks =~= chunk_views(chunks@));
            }
            return Ok((dm, chunks));
        }
        proof {
            lemma_shrink_decreases(dm@.infos, dm@.child);
            lemma_level_infos_wf(ser@);
        }
        let (infos2, mut chunks2) = encrypt_level(ser.as_slice());
        let level: usize = match dm.child() {
            Option::None => 0,
            Option::Some(l) => l + 1,
        };
        let ghost old_dm = dm@;
        let ghost old_chunks = chunks@;
        dm = DataMap::new_with_child(infos2, level);
        let ghost added = chunks2@;
        chunks.append(&mut chunks2);
        proof {
            assert(chunks@ == old_chunks + added);
            assert(child_view(Option::Some(level)) == spec_next_child(old_dm.child));
            assert(dm@.infos == spec_level_infos(ser@));
            assert(spec_shrink(old_dm.infos, old_dm.child).chunks == spec_level_chunks(ser@)
                + spec_shrink(dm@.infos, dm@.child).chunks);
            assert(chunk_views(chunks@) =~= chunk_views(old_chunks) + chunk_views(added));
            assert(chunk_views(added) == spec_level_chunks(ser@));
            assert(full.chunks =~= chunk_views(chunks@) + spec_shrink(dm@.infos, dm@.child).chunks);
        }
    }
}

} // verus!
