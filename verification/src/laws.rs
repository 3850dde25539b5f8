//! The laws of the codec, stated over its mathematical model: reconstruction
//! inverts encryption, the outcome is a function of the input alone, chunk
//! counts and sizes obey their formula, and an oversized map gains a child.
use vstd::prelude::*;
use vstd::arithmetic::div_mod::{lemma_fundamental_div_mod, lemma_div_is_ordered};
use crate::{MAX_CHUNK_SIZE, MIN_ENCRYPTABLE_BYTES};
use crate::chunker::{
    spec_chunk_count,
    spec_chunk_size,
    spec_chunk_start,
    spec_raw_chunk,
    lemma_chunk_layout,
    lemma_chunk_start_monotone,
};
use crate::cipher::{spec_seed, lemma_pad_involution};
use crate::hashing::hash_of;
use crate::datamap::{ChunkInfoModel, DataMapModel, ErrorModel, child_depth, info_wf};
use crate::serial::{spec_serialize, lemma_serialize_len, lemma_serialize_round_trip};
use crate::encrypt::{
    spec_src_hashes,
    spec_cipher_chunk,
    spec_level_chunks,
    spec_level_infos,
    spec_shrink,
    spec_next_child,
    spec_encrypt,
    hashes_wf,
    lemma_level_infos_wf,
    lemma_shrink_decreases,
    LevelsOut,
};
use crate::decrypt::{
    infos_hashes,
    spec_decrypt_chunk,
    spec_decrypt_level_from,
    spec_decrypt_level,
    spec_resolve_tail,
    spec_decrypt,
};

verus! {

/// The store holds every one of these chunks under its content address.
pub open spec fn store_covers(store: Map<Seq<u8>, Seq<u8>>, chunks: Seq<Seq<u8>>) -> bool {
    forall|k: int|
        0 <= k < chunks.len() ==> store.contains_key(hash_of(#[trigger] chunks[k]))
            && store[hash_of(chunks[k])] == chunks[k]
}

/// Covering a concatenation covers both halves.
proof fn lemma_covers_split(store: Map<Seq<u8>, Seq<u8>>, a: Seq<Seq<u8>>, b: Seq<Seq<u8>>)
    requires
        store_covers(store, a + b),
    ensures
        store_covers(store, a),
        store_covers(store, b),
{
    assert forall|k: int|
        0 <= k < a.len() implies store.contains_key(hash_of(#[trigger] a[k])) && store[hash_of(
        a[k],
    )] == a[k] by {
        assert((a + b)[k] == a[k]);
    }
    assert forall|k: int|
        0 <= k < b.len() implies store.contains_key(hash_of(#[trigger] b[k])) && store[hash_of(
        b[k],
    )] == b[k] by {
        assert((a + b)[a.len() + k] == b[k]);
    }
}

/// The raw hashes recorded in one level's records are the raw hashes of the
/// stream's chunks: the reconstructor re-derives the very seeds that
/// encryption used.
proof fn lemma_hashes_align(data: Seq<u8>)
    ensures
        infos_hashes(spec_level_infos(data)) == spec_src_hashes(data),
{
    assert(infos_hashes(spec_level_infos(data)) =~= spec_src_hashes(data));
}

/// One chunk decrypts back to its raw bytes: the recorded hashes re-derive
/// the seed, and the pad is an involution.
proof fn lemma_chunk_round_trip(data: Seq<u8>, i: int)
    requires
        0 <= i < spec_chunk_count(data.len() as int),
    ensures
        spec_decrypt_chunk(spec_level_infos(data), i, spec_cipher_chunk(data, i))
            == spec_raw_chunk(data, i),
{
    lemma_hashes_align(data);
    let seed = spec_seed(spec_src_hashes(data), i);
    lemma_pad_involution(seed, spec_raw_chunk(data, i));
}

/// Decrypting one level of what one level of encryption produced gives the
/// bytes back, from chunk `i` on.
#[verifier::rlimit(100)]
#[verifier::spinoff_prover]
proof fn lemma_level_round_trip_from(data: Seq<u8>, store: Map<Seq<u8>, Seq<u8>>, i: int)
    requires
        3 <= data.len() <= usize::MAX,
        store_covers(store, spec_level_chunks(data)),
        0 <= i <= spec_chunk_count(data.len() as int),
    ensures
        spec_decrypt_level_from(spec_level_infos(data), store, i) == Result::<
            Seq<u8>,
            ErrorModel,
        >::Ok(data.subrange(spec_chunk_start(data.len() as int, i), data.len() as int)),
    decreases spec_chunk_count(data.len() as int) - i,
{
    let len = data.len() as int;
    let n = spec_chunk_count(len);
    let infos = spec_level_infos(data);
    lemma_chunk_layout(len);
    lemma_chunk_start_monotone(len, i, n);
    if i == n {
        assert(spec_chunk_start(len, n) == len);
        assert(data.subrange(len, len) =~= Seq::<u8>::empty());
    } else {
        let ct = spec_cipher_chunk(data, i);
        assert(store.contains_key(hash_of(ct)) && store[hash_of(ct)] == ct) by {
            assert(spec_level_chunks(data)[i] == ct);
        }
        assert(infos[i].dst_hash == hash_of(ct));
        let raw = spec_decrypt_chunk(infos, i, ct);
        assert(raw == spec_raw_chunk(data, i)) by {
            lemma_chunk_round_trip(data, i);
        }
        assert(hash_of(raw) == infos[i].src_hash);
        lemma_level_round_trip_from(data, store, i + 1);
        assert(raw + data.subrange(spec_chunk_start(len, i + 1), len) =~= data.subrange(
            spec_chunk_start(len, i),
            len,
        )) by {
            lemma_chunk_start_monotone(len, i + 1, n);
            assert(spec_chunk_start(len, i + 1) == spec_chunk_start(len, i) + spec_chunk_size(
                len,
                i,
            ));
        }
    }
}

/// Decrypting one level of what one level of encryption produced gives the
/// bytes back.
pub proof fn lemma_level_round_trip(data: Seq<u8>, store: Map<Seq<u8>, Seq<u8>>)
    requires
        3 <= data.len() <= usize::MAX,
        store_covers(store, spec_level_chunks(data)),
    ensures
        spec_decrypt_level(spec_level_infos(data), store) == Result::<Seq<u8>, ErrorModel>::Ok(
            data,
        ),
{
    lemma_chunk_layout(data.len() as int);
    lemma_level_round_trip_from(data, store, 0);
    assert(data.subrange(0, data.len() as int) =~= data);
}

/// Shrinking preserves what a map reconstructs to: the root of the shrink
/// chain decrypts to whatever the map it wraps decrypts to.
proof fn lemma_shrink_preserves(
    infos: Seq<ChunkInfoModel>,
    child: Option<nat>,
    store: Map<Seq<u8>, Seq<u8>>,
)
    requires
        hashes_wf(infos),
        forall|i: int| 0 <= i < infos.len() ==> (#[trigger] infos[i]).index == i,
        child_depth(child) + infos.len() <= usize::MAX,
        spec_serialize(infos, child).len() <= usize::MAX,
        store_covers(store, spec_shrink(infos, child).chunks),
    ensures
        spec_decrypt(
            DataMapModel {
                infos: spec_shrink(infos, child).infos,
                child: spec_shrink(infos, child).child,
            },
            store,
        ) == spec_decrypt(DataMapModel { infos, child }, store),
    decreases infos.len(),
{
    let bytes = spec_serialize(infos, child);
    if bytes.len() <= MAX_CHUNK_SIZE as int {
        assert(spec_shrink(infos, child) == LevelsOut {
            infos,
            child,
            chunks: Seq::<Seq<u8>>::empty(),
        });
    } else {
        lemma_shrink_decreases(infos, child);
        lemma_level_infos_wf(bytes);
        let next = spec_level_infos(bytes);
        let nc = spec_next_child(child);
        assert(spec_shrink(infos, child) == LevelsOut {
            infos: spec_shrink(next, nc).infos,
            child: spec_shrink(next, nc).child,
            chunks: spec_level_chunks(bytes) + spec_shrink(next, nc).chunks,
        });
        lemma_covers_split(store, spec_level_chunks(bytes), spec_shrink(next, nc).chunks);
        assert(forall|i: int|
            0 <= i < infos.len() ==> info_wf(#[trigger] infos[i]) && infos[i].index == i);
        lemma_serialize_len(next, nc);
        lemma_shrink_preserves(next, nc, store);
        lemma_level_round_trip(bytes, store);
        lemma_serialize_round_trip(infos, child);
        assert(spec_decrypt(DataMapModel { infos: next, child: nc }, store) == spec_resolve_tail(
            bytes,
            nc,
            store,
        ));
        assert(spec_resolve_tail(bytes, nc, store) == spec_decrypt(
            DataMapModel { infos, child },
            store,
        ));
    }
}

/// Reconstruction inverts encryption: decrypting the root data map of
/// `encrypt(data)` against any store that holds every produced chunk under
/// its content address yields `data` back, byte for byte.
pub proof fn lemma_encrypt_decrypt_round_trip(data: Seq<u8>, store: Map<Seq<u8>, Seq<u8>>)
    requires
        MIN_ENCRYPTABLE_BYTES as int <= data.len() <= usize::MAX as int,
        store_covers(store, spec_encrypt(data).chunks),
    ensures
        spec_decrypt(
            DataMapModel { infos: spec_encrypt(data).infos, child: spec_encrypt(data).child },
            store,
        ) == Result::<Seq<u8>, ErrorModel>::Ok(data),
{
    let len = data.len() as int;
    let l0 = spec_level_infos(data);
    lemma_level_infos_wf(data);
    lemma_covers_split(store, spec_level_chunks(data), spec_shrink(l0, Option::None).chunks);
    lemma_serialize_len(l0, Option::None);
    lemma_serialized_level_fits(data);
    lemma_shrink_preserves(l0, Option::None, store);
    lemma_level_round_trip(data, store);
    assert(spec_decrypt(DataMapModel { infos: l0, child: Option::None }, store)
        == spec_resolve_tail(data, Option::None, store));
}

/// The serialized form of one level's map fits a machine word's worth of
/// bytes.
proof fn lemma_serialized_level_fits(data: Seq<u8>)
    requires
        3 <= data.len() <= usize::MAX,
    ensures
        spec_serialize(spec_level_infos(data), Option::None).len() <= usize::MAX,
{
    let len = data.len() as int;
    let m = MAX_CHUNK_SIZE as int;
    let n = spec_chunk_count(len);
    lemma_level_infos_wf(data);
    lemma_serialize_len(spec_level_infos(data), Option::None);
    lemma_chunk_layout(len);
    if n == 3 {
        assert(18 + 80 * n <= usize::MAX as int);
    } else {
        let x = len / m;
        lemma_fundamental_div_mod(len, m);
        assert(n <= x + 1);
        assert(x >= 3);
        assert(80 * (x + 1) + 18 <= len) by (nonlinear_arith)
            requires x >= 3 && 1048576 * x <= len;
        assert(18 + 80 * n <= len);
    }
}

/// Encrypting the same bytes yields the same maps, chunks and addresses:
/// the whole outcome is a function of the input alone.
pub proof fn lemma_encrypt_deterministic(d1: Seq<u8>, d2: Seq<u8>)
    requires
        d1 == d2,
    ensures
        spec_encrypt(d1) == spec_encrypt(d2),
{
}

/// The chunk layout law: a stream of `L` bytes is cut into
/// `max(3, ceil(L / MAX_CHUNK_SIZE))` chunks, every one of a size within
/// `[1, MAX_CHUNK_SIZE]`, together exactly `L` bytes long.
pub proof fn lemma_chunk_count_law(data: Seq<u8>)
    requires
        MIN_ENCRYPTABLE_BYTES as int <= data.len() <= usize::MAX as int,
    ensures
        spec_level_chunks(data).len() == spec_chunk_count(data.len() as int),
        data.len() <= 3 * (MAX_CHUNK_SIZE as int) ==> spec_level_chunks(data).len() == 3,
        data.len() > 3 * (MAX_CHUNK_SIZE as int) ==> spec_level_chunks(data).len() * (
        MAX_CHUNK_SIZE as int) >= data.len() && (spec_level_chunks(data).len() - 1) * (
        MAX_CHUNK_SIZE as int) < data.len(),
        forall|i: int|
            0 <= i < spec_level_chunks(data).len() ==> 1 <= (
            #[trigger] spec_level_chunks(data)[i]).len() <= MAX_CHUNK_SIZE as int,
        spec_chunk_start(data.len() as int, spec_chunk_count(data.len() as int)) == data.len(),
{
    let len = data.len() as int;
    let m = MAX_CHUNK_SIZE as int;
    let n = spec_chunk_count(len);
    lemma_chunk_layout(len);
    assert forall|i: int| 0 <= i < n implies 1 <= (#[trigger] spec_level_chunks(data)[i]).len()
        <= m by {
        lemma_chunk_start_monotone(len, i, n);
        lemma_chunk_start_monotone(len, i + 1, n);
        assert(spec_chunk_start(len, i + 1) == spec_chunk_start(len, i) + spec_chunk_size(len, i));
        assert(spec_level_chunks(data)[i].len() == spec_raw_chunk(data, i).len());
    }
    if len > 3 * m {
        lemma_fundamental_div_mod(len, m);
        assert(len / m >= 3) by {
            lemma_div_is_ordered(3 * m, len, m);
            assert(3 * m / m == 3) by (nonlinear_arith)
                requires m == MAX_CHUNK_SIZE as int;
        }
        let q = len / m;
        let r = len % m;
        if r == 0 {
            assert(n == q);
            assert(n * m >= len) by (nonlinear_arith)
                requires len == m * q + r && r == 0 && n == q;
            assert((n - 1) * m < len) by (nonlinear_arith)
                requires len == m * q + r && r == 0 && n == q && m > 0;
        } else {
            assert(n == q + 1);
            assert(n * m >= len) by (nonlinear_arith)
                requires len == m * q + r && 0 < r < m && n == q + 1;
            assert((n - 1) * m < len) by (nonlinear_arith)
                requires len == m * q + r && 0 < r < m && n == q + 1 && m > 0;
        }
    }
}

/// The recursion law: where the base level's serialized data map is larger
/// than a chunk may be, the returned root map carries a child marker, and
/// the chain it heads has at least one level below it.
pub proof fn lemma_recursion_law(data: Seq<u8>)
    requires
        MIN_ENCRYPTABLE_BYTES as int <= data.len() <= usize::MAX as int,
        spec_serialize(spec_level_infos(data), Option::None).len() > MAX_CHUNK_SIZE as int,
    ensures
        spec_encrypt(data).child is Some,
{
    lemma_level_infos_wf(data);
    lemma_serialized_level_fits(data);
    lemma_shrink_keeps_depth(spec_level_infos(data), Option::None);
    let bytes = spec_serialize(spec_level_infos(data), Option::None);
    assert(child_depth(spec_shrink(spec_level_infos(data), Option::None).child) >= 1);
}

/// The shrink chain never loses depth: the root's child marker is at least
/// one deeper than the marker of each level it wraps.
proof fn lemma_shrink_keeps_depth(infos: Seq<ChunkInfoModel>, child: Option<nat>)
    requires
        hashes_wf(infos),
        spec_serialize(infos, child).len() <= usize::MAX,
    ensures
        spec_serialize(infos, child).len() <= MAX_CHUNK_SIZE as int ==> spec_shrink(
            infos,
            child,
        ).child == child,
        spec_serialize(infos, child).len() > MAX_CHUNK_SIZE as int ==> child_depth(
            spec_shrink(infos, child).child,
        ) > child_depth(child),
    decreases infos.len(),
{
    let bytes = spec_serialize(infos, child);
    if bytes.len() > MAX_CHUNK_SIZE as int {
        lemma_shrink_decreases(infos, child);
        lemma_level_infos_wf(bytes);
        let next = spec_level_infos(bytes);
        let nc = spec_next_child(child);
        lemma_serialize_len(next, nc);
        lemma_shrink_keeps_depth(next, nc);
    }
}

} // verus!
