//! The symmetric cipher of the codec: a keystream expanded from a seed by
//! repeated content hashing, combined with the payload by XOR. The seed of
//! chunk `i` is the hash of the raw-content hashes of chunks `i`, `i+1` and
//! `i-1` (indices modulo the chunk count), so no external secret exists and
//! applying the pad twice restores the payload.
use vstd::prelude::*;
use vstd::arithmetic::div_mod::{lemma_small_mod, lemma_mod_self_0, lemma_mod_multiples_vanish};
use vstd::bytes::{spec_u64_to_le_bytes, u64_to_le_bytes};
use crate::hashing::{hash_of, content_hash};

verus! {

/// The views of a sequence of byte vectors.
pub open spec fn seq_views(s: Seq<Vec<u8>>) -> Seq<Seq<u8>> {
    s.map_values(|v: Vec<u8>| v@)
}

/// The key seed of chunk `i`, derived from the raw-content hashes of its
/// neighbourhood: itself, its successor and its predecessor, modulo the
/// chunk count.
pub open spec fn spec_seed(hashes: Seq<Seq<u8>>, i: int) -> Seq<u8> {
    let n = hashes.len() as int;
    hash_of(hashes[i] + hashes[(i + 1) % n] + hashes[(i + n - 1) % n])
}

/// Byte `j` of the keystream grown from `seed`: byte `j % 32` of the hash
/// of `seed` followed by the 64-bit little-endian block counter `j / 32`.
pub open spec fn spec_keystream_byte(seed: Seq<u8>, j: int) -> u8 {
    hash_of(seed + spec_u64_to_le_bytes((j / 32) as u64))[j % 32]
}

/// XOR of `data` against the keystream grown from `seed`.
pub open spec fn spec_apply_pad(seed: Seq<u8>, data: Seq<u8>) -> Seq<u8> {
    Seq::new(data.len(), |j: int| data[j] ^ spec_keystream_byte(seed, j))
}

/// The pad is an involution: applying it twice gives the payload back.
/// Decryption is therefore the very function that encrypted.
pub proof fn lemma_pad_involution(seed: Seq<u8>, data: Seq<u8>)
    ensures
        spec_apply_pad(seed, spec_apply_pad(seed, data)) == data,
{
    let once = spec_apply_pad(seed, data);
    let twice = spec_apply_pad(seed, once);
    assert forall|j: int| 0 <= j < data.len() implies twice[j] == data[j] by {
        let x: u8 = data[j];
        let k: u8 = spec_keystream_byte(seed, j);
        assert((x ^ k) ^ k == x) by (bit_vector);
    }
    assert(twice =~= data);
}

/// Derives the key seed of chunk `i` from the raw-content hashes.
pub fn derive_seed(hashes: &Vec<Vec<u8>>, i: usize) -> (r: Vec<u8>)
    requires
        1 <= hashes@.len(),
        i < hashes@.len(),
    ensures
        r@ == spec_seed(seq_views(hashes@), i as int),
{
    let n: usize = hashes.len();
    let next: usize = if i + 1 == n {
        0
    } else {
        i + 1
    };
    let prev: usize = if i == 0 {
        n - 1
    } else {
        i - 1
    };
    proof {
        let gi = i as int;
        let gn = n as int;
        if gi + 1 == gn {
            lemma_mod_self_0(gn);
            assert((gi + 1) % gn == 0);
        } else {
            lemma_small_mod((gi + 1) as nat, gn as nat);
        }
        assert((gi + 1) % gn == next as int);
        if gi == 0 {
            lemma_small_mod((gn - 1) as nat, gn as nat);
        } else {
            lemma_mod_multiples_vanish(1, gi - 1, gn);
            assert(gn * 1 + (gi - 1) == gi + gn - 1);
            lemma_small_mod((gi - 1) as nat, gn as nat);
        }
        assert((gi + gn - 1) % gn == prev as int);
        assert(seq_views(hashes@)[gi] == hashes@[gi]@);
        assert(seq_views(hashes@)[next as int] == hashes@[next as int]@);
        assert(seq_views(hashes@)[prev as int] == hashes@[prev as int]@);
    }
    let mut material: Vec<u8> = Vec::new();
    append_bytes(&mut material, &hashes[i]);
    append_bytes(&mut material, &hashes[next]);
    append_bytes(&mut material, &hashes[prev]);
    assert(material@ =~= hashes@[i as int]@ + hashes@[next as int]@ + hashes@[prev as int]@);
    content_hash(material.as_slice())
}

/// Appends the bytes of `src` to `dst`.
pub fn append_bytes(dst: &mut Vec<u8>, src: &Vec<u8>) -> (r: ())
    ensures
        final(dst)@ == old(dst)@ + src@,
{
    let mut k: usize = 0;
    while k < src.len()
        invariant
            k <= src@.len(),
            dst@ == old(dst)@ + src@.subrange(0, k as int),
        decreases src@.len() - k,
    {
        dst.push(src[k]);
        proof {
            assert(old(dst)@ + src@.subrange(0, k as int) + seq![src@[k as int]] =~= old(dst)@
                + src@.subrange(0, k as int + 1));
        }
        k = k + 1;
    }
    proof {
        assert(src@.subrange(0, src@.len() as int) =~= src@);
    }
}

/// XORs `data` against the keystream grown from `seed`, block by block.
pub fn apply_pad(seed: &Vec<u8>, data: &[u8]) -> (r: Vec<u8>)
    ensures
        r@ == spec_apply_pad(seed@, data@),
{
    let mut out: Vec<u8> = Vec::new();
    let mut block: Vec<u8> = Vec::new();
    let mut j: usize = 0;
    while j < data.len()
        invariant
            j <= data@.len(),
            out@.len() == j as int,
            forall|k: int|
                0 <= k < j as int ==> #[trigger] out@[k] == (data@[k] ^ spec_keystream_byte(
                    seed@,
                    k,
                )),
            j as int % 32 != 0 ==> block@ == hash_of(
                seed@ + spec_u64_to_le_bytes((j as int / 32) as u64),
            ),
        decreases data@.len() - j,
    {
        if j % 32 == 0 {
            let mut material: Vec<u8> = Vec::new();
            append_bytes(&mut material, seed);
            let mut counter: Vec<u8> = u64_to_le_bytes((j / 32) as u64);
            append_bytes(&mut material, &counter);
            assert(material@ =~= seed@ + spec_u64_to_le_bytes((j as int / 32) as u64));
            block = content_hash(material.as_slice());
        }
        assert(block@ == hash_of(seed@ + spec_u64_to_le_bytes((j as int / 32) as u64)));
        assert(block@[j as int % 32] == spec_keystream_byte(seed@, j as int));
        out.push(data[j] ^ block[j % 32]);
        j = j + 1;
    }
    proof {
        assert(out@ =~= spec_apply_pad(seed@, data@));
    }
    out
}

} // verus!
