//! Partitioning of the input into raw chunks. Boundaries depend only on the
//! total length: the count is `max(3, ceil(len / MAX_CHUNK_SIZE))` and the
//! sizes are as balanced as possible, the leading `len % count` chunks one
//! byte longer than the rest.
use vstd::prelude::*;
use vstd::arithmetic::div_mod::{lemma_fundamental_div_mod, lemma_div_is_ordered};
use crate::MAX_CHUNK_SIZE;

verus! {

/// Number of raw chunks a stream of `len` bytes is cut into.
pub open spec fn spec_chunk_count(len: int) -> int {
    let per = if len % (MAX_CHUNK_SIZE as int) == 0 {
        len / (MAX_CHUNK_SIZE as int)
    } else {
        len / (MAX_CHUNK_SIZE as int) + 1
    };
    if per < 3 {
        3
    } else {
        per
    }
}

/// Size of chunk `i` of a stream of `len` bytes.
pub open spec fn spec_chunk_size(len: int, i: int) -> int {
    let base = len / spec_chunk_count(len);
    let rem = len % spec_chunk_count(len);
    if i < rem {
        base + 1
    } else {
        base
    }
}

/// Offset at which chunk `i` of a stream of `len` bytes begins.
pub open spec fn spec_chunk_start(len: int, i: int) -> int {
    let base = len / spec_chunk_count(len);
    let rem = len % spec_chunk_count(len);
    i * base + if i < rem {
        i
    } else {
        rem
    }
}

/// The bytes of raw chunk `i` of `data`.
pub open spec fn spec_raw_chunk(data: Seq<u8>, i: int) -> Seq<u8> {
    spec_raw_chunk_of_len(data, data.len() as int, i)
}

/// The bytes of raw chunk `i`, with the length given explicitly.
pub open spec fn spec_raw_chunk_of_len(data: Seq<u8>, len: int, i: int) -> Seq<u8> {
    data.subrange(spec_chunk_start(len, i), spec_chunk_start(len, i) + spec_chunk_size(len, i))
}

/// The chunk boundaries partition `[0, len)`: three or more chunks, every
/// size within `[1, MAX_CHUNK_SIZE]`, starts advancing by exactly the sizes,
/// and the final boundary landing on `len`.
pub proof fn lemma_chunk_layout(len: int)
    requires
        3 <= len,
    ensures
        3 <= spec_chunk_count(len),
        len <= 3 * (MAX_CHUNK_SIZE as int) ==> spec_chunk_count(len) == 3,
        spec_chunk_start(len, 0) == 0,
        spec_chunk_start(len, spec_chunk_count(len)) == len,
        forall|i: int|
            0 <= i < spec_chunk_count(len) ==> 1 <= #[trigger] spec_chunk_size(len, i)
                <= MAX_CHUNK_SIZE as int,
        forall|i: int|
            0 <= i < spec_chunk_count(len) ==> #[trigger] spec_chunk_start(len, i + 1)
                == spec_chunk_start(len, i) + spec_chunk_size(len, i),
{
    let m = MAX_CHUNK_SIZE as int;
    let n = spec_chunk_count(len);
    let base = len / n;
    let rem = len % n;
    lemma_fundamental_div_mod(len, m);
    lemma_fundamental_div_mod(len, n);
    assert(len <= 3 * m ==> n == 3) by {
        if len <= 3 * m {
            lemma_div_is_ordered(len, 3 * m, m);
            assert(3 * m / m == 3) by (nonlinear_arith)
                requires m == MAX_CHUNK_SIZE as int;
        }
    }
    assert(len >= n) by {
        if n > 3 {
            assert(len / m >= 3);
            assert(len / m * m <= len) by (nonlinear_arith)
                requires m > 0 && len >= 0;
            assert(n <= len / m + 1);
            assert(len / m + 1 <= len / m * m) by (nonlinear_arith)
                requires m >= 2 && len / m >= 3;
        }
    }
    assert(0 <= rem < n && len == n * base + rem);
    assert(base >= 1) by {
        if base < 1 {
            assert(n * base <= 0) by (nonlinear_arith)
                requires n > 0 && base <= 0;
        }
    }
    assert(len <= n * m) by {
        if n == 3 {
            assert(len / m < 3 || (len % m == 0 && len / m <= 3));
            assert(len / m * m + len % m == len);
            assert(len / m < 3 ==> (len / m) * m <= 2 * m) by (nonlinear_arith)
                requires m > 0;
            assert(len / m <= 3 ==> (len / m) * m <= 3 * m) by (nonlinear_arith)
                requires m > 0;
        } else {
            assert(n == if len % m == 0 { len / m } else { len / m + 1 });
            assert((len / m) * m + m >= len);
            assert(n * m >= (len / m) * m + if len % m == 0 { 0int } else { m }) by (nonlinear_arith)
                requires m > 0 && n == if len % m == 0 { len / m } else { len / m + 1 };
        }
    }
    assert(base <= m) by {
        if base > m {
            assert(n * base > n * m) by (nonlinear_arith)
                requires n > 0 && base > m;
        }
    }
    assert(base == m ==> rem == 0) by {
        if base == m && rem > 0 {
            assert(n * base == n * m) by (nonlinear_arith)
                requires base == m;
        }
    }
    assert forall|i: int| 0 <= i < n implies 1 <= #[trigger] spec_chunk_size(len, i) <= m by {
        if i < rem {
            assert(base + 1 <= m);
        }
    }
    assert forall|i: int| 0 <= i < n implies #[trigger] spec_chunk_start(len, i + 1)
        == spec_chunk_start(len, i) + spec_chunk_size(len, i) by {
        assert((i + 1) * base == i * base + base) by (nonlinear_arith);
    }
    assert(spec_chunk_start(len, n) == len) by {
        assert(n * base == base * n) by (nonlinear_arith);
    }
}

/// Chunk starts never run past the end of the stream.
pub proof fn lemma_chunk_start_monotone(len: int, i: int, j: int)
    requires
        3 <= len,
        0 <= i <= j <= spec_chunk_count(len),
    ensures
        spec_chunk_start(len, i) <= spec_chunk_start(len, j),
        0 <= spec_chunk_start(len, i) <= len,
    decreases j - i,
{
    lemma_chunk_layout(len);
    if i < j {
        lemma_chunk_start_monotone(len, i + 1, j);
        assert(spec_chunk_start(len, i + 1) == spec_chunk_start(len, i) + spec_chunk_size(len, i));
    } else {
        lemma_chunk_start_monotone_up(len, i);
    }
}

proof fn lemma_chunk_start_monotone_up(len: int, i: int)
    requires
        3 <= len,
        0 <= i <= spec_chunk_count(len),
    ensures
        0 <= spec_chunk_start(len, i) <= len,
    decreases spec_chunk_count(len) - i,
{
    lemma_chunk_layout(len);
    if i < spec_chunk_count(len) {
        lemma_chunk_start_monotone_up(len, i + 1);
        assert(spec_chunk_start(len, i + 1) == spec_chunk_start(len, i) + spec_chunk_size(len, i));
    }
    assert(i * (len / spec_chunk_count(len)) >= 0) by (nonlinear_arith)
        requires i >= 0 && len / spec_chunk_count(len) >= 0;
}

/// Number of chunks for a stream of `len` bytes.
pub fn chunk_count(len: usize) -> (r: usize)
    requires
        3 <= len,
    ensures
        r as int == spec_chunk_count(len as int),
        3 <= r <= len,
{
    proof {
        lemma_chunk_layout(len as int);
        assert(spec_chunk_count(len as int) <= len as int) by {
            lemma_chunk_start_monotone(len as int, 0, spec_chunk_count(len as int));
            assert(spec_chunk_start(len as int, spec_chunk_count(len as int)) == len as int);
        }
    }
    let per: usize = if len % MAX_CHUNK_SIZE == 0 {
        len / MAX_CHUNK_SIZE
    } else {
        len / MAX_CHUNK_SIZE + 1
    };
    if per < 3 {
        3
    } else {
        per
    }
}

/// Cuts `data` into its raw chunks.
pub fn split_into_chunks(data: &[u8]) -> (r: Vec<Vec<u8>>)
    requires
        3 <= data@.len(),
    ensures
        r@.len() == spec_chunk_count(data@.len() as int),
        forall|i: int| 0 <= i < r@.len() ==> #[trigger] r@[i]@ == spec_raw_chunk(data@, i),
{
    let ghost glen = data@.len() as int;
    proof {
        lemma_chunk_layout(glen);
    }
    let len: usize = data.len();
    let n: usize = chunk_count(len);
    let base: usize = len / n;
    let rem: usize = len % n;
    let mut out: Vec<Vec<u8>> = Vec::new();
    let mut i: usize = 0;
    let mut start: usize = 0;
    while i < n
        invariant
            3 <= glen <= usize::MAX as int,
            glen == data@.len() as int,
            n as int == spec_chunk_count(glen),
            base as int == glen / (n as int),
            rem as int == glen % (n as int),
            0 <= i <= n,
            start as int == spec_chunk_start(glen, i as int),
            out@.len() == i as int,
            forall|k: int| 0 <= k < i as int ==> #[trigger] out@[k]@ == spec_raw_chunk(data@, k),
        decreases n - i,
    {
        proof {
            lemma_chunk_layout(glen);
            lemma_chunk_start_monotone(glen, i as int + 1, n as int);
        }
        let size: usize = if i < rem {
            base + 1
        } else {
            base
        };
        proof {
            assert(size as int == spec_chunk_size(glen, i as int));
            assert(start as int + size as int == spec_chunk_start(glen, i as int + 1));
            assert(start as int + size as int <= glen);
        }
        let piece: Vec<u8> = vstd::slice::slice_to_vec(
            vstd::slice::slice_subrange(data, start, start + size),
        );
        out.push(piece);
        start = start + size;
        i = i + 1;
    }
    out
}

} // verus!
