//! The bitmap index: values are appended; a query returns the positions that
//! hold a given value.
//!
//! A value of `B` bits is cut into `K = B / b` blocks of `b` bits. Each block
//! `k` owns `N = 2^b` bitmaps; appending value `v` at local position `p` sets
//! bit `p` in bitmap `k * N + digit_k(v)` of every block. Positions are grouped
//! in chunks of `C` values, and each chunk has its own `K * N` bitmaps.
use crate::bitmap::{Bitmap, lists};
use crate::storage::{bodies, chunk_bytes, write_chunk};
use crate::values::{BitValue, digit, lemma_digits_determine, lemma_pow2_blocks};
use vstd::arithmetic::div_mod::{lemma_fundamental_div_mod, lemma_fundamental_div_mod_converse};
use vstd::arithmetic::mul::lemma_mul_inequality;
use vstd::arithmetic::power::pow;
use vstd::arithmetic::power2::{
    pow2, lemma2_to64, lemma_pow2_unfold, lemma_pow2_strictly_increases,
};
use vstd::prelude::*;

verus! {

/// Relies on `std::io::Error` only as a value carried back to the caller.
#[verifier::external_type_specification]
#[verifier::external_body]
pub struct ExIoError(std::io::Error);

/// Errors of the index.
#[derive(Debug)]
pub enum Error {
    /// A build option, a mode or a path is not valid for the operation.
    ParametersError,
    /// The file system failed; the cause is kept.
    FileError(std::io::Error),
    /// A bitmap failed its integrity check, or could not be serialized.
    BitmapError,
}

/// Values per chunk: 1, 2, 4, 8, 16 or 32 Mi.
#[derive(Clone, Copy, PartialEq, Eq, Debug)]
pub enum ChunkSize {
    M1,
    M2,
    M4,
    M8,
    M16,
    M32,
}

/// The chunk lengths that the index accepts.
pub open spec fn is_chunk_len(n: nat) -> bool {
    n == 0x10_0000 || n == 0x20_0000 || n == 0x40_0000 || n == 0x80_0000 || n == 0x100_0000 || n
        == 0x200_0000
}

impl ChunkSize {
    pub open spec fn spec_len(self) -> nat {
        match self {
            ChunkSize::M1 => 0x10_0000,
            ChunkSize::M2 => 0x20_0000,
            ChunkSize::M4 => 0x40_0000,
            ChunkSize::M8 => 0x80_0000,
            ChunkSize::M16 => 0x100_0000,
            ChunkSize::M32 => 0x200_0000,
        }
    }

    /// The number of values per chunk.
    pub fn values_per_chunk(&self) -> (r: u64)
        ensures
            r == self.spec_len(),
            is_chunk_len(r as nat),
    {
        match self {
            ChunkSize::M1 => 0x10_0000,
            ChunkSize::M2 => 0x20_0000,
            ChunkSize::M4 => 0x40_0000,
            ChunkSize::M8 => 0x80_0000,
            ChunkSize::M16 => 0x100_0000,
            ChunkSize::M32 => 0x200_0000,
        }
    }

    /// The chunk size with `n` values per chunk, if `n` is one of them.
    pub fn from_values_per_chunk(n: u64) -> (r: Option<ChunkSize>)
        ensures
            r is Some <==> is_chunk_len(n as nat),
            r is Some ==> r.unwrap().spec_len() == n,
    {
        if n == 0x10_0000 {
            Some(ChunkSize::M1)
        } else if n == 0x20_0000 {
            Some(ChunkSize::M2)
        } else if n == 0x40_0000 {
            Some(ChunkSize::M4)
        } else if n == 0x80_0000 {
            Some(ChunkSize::M8)
        } else if n == 0x100_0000 {
            Some(ChunkSize::M16)
        } else if n == 0x200_0000 {
            Some(ChunkSize::M32)
        } else {
            None
        }
    }
}

/// How an index is built: the bits per block and the values per chunk.
#[derive(Clone, Copy, PartialEq, Eq, Debug)]
pub struct BuildOptions {
    pub bit_block_size: usize,
    pub chunk_size: ChunkSize,
}

impl BuildOptions {
    /// Create a new `BuildOptions`.
    pub fn new(bit_block_size: usize, chunk_size: ChunkSize) -> (r: Self)
        ensures
            r.bit_block_size == bit_block_size,
            r.chunk_size == chunk_size,
    {
        BuildOptions { bit_block_size, chunk_size }
    }
}

/// Whether `b` bits per block suit values of `width` bits.
pub open spec fn valid_block_size(b: nat, width: nat) -> bool {
    2 <= b <= 16 && width % b == 0
}

/// How values are cut into blocks.
#[derive(Clone, Copy, Debug)]
pub struct BlockInfo {
    pub bit_block_size: usize,
    pub bit_block_mask: usize,
    pub num_blocks: usize,
    pub num_bitmaps_in_block: usize,
}

impl BlockInfo {
    /// The block layout for values of `width` bits.
    pub open spec fn valid(self, width: nat) -> bool {
        &&& valid_block_size(self.bit_block_size as nat, width)
        &&& self.num_blocks == width / (self.bit_block_size as nat)
        &&& self.num_bitmaps_in_block == pow2(self.bit_block_size as nat)
        &&& self.bit_block_mask == self.num_bitmaps_in_block - 1
        &&& 1 <= self.num_blocks <= 64
        &&& 4 <= self.num_bitmaps_in_block <= 0x1_0000
        &&& self.num_blocks * self.num_bitmaps_in_block <= 0x40_0000
    }

    /// Bitmaps per chunk.
    pub open spec fn count(self) -> nat {
        self.num_blocks as nat * self.num_bitmaps_in_block as nat
    }
}

/// The block layout for `b` bits per block, or `ParametersError`.
pub fn new_block_info<U: BitValue>(bit_block_size: usize) -> (r: Result<BlockInfo, Error>)
    ensures
        r is Ok <==> valid_block_size(bit_block_size as nat, U::bit_count()),
        r is Ok ==> r.unwrap().valid(U::bit_count()) && r.unwrap().bit_block_size == bit_block_size,
        r is Err ==> r->Err_0 is ParametersError,
{
    let width: usize = U::bits_per_value();
    if bit_block_size < 2 || bit_block_size > 16 || width % bit_block_size != 0 {
        return Err(Error::ParametersError);
    }
    let num_blocks: usize = width / bit_block_size;
    assert(1 <= num_blocks <= 64) by (nonlinear_arith)
        requires
            num_blocks == width / bit_block_size,
            8 <= width <= 128,
            2 <= bit_block_size,
            width % bit_block_size == 0,
    ;
    let mut n: usize = 1;
    let mut i: usize = 0;
    proof {
        lemma2_to64();
    }
    while i < bit_block_size
        invariant
            i <= bit_block_size <= 16,
            n == pow2(i as nat),
        decreases bit_block_size - i,
    {
        proof {
            lemma_pow2_unfold((i + 1) as nat);
            lemma2_to64();
            lemma_pow2_strictly_increases(i as nat, 16);
        }
        n = n * 2;
        i = i + 1;
    }
    assert(4 <= n <= 0x1_0000) by {
        lemma2_to64();
        if bit_block_size > 2 {
            lemma_pow2_strictly_increases(2, bit_block_size as nat);
        }
        if bit_block_size < 16 {
            lemma_pow2_strictly_increases(bit_block_size as nat, 16);
        }
    }
    assert(num_blocks * n <= 0x40_0000) by (nonlinear_arith)
        requires
            num_blocks <= 64,
            n <= 0x1_0000,
    ;
    Ok(BlockInfo { bit_block_size, bit_block_mask: n - 1, num_blocks, num_bitmaps_in_block: n })
}

/// Positions listed in strictly ascending order.
pub open spec fn ascending64(s: Seq<u64>) -> bool {
    forall|a: int, b: int| 0 <= a < b < s.len() ==> s[a] < s[b]
}

/// `s` lists the positions of `m`, each once, in ascending order.
pub open spec fn lists64(s: Seq<u64>, m: Set<nat>) -> bool {
    &&& ascending64(s)
    &&& forall|k: int| 0 <= k < s.len() ==> m.contains((#[trigger] s[k]) as nat)
    &&& forall|p: nat| m.contains(p) ==> exists|k: int| 0 <= k < s.len() && s[k] as nat == p
}

/// The positions `q` in `lo..hi` with `vals[q] == v` and `start <= q <= end`, ascending.
pub open spec fn matches_in<U>(vals: Seq<U>, v: U, start: int, end: int, lo: int, hi: int) -> Seq<u64>
    decreases hi - lo,
{
    if hi <= lo {
        Seq::empty()
    } else {
        let prev = matches_in(vals, v, start, end, lo, hi - 1);
        if vals[hi - 1] == v && start <= hi - 1 <= end {
            prev.push((hi - 1) as u64)
        } else {
            prev
        }
    }
}

/// Every position `q` of `vals` with `vals[q] == v`, in order.
pub open spec fn brute<U>(vals: Seq<U>, v: U) -> Seq<u64> {
    matches_in(vals, v, 0, vals.len() as int, 0, vals.len() as int)
}

/// The positions common to the bitmaps `chunk[idxs[j]]` for `j < k`.
pub open spec fn common_upto<T: Bitmap>(chunk: Seq<T>, idxs: Seq<usize>, k: int) -> Set<nat> {
    Set::new(|p: nat| forall|j: int| 0 <= j < k ==> (#[trigger] chunk[idxs[j] as int]).members().contains(p))
}

/// The absolute positions that a chunk starting at `base` contributes to a query.
pub open spec fn chunk_hits<T: Bitmap>(
    chunk: Seq<T>,
    idxs: Seq<usize>,
    base: int,
    start: int,
    end: int,
) -> Set<nat> {
    Set::new(
        |q: nat|
            base <= q && common_upto(chunk, idxs, idxs.len() as int).contains((q - base) as nat)
                && start <= q <= end,
    )
}

/// The bitmaps of one chunk hold `len` values of `vals` from `base` on: bitmap
/// `k * N + d` holds the local positions whose value has digit `d` at block `k`.
pub open spec fn chunk_holds<T: Bitmap, U: BitValue>(
    bs: Seq<T>,
    vals: Seq<U>,
    base: int,
    len: int,
    bi: BlockInfo,
) -> bool {
    let n = bi.num_bitmaps_in_block as int;
    &&& bs.len() == bi.count()
    &&& 0 <= base
    &&& 0 <= len
    &&& base + len <= vals.len()
    &&& forall|m: int| 0 <= m < bs.len() ==> (#[trigger] bs[m]).wf()
    &&& forall|k: int, d: int, p: nat|
        0 <= k < bi.num_blocks && 0 <= d < n ==> (#[trigger] bs[k * n + d].members().contains(p)
            <==> (p < len && digit(vals[base + p].bit_pattern(), n as nat, k as nat) == d))
}

/// `idxs` are the bitmaps that value `v` selects, one per block.
pub open spec fn selects<U: BitValue>(idxs: Seq<usize>, v: U, bi: BlockInfo) -> bool {
    let n = bi.num_bitmaps_in_block as int;
    &&& idxs.len() == bi.num_blocks
    &&& forall|k: int|
        0 <= k < idxs.len() ==> #[trigger] idxs[k] == k * n + digit(
            v.bit_pattern(),
            n as nat,
            k as nat,
        )
}

proof fn lemma_slot(k1: int, d1: int, k2: int, d2: int, n: int)
    requires
        0 <= k1,
        0 <= k2,
        0 <= d1 < n,
        0 <= d2 < n,
        k1 * n + d1 == k2 * n + d2,
    ensures
        k1 == k2,
        d1 == d2,
{
    if k1 < k2 {
        lemma_mul_inequality(k1 + 1, k2, n);
        assert((k1 + 1) * n == k1 * n + n) by (nonlinear_arith);
    } else if k2 < k1 {
        lemma_mul_inequality(k2 + 1, k1, n);
        assert((k2 + 1) * n == k2 * n + n) by (nonlinear_arith);
    }
}

proof fn lemma_slot_bound(k: int, d: int, n: int, count: int)
    requires
        0 <= k < count,
        0 <= d < n,
    ensures
        0 <= k * n + d < count * n,
{
    lemma_mul_inequality(k + 1, count, n);
    assert((k + 1) * n == k * n + n) by (nonlinear_arith);
    assert(0 <= k * n) by (nonlinear_arith)
        requires
            0 <= k,
            0 <= d < n,
    ;
}

/// The bitmap of each block that `value` selects: `k * N + digit_k(value)`.
pub fn get_query_i_bitmaps<U: BitValue>(block_info: &BlockInfo, value: U) -> (r: Vec<usize>)
    requires
        block_info.valid(U::bit_count()),
    ensures
        selects(r@, value, *block_info),
{
    let n: usize = block_info.num_bitmaps_in_block;
    let count: usize = block_info.num_blocks;
    let mut x: u128 = value.to_bits();
    let mut r: Vec<usize> = Vec::with_capacity(count);
    let mut i_block: usize = 0;
    let mut k: usize = 0;
    while k < count
        invariant
            block_info.valid(U::bit_count()),
            n == block_info.num_bitmaps_in_block,
            count == block_info.num_blocks,
            k <= count,
            i_block == k * n,
            r@.len() == k,
            forall|j: int|
                0 <= j < k ==> #[trigger] r@[j] == j * n + digit(value.bit_pattern(), n as nat, j as nat),
            forall|j: nat| #[trigger]
                digit(value.bit_pattern(), n as nat, (k + j) as nat) == digit(x as nat, n as nat, j),
        decreases count - k,
    {
        let d: usize = (x % (n as u128)) as usize;
        proof {
            assert(digit(value.bit_pattern(), n as nat, (k + 0) as nat) == digit(x as nat, n as nat, 0));
            lemma_slot_bound(k as int, d as int, n as int, count as int);
            assert((k + 1) * n == k * n + n) by (nonlinear_arith);
        }
        r.push(i_block + d);
        proof {
            assert forall|j: nat| #[trigger]
                digit(value.bit_pattern(), n as nat, (k + 1 + j) as nat) == digit(
                    (x / (n as u128)) as nat,
                    n as nat,
                    j,
                ) by {
                assert(digit(value.bit_pattern(), n as nat, (k + (j + 1)) as nat) == digit(
                    x as nat,
                    n as nat,
                    j + 1,
                ));
            }
        }
        x = x / (n as u128);
        i_block = i_block + n;
        k = k + 1;
    }
    r
}

/// Append to `indexes` the positions of one chunk that a query keeps: the
/// positions common to the bitmaps `chunk[idxs[k]]`, shifted by the chunk's
/// first position `chunk_id * chunk_size`, and kept where they lie in
/// `start_index..=end_index`. They come in ascending order.
pub fn push_indexes<T: Bitmap>(
    chunk: &Vec<T>,
    idxs: &Vec<usize>,
    chunk_id: u64,
    chunk_size: u64,
    start_index: u64,
    end_index: u64,
    indexes: &mut Vec<u64>,
)
    requires
        idxs@.len() >= 1,
        forall|k: int| 0 <= k < idxs@.len() ==> #[trigger] idxs@[k] < chunk@.len(),
        forall|k: int| 0 <= k < idxs@.len() ==> (#[trigger] chunk@[idxs@[k] as int]).wf(),
        chunk_id * chunk_size <= u64::MAX,
    ensures
        final(indexes)@.len() >= old(indexes)@.len(),
        final(indexes)@.subrange(0, old(indexes)@.len() as int) == old(indexes)@,
        lists64(
            final(indexes)@.subrange(old(indexes)@.len() as int, final(indexes)@.len() as int),
            chunk_hits(chunk@, idxs@, chunk_id * chunk_size, start_index as int, end_index as int),
        ),
{
    let ghost hits = chunk_hits(
        chunk@,
        idxs@,
        chunk_id * chunk_size,
        start_index as int,
        end_index as int,
    );
    let ghost old_len = indexes@.len();
    assert(0 <= chunk_id * chunk_size) by (nonlinear_arith);
    let base: u64 = chunk_id * chunk_size;
    let ghost all = common_upto(chunk@, idxs@, idxs@.len() as int);
    if base > end_index {
        proof {
            assert(indexes@.subrange(0, old_len as int) =~= indexes@);
            assert(indexes@.subrange(old_len as int, old_len as int) =~= Seq::<u64>::empty());
            assert forall|q: nat| !hits.contains(q) by {
                if hits.contains(q) {
                    assert(chunk@[idxs@[0] as int].members().contains((q - base) as nat));
                }
            }
        }
        return ;
    }
    let count: usize = idxs.len();
    let positions: Vec<u32>;
    if count == 1 {
        positions = chunk[idxs[0]].unroll_bitmap();
        proof {
            assert(all =~= chunk@[idxs@[0] as int].members());
        }
    } else {
        let mut acc: T = chunk[idxs[0]].bitand(&chunk[idxs[1]]);
        let mut k: usize = 2;
        proof {
            assert(acc.members() =~= common_upto(chunk@, idxs@, 2));
        }
        while k < count
            invariant
                2 <= k <= count,
                count == idxs@.len(),
                forall|j: int| 0 <= j < idxs@.len() ==> #[trigger] idxs@[j] < chunk@.len(),
                forall|j: int| 0 <= j < idxs@.len() ==> (#[trigger] chunk@[idxs@[j] as int]).wf(),
                acc.wf(),
                acc.members() == common_upto(chunk@, idxs@, k as int),
            decreases count - k,
        {
            acc = acc.bitand(&chunk[idxs[k]]);
            k = k + 1;
            proof {
                assert(acc.members() =~= common_upto(chunk@, idxs@, k as int));
            }
        }
        positions = acc.unroll_bitmap();
    }
    let mut i: usize = 0;
    while i < positions.len()
        invariant
            lists(positions@, all),
            idxs@.len() >= 1,
            base <= end_index,
            base == chunk_id * chunk_size,
            i <= positions@.len(),
            indexes@.len() >= old_len,
            indexes@.subrange(0, old_len as int) == old(indexes)@,
            old_len == old(indexes)@.len(),
            hits == chunk_hits(chunk@, idxs@, base as int, start_index as int, end_index as int),
            all == common_upto(chunk@, idxs@, idxs@.len() as int),
            ascending64(indexes@.subrange(old_len as int, indexes@.len() as int)),
            forall|t: int|
                old_len <= t < indexes@.len() ==> hits.contains(#[trigger] indexes@[t] as nat),
            forall|t: int|
                old_len <= t < indexes@.len() ==> (#[trigger] indexes@[t] as nat) < base + (if i
                    == 0 {
                    0
                } else {
                    positions@[i - 1] + 1
                }),
            forall|q: nat|
                hits.contains(q) && q < base + (if i == 0 {
                    0
                } else {
                    positions@[i - 1] + 1
                }) ==> exists|t: int| old_len <= t < indexes@.len() && indexes@[t] as nat == q,
        decreases positions@.len() - i,
    {
        let p: u32 = positions[i];
        proof {
            assert(p == positions@[i as int]);
            assert(all.contains(positions@[i as int] as nat));
            assert(chunk@[idxs@[0] as int].members().contains(p as nat));
        }
        let ghost q: nat = (base + p) as nat;
        let ghost before = indexes@;
        if p as u64 <= end_index - base {
            let qq: u64 = base + p as u64;
            if qq >= start_index {
                indexes.push(qq);
                proof {
                    assert(hits.contains(q));
                }
            }
        }
        proof {
            let cur = indexes@;
            assert forall|t: int| old_len <= t < cur.len() implies (#[trigger] cur[t] as nat) < base
                + positions@[i as int] + 1 by {
                if t < before.len() {
                    assert(cur[t] == before[t]);
                    if i > 0 {
                        assert(positions@[i - 1] < positions@[i as int]);
                    }
                }
            }
            assert forall|qq: nat|
                hits.contains(qq) && qq < base + positions@[i as int] + 1 implies exists|t: int|
                old_len <= t < cur.len() && cur[t] as nat == qq by {
                if qq == q {
                    assert(cur[cur.len() - 1] == q);
                } else {
                    let prev_bound = base + (if i == 0 {
                        0
                    } else {
                        positions@[i - 1] + 1
                    });
                    if qq >= prev_bound {
                        let pp = (qq - base) as nat;
                        assert(all.contains(pp));
                        let kk = choose|kk: int| 0 <= kk < positions@.len() && positions@[kk] as nat == pp;
                        if kk < i {
                            assert(positions@[kk] <= positions@[i - 1]) by {
                                if kk < i - 1 {
                                    assert(positions@[kk] < positions@[i - 1]);
                                }
                            }
                        } else if kk > i {
                            assert(positions@[i as int] < positions@[kk]);
                        }
                    } else {
                        let t = choose|t: int| old_len <= t < before.len() && before[t] as nat == qq;
                        assert(cur[t] == before[t]);
                    }
                }
            }
            assert(cur.subrange(0, old_len as int) =~= before.subrange(0, old_len as int));
            assert forall|a: int, b: int|
                0 <= a < b < cur.len() - old_len implies cur.subrange(
                old_len as int,
                cur.len() as int,
            )[a] < cur.subrange(old_len as int, cur.len() as int)[b] by {
                assert(cur.subrange(old_len as int, cur.len() as int)[a] == cur[old_len + a]);
                assert(cur.subrange(old_len as int, cur.len() as int)[b] == cur[old_len + b]);
                if old_len + b >= before.len() {
                    if i > 0 {
                        assert(positions@[i - 1] < positions@[i as int]);
                    }
                    assert((before[old_len + a] as nat) < base + (if i == 0 {
                        0
                    } else {
                        positions@[i - 1] + 1
                    }));
                } else {
                    assert(before.subrange(old_len as int, before.len() as int)[a] == before[old_len + a]);
                    assert(before.subrange(old_len as int, before.len() as int)[b] == before[old_len + b]);
                }
            }
        }
        i = i + 1;
    }
    proof {
        let added = indexes@.subrange(old_len as int, indexes@.len() as int);
        assert forall|k: int| 0 <= k < added.len() implies hits.contains(#[trigger] added[k] as nat) by {
            assert(added[k] == indexes@[old_len + k]);
        }
        assert forall|q: nat| hits.contains(q) implies exists|k: int|
            0 <= k < added.len() && added[k] as nat == q by {
            let pp = (q - base) as nat;
            assert(all.contains(pp));
            let kk = choose|kk: int| 0 <= kk < positions@.len() && positions@[kk] as nat == pp;
            if kk < positions@.len() - 1 {
                assert(positions@[kk] < positions@[positions@.len() - 1]);
            }
            let t = choose|t: int| old_len <= t < indexes@.len() && indexes@[t] as nat == q;
            assert(added[t - old_len] == indexes@[t]);
        }
    }
}

/// The positions that `matches_in` lists.
pub open spec fn match_set<U>(vals: Seq<U>, v: U, start: int, end: int, lo: int, hi: int) -> Set<nat> {
    Set::new(|q: nat| lo <= q < hi && vals[q as int] == v && start <= q <= end)
}

/// `matches_in` lists its positions in ascending order.
pub proof fn lemma_matches<U>(vals: Seq<U>, v: U, start: int, end: int, lo: int, hi: int)
    requires
        0 <= lo,
        hi <= vals.len(),
        hi <= u64::MAX + 1,
    ensures
        lists64(matches_in(vals, v, start, end, lo, hi), match_set(vals, v, start, end, lo, hi)),
        forall|t: int|
            0 <= t < matches_in(vals, v, start, end, lo, hi).len() ==> lo <= #[trigger] matches_in(
                vals,
                v,
                start,
                end,
                lo,
                hi,
            )[t] < hi,
    decreases hi - lo,
{
    let r = matches_in(vals, v, start, end, lo, hi);
    let m = match_set(vals, v, start, end, lo, hi);
    if hi > lo {
        lemma_matches(vals, v, start, end, lo, hi - 1);
        let prev = matches_in(vals, v, start, end, lo, hi - 1);
        let pm = match_set(vals, v, start, end, lo, hi - 1);
        assert forall|p: nat| m.contains(p) implies exists|k: int|
            0 <= k < r.len() && r[k] as nat == p by {
            if p == hi - 1 {
                assert(r[r.len() - 1] as nat == p);
            } else {
                assert(pm.contains(p));
                let k = choose|k: int| 0 <= k < prev.len() && prev[k] as nat == p;
                assert(r[k] == prev[k]);
            }
        }
        assert forall|k: int| 0 <= k < r.len() implies m.contains((#[trigger] r[k]) as nat) by {
            if k < prev.len() {
                assert(r[k] == prev[k]);
                assert(pm.contains(prev[k] as nat));
            }
        }
    }
}

/// No position below `start` is kept.
proof fn lemma_matches_before<U>(vals: Seq<U>, v: U, start: int, end: int, lo: int, hi: int)
    requires
        hi <= start,
    ensures
        matches_in(vals, v, start, end, lo, hi) == Seq::<u64>::empty(),
    decreases hi - lo,
{
    if hi > lo {
        lemma_matches_before(vals, v, start, end, lo, hi - 1);
    }
}

/// `matches_in` over `lo..hi` is its run over `lo..mid` followed by its run over `mid..hi`.
pub proof fn lemma_matches_concat<U>(
    vals: Seq<U>,
    v: U,
    start: int,
    end: int,
    lo: int,
    mid: int,
    hi: int,
)
    requires
        lo <= mid <= hi,
    ensures
        matches_in(vals, v, start, end, lo, hi) == matches_in(vals, v, start, end, lo, mid)
            + matches_in(vals, v, start, end, mid, hi),
    decreases hi - mid,
{
    if hi == mid {
        assert(matches_in(vals, v, start, end, lo, mid) + matches_in(vals, v, start, end, mid, hi)
            =~= matches_in(vals, v, start, end, lo, mid));
    } else {
        lemma_matches_concat(vals, v, start, end, lo, mid, hi - 1);
        let a = matches_in(vals, v, start, end, lo, mid);
        let b = matches_in(vals, v, start, end, mid, hi - 1);
        if vals[hi - 1] == v && start <= hi - 1 <= end {
            assert((a + b).push((hi - 1) as u64) =~= a + b.push((hi - 1) as u64));
        }
    }
}

/// Two ascending lists of one set are equal.
pub proof fn lemma_lists_unique(a: Seq<u64>, b: Seq<u64>, m: Set<nat>)
    requires
        lists64(a, m),
        lists64(b, m),
    ensures
        a == b,
    decreases a.len(),
{
    if a.len() == 0 {
        if b.len() > 0 {
            assert(m.contains(b[0] as nat));
        }
        assert(a =~= b);
    } else {
        assert(m.contains(a[0] as nat));
        let kb = choose|k: int| 0 <= k < b.len() && b[k] as nat == a[0] as nat;
        assert(m.contains(b[0] as nat));
        let ka = choose|k: int| 0 <= k < a.len() && a[k] as nat == b[0] as nat;
        if ka > 0 {
            assert(a[0] < a[ka]);
        }
        if kb > 0 {
            assert(b[0] < b[kb]);
        }
        assert(a[0] == b[0]);
        let m2 = m.remove(a[0] as nat);
        let a2 = a.drop_first();
        let b2 = b.drop_first();
        assert forall|k: int| 0 <= k < a2.len() implies m2.contains((#[trigger] a2[k]) as nat) by {
            assert(a2[k] == a[k + 1]);
            assert(a[0] < a[k + 1]);
        }
        assert forall|k: int| 0 <= k < b2.len() implies m2.contains((#[trigger] b2[k]) as nat) by {
            assert(b2[k] == b[k + 1]);
            assert(b[0] < b[k + 1]);
        }
        assert forall|p: nat| m2.contains(p) implies exists|k: int| 0 <= k < a2.len() && a2[k] as nat == p by {
            let k = choose|k: int| 0 <= k < a.len() && a[k] as nat == p;
            assert(k != 0);
            assert(a2[k - 1] == a[k]);
        }
        assert forall|p: nat| m2.contains(p) implies exists|k: int| 0 <= k < b2.len() && b2[k] as nat == p by {
            let k = choose|k: int| 0 <= k < b.len() && b[k] as nat == p;
            assert(k != 0);
            assert(b2[k - 1] == b[k]);
        }
        lemma_lists_unique(a2, b2, m2);
        assert(a.len() == b.len()) by {
            assert(a2.len() == b2.len());
        }
        assert(a =~= b) by {
            assert forall|k: int| 0 <= k < a.len() implies a[k] == b[k] by {
                if k > 0 {
                    assert(a[k] == a2[k - 1]);
                    assert(b[k] == b2[k - 1]);
                }
            }
        }
    }
}

/// The positions common to the bitmaps that `v` selects are those that hold `v`.
proof fn lemma_chunk_hits<T: Bitmap, U: BitValue>(
    chunk: Seq<T>,
    idxs: Seq<usize>,
    vals: Seq<U>,
    v: U,
    base: int,
    len: int,
    bi: BlockInfo,
    start: int,
    end: int,
)
    requires
        bi.valid(U::bit_count()),
        chunk_holds(chunk, vals, base, len, bi),
        selects(idxs, v, bi),
    ensures
        chunk_hits(chunk, idxs, base, start, end) == match_set(vals, v, start, end, base, base + len),
        forall|k: int, p: nat|
            0 <= k < idxs.len() && #[trigger] chunk[idxs[k] as int].members().contains(p) ==> p < len,
        forall|k: int| 0 <= k < idxs.len() ==> (#[trigger] idxs[k]) < chunk.len(),
        forall|k: int| 0 <= k < idxs.len() ==> (#[trigger] chunk[idxs[k] as int]).wf(),
{
    let n = bi.num_bitmaps_in_block as int;
    let count = bi.num_blocks as int;
    let b = bi.bit_block_size as nat;
    assert forall|k: int| 0 <= k < idxs.len() implies (#[trigger] idxs[k]) < chunk.len() && idxs[k]
        == k * n + digit(v.bit_pattern(), n as nat, k as nat) by {
        let d = digit(v.bit_pattern(), n as nat, k as nat);
        assert(d < n) by {
            assert(n > 0);
            if k == 0 {
            } else {
                lemma_digit_bound(v.bit_pattern(), n as nat, k as nat);
            }
            lemma_digit_bound(v.bit_pattern(), n as nat, k as nat);
        }
        lemma_slot_bound(k, d as int, n, count);
    }
    assert forall|k: int, p: nat|
        0 <= k < idxs.len() && #[trigger] chunk[idxs[k] as int].members().contains(p) implies p
        < len by {
        let d = digit(v.bit_pattern(), n as nat, k as nat);
        lemma_digit_bound(v.bit_pattern(), n as nat, k as nat);
        assert(chunk[k * n + d].members().contains(p));
    }
    let hits = chunk_hits(chunk, idxs, base, start, end);
    let want = match_set(vals, v, start, end, base, base + len);
    lemma_fundamental_div_mod(U::bit_count() as int, b as int);
    assert(U::bit_count() == b * (count as nat));
    lemma_pow2_blocks(b, count as nat);
    assert forall|q: nat| hits.contains(q) <==> want.contains(q) by {
        if q >= base {
            let p = (q - base) as nat;
            if hits.contains(q) {
                assert(chunk[idxs[0] as int].members().contains(p));
                assert(p < len);
                let x = vals[q as int];
                assert forall|k: nat| k < count implies #[trigger] digit(
                    x.bit_pattern(),
                    n as nat,
                    k,
                ) == digit(v.bit_pattern(), n as nat, k) by {
                    let d = digit(v.bit_pattern(), n as nat, k);
                    lemma_digit_bound(v.bit_pattern(), n as nat, k);
                    assert(chunk[idxs[k as int] as int].members().contains(p));
                    assert(chunk[k * n + d].members().contains(p));
                }
                U::lemma_bit_pattern(x, v);
                U::lemma_bit_pattern(v, x);
                lemma_digits_determine(x.bit_pattern(), v.bit_pattern(), n as nat, count as nat);
            }
            if want.contains(q) {
                assert forall|j: int| 0 <= j < idxs.len() implies (#[trigger] chunk[idxs[j] as int]).members().contains(
                    p,
                ) by {
                    let d = digit(v.bit_pattern(), n as nat, j as nat);
                    lemma_digit_bound(v.bit_pattern(), n as nat, j as nat);
                    assert(chunk[j * n + d].members().contains(p));
                }
                assert(common_upto(chunk, idxs, idxs.len() as int).contains(p));
            }
        }
    }
    assert(hits =~= want);
}

/// A digit in base `n` is below `n`.
proof fn lemma_digit_bound(x: nat, n: nat, k: nat)
    requires
        n > 0,
    ensures
        digit(x, n, k) < n,
    decreases k,
{
    if k > 0 {
        lemma_digit_bound(x / n, n, (k - 1) as nat);
    }
}

/// Counting one more value moves the position within the chunk by one, or
/// starts the next chunk.
proof fn lemma_count_step(n: int, c: int)
    requires
        0 <= n,
        0 < c,
    ensures
        (n + 1) % c != 0 ==> (n + 1) % c == n % c + 1 && (n + 1) / c == n / c,
        (n + 1) % c == 0 ==> n % c == c - 1 && (n + 1) / c == n / c + 1,
{
    lemma_fundamental_div_mod(n, c);
    lemma_fundamental_div_mod(n + 1, c);
    let q = n / c;
    let r = n % c;
    if r + 1 < c {
        assert(n + 1 == q * c + (r + 1)) by (nonlinear_arith)
            requires
                n == c * q + r,
        ;
        lemma_fundamental_div_mod_converse(n + 1, c, q, r + 1);
    } else {
        assert(n + 1 == (q + 1) * c + 0) by (nonlinear_arith)
            requires
                n == c * q + r,
                r + 1 == c,
        ;
        lemma_fundamental_div_mod_converse(n + 1, c, q + 1, 0);
    }
}

/// A bitmap index of values of type `U`, over bitmaps of type `T`.
///
/// In memory mode every full chunk stays in memory. In storage mode a full
/// chunk is handed back by `push_value` for the caller to store, and only the
/// chunk being filled is kept.
pub struct BitmapIndex<T: Bitmap, U: BitValue> {
    num_values: u64,
    chunk_size: u64,
    chunk_size_mask: u64,
    bitmaps: Vec<T>,
    block_info: BlockInfo,
    chunks: Vec<Vec<T>>,
    in_memory: bool,
    values: Ghost<Seq<U>>,
}

impl<T: Bitmap, U: BitValue> View for BitmapIndex<T, U> {
    type V = Seq<U>;

    /// The values appended so far, in order.
    closed spec fn view(&self) -> Seq<U> {
        self.values@
    }
}

impl<T: Bitmap, U: BitValue> BitmapIndex<T, U> {
    /// Whether full chunks stay in memory.
    pub closed spec fn memory_mode(self) -> bool {
        self.in_memory
    }

    /// Values per chunk.
    pub closed spec fn chunk_len(self) -> nat {
        self.chunk_size as nat
    }

    /// The block layout.
    pub closed spec fn blocks(self) -> BlockInfo {
        self.block_info
    }

    /// The first position that a query over this index can see: zero in
    /// memory mode, the start of the chunk being filled in storage mode.
    pub open spec fn first_held(self) -> int {
        if self.memory_mode() {
            0
        } else {
            self@.len() - self@.len() as int % (self.chunk_len() as int)
        }
    }

    /// The live bitmaps hold the chunk being filled.
    pub closed spec fn live_ok(self) -> bool {
        let c = self.chunk_size as int;
        let n = self.num_values as int;
        chunk_holds(self.bitmaps@, self.values@, n - n % c, n % c, self.block_info)
    }

    pub closed spec fn wf(self) -> bool {
        let c = self.chunk_size as int;
        let n = self.num_values as int;
        &&& self.block_info.valid(U::bit_count())
        &&& is_chunk_len(c as nat)
        &&& self.chunk_size_mask == c - 1
        &&& n == self.values@.len()
        &&& self.live_ok()
        &&& self.in_memory ==> self.chunks@.len() == n / c
        &&& !self.in_memory ==> self.chunks@.len() == 0
        &&& forall|i: int|
            0 <= i < self.chunks@.len() ==> chunk_holds(
                #[trigger] self.chunks@[i]@,
                self.values@,
                i * c,
                c,
                self.block_info,
            )
    }

    /// A fresh set of empty bitmaps.
    fn empty_bitmaps(count: usize) -> (r: Vec<T>)
        ensures
            r@.len() == count,
            forall|m: int| 0 <= m < count ==> (#[trigger] r@[m]).wf() && r@[m].members() == Set::<
                nat,
            >::empty(),
    {
        let mut r: Vec<T> = Vec::with_capacity(count);
        let mut i: usize = 0;
        while i < count
            invariant
                i <= count,
                r@.len() == i,
                forall|m: int| 0 <= m < i ==> (#[trigger] r@[m]).wf() && r@[m].members() == Set::<
                    nat,
                >::empty(),
            decreases count - i,
        {
            r.push(T::new());
            i = i + 1;
        }
        r
    }

    /// A new, empty index; in memory mode unless `is_storage_idx` holds.
    /// Fails with `ParametersError` where the bits per block do not suit `U`.
    pub fn new_index(build_options: BuildOptions, is_storage_idx: bool) -> (r: Result<Self, Error>)
        ensures
            r is Ok <==> valid_block_size(build_options.bit_block_size as nat, U::bit_count()),
            r is Ok ==> {
                let x = r.unwrap();
                &&& x.wf()
                &&& x@ == Seq::<U>::empty()
                &&& x.memory_mode() == !is_storage_idx
                &&& x.chunk_len() == build_options.chunk_size.spec_len()
                &&& x.blocks().bit_block_size == build_options.bit_block_size
                &&& x.blocks().valid(U::bit_count())
            },
            r is Err ==> r->Err_0 is ParametersError,
    {
        let block_info = match new_block_info::<U>(build_options.bit_block_size) {
            Ok(b) => b,
            Err(e) => {
                return Err(e);
            },
        };
        let num_bitmaps: usize = block_info.num_blocks * block_info.num_bitmaps_in_block;
        let chunk_size: u64 = build_options.chunk_size.values_per_chunk();
        let bitmaps = Self::empty_bitmaps(num_bitmaps);
        let r = BitmapIndex {
            num_values: 0,
            chunk_size,
            chunk_size_mask: chunk_size - 1,
            bitmaps,
            block_info,
            chunks: Vec::new(),
            in_memory: !is_storage_idx,
            values: Ghost(Seq::empty()),
        };
        proof {
            assert(0int % (chunk_size as int) == 0);
            assert(0int / (chunk_size as int) == 0);
            assert forall|k: int, d: int, p: nat|
                0 <= k < block_info.num_blocks && 0 <= d < block_info.num_bitmaps_in_block implies
                #[trigger] r.bitmaps@[k * block_info.num_bitmaps_in_block + d].members().contains(p)
                == false by {
                lemma_slot_bound(
                    k,
                    d,
                    block_info.num_bitmaps_in_block as int,
                    block_info.num_blocks as int,
                );
            }
        }
        Ok(r)
    }

    /// A new, empty index in memory mode. Fails with `ParametersError` where the
    /// bits per block do not suit `U`.
    pub fn new(build_options: BuildOptions) -> (r: Result<Self, Error>)
        ensures
            r is Ok <==> valid_block_size(build_options.bit_block_size as nat, U::bit_count()),
            r is Ok ==> {
                let x = r.unwrap();
                &&& x.wf()
                &&& x@ == Seq::<U>::empty()
                &&& x.memory_mode()
                &&& x.chunk_len() == build_options.chunk_size.spec_len()
                &&& x.blocks().bit_block_size == build_options.bit_block_size
                &&& x.blocks().valid(U::bit_count())
            },
            r is Err ==> r->Err_0 is ParametersError,
    {
        Self::new_index(build_options, false)
    }

    /// The number of values appended.
    pub fn num_values(&self) -> (r: u64)
        requires
            self.wf(),
        ensures
            r == self@.len(),
    {
        self.num_values
    }

    /// The build options of the index.
    pub fn build_options(&self) -> (r: BuildOptions)
        requires
            self.wf(),
        ensures
            r.bit_block_size == self.blocks().bit_block_size,
            r.chunk_size.spec_len() == self.chunk_len(),
    {
        let c = ChunkSize::from_values_per_chunk(self.chunk_size);
        BuildOptions { bit_block_size: self.block_info.bit_block_size, chunk_size: c.unwrap() }
    }

    /// Append `value` at position `self@.len()`. In storage mode, where this
    /// value fills its chunk, the chunk's bitmaps are handed back for the
    /// caller to store, and the index starts the next chunk empty.
    pub fn push_value(&mut self, value: U) -> (r: Option<Vec<T>>)
        requires
            old(self).wf(),
            old(self)@.len() < u64::MAX,
        ensures
            final(self).wf(),
            final(self)@ == old(self)@.push(value),
            final(self).memory_mode() == old(self).memory_mode(),
            final(self).chunk_len() == old(self).chunk_len(),
            final(self).blocks() == old(self).blocks(),
            r is Some <==> !old(self).memory_mode() && final(self)@.len() as int % (final(self).chunk_len() as int) == 0,
            r is Some ==> chunk_holds(
                r.unwrap()@,
                final(self)@,
                final(self)@.len() - final(self).chunk_len(),
                final(self).chunk_len() as int,
                final(self).blocks(),
            ),
    {
        let ghost c = self.chunk_size as int;
        let ghost n = self.num_values as int;
        let ghost bi = self.block_info;
        let ghost nb = bi.num_bitmaps_in_block as int;
        let ghost old_vals = self.values@;
        let local: u64 = self.num_values % self.chunk_size;
        let idxs = get_query_i_bitmaps::<U>(&self.block_info, value);
        self.values = Ghost(self.values@.push(value));
        let ghost vals = self.values@;
        let ghost base = n - n % c;
        proof {
            lemma_fundamental_div_mod(n, c);
            assert forall|k: int| 0 <= k < idxs@.len() implies (#[trigger] idxs@[k]) < self.bitmaps@.len() by {
                lemma_digit_bound(value.bit_pattern(), nb as nat, k as nat);
                lemma_slot_bound(k, digit(value.bit_pattern(), nb as nat, k as nat) as int, nb, bi.num_blocks as int);
            }
        }
        let mut k: usize = 0;
        while k < idxs.len()
            invariant
                self.num_values == old(self).num_values,
                self.chunk_size == old(self).chunk_size,
                self.chunk_size_mask == old(self).chunk_size_mask,
                self.chunks == old(self).chunks,
                self.in_memory == old(self).in_memory,
                old(self).wf(),
                c == self.chunk_size,
                n == self.num_values,
                n < u64::MAX,
                bi == self.block_info,
                bi.valid(U::bit_count()),
                nb == bi.num_bitmaps_in_block,
                selects(idxs@, value, bi),
                forall|j: int| 0 <= j < idxs@.len() ==> (#[trigger] idxs@[j]) < self.bitmaps@.len(),
                vals == self.values@,
                vals == old_vals.push(value),
                n == old_vals.len(),
                local == n % c,
                0 <= base,
                base + local == n,
                local < c,
                c <= 0x200_0000,
                k <= idxs@.len(),
                self.bitmaps@.len() == bi.count(),
                forall|m: int| 0 <= m < self.bitmaps@.len() ==> (#[trigger] self.bitmaps@[m]).wf(),
                forall|kk: int, d: int, p: nat|
                    0 <= kk < bi.num_blocks && 0 <= d < nb ==> (#[trigger] self.bitmaps@[kk * nb
                        + d].members().contains(p) <==> (p < local + (if kk < k {
                        1int
                    } else {
                        0int
                    }) && digit(vals[base + p].bit_pattern(), nb as nat, kk as nat) == d)),
            decreases idxs@.len() - k,
        {
            let i: usize = idxs[k];
            let ghost dk = digit(value.bit_pattern(), nb as nat, k as nat);
            let ghost before = self.bitmaps@;
            proof {
                lemma_digit_bound(value.bit_pattern(), nb as nat, k as nat);
                assert(i == k * nb + dk);
                assert forall|x: nat| before[i as int].members().contains(x) implies x < local by {
                    assert(before[k * nb + dk].members().contains(x));
                }
            }
            self.bitmaps[i].set(local as u32);
            proof {
                assert forall|kk: int, d: int, p: nat|
                    0 <= kk < bi.num_blocks && 0 <= d < nb implies (#[trigger] self.bitmaps@[kk
                    * nb + d].members().contains(p) <==> (p < local + (if kk < k + 1 {
                    1int
                } else {
                    0int
                }) && digit(vals[base + p].bit_pattern(), nb as nat, kk as nat) == d)) by {
                    lemma_slot_bound(kk, d, nb, bi.num_blocks as int);
                    if kk * nb + d == i {
                        lemma_slot(kk, d, k as int, dk as int, nb);
                        assert(before[kk * nb + d].members().contains(p) <==> (p < local && digit(
                            vals[base + p].bit_pattern(),
                            nb as nat,
                            kk as nat,
                        ) == d));
                        if p == local {
                            assert(vals[base + p] == value);
                        }
                    } else {
                        assert(self.bitmaps@[kk * nb + d] == before[kk * nb + d]);
                        if kk == k {
                            if p == local {
                                assert(vals[base + p] == value);
                                assert(d != dk) by {
                                    if d == dk {
                                        assert(kk * nb + d == i);
                                    }
                                }
                            }
                        }
                    }
                }
                assert forall|m: int| 0 <= m < self.bitmaps@.len() implies (
                #[trigger] self.bitmaps@[m]).wf() by {
                    if m != i {
                        assert(self.bitmaps@[m] == before[m]);
                    }
                }
            }
            k = k + 1;
        }
        self.num_values = self.num_values + 1;
        proof {
            lemma_count_step(n, c);
            assert forall|i: int|
                0 <= i < self.chunks@.len() implies chunk_holds(
                #[trigger] self.chunks@[i]@,
                self.values@,
                i * c,
                c,
                self.block_info,
            ) by {
                assert(chunk_holds(self.chunks@[i]@, old_vals, i * c, c, self.block_info));
                assert forall|kk: int, d: int, p: nat|
                    0 <= kk < bi.num_blocks && 0 <= d < nb implies
                    #[trigger] self.chunks@[i]@[kk * nb + d].members().contains(p) <==> (p < c
                        && digit(vals[i * c + p].bit_pattern(), nb as nat, kk as nat) == d) by {
                    if p < c {
                        assert(i * c + p < n) by {
                            assert(i < n / c);
                            lemma_mul_inequality(i + 1, n / c, c);
                            assert((i + 1) * c == i * c + c) by (nonlinear_arith);
                        }
                        assert(vals[i * c + p] == old_vals[i * c + p]);
                    }
                }
            }
        }
        if self.num_values % self.chunk_size != 0 {
            proof {
                assert forall|kk: int, d: int, p: nat|
                    0 <= kk < bi.num_blocks && 0 <= d < nb implies (#[trigger] self.bitmaps@[kk
                    * nb + d].members().contains(p) <==> (p < (n + 1) % c && digit(
                    vals[(n + 1 - (n + 1) % c) + p].bit_pattern(),
                    nb as nat,
                    kk as nat,
                ) == d)) by {}
            }
            return None;
        }
        let mut full: Vec<T> = Self::empty_bitmaps(self.bitmaps.len());
        std::mem::swap(&mut full, &mut self.bitmaps);
        proof {
            assert forall|kk: int, d: int, p: nat|
                0 <= kk < bi.num_blocks && 0 <= d < nb implies (#[trigger] self.bitmaps@[kk * nb
                + d].members().contains(p) <==> (p < 0int && digit(
                vals[(n + 1) + p].bit_pattern(),
                nb as nat,
                kk as nat,
            ) == d)) by {
                lemma_slot_bound(kk, d, nb, bi.num_blocks as int);
            }
            assert((n + 1) - (n + 1) % c == n + 1);
            assert(base == n + 1 - c);
            assert(local + 1 == c);
        }
        if self.in_memory {
            let ghost chunks_before = self.chunks@;
            self.chunks.push(full);
            proof {
                assert forall|i: int|
                    0 <= i < self.chunks@.len() implies chunk_holds(
                    #[trigger] self.chunks@[i]@,
                    self.values@,
                    i * c,
                    c,
                    self.block_info,
                ) by {
                    if i < chunks_before.len() {
                        assert(self.chunks@[i] == chunks_before[i]);
                    } else {
                        assert(i == n / c);
                        assert(i * c == base) by {
                            lemma_fundamental_div_mod(n, c);
                            assert(c * (n / c) == (n / c) * c) by (nonlinear_arith);
                        }
                    }
                }
            }
            None
        } else {
            Some(full)
        }
    }

    /// Append one chunk's hits to `out`, knowing the chunk holds the values
    /// from `base` on.
    fn query_chunk(
        chunk: &Vec<T>,
        idxs: &Vec<usize>,
        chunk_id: u64,
        chunk_size: u64,
        value: U,
        start: u64,
        end: u64,
        out: &mut Vec<u64>,
        vals: Ghost<Seq<U>>,
        first: Ghost<int>,
        len: Ghost<int>,
        bi: Ghost<BlockInfo>,
    )
        requires
            bi@.valid(U::bit_count()),
            chunk_holds(chunk@, vals@, chunk_id * chunk_size, len@, bi@),
            selects(idxs@, value, bi@),
            len@ <= chunk_size,
            0 <= first@ <= chunk_id * chunk_size,
            vals@.len() <= u64::MAX,
            old(out)@ == matches_in(vals@, value, start as int, end as int, first@, chunk_id * chunk_size),
        ensures
            final(out)@ == matches_in(
                vals@,
                value,
                start as int,
                end as int,
                first@,
                chunk_id * chunk_size + len@,
            ),
    {
        let ghost base = chunk_id * chunk_size;
        if (chunk_id as u128) * (chunk_size as u128) + (chunk_size as u128) <= start as u128 {
            proof {
                lemma_matches_before(vals@, value, start as int, end as int, base, base + len@);
                lemma_matches_concat(vals@, value, start as int, end as int, first@, base, base + len@);
                assert(out@ =~= out@ + Seq::<u64>::empty());
            }
            return ;
        }
        proof {
            lemma_chunk_hits(chunk@, idxs@, vals@, value, base, len@, bi@, start as int, end as int);
        }
        let ghost before = out@;
        push_indexes(chunk, idxs, chunk_id, chunk_size, start, end, out);
        proof {
            let added = out@.subrange(before.len() as int, out@.len() as int);
            lemma_matches(vals@, value, start as int, end as int, base, base + len@);
            lemma_lists_unique(
                added,
                matches_in(vals@, value, start as int, end as int, base, base + len@),
                match_set(vals@, value, start as int, end as int, base, base + len@),
            );
            assert(out@ =~= before + added);
            lemma_matches_concat(vals@, value, start as int, end as int, first@, base, base + len@);
        }
    }

    /// The positions `q`, ascending, whose value equals `value`, with
    /// `start_index <= q <= end_index` (by default `0` and the number of
    /// values). In storage mode only the chunk being filled is searched: the
    /// stored chunks are read by the caller.
    pub fn run_query(&self, value: U, start_index: Option<u64>, end_index: Option<u64>) -> (r: Result<
        Vec<u64>,
        Error,
    >)
        requires
            self.wf(),
        ensures
            r is Ok,
            r->Ok_0@ == self.query_spec(value, start_index, end_index),
            self.memory_mode() && start_index is None && end_index is None ==> r->Ok_0@ == brute(
                self@,
                value,
            ),
            self.memory_mode() ==> r->Ok_0@ == brute(self@, value).filter(
                in_range(
                    match start_index {
                        Some(s) => s as int,
                        None => 0,
                    },
                    match end_index {
                        Some(e) => e as int,
                        None => self@.len() as int,
                    },
                ),
            ),
    {
        let idxs = get_query_i_bitmaps::<U>(&self.block_info, value);
        let start: u64 = match start_index {
            Some(s) => s,
            None => 0,
        };
        let end: u64 = match end_index {
            Some(e) => e,
            None => self.num_values,
        };
        let ghost c = self.chunk_size as int;
        let ghost n = self.num_values as int;
        let ghost first = self.first_held();
        let mut out: Vec<u64> = Vec::new();
        proof {
            lemma_fundamental_div_mod(n, c);
            assert(c * (n / c) == (n / c) * c) by (nonlinear_arith);
        }
        if self.in_memory {
            let mut i: usize = 0;
            while i < self.chunks.len()
                invariant
                    self.wf(),
                    self.in_memory,
                    c == self.chunk_size,
                    n == self.num_values,
                    first == 0,
                    selects(idxs@, value, self.block_info),
                    i <= self.chunks@.len(),
                    self.chunks@.len() == n / c,
                    out@ == matches_in(self@, value, start as int, end as int, 0, i * c),
                decreases self.chunks@.len() - i,
            {
                proof {
                    lemma_mul_inequality(i as int + 1, n / c, c);
                    assert((i + 1) * c == i * c + c) by (nonlinear_arith);
                    assert(c * (n / c) == (n / c) * c) by (nonlinear_arith);
                    lemma_fundamental_div_mod(n, c);
                    assert(chunk_holds(self.chunks@[i as int]@, self.values@, i * c, c, self.block_info));
                }
                Self::query_chunk(
                    &self.chunks[i],
                    &idxs,
                    i as u64,
                    self.chunk_size,
                    value,
                    start,
                    end,
                    &mut out,
                    Ghost(self.values@),
                    Ghost(0int),
                    Ghost(c),
                    Ghost(self.block_info),
                );
                i = i + 1;
            }
        }
        let tail_id: u64 = self.num_values / self.chunk_size;
        proof {
            assert(tail_id * c == n - n % c);
            assert(0 <= tail_id * c) by (nonlinear_arith)
                requires
                    0 <= tail_id,
                    0 < c,
            ;
        }
        Self::query_chunk(
            &self.bitmaps,
            &idxs,
            tail_id,
            self.chunk_size,
            value,
            start,
            end,
            &mut out,
            Ghost(self.values@),
            Ghost(first),
            Ghost(n % c),
            Ghost(self.block_info),
        );
        proof {
            lemma_range_is_filtered(self@, value, start as int, end as int, n);
            assert(brute(self@, value) == matches_in(self@, value, 0, n, 0, n));
        }
        Ok(out)
    }

    /// Append each value of `values` in turn. In storage mode the chunks that
    /// fill up are handed back, in order, for the caller to store.
    pub fn push_values(&mut self, values: &[U]) -> (r: Vec<Vec<T>>)
        requires
            old(self).wf(),
            old(self)@.len() + values@.len() < u64::MAX,
        ensures
            final(self).wf(),
            final(self)@ == old(self)@ + values@,
            final(self).memory_mode() == old(self).memory_mode(),
            final(self).chunk_len() == old(self).chunk_len(),
            final(self).blocks() == old(self).blocks(),
            old(self).memory_mode() ==> r@.len() == 0,
            !old(self).memory_mode() ==> r@.len() == final(self)@.len() as int / (final(self).chunk_len() as int)
                - old(self)@.len() as int / (old(self).chunk_len() as int),
            !old(self).memory_mode() ==> forall|c: int|
                0 <= c < r@.len() ==> chunk_holds(
                    #[trigger] r@[c]@,
                    final(self)@,
                    (old(self)@.len() as int / (old(self).chunk_len() as int) + c) * (old(self).chunk_len() as int),
                    old(self).chunk_len() as int,
                    old(self).blocks(),
                ),
    {
        let mut full: Vec<Vec<T>> = Vec::new();
        let mut i: usize = 0;
        let ghost c = old(self).chunk_len() as int;
        let ghost q0 = old(self)@.len() as int / c;
        while i < values.len()
            invariant
                self.wf(),
                i <= values@.len(),
                self@ == old(self)@ + values@.subrange(0, i as int),
                old(self)@.len() + values@.len() < u64::MAX,
                self.memory_mode() == old(self).memory_mode(),
                self.chunk_len() == old(self).chunk_len(),
                self.blocks() == old(self).blocks(),
                c == old(self).chunk_len(),
                q0 == old(self)@.len() as int / c,
                old(self).memory_mode() ==> full@.len() == 0,
                !old(self).memory_mode() ==> full@.len() == self@.len() as int / c - q0,
                !old(self).memory_mode() ==> forall|k: int|
                    0 <= k < full@.len() ==> chunk_holds(#[trigger] full@[k]@, self@, (q0 + k) * c, c, self.blocks()),
            decreases values@.len() - i,
        {
            let ghost before = self@;
            let ghost full_before = full@;
            proof {
                assert(self.wf());
                assert(is_chunk_len(self.chunk_size as nat));
            }
            let pushed = self.push_value(values[i]);
            proof {
                lemma_count_step(before.len() as int, c);
                assert(self@.subrange(0, before.len() as int) =~= before);
                assert forall|k: int| 0 <= k < full_before.len() implies chunk_holds(
                    #[trigger] full_before[k]@,
                    self@,
                    (q0 + k) * c,
                    c,
                    self.blocks(),
                ) by {
                    if !old(self).memory_mode() {
                        lemma_holds_extend(full_before[k]@, before, self@, (q0 + k) * c, c, self.blocks());
                    }
                }
            }
            if let Some(chunk) = pushed {
                full.push(chunk);
                proof {
                    let n1 = self@.len() as int;
                    let k = full_before.len() as int;
                    assert(n1 - c == (q0 + k) * c) by (nonlinear_arith)
                        requires
                            n1 == c * (n1 / c) + 0,
                            n1 % c == 0,
                            k == n1 / c - 1 - q0,
                    ;
                    assert forall|kk: int| 0 <= kk < full@.len() implies chunk_holds(#[trigger] full@[kk]@, self@, (q0 + kk) * c, c, self.blocks()) by {
                        if kk < k {
                            assert(full@[kk] == full_before[kk]);
                        }
                    }
                }
            }
            proof {
                assert(values@.subrange(0, i as int + 1) =~= values@.subrange(0, i as int).push(
                    values@[i as int],
                ));
            }
            i = i + 1;
        }
        proof {
            assert(values@.subrange(0, values@.len() as int) =~= values@);
        }
        full
    }

    /// The bitmaps of the chunk being filled.
    pub fn live_bitmaps(&self) -> (r: &Vec<T>)
        requires
            self.wf(),
        ensures
            r@ == self.live_bitmaps_spec(),
            chunk_holds(
                r@,
                self@,
                self.first_held_live(),
                self@.len() as int % (self.chunk_len() as int),
                self.blocks(),
            ),
    {
        &self.bitmaps
    }

    /// An index in storage mode that goes on after `num_values` values, the
    /// last `num_values % C` of which are held by `tail`, the bitmaps stored
    /// for the chunk being filled. Fails with `ParametersError` where the bits
    /// per block do not suit `U`, and with `BitmapError` where `tail` does not
    /// hold one value per position.
    pub fn resume(build_options: BuildOptions, num_values: u64, tail: &Vec<T>) -> (r: Result<Self, Error>)
        requires
            forall|m: int| 0 <= m < tail@.len() ==> (#[trigger] tail@[m]).wf(),
        ensures
            r is Ok ==> {
                let x = r->Ok_0;
                &&& x.wf()
                &&& !x.memory_mode()
                &&& x@.len() == num_values
                &&& x.chunk_len() == build_options.chunk_size.spec_len()
                &&& x.blocks().bit_block_size == build_options.bit_block_size
                &&& chunk_holds(tail@, x@, x.first_held(), num_values as int % (x.chunk_len() as int), x.blocks())
            },
            !valid_block_size(build_options.bit_block_size as nat, U::bit_count()) ==> r is Err,
            valid_block_size(build_options.bit_block_size as nat, U::bit_count()) && (exists|bi: BlockInfo, vals: Seq<U>|
                bi.valid(U::bit_count()) && bi.bit_block_size == build_options.bit_block_size
                    && #[trigger] chunk_holds(tail@, vals, 0, num_values as int % (build_options.chunk_size.spec_len() as int), bi)) ==> r is Ok,
            r is Err ==> r->Err_0 is ParametersError || r->Err_0 is BitmapError,
    {
        let mut idx = match Self::new_index(build_options, true) {
            Ok(x) => x,
            Err(e) => {
                return Err(e);
            },
        };
        let c: u64 = idx.chunk_size;
        let tail_len: u64 = num_values % c;
        proof {
            if exists|bi: BlockInfo, vals: Seq<U>|
                bi.valid(U::bit_count()) && bi.bit_block_size == build_options.bit_block_size
                    && #[trigger] chunk_holds(tail@, vals, 0, tail_len as int, bi) {
                let (bi, vals) = choose|bi: BlockInfo, vals: Seq<U>|
                    bi.valid(U::bit_count()) && bi.bit_block_size == build_options.bit_block_size
                        && #[trigger] chunk_holds(tail@, vals, 0, tail_len as int, bi);
                assert(bi == idx.block_info);
                assert(chunk_holds(tail@, vals, 0, tail_len as int, idx.block_info));
                assert(idx.live_ok());
            }
        }
        if tail.len() != idx.bitmaps.len() {
            return Err(Error::BitmapError);
        }
        let vals: Vec<U> = match decode_tail::<T, U>(tail, tail_len as usize, &idx.block_info) {
            Ok(v) => v,
            Err(e) => {
                return Err(e);
            },
        };
        proof {
            lemma_fundamental_div_mod(num_values as int, c as int);
        }
        let flushed: u64 = num_values - tail_len;
        idx.num_values = flushed;
        idx.values = Ghost(Seq::new(flushed as nat, |i: int| vstd::pervasive::arbitrary::<U>()));
        proof {
            assert(flushed == (num_values as int / c as int) * c + 0) by (nonlinear_arith)
                requires
                    num_values == c * (num_values as int / c as int) + tail_len,
                    flushed == num_values - tail_len,
            ;
            lemma_fundamental_div_mod_converse(flushed as int, c as int, num_values as int / c as int, 0);
            assert(idx.wf());
        }
        let mut i: usize = 0;
        while i < vals.len()
            invariant
                idx.wf(),
                !idx.memory_mode(),
                idx.chunk_size == c,
                idx.chunk_len() == build_options.chunk_size.spec_len(),
                idx.blocks().bit_block_size == build_options.bit_block_size,
                idx.blocks() == idx.block_info,
                vals@.len() == tail_len,
                tail_len < c,
                flushed + tail_len == num_values,
                flushed as int % c as int == 0,
                i <= vals@.len(),
                idx@.len() == flushed + i,
                forall|q: int| 0 <= q < i ==> #[trigger] idx@[flushed + q] == vals@[q],
            decreases vals@.len() - i,
        {
            let ghost before = idx@;
            let _ = idx.push_value(vals[i]);
            proof {
                assert forall|q: int| 0 <= q < i + 1 implies #[trigger] idx@[flushed + q] == vals@[q] by {
                    if q < i {
                        assert(idx@[flushed + q] == before[flushed + q]);
                    }
                }
            }
            i = i + 1;
        }
        proof {
            let bi = idx.block_info;
            let nb = bi.num_bitmaps_in_block as int;
            lemma_fundamental_div_mod(flushed as int, c as int);
            assert(num_values == (flushed as int / c as int) * c + tail_len) by (nonlinear_arith)
                requires
                    flushed == c * (flushed as int / c as int) + 0,
                    num_values == flushed + tail_len,
            ;
            lemma_fundamental_div_mod_converse(num_values as int, c as int, flushed as int / c as int, tail_len as int);
            assert(num_values as int % c as int == tail_len);
            assert(idx.first_held() == flushed);
            assert forall|k: int, d: int, p: nat|
                0 <= k < bi.num_blocks && 0 <= d < nb implies (#[trigger] tail@[k * nb + d].members().contains(p)
                <==> (p < tail_len && digit(idx@[flushed + p as int].bit_pattern(), nb as nat, k as nat) == d)) by {
                if p < tail_len {
                    assert(idx@[flushed + p as int] == vals@[p as int]);
                }
            }
        }
        Ok(idx)
    }

    /// Serialize the chunk being filled, for the caller to store. Fails with
    /// `ParametersError` in memory mode, and with `BitmapError` where the chunk
    /// does not fit the 32-bit offsets.
    pub fn flush_chunk(&self) -> (r: Result<Vec<u8>, Error>)
        requires
            self.wf(),
        ensures
            self.memory_mode() ==> r is Err && r->Err_0 is ParametersError,
            !self.memory_mode() ==> (r is Ok <==> chunk_bytes(self.live_bitmaps_spec()).len() <= u32::MAX),
            r is Ok ==> r->Ok_0@ == chunk_bytes(self.live_bitmaps_spec()),
            !self.memory_mode() && r is Err ==> r->Err_0 is BitmapError,
    {
        if self.in_memory {
            return Err(Error::ParametersError);
        }
        write_chunk(&self.bitmaps)
    }

    /// The bitmaps of the chunk being filled.
    pub closed spec fn live_bitmaps_spec(self) -> Seq<T> {
        self.bitmaps@
    }

    /// Bytes that the bitmaps of the chunk being filled take once serialized,
    /// or `usize::MAX` where that count does not fit.
    pub fn memory_bitmaps_size(&self) -> (r: usize)
        requires
            self.wf(),
        ensures
            r == if bodies(self.live_bitmaps_spec()).len() <= usize::MAX {
                bodies(self.live_bitmaps_spec()).len() as usize
            } else {
                usize::MAX
            },
    {
        let ghost bs = self.bitmaps@;
        let mut total: usize = 0;
        let mut i: usize = 0;
        proof {
            assert(bs.subrange(0, 0) =~= Seq::<T>::empty());
        }
        while i < self.bitmaps.len()
            invariant
                bs == self.bitmaps@,
                self.wf(),
                i <= bs.len(),
                total == bodies(bs.subrange(0, i as int)).len(),
            decreases bs.len() - i,
        {
            proof {
                assert(self.live_ok());
                assert(bs[i as int].wf());
                assert(bs.subrange(0, i + 1).drop_last() =~= bs.subrange(0, i as int));
                crate::storage::lemma_bodies_grow(bs, i + 1);
            }
            let size: usize = self.bitmaps[i].size();
            if total > usize::MAX - size {
                return usize::MAX;
            }
            total = total + size;
            i = i + 1;
        }
        proof {
            assert(bs.subrange(0, bs.len() as int) =~= bs);
        }
        total
    }

    /// What `run_query` returns.
    pub open spec fn query_spec(self, value: U, start_index: Option<u64>, end_index: Option<u64>) -> Seq<u64> {
        matches_in(
            self@,
            value,
            match start_index {
                Some(s) => s as int,
                None => 0,
            },
            match end_index {
                Some(e) => e as int,
                None => self@.len() as int,
            },
            self.first_held(),
            self@.len() as int,
        )
    }

    /// The first position of the chunk being filled.
    pub open spec fn first_held_live(self) -> int {
        self@.len() - self@.len() as int % (self.chunk_len() as int)
    }
}

/// A query restricted to `start..=end` keeps, in order, exactly the positions
/// of the unrestricted query that lie in the range.
pub proof fn lemma_range_is_filtered<U>(vals: Seq<U>, v: U, start: int, end: int, n: int)
    requires
        0 <= n <= vals.len(),
        vals.len() <= u64::MAX,
    ensures
        matches_in(vals, v, start, end, 0, n) == matches_in(
            vals,
            v,
            0,
            vals.len() as int,
            0,
            n,
        ).filter(in_range(start, end)),
    decreases n,
{
    let pred = in_range(start, end);
    let all = matches_in(vals, v, 0, vals.len() as int, 0, n);
    reveal(Seq::filter);
    if n == 0 {
        assert(all.filter(pred) =~= Seq::<u64>::empty());
    } else {
        lemma_range_is_filtered(vals, v, start, end, n - 1);
        let prev = matches_in(vals, v, 0, vals.len() as int, 0, n - 1);
        if vals[n - 1] == v {
            assert(all.drop_last() =~= prev);
            assert(all.last() == (n - 1) as u64);
            assert(all.filter(pred) == if pred(all.last()) {
                prev.filter(pred).push(all.last())
            } else {
                prev.filter(pred)
            });
        } else {
            assert(all == prev);
        }
    }
}

/// The positions `q` with `start <= q <= end`.
pub open spec fn in_range(start: int, end: int) -> spec_fn(u64) -> bool {
    |q: u64| start <= q && q <= end
}

/// Query results do not depend on the chunk size: two in-memory indexes that
/// hold the same values answer every query alike.
pub proof fn lemma_chunk_size_transparent<T: Bitmap, U: BitValue>(
    a: BitmapIndex<T, U>,
    b: BitmapIndex<T, U>,
    value: U,
    start_index: Option<u64>,
    end_index: Option<u64>,
)
    requires
        a.wf(),
        b.wf(),
        a.memory_mode(),
        b.memory_mode(),
        a@ == b@,
    ensures
        a.query_spec(value, start_index, end_index) == b.query_spec(value, start_index, end_index),
{
}

/// A chunk holds the same values after more are appended.
proof fn lemma_holds_extend<T: Bitmap, U: BitValue>(
    bs: Seq<T>,
    vals: Seq<U>,
    more: Seq<U>,
    base: int,
    len: int,
    bi: BlockInfo,
)
    requires
        chunk_holds(bs, vals, base, len, bi),
        vals.len() <= more.len(),
        more.subrange(0, vals.len() as int) == vals,
    ensures
        chunk_holds(bs, more, base, len, bi),
{
    assert forall|p: int| 0 <= p < len implies #[trigger] more[base + p] == vals[base + p] by {
        assert(more.subrange(0, vals.len() as int)[base + p] == more[base + p]);
    }
    let n = bi.num_bitmaps_in_block as int;
    assert forall|k: int, d: int, p: nat|
        0 <= k < bi.num_blocks && 0 <= d < n implies (#[trigger] bs[k * n + d].members().contains(p)
        <==> (p < len && digit(more[base + p].bit_pattern(), n as nat, k as nat) == d)) by {
        if p < len {
            assert(more[base + p] == vals[base + p]);
        }
    }
}

/// One instance of `chunk_holds`.
proof fn lemma_holds_at<T: Bitmap, U: BitValue>(
    bs: Seq<T>,
    vals: Seq<U>,
    base: int,
    len: int,
    bi: BlockInfo,
    k: int,
    d: int,
    p: nat,
)
    requires
        chunk_holds(bs, vals, base, len, bi),
        0 <= k < bi.num_blocks,
        0 <= d < bi.num_bitmaps_in_block,
    ensures
        bs[k * (bi.num_bitmaps_in_block as int) + d].members().contains(p) <==> (p < len && digit(
            vals[base + p].bit_pattern(),
            bi.num_bitmaps_in_block as nat,
            k as nat,
        ) == d),
{
}

/// Column `k` of a chunk: `col[p]` is the digit of block `k` that bitmap
/// membership gives local position `p`, for `count` positions.
pub open spec fn column_ok<T: Bitmap>(bs: Seq<T>, n: int, k: int, col: Seq<usize>, count: int) -> bool {
    &&& col.len() == count
    &&& forall|p: int| 0 <= p < count ==> #[trigger] col[p] < n && bs[k * n + col[p]].members().contains(p as nat)
    &&& forall|d: int, p: nat| 0 <= d < n && #[trigger] bs[k * n + d].members().contains(p) ==> p < count && col[p as int] == d
}

/// The number whose digits in base `n`, from block `k` up, are `cols[j][p]`.
pub open spec fn horner(cols: Seq<Seq<usize>>, p: int, k: int, count: int, n: nat) -> nat
    decreases count - k,
{
    if k >= count {
        0
    } else {
        (cols[k][p] + n * horner(cols, p, k + 1, count, n)) as nat
    }
}

proof fn lemma_horner(cols: Seq<Seq<usize>>, p: int, k: int, count: int, n: nat)
    requires
        n > 1,
        0 <= k <= count,
        forall|j: int| k <= j < count ==> #[trigger] cols[j][p] < n,
    ensures
        horner(cols, p, k, count, n) < pow(n as int, (count - k) as nat),
        forall|j: nat| k + j < count ==> #[trigger] digit(horner(cols, p, k, count, n), n, j) == cols[k + j][p],
    decreases count - k,
{
    reveal(pow);
    if k < count {
        lemma_horner(cols, p, k + 1, count, n);
        let h = horner(cols, p, k + 1, count, n);
        let c = cols[k][p] as nat;
        let x = horner(cols, p, k, count, n);
        let q = pow(n as int, (count - k - 1) as nat);
        assert(x == c + n * h);
        assert(x < n * q) by (nonlinear_arith)
            requires
                x == c + n * h,
                c < n,
                h < q,
        ;
        assert(pow(n as int, (count - k) as nat) == n * q);
        assert(x == h * n + c) by (nonlinear_arith)
            requires
                x == c + n * h,
        ;
        lemma_fundamental_div_mod_converse(x as int, n as int, h as int, c as int);
        assert forall|j: nat| k + j < count implies #[trigger] digit(x, n, j) == cols[k + j][p] by {
            if j > 0 {
                assert(digit(x, n, j) == digit(x / n, n, (j - 1) as nat));
                assert(digit(h, n, (j - 1) as nat) == cols[(k + 1) + (j - 1) as nat][p]);
            }
        }
    }
}

/// Read the values of the first `count` positions of a chunk back from its
/// bitmaps. Fails with `BitmapError` where some position does not lie in
/// exactly one bitmap of each block.
pub fn decode_tail<T: Bitmap, U: BitValue>(bitmaps: &Vec<T>, count: usize, block_info: &BlockInfo) -> (r: Result<Vec<U>, Error>)
    requires
        block_info.valid(U::bit_count()),
        bitmaps@.len() == block_info.count(),
        forall|m: int| 0 <= m < bitmaps@.len() ==> (#[trigger] bitmaps@[m]).wf(),
    ensures
        r is Ok ==> r->Ok_0@.len() == count && chunk_holds(bitmaps@, r->Ok_0@, 0, count as int, *block_info),
        (exists|vals: Seq<U>| chunk_holds(bitmaps@, vals, 0, count as int, *block_info)) ==> r is Ok,
        r is Err ==> r->Err_0 is BitmapError,
{
    let n: usize = block_info.num_bitmaps_in_block;
    let nblocks: usize = block_info.num_blocks;
    let ghost bs = bitmaps@;
    let ghost has = exists|vals: Seq<U>| chunk_holds(bs, vals, 0, count as int, *block_info);
    let ghost w: Seq<U> = if has {
        choose|vals: Seq<U>| chunk_holds(bs, vals, 0, count as int, *block_info)
    } else {
        Seq::empty()
    };
    let mut cols: Vec<Vec<usize>> = Vec::with_capacity(nblocks);
    let mut k: usize = 0;
    while k < nblocks
        invariant
            has ==> chunk_holds(bs, w, 0, count as int, *block_info),
            has == exists|vals: Seq<U>| chunk_holds(bs, vals, 0, count as int, *block_info),
            block_info.valid(U::bit_count()),
            n == block_info.num_bitmaps_in_block,
            nblocks == block_info.num_blocks,
            bs == bitmaps@,
            bs.len() == block_info.count(),
            forall|m: int| 0 <= m < bs.len() ==> (#[trigger] bs[m]).wf(),
            k <= nblocks,
            cols@.len() == k,
            forall|j: int| 0 <= j < k ==> column_ok(bs, n as int, j, #[trigger] cols@[j]@, count as int),
        decreases nblocks - k,
    {
        let mut col: Vec<usize> = vec![n; count];
        let mut d: usize = 0;
        while d < n
            invariant
                has ==> chunk_holds(bs, w, 0, count as int, *block_info),
                has == exists|vals: Seq<U>| chunk_holds(bs, vals, 0, count as int, *block_info),
                block_info.valid(U::bit_count()),
                n == block_info.num_bitmaps_in_block,
                nblocks == block_info.num_blocks,
                bs == bitmaps@,
                bs.len() == block_info.count(),
                forall|m: int| 0 <= m < bs.len() ==> (#[trigger] bs[m]).wf(),
                k < nblocks,
                d <= n,
                col@.len() == count,
                forall|p: int| 0 <= p < count ==> #[trigger] col@[p] == n || (col@[p] < d && bs[k * n + col@[p]].members().contains(p as nat)),
                forall|dd: int, p: nat| 0 <= dd < d && #[trigger] bs[k * n + dd].members().contains(p) ==> p < count && col@[p as int] == dd,
            decreases n - d,
        {
            proof {
                lemma_slot_bound(k as int, d as int, n as int, nblocks as int);
            }
            let ps: Vec<u32> = bitmaps[k * n + d].unroll_bitmap();
            let mut i: usize = 0;
            while i < ps.len()
                invariant
                    has ==> chunk_holds(bs, w, 0, count as int, *block_info),
                    has == exists|vals: Seq<U>| chunk_holds(bs, vals, 0, count as int, *block_info),
                    nblocks == block_info.num_blocks,
                    n == block_info.num_bitmaps_in_block,
                    bs == bitmaps@,
                    k < nblocks,
                    d < n,
                    0 <= k * n + d < bs.len(),
                    col@.len() == count,
                    crate::bitmap::lists(ps@, bs[k * n + d].members()),
                    i <= ps@.len(),
                    forall|p: int| 0 <= p < count ==> #[trigger] col@[p] == n || (col@[p] < d && bs[k * n + col@[p]].members().contains(p as nat)) || (col@[p] == d && bs[k * n + d].members().contains(p as nat)),
                    forall|dd: int, p: nat| 0 <= dd < d && #[trigger] bs[k * n + dd].members().contains(p) ==> p < count && col@[p as int] == dd,
                    forall|t: int| 0 <= t < i ==> (#[trigger] ps@[t]) < count && col@[ps@[t] as int] == d,
                    forall|p: int| 0 <= p < count && col@[p] == d ==> exists|t: int| 0 <= t < i && ps@[t] == p,
                decreases ps@.len() - i,
            {
                let p: usize = ps[i] as usize;
                proof {
                    assert(bs[k * n + d].members().contains(ps@[i as int] as nat));
                }
                if p >= count || col[p] != n {
                    proof {
                        if has {
                            lemma_holds_at(bs, w, 0, count as int, *block_info, k as int, d as int, p as nat);
                            assert(p < count);
                            if col@[p as int] < d {
                                let e = col@[p as int] as int;
                                lemma_holds_at(bs, w, 0, count as int, *block_info, k as int, e, p as nat);
                            } else if col@[p as int] == d {
                                let t = choose|t: int| 0 <= t < i && ps@[t] == p;
                                assert(ps@[t] < ps@[i as int]);
                            }
                        }
                    }
                    return Err(Error::BitmapError);
                }
                proof {
                    assert(bs[k * n + d].members().contains(ps@[i as int] as nat));
                }
                let ghost before = col@;
                col.set(p, d);
                proof {
                    assert forall|t: int| 0 <= t < i + 1 implies (#[trigger] ps@[t]) < count && col@[ps@[t] as int] == d by {
                        if t < i {
                            assert(ps@[t] < ps@[i as int]);
                        }
                    }
                    assert forall|q: int| 0 <= q < count && col@[q] == d implies exists|t: int| 0 <= t < i + 1 && ps@[t] == q by {
                        if q != p {
                            assert(before[q] == d);
                        } else {
                            assert(ps@[i as int] == q);
                        }
                    }
                }
                i = i + 1;
            }
            proof {
                assert forall|dd: int, p: nat| 0 <= dd < d + 1 && #[trigger] bs[k * n + dd].members().contains(p) implies p < count && col@[p as int] == dd by {
                    if dd == d {
                        let t = choose|t: int| 0 <= t < ps@.len() && ps@[t] as nat == p;
                    }
                }
                assert forall|p: int| 0 <= p < count implies #[trigger] col@[p] == n || (col@[p] < d + 1 && bs[k * n + col@[p]].members().contains(p as nat)) by {
                    if col@[p] == d {
                        let t = choose|t: int| 0 <= t < ps@.len() && ps@[t] == p;
                        assert(bs[k * n + d].members().contains(ps@[t] as nat));
                    }
                }
            }
            d = d + 1;
        }
        let mut p: usize = 0;
        while p < count
            invariant
                has ==> chunk_holds(bs, w, 0, count as int, *block_info),
                has == exists|vals: Seq<U>| chunk_holds(bs, vals, 0, count as int, *block_info),
                bs == bitmaps@,
                block_info.valid(U::bit_count()),
                n == block_info.num_bitmaps_in_block,
                nblocks == block_info.num_blocks,
                k < nblocks,
                col@.len() == count,
                p <= count,
                forall|q: int| 0 <= q < p ==> #[trigger] col@[q] != n,
                forall|dd: int, q: nat| 0 <= dd < n && #[trigger] bs[k * n + dd].members().contains(q) ==> q < count && col@[q as int] == dd,
            decreases count - p,
        {
            if col[p] == n {
                proof {
                    if has {
                        let dd = digit(w[p as int].bit_pattern(), n as nat, k as nat) as int;
                        lemma_digit_bound(w[p as int].bit_pattern(), n as nat, k as nat);
                        lemma_holds_at(bs, w, 0, count as int, *block_info, k as int, dd, p as nat);
                        assert(bs[k * n + dd].members().contains(p as nat));
                    }
                }
                return Err(Error::BitmapError);
            }
            p = p + 1;
        }
        let ghost c = col@;
        cols.push(col);
        proof {
            assert(column_ok(bs, n as int, k as int, c, count as int));
            assert forall|j: int| 0 <= j < k + 1 implies column_ok(bs, n as int, j, #[trigger] cols@[j]@, count as int) by {
                if j == k {
                    assert(cols@[j]@ == c);
                }
            }
        }
        k = k + 1;
    }
    let ghost cs: Seq<Seq<usize>> = Seq::new(nblocks as nat, |j: int| cols@[j]@);
    let mut vals: Vec<U> = Vec::with_capacity(count);
    let mut p: usize = 0;
    let width: usize = U::bits_per_value();
    proof {
        lemma_fundamental_div_mod(U::bit_count() as int, block_info.bit_block_size as int);
        lemma_pow2_blocks(block_info.bit_block_size as nat, nblocks as nat);
        lemma2_to64();
        vstd::arithmetic::power2::lemma_pow2_adds(64, 64);
        if width < 128 {
            lemma_pow2_strictly_increases(width as nat, 128);
        }
    }
    while p < count
        invariant
            block_info.valid(U::bit_count()),
            n == block_info.num_bitmaps_in_block,
            nblocks == block_info.num_blocks,
            bs == bitmaps@,
            cols@.len() == nblocks,
            forall|j: int| 0 <= j < nblocks ==> column_ok(bs, n as int, j, #[trigger] cols@[j]@, count as int),
            forall|j: int| 0 <= j < nblocks ==> #[trigger] cs[j] == cols@[j]@,
            cs.len() == nblocks,
            pow2(U::bit_count()) == pow(n as int, nblocks as nat),
            pow2(U::bit_count()) <= 0x1_0000_0000_0000_0000_0000_0000_0000_0000,
            p <= count,
            vals@.len() == p,
            forall|q: int| 0 <= q < p ==> (#[trigger] vals@[q]).bit_pattern() == horner(cs, q, 0, nblocks as int, n as nat),
        decreases count - p,
    {
        proof {
            assert forall|j: int| 0 <= j < nblocks implies #[trigger] cs[j][p as int] < n by {
                assert(column_ok(bs, n as int, j, cols@[j]@, count as int));
            }
            lemma_horner(cs, p as int, 0, nblocks as int, n as nat);
        }
        let mut x: u128 = 0;
        let mut k: usize = nblocks;
        while k > 0
            invariant
                n == block_info.num_bitmaps_in_block,
                4 <= n,
                k <= nblocks,
                p < count,
                cols@.len() == nblocks,
                cs.len() == nblocks,
                forall|j: int| 0 <= j < nblocks ==> #[trigger] cs[j] == cols@[j]@,
                forall|j: int| 0 <= j < nblocks ==> column_ok(bs, n as int, j, #[trigger] cols@[j]@, count as int),
                x == horner(cs, p as int, k as int, nblocks as int, n as nat),
                pow2(U::bit_count()) == pow(n as int, nblocks as nat),
                pow2(U::bit_count()) <= 0x1_0000_0000_0000_0000_0000_0000_0000_0000,
                block_info.valid(U::bit_count()),
                nblocks == block_info.num_blocks,
                bs == bitmaps@,
                vals@.len() == p,
                forall|q: int| 0 <= q < p ==> (#[trigger] vals@[q]).bit_pattern() == horner(cs, q, 0, nblocks as int, n as nat),
            decreases k,
        {
            k = k - 1;
            let digit_k: usize = cols[k][p];
            proof {
                assert(column_ok(bs, n as int, k as int, cols@[k as int]@, count as int));
                assert forall|j: int| k <= j < nblocks implies #[trigger] cs[j][p as int] < n by {
                    assert(column_ok(bs, n as int, j, cols@[j]@, count as int));
                }
                lemma_horner(cs, p as int, k as int, nblocks as int, n as nat);
                lemma_pow_le(n as nat, (nblocks - k) as nat, nblocks as nat);
                let h = horner(cs, p as int, k as int, nblocks as int, n as nat);
                assert(h == digit_k + n * x);
                assert(x * n == n * x) by (nonlinear_arith);
            }
            x = x * (n as u128) + digit_k as u128;
        }
        proof {
            lemma_horner(cs, p as int, 0, nblocks as int, n as nat);
        }
        let ghost before = vals@;
        vals.push(U::from_bits(x));
        proof {
            assert forall|q: int| 0 <= q < p + 1 implies (#[trigger] vals@[q]).bit_pattern() == horner(cs, q, 0, nblocks as int, n as nat) by {
                if q < p {
                    assert(vals@[q] == before[q]);
                }
            }
        }
        p = p + 1;
    }
    proof {
        let nn = n as int;
        assert forall|kk: int, d: int, q: nat|
            0 <= kk < nblocks && 0 <= d < nn implies (#[trigger] bs[kk * nn + d].members().contains(q)
            <==> (q < count && digit(vals@[0 + q as int].bit_pattern(), nn as nat, kk as nat) == d)) by {
            assert(column_ok(bs, nn, kk, cols@[kk]@, count as int));
            if q < count {
                assert forall|j: int| 0 <= j < nblocks implies #[trigger] cs[j][q as int] < n by {
                    assert(column_ok(bs, n as int, j, cols@[j]@, count as int));
                }
                lemma_horner(cs, q as int, 0, nblocks as int, n as nat);
                assert(digit(horner(cs, q as int, 0, nblocks as int, n as nat), n as nat, kk as nat) == cs[0 + kk][q as int]);
            }
        }
    }
    Ok(vals)
}

proof fn lemma_pow_le(n: nat, a: nat, b: nat)
    requires
        n >= 1,
        a <= b,
    ensures
        pow(n as int, a) <= pow(n as int, b),
    decreases b,
{
    reveal(pow);
    if a < b {
        lemma_pow_le(n, a, (b - 1) as nat);
        vstd::arithmetic::power::lemma_pow_positive(n as int, (b - 1) as nat);
        assert(pow(n as int, (b - 1) as nat) <= n * pow(n as int, (b - 1) as nat)) by (nonlinear_arith)
            requires
                n >= 1,
                pow(n as int, (b - 1) as nat) > 0,
        ;
    }
}

/// `matches_in` over `lo..hi` depends only on the values in `lo..hi`.
pub proof fn lemma_matches_agree<U>(a: Seq<U>, b: Seq<U>, v: U, start: int, end: int, lo: int, hi: int)
    requires
        forall|q: int| lo <= q < hi ==> a[q] == b[q],
    ensures
        matches_in(a, v, start, end, lo, hi) == matches_in(b, v, start, end, lo, hi),
    decreases hi - lo,
{
    if hi > lo {
        lemma_matches_agree(a, b, v, start, end, lo, hi - 1);
    }
}

/// Two chunks whose bitmaps hold the same positions hold the same values.
pub proof fn lemma_same_bitmaps_same_values<T: Bitmap, U: BitValue>(
    bs: Seq<T>,
    ds: Seq<T>,
    a: Seq<U>,
    b: Seq<U>,
    base_a: int,
    base_b: int,
    len: int,
    bi: BlockInfo,
)
    requires
        bi.valid(U::bit_count()),
        chunk_holds(bs, a, base_a, len, bi),
        chunk_holds(ds, b, base_b, len, bi),
        forall|m: int| 0 <= m < bs.len() ==> (#[trigger] ds[m]).members() == bs[m].members(),
    ensures
        forall|p: int| 0 <= p < len ==> #[trigger] a[base_a + p] == b[base_b + p],
{
    let n = bi.num_bitmaps_in_block as int;
    let count = bi.num_blocks as int;
    let w = bi.bit_block_size as nat;
    lemma_fundamental_div_mod(U::bit_count() as int, w as int);
    assert(U::bit_count() == w * (count as nat));
    lemma_pow2_blocks(w, count as nat);
    assert forall|p: int| 0 <= p < len implies #[trigger] a[base_a + p] == b[base_b + p] by {
        let x = a[base_a + p];
        let y = b[base_b + p];
        assert forall|k: nat| k < count implies #[trigger] digit(x.bit_pattern(), n as nat, k) == digit(
            y.bit_pattern(),
            n as nat,
            k,
        ) by {
            let d = digit(x.bit_pattern(), n as nat, k);
            lemma_digit_bound(x.bit_pattern(), n as nat, k);
            lemma_slot_bound(k as int, d as int, n, count);
            assert(bs[k * n + d].members().contains(p as nat));
            assert(ds[k * n + d].members().contains(p as nat));
        }
        U::lemma_bit_pattern(x, y);
        U::lemma_bit_pattern(y, x);
        lemma_digits_determine(x.bit_pattern(), y.bit_pattern(), n as nat, count as nat);
    }
}

/// An index reopened from its stored chunk being filled, as `resume` builds
/// it from the bitmaps read back, answers every query as the index that was
/// stored.
pub proof fn lemma_persistence<T: Bitmap, U: BitValue>(
    stored: BitmapIndex<T, U>,
    reopened: BitmapIndex<T, U>,
    ds: Seq<T>,
    value: U,
    start_index: Option<u64>,
    end_index: Option<u64>,
)
    requires
        stored.wf(),
        !stored.memory_mode(),
        chunk_bytes(stored.live_bitmaps_spec()).len() <= u32::MAX,
        ds.len() == stored.live_bitmaps_spec().len(),
        forall|m: int|
            0 <= m < ds.len() ==> T::decodes_to(
                crate::storage::body_at(chunk_bytes(stored.live_bitmaps_spec()), m),
                #[trigger] ds[m],
            ),
        reopened.wf(),
        !reopened.memory_mode(),
        reopened@.len() == stored@.len(),
        reopened.chunk_len() == stored.chunk_len(),
        reopened.blocks() == stored.blocks(),
        chunk_holds(
            ds,
            reopened@,
            reopened.first_held(),
            stored@.len() as int % (stored.chunk_len() as int),
            reopened.blocks(),
        ),
    ensures
        reopened.query_spec(value, start_index, end_index) == stored.query_spec(
            value,
            start_index,
            end_index,
        ),
{
    let live = stored.live_bitmaps_spec();
    let c = stored.chunk_len() as int;
    let n = stored@.len() as int;
    assert(stored.live_ok());
    assert(chunk_holds(live, stored@, n - n % c, n % c, stored.blocks()));
    crate::storage::lemma_stored_chunk_answers_alike(live, ds, Seq::<usize>::empty(), 0, 0, 0);
    lemma_same_bitmaps_same_values(live, ds, stored@, reopened@, n - n % c, n - n % c, n % c, stored.blocks());
    assert forall|q: int| n - n % c <= q < n implies stored@[q] == reopened@[q] by {
        assert(stored@[(n - n % c) + (q - (n - n % c))] == reopened@[(n - n % c) + (q - (n - n % c))]);
    }
    let s = match start_index {
        Some(s) => s as int,
        None => 0,
    };
    let e = match end_index {
        Some(e) => e as int,
        None => n,
    };
    lemma_matches_agree(stored@, reopened@, value, s, e, n - n % c, n);
}

/// How a memory-mode answer splits for a storage-mode index over the same
/// values: the positions before the chunk being filled, which the stored
/// chunks hold, followed by the storage index's own answer over that chunk.
pub proof fn lemma_mode_equivalence<T: Bitmap, U: BitValue>(
    mem: BitmapIndex<T, U>,
    sto: BitmapIndex<T, U>,
    value: U,
    start_index: Option<u64>,
    end_index: Option<u64>,
)
    requires
        mem.wf(),
        sto.wf(),
        mem.memory_mode(),
        !sto.memory_mode(),
        mem@ == sto@,
        mem.chunk_len() == sto.chunk_len(),
    ensures
        mem.query_spec(value, start_index, end_index) == matches_in(
            mem@,
            value,
            match start_index {
                Some(s) => s as int,
                None => 0,
            },
            match end_index {
                Some(e) => e as int,
                None => mem@.len() as int,
            },
            0,
            sto.first_held(),
        ) + sto.query_spec(value, start_index, end_index),
{
    let s = match start_index {
        Some(s) => s as int,
        None => 0,
    };
    let e = match end_index {
        Some(e) => e as int,
        None => mem@.len() as int,
    };
    lemma_matches_concat(mem@, value, s, e, 0, sto.first_held(), mem@.len() as int);
}

/// What `push_indexes` appends for a chunk that holds the values `base..base + len`
/// of `vals`, queried through the bitmaps that `v` selects, is exactly the
/// positions in that window whose value is `v` and that lie in `start..=end`:
/// a stored chunk answers its part of a query as brute force does.
pub proof fn lemma_chunk_query<T: Bitmap, U: BitValue>(
    chunk: Seq<T>,
    idxs: Seq<usize>,
    vals: Seq<U>,
    v: U,
    base: int,
    len: int,
    bi: BlockInfo,
    start: int,
    end: int,
    added: Seq<u64>,
)
    requires
        bi.valid(U::bit_count()),
        chunk_holds(chunk, vals, base, len, bi),
        selects(idxs, v, bi),
        vals.len() <= u64::MAX,
        lists64(added, chunk_hits(chunk, idxs, base, start, end)),
    ensures
        added == matches_in(vals, v, start, end, base, base + len),
{
    lemma_chunk_hits(chunk, idxs, vals, v, base, len, bi, start, end);
    lemma_matches(vals, v, start, end, base, base + len);
    lemma_lists_unique(
        added,
        matches_in(vals, v, start, end, base, base + len),
        match_set(vals, v, start, end, base, base + len),
    );
}

} // verus!
