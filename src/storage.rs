//! The bytes of a stored index: the meta record, the chunk end-offset table and
//! the serialized chunks. All integers are little-endian.
//!
//! A serialized chunk of `M` bitmaps is `M + 1` 32-bit offsets, relative to the
//! chunk's first byte, followed by the bitmaps' bodies in order: offset `m` is
//! where body `m` begins and offset `M` is the chunk's length.
use crate::bitmap::Bitmap;
use crate::bitmap_index::{BuildOptions, ChunkSize, Error, chunk_hits, common_upto, is_chunk_len};
use vstd::prelude::*;
use vstd::slice::slice_subrange;

verus! {

/// Bytes of one meta record: the number of values, the bits per block and the
/// values per chunk, each as a `u64`.
pub const META_DATA_SIZE: usize = 24;

/// `256^n`.
pub open spec fn pow256(n: nat) -> nat
    decreases n,
{
    if n == 0 {
        1
    } else {
        256 * pow256((n - 1) as nat)
    }
}

/// The number that little-endian bytes `s` stand for.
pub open spec fn le_value(s: Seq<u8>) -> nat
    decreases s.len(),
{
    if s.len() == 0 {
        0
    } else {
        (s[0] + 256 * le_value(s.drop_first())) as nat
    }
}

/// The `n` low bytes of `x`, little-endian.
pub open spec fn le_bytes(x: nat, n: nat) -> Seq<u8>
    decreases n,
{
    if n == 0 {
        Seq::empty()
    } else {
        seq![(x % 256) as u8] + le_bytes(x / 256, (n - 1) as nat)
    }
}

/// Little-endian bytes read back give the number they were made from.
pub proof fn lemma_le_round_trip(x: nat, n: nat)
    requires
        x < pow256(n),
    ensures
        le_bytes(x, n).len() == n,
        le_value(le_bytes(x, n)) == x,
    decreases n,
{
    if n > 0 {
        assert(x / 256 < pow256((n - 1) as nat)) by (nonlinear_arith)
            requires
                x < 256 * pow256((n - 1) as nat),
        ;
        lemma_le_round_trip(x / 256, (n - 1) as nat);
        assert(le_bytes(x, n).drop_first() =~= le_bytes(x / 256, (n - 1) as nat));
    }
}

proof fn lemma_le_bound(s: Seq<u8>)
    ensures
        le_value(s) < pow256(s.len()),
    decreases s.len(),
{
    if s.len() > 0 {
        lemma_le_bound(s.drop_first());
        let r = le_value(s.drop_first());
        assert(s[0] + 256 * r < 256 * pow256((s.len() - 1) as nat)) by (nonlinear_arith)
            requires
                r < pow256((s.len() - 1) as nat),
                s[0] < 256,
        ;
    }
}

proof fn lemma_pow256_values()
    ensures
        pow256(4) == 0x1_0000_0000,
        pow256(8) == 0x1_0000_0000_0000_0000,
{
    reveal_with_fuel(pow256, 9);
}

/// Append the `n` low bytes of `x`, little-endian.
pub fn push_le(out: &mut Vec<u8>, x: u64, n: usize)
    ensures
        final(out)@ == old(out)@ + le_bytes(x as nat, n as nat),
{
    let mut y: u64 = x;
    let mut k: usize = 0;
    while k < n
        invariant
            k <= n,
            old(out)@ + le_bytes(x as nat, n as nat) == out@ + le_bytes(y as nat, (n - k) as nat),
        decreases n - k,
    {
        let ghost before = out@;
        out.push((y % 256) as u8);
        proof {
            assert(before + le_bytes(y as nat, (n - k) as nat) =~= out@ + le_bytes(
                (y / 256) as nat,
                (n - k - 1) as nat,
            ));
        }
        y = y / 256;
        k = k + 1;
    }
    proof {
        assert(out@ + le_bytes(y as nat, 0) =~= out@);
    }
}

/// The number stored little-endian in `buf[at..at + n]`, for `n <= 8`.
pub fn read_le(buf: &[u8], at: usize, n: usize) -> (r: u64)
    requires
        n <= 8,
        at + n <= buf@.len(),
    ensures
        r == le_value(buf@.subrange(at as int, at + n)),
{
    let mut acc: u64 = 0;
    let mut j: usize = n;
    let len: usize = buf.len();
    proof {
        assert(buf@.subrange(at + n, at + n).len() == 0);
        lemma_pow256_values();
    }
    while j > 0
        invariant
            j <= n <= 8,
            at + n <= buf@.len(),
            len == buf@.len(),
            acc == le_value(buf@.subrange(at + j, at + n)),
            pow256(8) == 0x1_0000_0000_0000_0000,
        decreases j,
    {
        j = j - 1;
        let b: u8 = buf[at + j];
        let ghost s = buf@.subrange(at + j, at + n);
        proof {
            assert(s.drop_first() =~= buf@.subrange(at + j + 1, at + n));
            lemma_le_bound(s.drop_first());
            lemma_pow_mono((n - j - 1) as nat, 7);
            assert(acc * 256 + b < 0x1_0000_0000_0000_0000) by (nonlinear_arith)
                requires
                    acc < pow256((n - j - 1) as nat),
                    pow256((n - j - 1) as nat) <= pow256(7),
                    pow256(8) == 256 * pow256(7),
                    pow256(8) == 0x1_0000_0000_0000_0000,
                    b < 256,
            ;
        }
        acc = acc * 256 + b as u64;
    }
    acc
}

proof fn lemma_pow_mono(a: nat, b: nat)
    requires
        a <= b,
    ensures
        pow256(a) <= pow256(b),
    decreases b,
{
    if a < b {
        lemma_pow_mono(a, (b - 1) as nat);
    }
}

// ---------------------------------------------------------------------------
// Serialized chunks.
/// The bodies of the bitmaps `bs`, one after the other.
pub open spec fn bodies<T: Bitmap>(bs: Seq<T>) -> Seq<u8>
    decreases bs.len(),
{
    if bs.len() == 0 {
        Seq::empty()
    } else {
        bodies(bs.drop_last()) + bs.last().encoding()
    }
}

/// The first `m` entries of the offset table of `bs`, whose bodies start at `start`.
pub open spec fn header_upto<T: Bitmap>(bs: Seq<T>, start: nat, m: nat) -> Seq<u8>
    decreases m,
{
    if m == 0 {
        Seq::empty()
    } else {
        header_upto(bs, start, (m - 1) as nat) + le_bytes(
            start + bodies(bs.subrange(0, m - 1)).len(),
            4,
        )
    }
}

/// The serialized chunk of the bitmaps `bs`.
pub open spec fn chunk_bytes<T: Bitmap>(bs: Seq<T>) -> Seq<u8> {
    header_upto(bs, 4 * (bs.len() + 1), bs.len() + 1) + bodies(bs)
}

/// Entry `m` of the offset table at the start of `buf`.
pub open spec fn offset_at(buf: Seq<u8>, m: int) -> nat {
    le_value(buf.subrange(4 * m, 4 * m + 4))
}

/// `buf` starts with an offset table of `count + 1` entries whose bodies lie,
/// in order, inside `buf`.
pub open spec fn table_ok(buf: Seq<u8>, count: nat) -> bool {
    &&& 4 * (count + 1) <= buf.len()
    &&& forall|m: int| 0 <= m < count ==> #[trigger] offset_at(buf, m) <= offset_at(buf, m + 1)
    &&& offset_at(buf, count as int) <= buf.len()
}

/// Body `m` of a serialized chunk.
pub open spec fn body_at(buf: Seq<u8>, m: int) -> Seq<u8> {
    buf.subrange(offset_at(buf, m) as int, offset_at(buf, m + 1) as int)
}

/// Serialize the chunk of bitmaps `bitmaps`; fail with `BitmapError` where it
/// would not fit the 32-bit offsets.
pub fn write_chunk<T: Bitmap>(bitmaps: &Vec<T>) -> (r: Result<Vec<u8>, Error>)
    requires
        forall|m: int| 0 <= m < bitmaps@.len() ==> (#[trigger] bitmaps@[m]).wf(),
    ensures
        r is Ok <==> chunk_bytes(bitmaps@).len() <= u32::MAX,
        r is Ok ==> r->Ok_0@ == chunk_bytes(bitmaps@),
        r is Err ==> r->Err_0 is BitmapError,
{
    let count: usize = bitmaps.len();
    let ghost bs = bitmaps@;
    if count >= 0x4000_0000 {
        proof {
            lemma_header_len(bs, 4 * (count + 1) as nat, (count + 1) as nat);
        }
        return Err(Error::BitmapError);
    }
    let start: u64 = 4 * (count as u64 + 1);
    if start > 0xffff_ffff {
        proof {
            lemma_header_len(bs, start as nat, (count + 1) as nat);
        }
        return Err(Error::BitmapError);
    }
    let mut header: Vec<u8> = Vec::new();
    let mut body: Vec<u8> = Vec::new();
    let mut m: usize = 0;
    proof {
        assert(bs.subrange(0, 0) =~= Seq::<T>::empty());
        lemma_pow256_values();
    }
    while m < count
        invariant
            count == bs.len(),
            bs == bitmaps@,
            count < 0x4000_0000,
            start == 4 * (count + 1),
            m <= count,
            forall|j: int| 0 <= j < bs.len() ==> (#[trigger] bs[j]).wf(),
            header@ == header_upto(bs, start as nat, m as nat),
            body@ == bodies(bs.subrange(0, m as int)),
            start + body@.len() <= u32::MAX,
            pow256(4) == 0x1_0000_0000,
        decreases count - m,
    {
        let off: u64 = start + body.len() as u64;
        push_le(&mut header, off, 4);
        let size: usize = bitmaps[m].size();
        let mut one: Vec<u8> = vec![0u8; size];
        let w = bitmaps[m].write_to_buffer(one.as_mut_slice());
        proof {
            assert(one@.subrange(size as int, size as int) =~= Seq::<u8>::empty());
            assert(one@ =~= bs[m as int].encoding());
            assert(bs.subrange(0, m + 1).drop_last() =~= bs.subrange(0, m as int));
        }
        if size > 0xffff_ffff - (start as usize + body.len()) {
            proof {
                lemma_bodies_grow(bs, m as int + 1);
                lemma_header_len(bs, start as nat, (count + 1) as nat);
            }
            return Err(Error::BitmapError);
        }
        body.append(&mut one);
        m = m + 1;
    }
    let off: u64 = start + body.len() as u64;
    push_le(&mut header, off, 4);
    proof {
        assert(bs.subrange(0, count as int) =~= bs);
        lemma_header_len(bs, start as nat, (count + 1) as nat);
    }
    header.append(&mut body);
    Ok(header)
}

proof fn lemma_header_len<T: Bitmap>(bs: Seq<T>, start: nat, m: nat)
    ensures
        header_upto(bs, start, m).len() == 4 * m,
    decreases m,
{
    if m > 0 {
        lemma_header_len(bs, start, (m - 1) as nat);
        lemma_le_len(start + bodies(bs.subrange(0, m - 1)).len(), 4);
    }
}

proof fn lemma_le_len(x: nat, n: nat)
    ensures
        le_bytes(x, n).len() == n,
    decreases n,
{
    if n > 0 {
        lemma_le_len(x / 256, (n - 1) as nat);
    }
}

/// The bodies of a prefix are a prefix of the bodies.
pub proof fn lemma_bodies_grow<T: Bitmap>(bs: Seq<T>, m: int)
    requires
        0 <= m <= bs.len(),
    ensures
        bodies(bs.subrange(0, m)).len() <= bodies(bs).len(),
        bodies(bs) == bodies(bs.subrange(0, m)) + bodies(bs).subrange(
            bodies(bs.subrange(0, m)).len() as int,
            bodies(bs).len() as int,
        ),
    decreases bs.len(),
{
    if m == bs.len() {
        assert(bs.subrange(0, m) =~= bs);
        assert(bodies(bs) =~= bodies(bs) + Seq::<u8>::empty());
    } else {
        let pre = bs.drop_last();
        assert(pre.subrange(0, m) =~= bs.subrange(0, m));
        lemma_bodies_grow(pre, m);
        assert(bodies(bs) =~= bodies(bs.subrange(0, m)) + bodies(bs).subrange(
            bodies(bs.subrange(0, m)).len() as int,
            bodies(bs).len() as int,
        ));
    }
}

/// Read the offsets of bitmap `m` from `pair`, the eight bytes at entry `m`
/// of the offset table of a chunk that starts at `chunk_offset`: the absolute
/// positions where its body starts and ends.
pub fn read_bitmap_offset(chunk_offset: u64, pair: &[u8]) -> (r: (u64, u64))
    requires
        pair@.len() == 8,
        chunk_offset + 0xffff_ffff <= u64::MAX,
    ensures
        r.0 == chunk_offset + le_value(pair@.subrange(0, 4)),
        r.1 == chunk_offset + le_value(pair@.subrange(4, 8)),
{
    let s: u64 = read_le(pair, 0, 4);
    let e: u64 = read_le(pair, 4, 4);
    proof {
        lemma_le_bound(pair@.subrange(0, 4));
        lemma_le_bound(pair@.subrange(4, 8));
        lemma_pow256_values();
    }
    (chunk_offset + s, chunk_offset + e)
}

/// Whether `buf` starts with a valid offset table for `count` bitmaps.
pub fn table_is_ok(buf: &[u8], count: usize) -> (r: bool)
    ensures
        r == table_ok(buf@, count as nat),
{
    let len: usize = buf.len();
    if len < 4 || (len - 4) / 4 < count {
        return false;
    }
    // The offsets, checked from the last one down.
    let mut next: u64 = read_le(buf, 4 * count, 4);
    if next > len as u64 {
        return false;
    }
    let mut m: usize = count;
    while m > 0
        invariant
            4 * (count + 1) <= buf@.len(),
            len == buf@.len(),
            m <= count,
            next == offset_at(buf@, m as int),
            offset_at(buf@, count as int) <= len,
            forall|j: int| m <= j < count ==> #[trigger] offset_at(buf@, j) <= offset_at(buf@, j + 1),
            forall|j: int| m <= j <= count ==> #[trigger] offset_at(buf@, j) <= len,
        decreases m,
    {
        let cur: u64 = read_le(buf, 4 * (m - 1), 4);
        if cur > next {
            proof {
                assert(!(offset_at(buf@, m - 1) <= offset_at(buf@, (m - 1) + 1)));
            }
            return false;
        }
        proof {
            assert(offset_at(buf@, m as int) <= len);
            assert forall|j: int| m - 1 <= j <= count implies #[trigger] offset_at(buf@, j) <= len by {
                if j == m - 1 {
                } else {
                    assert(offset_at(buf@, j) <= len);
                }
            }
        }
        next = cur;
        m = m - 1;
    }
    proof {
        assert(m == 0);
    }
    true
}

proof fn lemma_table_bound(buf: Seq<u8>, count: nat, j: int)
    requires
        table_ok(buf, count),
        0 <= j <= count,
    ensures
        offset_at(buf, j) <= buf.len(),
    decreases count - j,
{
    if j < count {
        lemma_table_bound(buf, count, j + 1);
    }
}

/// Read `count` bitmaps from a serialized chunk, checking each one.
pub fn read_bitmaps<T: Bitmap>(buf: &[u8], count: usize) -> (r: Result<Vec<T>, Error>)
    ensures
        r is Ok <==> table_ok(buf@, count as nat) && forall|m: int|
            0 <= m < count ==> T::usable(#[trigger] body_at(buf@, m)),
        r is Ok ==> r->Ok_0@.len() == count && forall|m: int|
            0 <= m < count ==> (#[trigger] r->Ok_0@[m]).wf() && T::decodes_to(
                body_at(buf@, m),
                r->Ok_0@[m],
            ),
        r is Err ==> r->Err_0 is BitmapError,
{
    if !table_is_ok(buf, count) {
        return Err(Error::BitmapError);
    }
    let len: usize = buf.len();
    proof {
        assert forall|j: int| 0 <= j <= count implies #[trigger] offset_at(buf@, j) <= len by {
            lemma_table_bound(buf@, count as nat, j);
        }
    }
    let mut m: usize = 0;
    let mut prev: u64 = read_le(buf, 0, 4);
    let mut out: Vec<T> = Vec::with_capacity(count);
    while m < count
        invariant
            4 * (count + 1) <= buf@.len(),
            len == buf@.len(),
            table_ok(buf@, count as nat),
            forall|j: int| 0 <= j <= count ==> #[trigger] offset_at(buf@, j) <= len,
            m <= count,
            prev == offset_at(buf@, m as int),
            out@.len() == m,
            forall|j: int|
                0 <= j < m ==> (#[trigger] out@[j]).wf() && T::decodes_to(body_at(buf@, j), out@[j])
                    && T::usable(body_at(buf@, j)),
        decreases count - m,
    {
        let next: u64 = read_le(buf, 4 * (m + 1), 4);
        assert(offset_at(buf@, m as int) <= offset_at(buf@, m + 1));
        let body: &[u8] = slice_subrange(buf, prev as usize, next as usize);
        let mut b: T = T::new();
        let ok: bool = match b.read_from_buffer(body, true) {
            Ok(()) => b.is_well_formed(),
            Err(()) => false,
        };
        match ok {
            true => {},
            false => {
                proof {
                    assert(!T::usable(body_at(buf@, m as int)));
                }
                return Err(Error::BitmapError);
            },
        }
        let ghost before = out@;
        out.push(b);
        proof {
            assert forall|j: int| 0 <= j < m + 1 implies (#[trigger] out@[j]).wf() && T::decodes_to(
                body_at(buf@, j),
                out@[j],
            ) && T::usable(body_at(buf@, j)) by {
                if j < m {
                    assert(out@[j] == before[j]);
                }
            }
        }
        prev = next;
        m = m + 1;
    }
    proof {
        assert forall|k: int| 0 <= k < count implies T::usable(#[trigger] body_at(buf@, k)) by {
            assert(out@[k].wf());
        }
    }
    Ok(out)
}

/// Entry `m` of the offset table of `bs` holds where body `m` begins.
proof fn lemma_header_entry<T: Bitmap>(bs: Seq<T>, start: nat, k: nat, m: int)
    requires
        0 <= m < k,
        k <= bs.len() + 1,
    ensures
        header_upto(bs, start, k).subrange(4 * m, 4 * m + 4) == le_bytes(
            start + bodies(bs.subrange(0, m)).len(),
            4,
        ),
    decreases k,
{
    lemma_header_len(bs, start, (k - 1) as nat);
    lemma_le_len(start + bodies(bs.subrange(0, k - 1)).len(), 4);
    let h = header_upto(bs, start, k);
    let prev = header_upto(bs, start, (k - 1) as nat);
    if m < k - 1 {
        lemma_header_entry(bs, start, (k - 1) as nat, m);
        assert(h.subrange(4 * m, 4 * m + 4) =~= prev.subrange(4 * m, 4 * m + 4));
    } else {
        assert(h.subrange(4 * m, 4 * m + 4) =~= le_bytes(
            start + bodies(bs.subrange(0, m)).len(),
            4,
        ));
    }
}

/// A chunk written by `write_chunk` has a valid offset table, and body `m`
/// is the encoding of bitmap `m`: reading it back gives the same bitmaps.
pub proof fn lemma_chunk_round_trip<T: Bitmap>(bs: Seq<T>)
    requires
        chunk_bytes(bs).len() <= u32::MAX,
    ensures
        table_ok(chunk_bytes(bs), bs.len()),
        forall|m: int| 0 <= m < bs.len() ==> #[trigger] body_at(chunk_bytes(bs), m) == bs[m].encoding(),
{
    let n = bs.len();
    let start = 4 * (n + 1);
    let h = header_upto(bs, start, n + 1);
    let c = chunk_bytes(bs);
    lemma_header_len(bs, start, n + 1);
    lemma_pow256_values();
    assert forall|m: int| 0 <= m <= n implies #[trigger] offset_at(c, m) == start + bodies(
        bs.subrange(0, m),
    ).len() by {
        lemma_header_entry(bs, start, n + 1, m);
        assert(c.subrange(4 * m, 4 * m + 4) =~= h.subrange(4 * m, 4 * m + 4));
        lemma_bodies_grow(bs, m);
        lemma_le_round_trip(start + bodies(bs.subrange(0, m)).len(), 4);
    }
    assert forall|m: int| 0 <= m < n implies #[trigger] offset_at(c, m) <= offset_at(c, m + 1)
        && body_at(c, m) == bs[m].encoding() by {
        let pre = bodies(bs.subrange(0, m));
        let nxt = bodies(bs.subrange(0, m + 1));
        assert(bs.subrange(0, m + 1).drop_last() =~= bs.subrange(0, m));
        assert(nxt == pre + bs[m].encoding());
        lemma_bodies_grow(bs, m + 1);
        let body = bodies(bs);
        assert(body_at(c, m) =~= bs[m].encoding()) by {
            assert forall|t: int| 0 <= t < bs[m].encoding().len() implies body_at(c, m)[t]
                == bs[m].encoding()[t] by {
                assert(body_at(c, m)[t] == c[start + pre.len() + t]);
                assert(c[start + pre.len() + t] == body[pre.len() + t]);
                assert(body[pre.len() + t] == nxt[pre.len() + t]);
            }
        }
    }
    assert(bs.subrange(0, n as int) =~= bs);
}

/// A stored chunk read back answers every query as the chunk in memory did:
/// each bitmap read back holds the positions of the one written.
pub proof fn lemma_stored_chunk_answers_alike<T: Bitmap>(
    bs: Seq<T>,
    ds: Seq<T>,
    idxs: Seq<usize>,
    base: int,
    start: int,
    end: int,
)
    requires
        forall|m: int| 0 <= m < bs.len() ==> (#[trigger] bs[m]).wf(),
        chunk_bytes(bs).len() <= u32::MAX,
        ds.len() == bs.len(),
        forall|m: int| 0 <= m < ds.len() ==> T::decodes_to(body_at(chunk_bytes(bs), m), #[trigger] ds[m]),
        forall|k: int| 0 <= k < idxs.len() ==> #[trigger] idxs[k] < bs.len(),
    ensures
        forall|m: int| 0 <= m < bs.len() ==> (#[trigger] ds[m]).members() == bs[m].members(),
        chunk_hits(ds, idxs, base, start, end) == chunk_hits(bs, idxs, base, start, end),
{
    lemma_chunk_round_trip(bs);
    assert forall|m: int| 0 <= m < bs.len() implies (#[trigger] ds[m]).members() == bs[m].members() by {
        assert(body_at(chunk_bytes(bs), m) == bs[m].encoding());
        T::lemma_encoding(&bs[m], &ds[m]);
    }
    assert forall|p: nat| common_upto(ds, idxs, idxs.len() as int).contains(p) <==> common_upto(
        bs,
        idxs,
        idxs.len() as int,
    ).contains(p) by {
        if common_upto(ds, idxs, idxs.len() as int).contains(p) {
            assert forall|j: int| 0 <= j < idxs.len() implies (#[trigger] bs[idxs[j] as int]).members().contains(p) by {
                assert(ds[idxs[j] as int].members().contains(p));
            }
        }
        if common_upto(bs, idxs, idxs.len() as int).contains(p) {
            assert forall|j: int| 0 <= j < idxs.len() implies (#[trigger] ds[idxs[j] as int]).members().contains(p) by {
                assert(bs[idxs[j] as int].members().contains(p));
            }
        }
    }
    assert(common_upto(ds, idxs, idxs.len() as int) =~= common_upto(bs, idxs, idxs.len() as int));
    assert(chunk_hits(ds, idxs, base, start, end) =~= chunk_hits(bs, idxs, base, start, end));
}

/// The stored chunks that a query over `start..=end` must read: those whose
/// positions meet the range, among the first `stored` chunks of `chunk_size`
/// values each, and below position `num_values`. `None` where there is none.
pub fn chunks_to_read(start: u64, end: u64, num_values: u64, chunk_size: u64, stored: u64) -> (r: Option<(u64, u64)>)
    requires
        chunk_size > 0,
    ensures
        r is None <==> (start > end || start >= num_values || stored == 0 || start / chunk_size >= stored),
        r matches Some((first, last)) ==> first == start / chunk_size && last == vstd::math::min(
            vstd::math::min(end as int, num_values - 1) / (chunk_size as int),
            stored - 1,
        ),
{
    if start > end || start >= num_values || stored == 0 || start / chunk_size >= stored {
        return None;
    }
    let last_pos: u64 = if end < num_values - 1 { end } else { num_values - 1 };
    let last_chunk: u64 = last_pos / chunk_size;
    let last: u64 = if last_chunk < stored - 1 { last_chunk } else { stored - 1 };
    Some((start / chunk_size, last))
}

/// Where chunk `chunk_id` starts, given `offsets`, the end offsets of the
/// chunks from chunk `first_entry` on.
pub fn chunk_start_in(offsets: &Vec<u64>, first_entry: u64, chunk_id: u64) -> (r: u64)
    requires
        chunk_id == 0 || (first_entry < chunk_id && chunk_id - 1 - first_entry < offsets@.len()),
    ensures
        r == (if chunk_id == 0 {
            0
        } else {
            offsets@[chunk_id - 1 - first_entry]
        }),
{
    if chunk_id == 0 {
        0
    } else {
        let len: usize = offsets.len();
        assert(chunk_id - 1 - first_entry < len);
        offsets[(chunk_id - 1 - first_entry) as usize]
    }
}

/// Where chunk `chunk_id` starts and ends, given the end offsets of the chunks.
pub fn chunk_span(offsets: &Vec<u64>, chunk_id: usize) -> (r: (u64, u64))
    requires
        chunk_id < offsets@.len(),
    ensures
        r.0 == (if chunk_id == 0 {
            0
        } else {
            offsets@[chunk_id - 1]
        }),
        r.1 == offsets@[chunk_id as int],
{
    let start: u64 = if chunk_id == 0 {
        0
    } else {
        offsets[chunk_id - 1]
    };
    (start, offsets[chunk_id])
}

// ---------------------------------------------------------------------------
// Meta records and the offset table.
/// What the meta file holds: the number of values and the build options.
#[derive(Clone, Copy, PartialEq, Eq, Debug)]
pub struct MetaData {
    pub num_values: u64,
    pub build_options: BuildOptions,
}

/// The bytes of a meta record.
pub open spec fn meta_bytes(m: MetaData) -> Seq<u8> {
    le_bytes(m.num_values as nat, 8) + le_bytes(m.build_options.bit_block_size as nat, 8)
        + le_bytes(m.build_options.chunk_size.spec_len(), 8)
}

impl MetaData {
    /// The meta record, as its 24 bytes.
    pub fn to_bytes(&self) -> (r: Vec<u8>)
        ensures
            r@ == meta_bytes(*self),
    {
        let mut out: Vec<u8> = Vec::new();
        push_le(&mut out, self.num_values, 8);
        push_le(&mut out, self.build_options.bit_block_size as u64, 8);
        push_le(&mut out, self.build_options.chunk_size.values_per_chunk(), 8);
        out
    }

    /// Read a meta record from the first 24 bytes of `buf`. Fails with
    /// `ParametersError` where `buf` is shorter or the chunk size is not one
    /// of those the index accepts.
    pub fn from_bytes(buf: &[u8]) -> (r: Result<MetaData, Error>)
        ensures
            r is Ok <==> buf@.len() >= 24 && is_chunk_len(le_value(buf@.subrange(16, 24)))
                && le_value(buf@.subrange(8, 16)) <= usize::MAX,
            r is Ok ==> r->Ok_0.num_values == le_value(buf@.subrange(0, 8))
                && r->Ok_0.build_options.bit_block_size == le_value(buf@.subrange(8, 16))
                && r->Ok_0.build_options.chunk_size.spec_len() == le_value(buf@.subrange(16, 24)),
            r is Err ==> r->Err_0 is ParametersError,
    {
        if buf.len() < 24 {
            return Err(Error::ParametersError);
        }
        let num_values: u64 = read_le(buf, 0, 8);
        let bit_block_size: u64 = read_le(buf, 8, 8);
        let chunk: u64 = read_le(buf, 16, 8);
        if bit_block_size > usize::MAX as u64 {
            return Err(Error::ParametersError);
        }
        match ChunkSize::from_values_per_chunk(chunk) {
            Some(chunk_size) => Ok(
                MetaData {
                    num_values,
                    build_options: BuildOptions {
                        bit_block_size: bit_block_size as usize,
                        chunk_size,
                    },
                },
            ),
            None => Err(Error::ParametersError),
        }
    }
}

/// A meta record read back from its bytes is the record written.
pub proof fn lemma_meta_round_trip(m: MetaData)
    ensures
        meta_bytes(m).len() == 24,
        le_value(meta_bytes(m).subrange(0, 8)) == m.num_values,
        le_value(meta_bytes(m).subrange(8, 16)) == m.build_options.bit_block_size,
        le_value(meta_bytes(m).subrange(16, 24)) == m.build_options.chunk_size.spec_len(),
{
    lemma_pow256_values();
    let a = le_bytes(m.num_values as nat, 8);
    let b = le_bytes(m.build_options.bit_block_size as nat, 8);
    let c = le_bytes(m.build_options.chunk_size.spec_len(), 8);
    lemma_le_round_trip(m.num_values as nat, 8);
    lemma_le_round_trip(m.build_options.bit_block_size as nat, 8);
    lemma_le_round_trip(m.build_options.chunk_size.spec_len(), 8);
    assert(meta_bytes(m).subrange(0, 8) =~= a);
    assert(meta_bytes(m).subrange(8, 16) =~= b);
    assert(meta_bytes(m).subrange(16, 24) =~= c);
}

/// The chunk end offsets stored in the offset table `buf`, eight bytes each.
pub fn read_chunks_offsets(buf: &[u8]) -> (r: Vec<u64>)
    ensures
        r@.len() == buf@.len() / 8,
        forall|c: int| 0 <= c < r@.len() ==> #[trigger] r@[c] == le_value(buf@.subrange(8 * c, 8 * c + 8)),
{
    let len: usize = buf.len();
    let n: usize = len / 8;
    let mut out: Vec<u64> = Vec::with_capacity(n);
    let mut c: usize = 0;
    while c < n
        invariant
            len == buf@.len(),
            n == buf@.len() / 8,
            c <= n,
            out@.len() == c,
            forall|j: int| 0 <= j < c ==> #[trigger] out@[j] == le_value(buf@.subrange(8 * j, 8 * j + 8)),
        decreases n - c,
    {
        out.push(read_le(buf, 8 * c, 8));
        c = c + 1;
    }
    out
}

} // verus!
