//! OZBC: a compressed, append-only bitmap made of 16-bit words.
//!
//! ```text
//! literal word: |0|7 bits: zero bytes before the literal|8 bits: literal byte|
//! run word:     |1|15 bits: number of 128-byte blocks of zeros           |
//! ```
//!
//! A literal word stands for `zz` zero bytes followed by one literal byte; a
//! run word for `zzzzz * 128` zero bytes. Bit `j` of a literal byte that sits
//! at byte `n` of the bitmap is position `8 * n + j`.
use vstd::prelude::*;
use crate::bitmap::{Bitmap, ascending, lists};

verus! {

/// Largest count of 128-byte zero blocks that one run word holds.
pub const MAX_RUN_BLOCKS: u16 = 0x7fff;

/// Zero bytes that one full run word stands for.
pub const MAX_RUN_BYTES: u32 = 0x3f_ff80;

/// Bytes that a bitmap may span: every position of a `u32` lies below `8 * 2^29`.
pub const MAX_BYTES: u32 = 0x2000_0000;

/// Whether `w` is a run word.
pub open spec fn is_run(w: u16) -> bool {
    w >= 0x8000
}

/// Bytes that one word stands for.
pub open spec fn word_bytes(w: u16) -> nat {
    if is_run(w) {
        ((w - 0x8000) as nat) * 128
    } else {
        (w / 256) as nat + 1
    }
}

/// Bytes that a sequence of words stands for.
pub open spec fn words_bytes(ws: Seq<u16>) -> nat
    decreases ws.len(),
{
    if ws.len() == 0 {
        0
    } else {
        words_bytes(ws.drop_last()) + word_bytes(ws.last())
    }
}

/// Whether bit `j` of the literal byte of `w` is set.
pub open spec fn literal_has(w: u16, j: nat) -> bool {
    j < 8 && (w >> (j as u16)) & 1 == 1
}

/// Positions set by a literal byte `w` (its low eight bits) that sits at byte `byte`.
pub open spec fn byte_members(byte: nat, w: u16) -> Set<nat> {
    Set::new(|p: nat| 8 * byte <= p && p < 8 * byte + 8 && literal_has(w, (p - 8 * byte) as nat))
}

/// Positions set by word `w` when `start` bytes come before it.
pub open spec fn word_members(w: u16, start: nat) -> Set<nat> {
    if is_run(w) {
        Set::empty()
    } else {
        byte_members(start + (w / 256) as nat, w)
    }
}

/// Positions set by a sequence of words.
pub open spec fn members_of(ws: Seq<u16>) -> Set<nat>
    decreases ws.len(),
{
    if ws.len() == 0 {
        Set::empty()
    } else {
        members_of(ws.drop_last()).union(word_members(ws.last(), words_bytes(ws.drop_last())))
    }
}

/// A well-formed word sequence: it spans `num_bytes` bytes, ends in a literal
/// word whose byte is not zero, and has no more words than bytes.
pub open spec fn words_wf(ws: Seq<u16>, num_bytes: nat) -> bool {
    &&& words_bytes(ws) == num_bytes
    &&& num_bytes <= MAX_BYTES
    &&& ws.len() <= num_bytes
    &&& ws.len() > 0 ==> !is_run(ws.last()) && ws.last() % 256 != 0
}

/// Little-endian bytes of a 32-bit count.
pub open spec fn le32(x: u32) -> Seq<u8> {
    seq![(x % 256) as u8, ((x / 256) % 256) as u8, ((x / 65536) % 256) as u8, (x / 16777216) as u8]
}

/// Little-endian bytes of a word sequence, two per word.
pub open spec fn words_le(ws: Seq<u16>) -> Seq<u8> {
    Seq::new(
        2 * ws.len(),
        |t: int|
            if t % 2 == 0 {
                (ws[t / 2] % 256) as u8
            } else {
                (ws[t / 2] / 256) as u8
            },
    )
}

/// The serialized form: the byte count, then the words.
pub open spec fn encoding_of(ws: Seq<u16>, num_bytes: u32) -> Seq<u8> {
    le32(num_bytes) + words_le(ws)
}

/// The byte count read from the first four bytes.
pub open spec fn decode_count(buf: Seq<u8>) -> u32 {
    (buf[0] + 256 * buf[1] + 65536 * buf[2] + 16777216 * buf[3]) as u32
}

/// The words read from the bytes after the first four; an odd last byte is left out.
pub open spec fn decode_words(buf: Seq<u8>) -> Seq<u16> {
    Seq::new(
        ((buf.len() - 4) / 2) as nat,
        |k: int| (buf[4 + 2 * k] + 256 * buf[5 + 2 * k]) as u16,
    )
}

/// Whether `read_from_buffer` accepts `buf`: with the check, the stored byte
/// count must equal the bytes that the words stand for.
pub open spec fn decodable(buf: Seq<u8>, check: bool) -> bool {
    buf.len() >= 4 && (check ==> words_bytes(decode_words(buf)) == decode_count(buf))
}

/// `buf` reads back as a well-formed bitmap.
pub open spec fn usable(buf: Seq<u8>) -> bool {
    buf.len() >= 4 && words_wf(decode_words(buf), decode_count(buf) as nat)
}

/// Serializing a well-formed bitmap and reading it back with the check gives
/// the same words and byte count, hence the same bitmap.
pub proof fn lemma_round_trip(b: OZBCBitmap)
    requires
        b.is_wf(),
    ensures
        decodable(encoding_of(b.words(), b@.1), true),
        usable(encoding_of(b.words(), b@.1)),
        decode_words(encoding_of(b.words(), b@.1)) == b.words(),
        decode_count(encoding_of(b.words(), b@.1)) == b@.1,
{
    let ws = b.words();
    let nb = b@.1;
    let enc = encoding_of(ws, nb);
    assert(nb == (nb % 256) + 256 * ((nb / 256) % 256) + 65536 * ((nb / 65536) % 256) + 16777216
        * (nb / 16777216)) by (bit_vector);
    assert(enc[0] == (nb % 256) as u8);
    assert(enc[1] == ((nb / 256) % 256) as u8);
    assert(enc[2] == ((nb / 65536) % 256) as u8);
    assert(enc[3] == (nb / 16777216) as u8);
    assert forall|k: int| 0 <= k < ws.len() implies #[trigger] decode_words(enc)[k] == ws[k] by {
        assert(enc[4 + 2 * k] == words_le(ws)[2 * k]);
        assert(enc[5 + 2 * k] == words_le(ws)[2 * k + 1]);
        assert((2 * k) / 2 == k);
        assert((2 * k + 1) / 2 == k);
        assert((2 * k + 1) % 2 == 1);
        let w = ws[k];
        assert(w == (w % 256) + 256 * (w / 256));
    }
    assert(decode_words(enc) =~= ws);
}

/// The words that stand for `g` zero bytes followed by the literal byte `lit`:
/// one literal word where `g < 128`, else run words and a literal word.
pub open spec fn gap_words(g: nat, lit: u16) -> Seq<u16> {
    if g < 128 {
        seq![(g * 256 + lit) as u16]
    } else {
        long_gap_words(g, lit)
    }
}

/// Full run words while more than one run word's zero bytes remain, then a run
/// word for the whole 128-byte blocks left and the literal word.
pub open spec fn long_gap_words(g: nat, lit: u16) -> Seq<u16>
    decreases g,
{
    if g > MAX_RUN_BYTES {
        seq![0xffffu16] + long_gap_words((g - MAX_RUN_BYTES) as nat, lit)
    } else {
        seq![(0x8000 + g / 128) as u16, ((g % 128) * 256 + lit) as u16]
    }
}

/// The words of `long_gap_words(g, _)` before its literal word.
pub open spec fn long_prefix(g: nat) -> Seq<u16>
    decreases g,
{
    if g > MAX_RUN_BYTES {
        seq![0xffffu16] + long_prefix((g - MAX_RUN_BYTES) as nat)
    } else {
        seq![(0x8000 + g / 128) as u16]
    }
}

/// The zero bytes that the literal word of `long_gap_words(g, _)` counts.
pub open spec fn long_low(g: nat) -> nat
    decreases g,
{
    if g > MAX_RUN_BYTES {
        long_low((g - MAX_RUN_BYTES) as nat)
    } else {
        g % 128
    }
}

/// The words of `gap_words(g, _)` before its literal word.
pub open spec fn gap_prefix(g: nat) -> Seq<u16> {
    if g < 128 {
        Seq::empty()
    } else {
        long_prefix(g)
    }
}

/// The zero bytes that the literal word of `gap_words(g, _)` counts.
pub open spec fn gap_low(g: nat) -> nat {
    if g < 128 {
        g
    } else {
        long_low(g)
    }
}

/// The value of byte `b` of the bitmap whose positions are `s`.
pub open spec fn byte_of(s: Set<nat>, b: nat) -> nat {
    (if s.contains(8 * b) { 1nat } else { 0nat }) + (if s.contains(8 * b + 1) { 2nat } else { 0nat })
        + (if s.contains(8 * b + 2) { 4nat } else { 0nat }) + (if s.contains(8 * b + 3) { 8nat } else { 0nat })
        + (if s.contains(8 * b + 4) { 16nat } else { 0nat }) + (if s.contains(8 * b + 5) { 32nat } else { 0nat })
        + (if s.contains(8 * b + 6) { 64nat } else { 0nat }) + (if s.contains(8 * b + 7) { 128nat } else { 0nat })
}

/// The canonical words for the bytes of `s` below byte `n`, with the byte count
/// they span: each non-zero byte, in order, emitted as `gap_words` after the
/// zero bytes since the previous one.
pub open spec fn canon(s: Set<nat>, n: nat) -> (Seq<u16>, nat)
    decreases n,
{
    if n == 0 {
        (Seq::empty(), 0)
    } else {
        let prev = canon(s, (n - 1) as nat);
        if byte_of(s, (n - 1) as nat) == 0 {
            prev
        } else {
            (prev.0 + gap_words((n - 1 - prev.1) as nat, byte_of(s, (n - 1) as nat) as u16), n)
        }
    }
}

proof fn lemma_canon_end(s: Set<nat>, n: nat)
    ensures
        canon(s, n).1 <= n,
    decreases n,
{
    if n > 0 {
        lemma_canon_end(s, (n - 1) as nat);
    }
}

/// Zero bytes at the end change nothing.
proof fn lemma_canon_zero_tail(s: Set<nat>, m: nat, n: nat)
    requires
        m <= n,
        forall|b: nat| m <= b < n ==> #[trigger] byte_of(s, b) == 0,
    ensures
        canon(s, n) == canon(s, m),
    decreases n,
{
    if n > m {
        lemma_canon_zero_tail(s, m, (n - 1) as nat);
    }
}

/// The canonical words below byte `n` depend only on the bytes below `n`.
proof fn lemma_canon_agree(s1: Set<nat>, s2: Set<nat>, n: nat)
    requires
        forall|b: nat| b < n ==> #[trigger] byte_of(s1, b) == byte_of(s2, b),
    ensures
        canon(s1, n) == canon(s2, n),
    decreases n,
{
    if n > 0 {
        lemma_canon_agree(s1, s2, (n - 1) as nat);
    }
}

/// A byte whose bits are those of `d` has the value `d`.
proof fn lemma_byte_value(s: Set<nat>, b: nat, d: u16)
    requires
        d < 256,
        forall|j: nat| j < 8 ==> (s.contains(8 * b + j) <==> #[trigger] literal_has(d, j)),
    ensures
        byte_of(s, b) == d,
{
    assert(literal_has(d, 0) && literal_has(d, 1) || true);
    let x = d;
    assert(x < 256 ==> x == (x >> 0u16) % 2 + 2 * ((x >> 1u16) % 2) + 4 * ((x >> 2u16) % 2) + 8 * ((x
        >> 3u16) % 2) + 16 * ((x >> 4u16) % 2) + 32 * ((x >> 5u16) % 2) + 64 * ((x >> 6u16) % 2) + 128
        * ((x >> 7u16) % 2)) by (bit_vector);
    assert forall|k: u16| k < 8 implies ((x >> k) % 2 == 1 <==> (x >> k) & 1 == 1) && ((x >> k) % 2
        == 0 || (x >> k) % 2 == 1) by {
        assert(k < 8 ==> (((x >> k) % 2 == 1 <==> (x >> k) & 1 == 1) && ((x >> k) % 2 == 0 || (x >> k)
            % 2 == 1))) by (bit_vector);
    }
    assert(s.contains(8 * b + 0) <==> literal_has(d, 0));
    assert(s.contains(8 * b + 1) <==> literal_has(d, 1));
    assert(s.contains(8 * b + 2) <==> literal_has(d, 2));
    assert(s.contains(8 * b + 3) <==> literal_has(d, 3));
    assert(s.contains(8 * b + 4) <==> literal_has(d, 4));
    assert(s.contains(8 * b + 5) <==> literal_has(d, 5));
    assert(s.contains(8 * b + 6) <==> literal_has(d, 6));
    assert(s.contains(8 * b + 7) <==> literal_has(d, 7));
}

proof fn lemma_long_split(g: nat, lit: u16)
    ensures
        long_gap_words(g, lit) == long_prefix(g) + seq![(long_low(g) * 256 + lit) as u16],
        long_low(g) < 128,
    decreases g,
{
    if g > MAX_RUN_BYTES {
        lemma_long_split((g - MAX_RUN_BYTES) as nat, lit);
        assert(long_gap_words(g, lit) =~= long_prefix(g) + seq![(long_low(g) * 256 + lit) as u16]);
    } else {
        assert(long_gap_words(g, lit) =~= long_prefix(g) + seq![(long_low(g) * 256 + lit) as u16]);
    }
}

/// Bytes with no position change nothing.
proof fn lemma_canon_window(s: Set<nat>, m: nat, n: nat)
    requires
        m <= n,
        forall|p: nat| s.contains(p) ==> !(8 * m <= p && p < 8 * n),
    ensures
        canon(s, n) == canon(s, m),
{
    assert forall|b: nat| m <= b < n implies #[trigger] byte_of(s, b) == 0 by {
        assert(!s.contains(8 * b) && !s.contains(8 * b + 1) && !s.contains(8 * b + 2) && !s.contains(8 * b + 3));
        assert(!s.contains(8 * b + 4) && !s.contains(8 * b + 5) && !s.contains(8 * b + 6) && !s.contains(8 * b + 7));
    }
    lemma_canon_zero_tail(s, m, n);
}

/// The literal word of `gap_words` is its last word.
proof fn lemma_gap_split(g: nat, lit: u16)
    ensures
        gap_words(g, lit) == gap_prefix(g) + seq![(gap_low(g) * 256 + lit) as u16],
        gap_low(g) < 128,
{
    if g >= 128 {
        lemma_long_split(g, lit);
    } else {
        assert(gap_words(g, lit) =~= gap_prefix(g) + seq![(gap_low(g) * 256 + lit) as u16]);
    }
}

proof fn lemma_low_byte_bits(w: u16, k: nat)
    ensures
        literal_has((w % 256) as u16, k) <==> literal_has(w, k),
{
    if k < 8 {
        let kk = k as u16;
        assert(kk < 8 ==> ((((w % 256) >> kk) & 1 == 1) <==> ((w >> kk) & 1 == 1))) by (bit_vector);
    }
}

/// Appending the literal of a new byte keeps the encoding canonical.
proof fn lemma_set_append_canonical(ws: Seq<u16>, nb: nat, i: nat, byte_idx: nat, db: u16, new_ws: Seq<u16>)
    requires
        words_wf(ws, nb),
        canon(members_of(ws), MAX_BYTES as nat) == (ws, nb),
        nb <= byte_idx < MAX_BYTES,
        db < 8,
        i == 8 * byte_idx + db,
        new_ws == ws + gap_words((byte_idx - nb) as nat, 1u16 << db),
        members_of(new_ws) == members_of(ws).insert(i),
    ensures
        canon(members_of(new_ws), MAX_BYTES as nat) == (new_ws, byte_idx + 1),
{
    let s = members_of(ws);
    let s2 = members_of(new_ws);
    lemma_members_below(ws);
    lemma_bit_ops(0, 0, 0, db);
    assert forall|p: nat| s2.contains(p) implies !(8 * (byte_idx + 1) <= p && p < 8 * (MAX_BYTES as nat)) by {}
    lemma_canon_window(s2, byte_idx + 1, MAX_BYTES as nat);
    assert forall|k: nat| k < 8 implies (s2.contains(8 * byte_idx + k) <==> #[trigger] literal_has(1u16 << db, k)) by {}
    lemma_byte_value(s2, byte_idx, 1u16 << db);
    assert forall|b: nat| b < byte_idx implies #[trigger] byte_of(s2, b) == byte_of(s, b) by {
        assert(s2.contains(8 * b) == s.contains(8 * b));
        assert(s2.contains(8 * b + 1) == s.contains(8 * b + 1));
        assert(s2.contains(8 * b + 2) == s.contains(8 * b + 2));
        assert(s2.contains(8 * b + 3) == s.contains(8 * b + 3));
        assert(s2.contains(8 * b + 4) == s.contains(8 * b + 4));
        assert(s2.contains(8 * b + 5) == s.contains(8 * b + 5));
        assert(s2.contains(8 * b + 6) == s.contains(8 * b + 6));
        assert(s2.contains(8 * b + 7) == s.contains(8 * b + 7));
    }
    lemma_canon_agree(s2, s, byte_idx);
    assert forall|p: nat| s.contains(p) implies !(8 * nb <= p && p < 8 * byte_idx) by {}
    lemma_canon_window(s, nb, byte_idx);
    assert forall|p: nat| s.contains(p) implies !(8 * nb <= p && p < 8 * (MAX_BYTES as nat)) by {}
    lemma_canon_window(s, nb, MAX_BYTES as nat);
}

/// Or-ing a higher bit into the last literal keeps the encoding canonical.
#[verifier::rlimit(80)]
proof fn lemma_set_merge_canonical(ws: Seq<u16>, nb: nat, i: nat, db: u16, word: u16)
    requires
        words_wf(ws, nb),
        ws.len() > 0,
        canon(members_of(ws), MAX_BYTES as nat) == (ws, nb),
        db < 8,
        i == 8 * (nb - 1) + db,
        word == ws.last() | (1u16 << db),
        members_of(ws.drop_last().push(word)) == members_of(ws).insert(i),
        words_bytes(ws.drop_last()) + ws.last() / 256 == nb - 1,
    ensures
        canon(members_of(ws.drop_last().push(word)), MAX_BYTES as nat) == (ws.drop_last().push(word), nb),
{
    let s = members_of(ws);
    let pre = ws.drop_last();
    let new_ws = pre.push(word);
    let s2 = members_of(new_ws);
    let bt = (nb - 1) as nat;
    let last = ws.last();
    lemma_members_below(ws);
    lemma_members_below(pre);
    lemma_push(pre, word);
    lemma_bit_ops(last, 0, 0, db);
    lemma_last_member(ws, nb);
    // Both canonical encodings end at byte `nb`.
    assert forall|p: nat| s.contains(p) implies !(8 * nb <= p && p < 8 * (MAX_BYTES as nat)) by {}
    lemma_canon_window(s, nb, MAX_BYTES as nat);
    assert forall|p: nat| s2.contains(p) implies !(8 * nb <= p && p < 8 * (MAX_BYTES as nat)) by {}
    lemma_canon_window(s2, nb, MAX_BYTES as nat);
    // The bytes before the last one are alike.
    assert forall|b: nat| b < bt implies #[trigger] byte_of(s2, b) == byte_of(s, b) by {
        assert(s2.contains(8 * b) == s.contains(8 * b));
        assert(s2.contains(8 * b + 1) == s.contains(8 * b + 1));
        assert(s2.contains(8 * b + 2) == s.contains(8 * b + 2));
        assert(s2.contains(8 * b + 3) == s.contains(8 * b + 3));
        assert(s2.contains(8 * b + 4) == s.contains(8 * b + 4));
        assert(s2.contains(8 * b + 5) == s.contains(8 * b + 5));
        assert(s2.contains(8 * b + 6) == s.contains(8 * b + 6));
        assert(s2.contains(8 * b + 7) == s.contains(8 * b + 7));
    }
    lemma_canon_agree(s2, s, bt);
    let prev = canon(s, bt);
    lemma_canon_end(s, bt);
    // The old last byte is not zero, so the old encoding is `prev` and its gap words.
    let ob = byte_of(s, bt);
    assert(ob != 0) by {
        if ob == 0 {
            assert(canon(s, nb) == prev);
        }
    }
    assert(ob <= 255);
    let g = (bt - prev.1) as nat;
    lemma_gap_split(g, ob as u16);
    assert(ws == prev.0 + gap_prefix(g) + seq![(gap_low(g) * 256 + ob) as u16]);
    assert(ws.last() == (gap_low(g) * 256 + ob) as u16);
    assert(pre =~= prev.0 + gap_prefix(g));
    // The new last byte is the low byte of `word`.
    let start = words_bytes(pre);
    assert forall|k: nat| k < 8 implies (s2.contains(8 * bt + k) <==> #[trigger] literal_has((word % 256) as u16, k)) by {
        lemma_low_byte_bits(word, k);
        lemma_word_members_within(word, start);
        if s2.contains(8 * bt + k) && !members_of(pre).contains(8 * bt + k) {
            assert(word_members(word, start).contains(8 * bt + k));
        }
        if literal_has(word, k) {
            assert(word_members(word, start).contains(8 * bt + k));
        }
    }
    lemma_byte_value(s2, bt, (word % 256) as u16);
    lemma_gap_split(g, (word % 256) as u16);
    assert(word == gap_low(g) * 256 + word % 256);
    assert(new_ws =~= prev.0 + gap_words(g, (word % 256) as u16));
}

/// Two canonical bitmaps with the same positions are the same bitmap: the
/// result of `bitand` does not depend on the order of its operands, the AND
/// of a bitmap with itself is that bitmap, and either equals the bitmap built
/// by setting the common positions in ascending order.
pub proof fn lemma_canonical_unique(a: OZBCBitmap, b: OZBCBitmap)
    requires
        a.is_canonical(),
        b.is_canonical(),
        a.set_bits() == b.set_bits(),
    ensures
        a@ == b@,
{
}

/// A compressed bitmap.
#[derive(Clone, PartialEq, Eq, Debug)]
pub struct OZBCBitmap {
    buffer: Vec<u16>,
    num_bytes: u32,
}

impl View for OZBCBitmap {
    type V = (Seq<u16>, u32);

    closed spec fn view(&self) -> (Seq<u16>, u32) {
        (self.buffer@, self.num_bytes)
    }
}

impl OZBCBitmap {
    /// The bitmap's words.
    pub open spec fn words(self) -> Seq<u16> {
        self@.0
    }

    /// The count of bytes the bitmap spans.
    pub open spec fn span(self) -> nat {
        self@.1 as nat
    }

    /// The set positions.
    pub open spec fn set_bits(self) -> Set<nat> {
        members_of(self.words())
    }

    pub open spec fn is_wf(self) -> bool {
        words_wf(self.words(), self.span())
    }

    /// The words and byte count are the canonical encoding of the positions.
    pub open spec fn is_canonical(self) -> bool {
        canon(self.set_bits(), MAX_BYTES as nat) == (self.words(), self.span())
    }
}

// ---------------------------------------------------------------------------
// Lemmas on the word model.
proof fn lemma_bit_ops(w: u16, d: u16, zz: u16, db: u16)
    requires
        db < 8,
        zz < 128,
        d < 256,
    ensures
        ((zz << 8u16) | d) < 0x8000,
        ((zz << 8u16) | d) / 256 == zz,
        ((zz << 8u16) | d) % 256 == d,
        forall|j: nat| literal_has((zz << 8u16) | d, j) <==> literal_has(d, j),
        forall|j: nat| literal_has(1u16 << db, j) <==> j == db,
        (w | (1u16 << db)) / 256 == w / 256,
        (w | (1u16 << db)) % 256 != 0,
        w < 0x8000 ==> (w | (1u16 << db)) < 0x8000,
        1u16 << db < 256,
        (1u16 << db) != 0,
{
    assert(((zz << 8u16) | d) < 0x8000) by (bit_vector)
        requires
            zz < 128,
            d < 256,
    ;
    assert(((zz << 8u16) | d) / 256 == zz) by (bit_vector)
        requires
            zz < 128,
            d < 256,
    ;
    assert(((zz << 8u16) | d) % 256 == d) by (bit_vector)
        requires
            zz < 128,
            d < 256,
    ;
    assert forall|j: nat| literal_has((zz << 8u16) | d, j) <==> literal_has(d, j) by {
        let jj = j as u16;
        if j < 8 {
            assert(jj < 8 ==> (((((zz << 8u16) | d) >> jj) & 1 == 1) <==> ((d >> jj) & 1 == 1)))
                by (bit_vector);
        }
    }
    assert forall|j: nat| literal_has(1u16 << db, j) <==> j == db by {
        let jj = j as u16;
        if j < 8 {
            assert(jj < 8 && db < 8 ==> ((((1u16 << db) >> jj) & 1 == 1) <==> jj == db))
                by (bit_vector);
        }
    }
    assert((w | (1u16 << db)) / 256 == w / 256) by (bit_vector)
        requires
            db < 8,
    ;
    assert((w | (1u16 << db)) % 256 != 0) by (bit_vector)
        requires
            db < 8,
    ;
    assert(w < 0x8000 ==> (w | (1u16 << db)) < 0x8000) by (bit_vector)
        requires
            db < 8,
    ;
    assert(1u16 << db < 256 && (1u16 << db) != 0) by (bit_vector)
        requires
            db < 8,
    ;
}

proof fn lemma_or_bit(w: u16, db: u16, k: nat)
    requires
        db < 8,
    ensures
        literal_has(w | (1u16 << db), k) <==> (literal_has(w, k) || k == db),
{
    if k < 8 {
        let kk = k as u16;
        assert(kk < 8 && db < 8 ==> ((((w | (1u16 << db)) >> kk) & 1 == 1) <==> (((w >> kk) & 1
            == 1) || kk == db))) by (bit_vector);
    }
}

proof fn lemma_and_bits(w0: u16, w1: u16)
    ensures
        forall|k: nat| literal_has((w0 & w1) & 255u16, k) <==> (literal_has(w0, k) && literal_has(
            w1,
            k,
        )),
        (w0 & w1) & 255u16 < 256,
{
    assert forall|k: nat| literal_has((w0 & w1) & 255u16, k) <==> (literal_has(w0, k)
        && literal_has(w1, k)) by {
        if k < 8 {
            let kk = k as u16;
            assert(kk < 8 ==> (((((w0 & w1) & 255u16) >> kk) & 1 == 1) <==> (((w0 >> kk) & 1 == 1)
                && ((w1 >> kk) & 1 == 1)))) by (bit_vector);
        }
    }
    assert((w0 & w1) & 255u16 < 256) by (bit_vector);
}

proof fn lemma_zero_bits(k: nat)
    ensures
        !literal_has(0, k),
{
    if k < 8 {
        let kk = k as u16;
        assert((0u16 >> kk) & 1 == 0) by (bit_vector);
    }
}

/// A literal byte with a bit at `db` or above has a set bit at or above `db`;
/// one below `1 << db` has none.
proof fn lemma_literal_order(w: u16, db: u16)
    requires
        db < 8,
    ensures
        (w % 256) < (1u16 << db) ==> forall|j: nat| literal_has(w, j) ==> j < db,
        (w % 256) >= (1u16 << db) ==> exists|j: nat| db <= j && literal_has(w, j),
        (w % 256) != 0 ==> exists|j: nat| literal_has(w, j),
{
    assert forall|j: nat| (w % 256) < (1u16 << db) && literal_has(w, j) implies j < db by {
        let jj = j as u16;
        assert((w % 256) < (1u16 << db) && jj < 8 && db < 8 && (w >> jj) & 1 == 1 ==> jj < db)
            by (bit_vector);
    }
    let x = w % 256;
    assert(x < 256 && x != 0 ==> ((x >> 7u16) & 1 == 1 || (x >> 6u16) & 1 == 1 || (x >> 5u16) & 1 == 1
        || (x >> 4u16) & 1 == 1 || (x >> 3u16) & 1 == 1 || (x >> 2u16) & 1 == 1 || (x >> 1u16) & 1
        == 1 || (x >> 0u16) & 1 == 1)) by (bit_vector);
    assert forall|k: u16| k < 8 implies (((x >> k) & 1 == 1) <==> ((w >> k) & 1 == 1)) by {
        assert(k < 8 && x == w % 256 ==> (((x >> k) & 1 == 1) <==> ((w >> k) & 1 == 1)))
            by (bit_vector);
    }
    if x != 0 {
        if (x >> 7u16) & 1 == 1 {
            assert(literal_has(w, 7));
        } else if (x >> 6u16) & 1 == 1 {
            assert(literal_has(w, 6));
        } else if (x >> 5u16) & 1 == 1 {
            assert(literal_has(w, 5));
        } else if (x >> 4u16) & 1 == 1 {
            assert(literal_has(w, 4));
        } else if (x >> 3u16) & 1 == 1 {
            assert(literal_has(w, 3));
        } else if (x >> 2u16) & 1 == 1 {
            assert(literal_has(w, 2));
        } else if (x >> 1u16) & 1 == 1 {
            assert(literal_has(w, 1));
        } else {
            assert(literal_has(w, 0));
        }
    }
    if x >= (1u16 << db) {
        assert(x >= (1u16 << db) && db < 8 && x < 256 ==> ((db <= 7 && (x >> 7u16) & 1 == 1) || (db
            <= 6 && (x >> 6u16) & 1 == 1) || (db <= 5 && (x >> 5u16) & 1 == 1) || (db <= 4 && (x
            >> 4u16) & 1 == 1) || (db <= 3 && (x >> 3u16) & 1 == 1) || (db <= 2 && (x >> 2u16) & 1
            == 1) || (db <= 1 && (x >> 1u16) & 1 == 1) || (db == 0 && (x >> 0u16) & 1 == 1)))
            by (bit_vector);
        if db <= 7 && (x >> 7u16) & 1 == 1 {
            assert(literal_has(w, 7));
        } else if db <= 6 && (x >> 6u16) & 1 == 1 {
            assert(literal_has(w, 6));
        } else if db <= 5 && (x >> 5u16) & 1 == 1 {
            assert(literal_has(w, 5));
        } else if db <= 4 && (x >> 4u16) & 1 == 1 {
            assert(literal_has(w, 4));
        } else if db <= 3 && (x >> 3u16) & 1 == 1 {
            assert(literal_has(w, 3));
        } else if db <= 2 && (x >> 2u16) & 1 == 1 {
            assert(literal_has(w, 2));
        } else if db <= 1 && (x >> 1u16) & 1 == 1 {
            assert(literal_has(w, 1));
        } else {
            assert(literal_has(w, 0));
        }
    }
}

/// Every position of a word sequence lies below eight times its byte count.
proof fn lemma_members_below(ws: Seq<u16>)
    ensures
        forall|p: nat| members_of(ws).contains(p) ==> p < 8 * words_bytes(ws),
    decreases ws.len(),
{
    if ws.len() > 0 {
        let pre = ws.drop_last();
        lemma_members_below(pre);
        lemma_word_members_within(ws.last(), words_bytes(pre));
        assert forall|p: nat| members_of(ws).contains(p) implies p < 8 * words_bytes(ws) by {
            assert(8 * words_bytes(ws) == 8 * words_bytes(pre) + 8 * word_bytes(ws.last()));
            if !members_of(pre).contains(p) {
                assert(word_members(ws.last(), words_bytes(pre)).contains(p));
            }
        }
    }
}

/// A word's positions lie within the bytes it stands for.
proof fn lemma_word_members_within(w: u16, start: nat)
    ensures
        forall|p: nat| word_members(w, start).contains(p) ==> 8 * start <= p && p < 8 * (start
            + word_bytes(w)),
{
}

/// Appending a word keeps the earlier positions and adds the word's own.
proof fn lemma_push(ws: Seq<u16>, w: u16)
    ensures
        words_bytes(ws.push(w)) == words_bytes(ws) + word_bytes(w),
        members_of(ws.push(w)) == members_of(ws).union(word_members(w, words_bytes(ws))),
{
    assert(ws.push(w).drop_last() =~= ws);
}

/// The last word of a well-formed non-empty sequence sets a position in the last byte.
proof fn lemma_last_member(ws: Seq<u16>, num_bytes: nat)
    requires
        words_wf(ws, num_bytes),
        ws.len() > 0,
    ensures
        words_bytes(ws.drop_last()) + word_bytes(ws.last()) == num_bytes,
        exists|j: nat| literal_has(ws.last(), j),
        forall|j: nat| literal_has(ws.last(), j) ==> members_of(ws).contains((8 * (num_bytes - 1) + j) as nat),
{
    lemma_literal_order(ws.last(), 0);
    assert forall|j: nat| literal_has(ws.last(), j) implies members_of(ws).contains(
        (8 * (num_bytes - 1) + j) as nat,
    ) by {
        let p = (8 * (num_bytes - 1) + j) as nat;
        assert(word_members(ws.last(), words_bytes(ws.drop_last())).contains(p));
    }
}

/// A prefix of a word sequence spans no more bytes than the whole, and holds
/// exactly the whole's positions that lie below its own end.
proof fn lemma_prefix(ws: Seq<u16>, i: int)
    requires
        0 <= i <= ws.len(),
    ensures
        words_bytes(ws.subrange(0, i)) <= words_bytes(ws),
        forall|p: nat| members_of(ws.subrange(0, i)).contains(p) <==> (members_of(ws).contains(p)
            && p < 8 * words_bytes(ws.subrange(0, i))),
    decreases ws.len(),
{
    if i == ws.len() {
        assert(ws.subrange(0, i) =~= ws);
        lemma_members_below(ws);
    } else {
        let pre = ws.drop_last();
        assert(pre.subrange(0, i) =~= ws.subrange(0, i));
        lemma_prefix(pre, i);
        lemma_word_members_within(ws.last(), words_bytes(pre));
        assert(members_of(ws) == members_of(pre).union(word_members(ws.last(), words_bytes(pre))));
        assert(words_bytes(ws) == words_bytes(pre) + word_bytes(ws.last()));
        assert forall|p: nat| members_of(ws.subrange(0, i)).contains(p) <==> (members_of(
            ws,
        ).contains(p) && p < 8 * words_bytes(ws.subrange(0, i))) by {
            if members_of(ws).contains(p) && !members_of(pre).contains(p) {
                assert(word_members(ws.last(), words_bytes(pre)).contains(p));
            }
        }
    }
}

/// The word at index `i` follows the prefix before it.
proof fn lemma_step(ws: Seq<u16>, i: int)
    requires
        0 <= i < ws.len(),
    ensures
        words_bytes(ws.subrange(0, i + 1)) == words_bytes(ws.subrange(0, i)) + word_bytes(ws[i]),
        members_of(ws.subrange(0, i + 1)) == members_of(ws.subrange(0, i)).union(
            word_members(ws[i], words_bytes(ws.subrange(0, i))),
        ),
{
    assert(ws.subrange(0, i + 1) =~= ws.subrange(0, i).push(ws[i]));
    lemma_push(ws.subrange(0, i), ws[i]);
}

/// A position of `ws` inside the bytes of word `i` belongs to that word, and so
/// to its last byte.
proof fn lemma_window(ws: Seq<u16>, i: int, p: nat)
    requires
        0 <= i < ws.len(),
        members_of(ws).contains(p),
        8 * words_bytes(ws.subrange(0, i)) <= p,
        p < 8 * words_bytes(ws.subrange(0, i + 1)),
    ensures
        word_members(ws[i], words_bytes(ws.subrange(0, i))).contains(p),
        !is_run(ws[i]),
        8 * words_bytes(ws.subrange(0, i + 1)) - 8 <= p,
{
    lemma_step(ws, i);
    lemma_prefix(ws, i);
    lemma_prefix(ws, i + 1);
    lemma_word_members_within(ws[i], words_bytes(ws.subrange(0, i)));
    assert(members_of(ws.subrange(0, i + 1)).contains(p));
}

/// Bytes that one word stands for.
fn word_len(w: u16) -> (r: u32)
    ensures
        r == word_bytes(w),
{
    if w >= 0x8000 {
        ((w - 0x8000u16) as u32) * 128
    } else {
        (w / 256) as u32 + 1
    }
}

pub open spec fn max_nat(a: nat, b: nat) -> nat {
    if a >= b {
        a
    } else {
        b
    }
}

/// Push the words for a literal byte `lit` that follows `gap` zero bytes.
fn push_literal(buffer: &mut Vec<u16>, gap: u32, lit: u16)
    requires
        0 < lit < 256,
        words_bytes(old(buffer)@) + gap + 1 <= MAX_BYTES,
        old(buffer)@.len() <= words_bytes(old(buffer)@),
    ensures
        words_bytes(final(buffer)@) == words_bytes(old(buffer)@) + gap + 1,
        members_of(final(buffer)@) == members_of(old(buffer)@).union(
            byte_members((words_bytes(old(buffer)@) + gap) as nat, lit),
        ),
        final(buffer)@.len() <= words_bytes(final(buffer)@),
        final(buffer)@.len() > 0,
        !is_run(final(buffer)@.last()),
        final(buffer)@.last() % 256 == lit,
        final(buffer)@ == old(buffer)@ + gap_words(gap as nat, lit),
{
    let ghost start = words_bytes(buffer@);
    let mut rest: u32 = gap;
    if rest >= 128 {
        while rest > MAX_RUN_BYTES
            invariant
                words_bytes(buffer@) + rest == start + gap,
                members_of(buffer@) == members_of(old(buffer)@),
                gap >= 128,
                2 * (buffer@.len() - old(buffer)@.len()) <= words_bytes(buffer@) - start,
                buffer@.len() == old(buffer)@.len() ==> rest == gap,
                buffer@.len() >= old(buffer)@.len(),
                old(buffer)@.len() <= start,
                start + gap + 1 <= MAX_BYTES,
                buffer@ + long_gap_words(rest as nat, lit) == old(buffer)@ + gap_words(gap as nat, lit),
            decreases rest,
        {
            let ghost before = buffer@;
            proof {
                assert(before.push(0xffffu16) + long_gap_words((rest - MAX_RUN_BYTES) as nat, lit)
                    =~= before + long_gap_words(rest as nat, lit));
            }
            buffer.push(0x8000u16 | MAX_RUN_BLOCKS);
            proof {
                lemma_push(before, 0xffffu16);
                assert(0x8000u16 | MAX_RUN_BLOCKS == 0xffffu16) by (bit_vector);
            }
            rest = rest - MAX_RUN_BYTES;
        }
        assert(rest >> 7u32 < 0x8000 && (rest >> 7u32) * 128 + (rest & 127u32) == rest && (rest
            & 127u32) < 128) by (bit_vector)
            requires
                rest <= 0x3f_ff80u32,
        ;
        let blocks: u16 = (rest >> 7u32) as u16;
        let low: u16 = (rest & 127u32) as u16;
        let run: u16 = 0x8000u16 | blocks;
        assert(run == 0x8000u16 + blocks) by (bit_vector)
            requires
                run == 0x8000u16 | blocks,
                blocks < 0x8000,
        ;
        let ghost before = buffer@;
        buffer.push(run);
        proof {
            lemma_push(before, run);
        }
        let word: u16 = (low << 8u16) | lit;
        let ghost before2 = buffer@;
        buffer.push(word);
        proof {
            lemma_bit_ops(0, lit, low, 0);
            lemma_push(before2, word);
            assert(word_members(word, words_bytes(before2)) =~= byte_members((start + gap) as nat, lit));
            assert(blocks == rest / 128 && low == rest % 128);
            assert(word == low * 256 + lit);
            assert(buffer@ =~= before + long_gap_words(rest as nat, lit));
        }
    } else {
        let word: u16 = ((rest as u16) << 8u16) | lit;
        let ghost before = buffer@;
        buffer.push(word);
        proof {
            lemma_bit_ops(0, lit, rest as u16, 0);
            lemma_push(before, word);
            assert(word_members(word, start) =~= byte_members((start + gap) as nat, lit));
            assert(word == rest * 256 + lit);
            assert(buffer@ =~= old(buffer)@ + gap_words(gap as nat, lit));
        }
    }
}

impl OZBCBitmap {
    /// Bytes that a word sequence stands for, or `None` where that count does not fit a `u32`.
    pub fn get_buffer_num_bytes(buffer: &Vec<u16>) -> (r: Option<u32>)
        ensures
            r == if words_bytes(buffer@) <= u32::MAX {
                Some(words_bytes(buffer@) as u32)
            } else {
                None::<u32>
            },
    {
        let mut total: u32 = 0;
        let mut i: usize = 0;
        proof {
            assert(buffer@.subrange(0, 0).len() == 0);
        }
        while i < buffer.len()
            invariant
                i <= buffer@.len(),
                total == words_bytes(buffer@.subrange(0, i as int)),
            decreases buffer@.len() - i,
        {
            proof {
                lemma_step(buffer@, i as int);
                lemma_prefix(buffer@, i as int + 1);
            }
            let len: u32 = word_len(buffer[i]);
            if total > u32::MAX - len {
                return None;
            }
            total = total + len;
            i = i + 1;
        }
        proof {
            assert(buffer@.subrange(0, buffer@.len() as int) =~= buffer@);
        }
        Some(total)
    }

}

impl Bitmap for OZBCBitmap {
    open spec fn wf(&self) -> bool {
        self.is_wf()
    }

    open spec fn members(&self) -> Set<nat> {
        self.set_bits()
    }

    open spec fn encoding(&self) -> Seq<u8> {
        encoding_of(self.words(), self@.1)
    }

    open spec fn decodable(buf: Seq<u8>, check: bool) -> bool {
        decodable(buf, check)
    }

    open spec fn usable(buf: Seq<u8>) -> bool {
        usable(buf)
    }

    open spec fn decodes_to(buf: Seq<u8>, b: Self) -> bool {
        b.words() == decode_words(buf) && b@.1 == decode_count(buf)
    }

    proof fn lemma_encoding(b: &Self, x: &Self) {
        lemma_round_trip(*b);
    }

    open spec fn canonical(&self) -> bool {
        self.is_canonical()
    }

    proof fn lemma_canonical(a: &Self, b: &Self) {
    }

    fn is_well_formed(&self) -> (r: bool) {
        self.buffer.len() <= self.num_bytes as usize && self.num_bytes <= MAX_BYTES && (
        self.buffer.len() == 0 || (self.buffer[self.buffer.len() - 1] < 0x8000 && self.buffer[
        self.buffer.len() - 1] % 256 != 0)) && match Self::get_buffer_num_bytes(&self.buffer) {
            Some(total) => total == self.num_bytes,
            None => false,
        }
    }

    /// An empty bitmap.
    fn new() -> (r: Self)
    {
        let r = OZBCBitmap { buffer: Vec::new(), num_bytes: 0 };
        proof {
            lemma_canon_window(Set::<nat>::empty(), 0, MAX_BYTES as nat);
            assert(r.set_bits() =~= Set::<nat>::empty());
            assert(canon(Set::<nat>::empty(), 0) == (r.words(), r.span()));
        }
        r
    }

    /// Set bit `i`. Bits are set in ascending order: a bit below the highest one
    /// already set, or equal to it, leaves the bitmap as it was.
    fn set(&mut self, i: u32)
    {
        assert((i & 7u32) < 8 && (i >> 3u32) < 0x2000_0000 && i == 8 * (i >> 3u32) + (i & 7u32))
            by (bit_vector);
        let db: u16 = (i & 7u32) as u16;
        let byte_idx: u32 = i >> 3u32;
        let dirty: u16 = 1u16 << db;
        proof {
            lemma_bit_ops(0, 0, 0, db);
            lemma_members_below(self.buffer@);
        }
        if byte_idx >= self.num_bytes {
            let gap: u32 = byte_idx - self.num_bytes;
            push_literal(&mut self.buffer, gap, dirty);
            self.num_bytes = byte_idx + 1;
            proof {
                assert(byte_members(byte_idx as nat, dirty) =~= set![i as nat]);
                assert(self.set_bits() =~= old(self).set_bits().insert(i as nat));
                if old(self).is_canonical() {
                    lemma_set_append_canonical(old(self).buffer@, old(self).num_bytes as nat, i as nat, byte_idx as nat, db, self.buffer@);
                }
            }
        } else if byte_idx + 1 == self.num_bytes {
            let last_pos: usize = self.buffer.len() - 1;
            let last: u16 = self.buffer[last_pos];
            let ghost ws = old(self).buffer@;
            let ghost nb = old(self).num_bytes as nat;
            proof {
                lemma_last_member(ws, nb);
                lemma_literal_order(last, db);
                assert(ws.last() == last);
                assert(last / 256 == word_bytes(last) - 1);
            }
            if (last & 255u16) < dirty {
                assert(last & 255u16 == last % 256) by (bit_vector);
                let word: u16 = last | dirty;
                self.buffer.set(last_pos, word);
                proof {
                    lemma_bit_ops(last, 0, 0, db);
                    let pre = ws.drop_last();
                    assert(self.buffer@ =~= pre.push(word));
                    lemma_push(pre, word);
                    lemma_push(pre, last);
                    assert(pre.push(last) =~= ws);
                    let start = words_bytes(pre);
                    let byte = start + (last / 256) as nat;
                    assert(byte == byte_idx);
                    assert forall|p: nat| word_members(word, start).contains(p) <==> (word_members(
                        last,
                        start,
                    ).contains(p) || p == i) by {
                        if 8 * byte <= p && p < 8 * byte + 8 {
                            let k = (p - 8 * byte) as nat;
                            lemma_or_bit(last, db, k);
                        }
                    }
                    assert(word_members(word, start) =~= word_members(last, start).insert(
                        i as nat,
                    ));
                    assert forall|m: nat| old(self).set_bits().contains(m) implies m < i by {
                        lemma_members_below(pre);
                        if !members_of(pre).contains(m) {
                            assert(word_members(last, start).contains(m));
                        }
                    }
                    assert(self.set_bits() =~= old(self).set_bits().insert(i as nat));
                    if old(self).is_canonical() {
                        lemma_set_merge_canonical(ws, nb, i as nat, db, word);
                    }
                }
            } else {
                assert(last & 255u16 == last % 256) by (bit_vector);
                proof {
                    let j = choose|j: nat| db <= j && literal_has(last, j);
                    assert(old(self).set_bits().contains((8 * (nb - 1) + j) as nat));
                }
            }
        } else {
            proof {
                let ws = old(self).buffer@;
                let nb = old(self).num_bytes as nat;
                lemma_last_member(ws, nb);
                let j = choose|j: nat| literal_has(ws.last(), j);
                assert(old(self).set_bits().contains((8 * (nb - 1) + j) as nat));
            }
        }
    }

    /// The bitwise AND of two bitmaps, by one synchronized scan of their words.
    fn bitand(&self, other: &Self) -> (r: Self)
    {
        let v0 = &self.buffer;
        let v1 = &other.buffer;
        let ghost a = v0@;
        let ghost b = v1@;
        let mut out: Vec<u16> = Vec::new();
        let mut i: usize = 0;
        let mut j: usize = 0;
        let mut count: u32 = 0;
        let mut s0: u32 = 0;
        let mut s1: u32 = 0;
        let ghost inter = members_of(a).intersect(members_of(b));
        proof {
            assert(a.subrange(0, 0).len() == 0);
            assert(b.subrange(0, 0).len() == 0);
        }
        while i < v0.len() && j < v1.len()
            invariant
                a == v0@,
                b == v1@,
                a == self.words(),
                b == other.words(),
                self.is_wf(),
                other.is_wf(),
                i <= a.len(),
                j <= b.len(),
                s0 == words_bytes(a.subrange(0, i as int)),
                s1 == words_bytes(b.subrange(0, j as int)),
                i < a.len() && j < b.len() ==> s0 <= s1 + word_bytes(b[j as int]) && s1 <= s0
                    + word_bytes(a[i as int]),
                words_bytes(out@) == count,
                count <= max_nat(s0 as nat, s1 as nat),
                out@.len() <= count,
                out@.len() > 0 ==> !is_run(out@.last()) && out@.last() % 256 != 0,
                inter == members_of(a).intersect(members_of(b)),
                canon(inter, max_nat(s0 as nat, s1 as nat)) == (out@, count as nat),
                forall|p: nat| #[trigger]
                    members_of(out@).contains(p) <==> (members_of(a).contains(p) && members_of(
                        b,
                    ).contains(p) && p < 8 * max_nat(s0 as nat, s1 as nat)),
            decreases a.len() - i + b.len() - j,
        {
            let w0: u16 = v0[i];
            let w1: u16 = v1[j];
            proof {
                lemma_step(a, i as int);
                lemma_step(b, j as int);
                lemma_prefix(a, i as int + 1);
                lemma_prefix(b, j as int + 1);
                lemma_prefix(a, i as int);
                lemma_prefix(b, j as int);
            }
            let l0: u32 = word_len(w0);
            let l1: u32 = word_len(w1);
            assert(s0 + l0 <= MAX_BYTES);
            assert(s1 + l1 <= MAX_BYTES);
            let e0: u32 = s0 + l0;
            let e1: u32 = s1 + l1;
            let ghost d = max_nat(s0 as nat, s1 as nat);
            if e0 < e1 {
                proof {
                    assert forall|p: nat| members_of(a).contains(p) && members_of(b).contains(p)
                        && 8 * d <= p implies p >= 8 * max_nat(e0 as nat, s1 as nat) by {
                        if p < 8 * max_nat(e0 as nat, s1 as nat) {
                            lemma_window(b, j as int, p);
                        }
                    }
                }
                i = i + 1;
                s0 = e0;
                proof {
                    lemma_canon_window(inter, d, max_nat(s0 as nat, s1 as nat));
                    assert forall|p: nat| #[trigger] members_of(out@).contains(p) <==> (members_of(
                        a,
                    ).contains(p) && members_of(b).contains(p) && p < 8 * max_nat(
                        s0 as nat,
                        s1 as nat,
                    )) by {
                        if members_of(a).contains(p) && members_of(b).contains(p) && 8 * d <= p {}
                    }
                }
            } else if e0 > e1 {
                proof {
                    assert forall|p: nat| members_of(a).contains(p) && members_of(b).contains(p)
                        && 8 * d <= p implies p >= 8 * max_nat(s0 as nat, e1 as nat) by {
                        if p < 8 * max_nat(s0 as nat, e1 as nat) {
                            lemma_window(a, i as int, p);
                        }
                    }
                }
                j = j + 1;
                s1 = e1;
                proof {
                    lemma_canon_window(inter, d, max_nat(s0 as nat, s1 as nat));
                    assert forall|p: nat| #[trigger] members_of(out@).contains(p) <==> (members_of(
                        a,
                    ).contains(p) && members_of(b).contains(p) && p < 8 * max_nat(
                        s0 as nat,
                        s1 as nat,
                    )) by {
                        if members_of(a).contains(p) && members_of(b).contains(p) && 8 * d <= p {}
                    }
                }
            } else {
                let ghost old_out = out@;
                let ghost window = Set::new(
                    |p: nat|
                        members_of(a).contains(p) && members_of(b).contains(p) && 8 * d <= p && p
                            < 8 * e0,
                );
                proof {
                    assert forall|p: nat| #[trigger] window.contains(p) implies !is_run(w0) && !is_run(
                        w1,
                    ) && 8 * (e0 - 1) <= p && literal_has(w0, (p - 8 * (e0 - 1)) as nat)
                        && literal_has(w1, (p - 8 * (e0 - 1)) as nat) by {
                        lemma_window(a, i as int, p);
                        lemma_window(b, j as int, p);
                    }
                }
                if w0 < 0x8000 && w1 < 0x8000 {
                    let lit: u16 = (w0 & w1) & 255u16;
                    proof {
                        lemma_and_bits(w0, w1);
                    }
                    if lit != 0 {
                        proof {
                            assert(word_bytes(w0) >= 1 && word_bytes(w1) >= 1);
                        }
                        let ghost out_before = out@;
                        let ghost cb = count;
                        push_literal(&mut out, e0 - 1 - count, lit);
                        count = e0;
                        proof {
                            assert forall|p: nat| inter.contains(p) implies !(8 * d <= p && p < 8 * ((e0
                                - 1) as nat)) by {
                                if 8 * d <= p && p < 8 * e0 {
                                    assert(window.contains(p));
                                }
                            }
                            lemma_canon_window(inter, d, (e0 - 1) as nat);
                            assert forall|p: nat| #[trigger]
                                members_of(out@).contains(p) <==> (members_of(a).contains(p)
                                    && members_of(b).contains(p) && p < 8 * e0) by {
                                if 8 * d <= p && p < 8 * e0 && members_of(a).contains(p)
                                    && members_of(b).contains(p) {
                                    assert(window.contains(p));
                                }
                                if byte_members((e0 - 1) as nat, lit).contains(p) {
                                    let k = (p - 8 * (e0 - 1)) as nat;
                                    assert(word_members(w0, s0 as nat).contains(p));
                                    assert(word_members(w1, s1 as nat).contains(p));
                                    lemma_prefix(a, i as int + 1);
                                    lemma_prefix(b, j as int + 1);
                                }
                            }
                            let bt = (e0 - 1) as nat;
                            assert forall|k: nat| k < 8 implies (inter.contains(8 * bt + k)
                                <==> #[trigger] literal_has(lit, k)) by {
                                let p = 8 * bt + k;
                                if inter.contains(p) {
                                    assert(window.contains(p));
                                }
                                if literal_has(lit, k) {
                                    assert(byte_members(bt, lit).contains(p));
                                    assert(members_of(out@).contains(p));
                                }
                            }
                            lemma_byte_value(inter, bt, lit);
                            assert(canon(inter, e0 as nat) == (out_before + gap_words(
                                (e0 - 1 - cb) as nat,
                                lit,
                            ), e0 as nat));
                        }
                    } else {
                        proof {
                            assert forall|p: nat| window.contains(p) implies false by {
                                assert(literal_has(lit, (p - 8 * (e0 - 1)) as nat));
                                lemma_zero_bits((p - 8 * (e0 - 1)) as nat);
                            }
                            assert forall|p: nat| inter.contains(p) implies !(8 * d <= p && p < 8 * e0) by {
                                if 8 * d <= p && p < 8 * e0 {
                                    assert(window.contains(p));
                                }
                            }
                            lemma_canon_window(inter, d, e0 as nat);
                        }
                    }
                } else {
                    proof {
                        assert forall|p: nat| window.contains(p) implies false by {}
                        assert forall|p: nat| inter.contains(p) implies !(8 * d <= p && p < 8 * e0) by {
                            if 8 * d <= p && p < 8 * e0 {
                                assert(window.contains(p));
                            }
                        }
                        lemma_canon_window(inter, d, e0 as nat);
                    }
                }
                i = i + 1;
                j = j + 1;
                s0 = e0;
                s1 = e1;
                proof {
                    assert forall|p: nat| #[trigger] members_of(out@).contains(p) <==> (members_of(
                        a,
                    ).contains(p) && members_of(b).contains(p) && p < 8 * max_nat(
                        s0 as nat,
                        s1 as nat,
                    )) by {
                        if members_of(a).contains(p) && members_of(b).contains(p) && 8 * d <= p && p < 8 * e0 { assert(window.contains(p)); }
                    }
                }
            }
        }
        proof {
            lemma_members_below(a);
            lemma_members_below(b);
            if i == a.len() {
                assert(a.subrange(0, i as int) =~= a);
            } else {
                assert(b.subrange(0, j as int) =~= b);
            }
            lemma_prefix(a, i as int);
            lemma_prefix(b, j as int);
            assert(members_of(out@) =~= members_of(a).intersect(members_of(b)));
            let dd = max_nat(s0 as nat, s1 as nat);
            assert forall|p: nat| inter.contains(p) implies !(8 * dd <= p && p < 8 * (MAX_BYTES as nat)) by {}
            lemma_canon_window(inter, dd, MAX_BYTES as nat);
        }
        OZBCBitmap { buffer: out, num_bytes: count }
    }

    /// The set positions in ascending order.
    fn unroll_bitmap(&self) -> (r: Vec<u32>)
    {
        let ghost ws = self.buffer@;
        let mut out: Vec<u32> = Vec::with_capacity(self.buffer.len());
        let mut pos: u64 = 0;
        let mut i: usize = 0;
        proof {
            assert(ws.subrange(0, 0).len() == 0);
            lemma_members_below(ws);
        }
        while i < self.buffer.len()
            invariant
                ws == self.buffer@,
                ws == self.words(),
                self.is_wf(),
                i <= ws.len(),
                pos == 8 * words_bytes(ws.subrange(0, i as int)),
                ascending(out@),
                forall|k: int| 0 <= k < out@.len() ==> (#[trigger] out@[k] as nat) < pos,
                lists(out@, members_of(ws.subrange(0, i as int))),
            decreases ws.len() - i,
        {
            let w: u16 = self.buffer[i];
            proof {
                lemma_step(ws, i as int);
                lemma_prefix(ws, i as int + 1);
                lemma_word_members_within(w, words_bytes(ws.subrange(0, i as int)));
            }
            let ghost before = out@;
            let ghost prev = members_of(ws.subrange(0, i as int));
            if w < 0x8000 {
                let zz: u64 = (w / 256) as u64;
                let base: u64 = pos + 8 * zz;
                let ghost byte = words_bytes(ws.subrange(0, i as int)) + zz;
                let mut j: u16 = 0;
                while j < 8
                    invariant
                        ascending(out@),
                        out@.len() >= before.len(),
                        out@.subrange(0, before.len() as int) == before,
                        base == 8 * byte,
                        8 * byte + 8 <= 8 * MAX_BYTES,
                        pos <= base,
                        forall|k: int| 0 <= k < before.len() ==> (#[trigger] before[k] as nat) < pos,
                        forall|k: int|
                            before.len() <= k < out@.len() ==> base <= (#[trigger] out@[k] as nat)
                                && (out@[k] as nat) < base + j,
                        j <= 8,
                        lists(
                            out@,
                            prev.union(
                                Set::new(
                                    |p: nat|
                                        8 * byte <= p && p < 8 * byte + j && literal_has(
                                            w,
                                            (p - 8 * byte) as nat,
                                        ),
                                ),
                            ),
                        ),
                    decreases 8 - j,
                {
                    let ghost o = out@;
                    let ghost jj = j as nat;
                    let ghost m_old = prev.union(
                        Set::new(
                            |p: nat|
                                8 * byte <= p && p < 8 * byte + jj && literal_has(
                                    w,
                                    (p - 8 * byte) as nat,
                                ),
                        ),
                    );
                    let ghost m_new = prev.union(
                        Set::new(
                            |p: nat|
                                8 * byte <= p && p < 8 * byte + jj + 1 && literal_has(
                                    w,
                                    (p - 8 * byte) as nat,
                                ),
                        ),
                    );
                    let ghost q: nat = (8 * byte + jj) as nat;
                    proof {
                        assert(literal_has(w, jj) == ((w >> j) & 1 == 1));
                        assert((q - 8 * byte) as nat == jj);
                    }
                    if (w >> j) & 1 == 1 {
                        out.push((base + j as u64) as u32);
                        proof {
                            assert(m_new =~= m_old.insert(q as nat));
                            assert(out@ == o.push(q as u32));
                            assert forall|a: int, b: int| 0 <= a < b < out@.len() implies out@[a]
                                < out@[b] by {
                                if b == o.len() {
                                    if a < before.len() {
                                        assert(o[a] == before[a]);
                                    }
                                }
                            }
                            assert forall|k: int| 0 <= k < out@.len() implies m_new.contains(
                                #[trigger] out@[k] as nat,
                            ) by {
                                if k < o.len() {
                                    assert(m_old.contains(o[k] as nat));
                                }
                            }
                            assert forall|p: nat| m_new.contains(p) implies exists|k: int|
                                0 <= k < out@.len() && out@[k] as nat == p by {
                                if p == q {
                                    assert(out@[o.len() as int] as nat == p);
                                } else {
                                    let k = choose|k: int| 0 <= k < o.len() && o[k] as nat == p;
                                    assert(out@[k] == o[k]);
                                }
                            }
                        }
                    } else {
                        proof {
                            assert(m_new =~= m_old);
                        }
                    }
                    j = j + 1;
                }
                pos = base + 8;
                proof {
                    assert(members_of(ws.subrange(0, i as int + 1)) =~= prev.union(
                        Set::new(
                            |p: nat|
                                8 * byte <= p && p < 8 * byte + 8 && literal_has(
                                    w,
                                    (p - 8 * byte) as nat,
                                ),
                        ),
                    ));
                }
            } else {
                pos = pos + ((w - 0x8000u16) as u64) * 1024;
                proof {
                    assert(members_of(ws.subrange(0, i as int + 1)) =~= prev);
                }
            }
            i = i + 1;
        }
        proof {
            assert(ws.subrange(0, ws.len() as int) =~= ws);
        }
        out
    }

    /// Bytes that `write_to_buffer` writes: four for the count, two per word.
    fn size(&self) -> (r: usize)
    {
        4 + 2 * self.buffer.len()
    }

    /// Write the serialized bitmap at the start of `buffer_out` and return its length;
    /// fail, writing nothing, where `buffer_out` is too short.
    fn write_to_buffer(&self, buffer_out: &mut [u8]) -> (r: Result<usize, ()>)
    {
        let ghost enc = encoding_of(self.words(), self@.1);
        let total: usize = 4 + 2 * self.buffer.len();
        if buffer_out.len() < total {
            return Err(());
        }
        let nb: u32 = self.num_bytes;
        buffer_out[0] = (nb % 256) as u8;
        buffer_out[1] = ((nb / 256) % 256) as u8;
        buffer_out[2] = ((nb / 65536) % 256) as u8;
        buffer_out[3] = (nb / 16777216) as u8;
        let mut k: usize = 0;
        while k < self.buffer.len()
            invariant
                total == 4 + 2 * self.buffer@.len(),
                total == enc.len(),
                enc == encoding_of(self.words(), self@.1),
                self.words() == self.buffer@,
                self@.1 == nb,
                k <= self.buffer@.len(),
                buffer_out@.len() == old(buffer_out)@.len(),
                total <= buffer_out@.len(),
                forall|t: int| 0 <= t < 4 + 2 * k ==> buffer_out@[t] == enc[t],
                forall|t: int| total <= t < buffer_out@.len() ==> buffer_out@[t] == old(buffer_out)@[t],
            decreases self.buffer@.len() - k,
        {
            let w: u16 = self.buffer[k];
            buffer_out[4 + 2 * k] = (w % 256) as u8;
            buffer_out[5 + 2 * k] = (w / 256) as u8;
            k = k + 1;
        }
        proof {
            assert(buffer_out@ =~= enc + old(buffer_out)@.subrange(
                enc.len() as int,
                old(buffer_out)@.len() as int,
            ));
        }
        Ok(total)
    }

    /// Replace the bitmap by the one serialized in `buffer_in`. Where
    /// `check_bitmap` holds, the words must span exactly the stored byte
    /// count; else the bitmap is left as it was and the call fails.
    fn read_from_buffer(&mut self, buffer_in: &[u8], check_bitmap: bool) -> (r: Result<(), ()>)
    {
        if buffer_in.len() < 4 {
            return Err(());
        }
        let num_bytes: u32 = buffer_in[0] as u32 + 256 * (buffer_in[1] as u32) + 65536 * (
        buffer_in[2] as u32) + 16777216 * (buffer_in[3] as u32);
        let len: usize = buffer_in.len();
        let n: usize = (len - 4) / 2;
        let mut buffer: Vec<u16> = Vec::with_capacity(n);
        let mut k: usize = 0;
        while k < n
            invariant
                n == (buffer_in@.len() - 4) / 2,
                2 * n + 4 <= buffer_in@.len(),
                len == buffer_in@.len(),
                k <= n,
                buffer@ == decode_words(buffer_in@).subrange(0, k as int),
            decreases n - k,
        {
            assert(2 * k + 5 < buffer_in@.len());
            let lo: u16 = buffer_in[4 + 2 * k] as u16;
            let hi: u16 = buffer_in[5 + 2 * k] as u16;
            let w: u16 = lo + 256 * hi;
            buffer.push(w);
            k = k + 1;
            proof {
                assert(buffer@ =~= decode_words(buffer_in@).subrange(0, k as int));
            }
        }
        proof {
            assert(buffer@ =~= decode_words(buffer_in@));
        }
        if check_bitmap {
            let words_ok = match Self::get_buffer_num_bytes(&buffer) {
                Some(total) => total == num_bytes,
                None => false,
            };
            if !words_ok {
                return Err(());
            }
        }
        self.num_bytes = num_bytes;
        self.buffer = buffer;
        Ok(())
    }

}

} // verus!
