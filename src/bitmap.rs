//! What the index needs of a bitmap.
use vstd::prelude::*;

verus! {

/// Positions listed in strictly ascending order.
pub open spec fn ascending(s: Seq<u32>) -> bool {
    forall|a: int, b: int| 0 <= a < b < s.len() ==> s[a] < s[b]
}

/// `s` lists the positions of `m`, each once, in ascending order.
pub open spec fn lists(s: Seq<u32>, m: Set<nat>) -> bool {
    &&& ascending(s)
    &&& forall|k: int| 0 <= k < s.len() ==> m.contains((#[trigger] s[k]) as nat)
    &&& forall|p: nat| m.contains(p) ==> exists|k: int| 0 <= k < s.len() && s[k] as nat == p
}

/// The positions after setting bit `i`: bits are set in ascending order, so a
/// bit at or below one already set leaves the positions as they were.
pub open spec fn after_set(m: Set<nat>, i: nat) -> Set<nat> {
    if forall|x: nat| m.contains(x) ==> x < i {
        m.insert(i)
    } else {
        m
    }
}

/// The positions after setting each bit of `ps` in turn.
pub open spec fn after_sets(m: Set<nat>, ps: Seq<u32>) -> Set<nat>
    decreases ps.len(),
{
    if ps.len() == 0 {
        m
    } else {
        after_set(after_sets(m, ps.drop_last()), ps.last() as nat)
    }
}

/// A growing-only set of bit positions that can be intersected and serialized.
pub trait Bitmap: Sized {
    /// The bitmap is in a state that its operations accept.
    spec fn wf(&self) -> bool;

    /// The set positions.
    spec fn members(&self) -> Set<nat>;

    /// What `write_to_buffer` writes.
    spec fn encoding(&self) -> Seq<u8>;

    /// The bitmap is the one encoding of its positions that `new`, `set` and
    /// `bitand` produce.
    spec fn canonical(&self) -> bool;

    /// Two canonical bitmaps with the same positions serialize alike.
    proof fn lemma_canonical(a: &Self, b: &Self)
        requires
            a.wf(),
            b.wf(),
            a.canonical(),
            b.canonical(),
            a.members() == b.members(),
        ensures
            a.encoding() == b.encoding(),
    ;

    /// Whether `read_from_buffer` accepts `buf`.
    spec fn decodable(buf: Seq<u8>, check: bool) -> bool;

    /// `buf` reads back as a bitmap that the operations accept.
    spec fn usable(buf: Seq<u8>) -> bool;

    /// `b` is what `read_from_buffer` makes of `buf`.
    spec fn decodes_to(buf: Seq<u8>, b: Self) -> bool;

    /// The encoding of a well-formed bitmap passes the check and reads back
    /// as a well-formed bitmap with the same positions.
    proof fn lemma_encoding(b: &Self, x: &Self)
        requires
            b.wf(),
        ensures
            Self::decodable(b.encoding(), true),
            Self::usable(b.encoding()),
            Self::decodes_to(b.encoding(), *x) ==> x.wf() && x.members() == b.members(),
    ;

    /// Whether the bitmap is in a state that its operations accept.
    fn is_well_formed(&self) -> (r: bool)
        ensures
            r == self.wf(),
    ;

    /// A new, empty bitmap.
    fn new() -> (r: Self)
        ensures
            r.wf(),
            r.canonical(),
            r.members() == Set::<nat>::empty(),
    ;

    /// Set the `i`th bit (from zero).
    fn set(&mut self, i: u32)
        requires
            old(self).wf(),
        ensures
            final(self).wf(),
            final(self).members() == after_set(old(self).members(), i as nat),
            old(self).canonical() ==> final(self).canonical(),
            !(forall|x: nat| old(self).members().contains(x) ==> x < i) ==> *final(self) == *old(self),
    ;

    /// The bitwise AND of two bitmaps.
    fn bitand(&self, other: &Self) -> (r: Self)
        requires
            self.wf(),
            other.wf(),
        ensures
            r.wf(),
            r.canonical(),
            r.members() == self.members().intersect(other.members()),
    ;

    /// Every set position, in ascending order.
    fn unroll_bitmap(&self) -> (r: Vec<u32>)
        requires
            self.wf(),
        ensures
            lists(r@, self.members()),
    ;

    /// Bytes that `write_to_buffer` writes.
    fn size(&self) -> (r: usize)
        requires
            self.wf(),
        ensures
            r == self.encoding().len(),
    ;

    /// Write the bitmap at the start of `buffer_out` and return the count of
    /// bytes written; fail, writing nothing, where `buffer_out` is too short.
    fn write_to_buffer(&self, buffer_out: &mut [u8]) -> (r: Result<usize, ()>)
        requires
            self.wf(),
        ensures
            old(buffer_out)@.len() < self.encoding().len() ==> r is Err && final(buffer_out)@
                == old(buffer_out)@,
            old(buffer_out)@.len() >= self.encoding().len() ==> r == Ok::<usize, ()>(
                self.encoding().len() as usize,
            ) && final(buffer_out)@ == self.encoding() + old(buffer_out)@.subrange(
                self.encoding().len() as int,
                old(buffer_out)@.len() as int,
            ),
    ;

    /// Replace the bitmap by the one serialized in `buffer_in`. With
    /// `check_bitmap`, content that fails the integrity check is refused.
    fn read_from_buffer(&mut self, buffer_in: &[u8], check_bitmap: bool) -> (r: Result<(), ()>)
        ensures
            r is Ok <==> Self::decodable(buffer_in@, check_bitmap),
            r is Ok ==> Self::decodes_to(buffer_in@, *final(self)),
            r is Ok && check_bitmap ==> (final(self).wf() <==> Self::usable(buffer_in@)),
            check_bitmap && Self::usable(buffer_in@) ==> r is Ok,
            r is Err ==> *final(self) == *old(self),
    ;
}

/// Setting bits in non-decreasing order, starting from an empty bitmap, sets
/// exactly the bits given: repeats add nothing.
pub proof fn lemma_ascending_sets(ps: Seq<u32>)
    requires
        forall|a: int, b: int| 0 <= a < b < ps.len() ==> ps[a] <= ps[b],
    ensures
        after_sets(Set::empty(), ps) == Set::new(
            |p: nat| exists|k: int| 0 <= k < ps.len() && ps[k] as nat == p,
        ),
    decreases ps.len(),
{
    let target = Set::new(|p: nat| exists|k: int| 0 <= k < ps.len() && ps[k] as nat == p);
    if ps.len() == 0 {
        assert(after_sets(Set::empty(), ps) =~= target);
    } else {
        let pre = ps.drop_last();
        lemma_ascending_sets(pre);
        let m = after_sets(Set::empty(), pre);
        let last = ps.last() as nat;
        assert forall|p: nat| m.contains(p) implies p <= last by {
            let k = choose|k: int| 0 <= k < pre.len() && pre[k] as nat == p;
            assert(ps[k] <= ps[ps.len() - 1]);
        }
        if !(forall|x: nat| m.contains(x) ==> x < last) {
            let x = choose|x: nat| m.contains(x) && !(x < last);
            assert(m.contains(last));
        }
        assert forall|p: nat| after_sets(Set::empty(), ps).contains(p) <==> target.contains(p) by {
            if target.contains(p) {
                let k = choose|k: int| 0 <= k < ps.len() && ps[k] as nat == p;
                if k < ps.len() - 1 {
                    assert(pre[k] == ps[k]);
                }
            }
            if m.contains(p) {
                let k = choose|k: int| 0 <= k < pre.len() && pre[k] as nat == p;
                assert(ps[k] == pre[k]);
            }
        }
        assert(after_sets(Set::empty(), ps) =~= target);
    }
}

} // verus!
