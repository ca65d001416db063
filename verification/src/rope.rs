//! A rope of byte fragments in which every byte keeps a stable logical
//! identity: the fragment records the identity of its first byte, and the
//! byte at offset `i` within the fragment has identity `base + i`. Slicing
//! and re-concatenation propagate these identities and never synthesize a
//! new one for a retained byte.

use crate::pattern::{
    first_range, lemma_ranges_ordered_count, match_ranges, ranges_ordered, Pattern,
};
use vstd::arithmetic::mul::{lemma_mul_inequality, lemma_mul_is_distributive_add_other_way};
use vstd::prelude::*;
use vstd::slice::{slice_subrange, slice_to_vec};
use vstd::string::StrSliceExecFns;
use vstd::string::StringSliceAdditionalSpecFns;

verus! {

/// One contiguous run of bytes together with the identity of its first byte.
struct Fragment {
    bytes: Vec<u8>,
    base: usize,
}

/// The identities `base, base + 1, ...` of `len` consecutively stored bytes.
pub open spec fn id_run(base: int, len: nat) -> Seq<usize> {
    Seq::new(len, |i: int| (base + i) as usize)
}

impl Fragment {
    spec fn text(self) -> Seq<u8> {
        self.bytes@
    }

    spec fn ids(self) -> Seq<usize> {
        id_run(self.base as int, self.bytes@.len())
    }

    spec fn wf(self) -> bool {
        self.base + self.bytes@.len() <= usize::MAX
    }
}

/// What a rope denotes: its flattened byte text, and, position by position,
/// the identity of the storage behind each of those bytes.
#[verifier::ext_equal]
pub ghost struct RopeModel {
    pub text: Seq<u8>,
    pub ids: Seq<usize>,
}

/// `i` clipped from above to `n`.
pub open spec fn clamp(i: int, n: int) -> int {
    if i <= n {
        i
    } else {
        n
    }
}

spec fn text_of(frags: Seq<Fragment>) -> Seq<u8>
    decreases frags.len(),
{
    if frags.len() == 0 {
        Seq::empty()
    } else {
        text_of(frags.drop_last()) + frags.last().text()
    }
}

spec fn ids_of(frags: Seq<Fragment>) -> Seq<usize>
    decreases frags.len(),
{
    if frags.len() == 0 {
        Seq::empty()
    } else {
        ids_of(frags.drop_last()) + frags.last().ids()
    }
}

proof fn lemma_model_lens_eq(frags: Seq<Fragment>)
    ensures
        text_of(frags).len() == ids_of(frags).len(),
    decreases frags.len(),
{
    if frags.len() > 0 {
        lemma_model_lens_eq(frags.drop_last());
    }
}

proof fn lemma_model_concat(a: Seq<Fragment>, b: Seq<Fragment>)
    ensures
        text_of(a + b) == text_of(a) + text_of(b),
        ids_of(a + b) == ids_of(a) + ids_of(b),
    decreases b.len(),
{
    if b.len() == 0 {
        assert(a + b =~= a);
        assert(text_of(a) + text_of(b) =~= text_of(a));
        assert(ids_of(a) + ids_of(b) =~= ids_of(a));
    } else {
        lemma_model_concat(a, b.drop_last());
        assert((a + b).drop_last() =~= a + b.drop_last());
        assert((a + b).last() == b.last());
        assert(text_of(a + b) == text_of(a + b.drop_last()) + b.last().text());
        assert(text_of(a) + text_of(b.drop_last()) + b.last().text() =~= text_of(a) + text_of(b));
        assert(ids_of(a) + ids_of(b.drop_last()) + b.last().ids() =~= ids_of(a) + ids_of(b));
    }
}

proof fn lemma_model_take_push(frags: Seq<Fragment>, i: int)
    requires
        0 <= i < frags.len(),
    ensures
        text_of(frags.take(i + 1)) == text_of(frags.take(i)) + frags[i].text(),
        ids_of(frags.take(i + 1)) == ids_of(frags.take(i)) + frags[i].ids(),
{
    assert(frags.take(i + 1).drop_last() =~= frags.take(i));
    assert(frags.take(i + 1).last() == frags[i]);
}

proof fn lemma_model_prefix(frags: Seq<Fragment>, i: int)
    requires
        0 <= i <= frags.len(),
    ensures
        text_of(frags).len() == text_of(frags.take(i)).len() + text_of(frags.skip(i)).len(),
        text_of(frags.take(i)) == text_of(frags).take(text_of(frags.take(i)).len() as int),
        ids_of(frags.take(i)) == ids_of(frags).take(text_of(frags.take(i)).len() as int),
{
    assert(frags.take(i) + frags.skip(i) =~= frags);
    lemma_model_concat(frags.take(i), frags.skip(i));
    lemma_model_lens_eq(frags.take(i));
    assert(text_of(frags.take(i)) =~= text_of(frags).take(text_of(frags.take(i)).len() as int));
    assert(ids_of(frags.take(i)) =~= ids_of(frags).take(text_of(frags.take(i)).len() as int));
}

/// The window of the flattened model that fragment `i` occupies.
proof fn lemma_frag_window(frags: Seq<Fragment>, i: int)
    requires
        0 <= i < frags.len(),
    ensures
        ({
            let off = text_of(frags.take(i)).len() as int;
            let off2 = off + frags[i].text().len();
            &&& off2 <= text_of(frags).len()
            &&& text_of(frags).subrange(off, off2) == frags[i].text()
            &&& ids_of(frags).subrange(off, off2) == frags[i].ids()
        }),
{
    let off = text_of(frags.take(i)).len() as int;
    let off2 = off + frags[i].text().len();
    let full = text_of(frags);
    let full_ids = ids_of(frags);
    lemma_model_take_push(frags, i);
    lemma_model_prefix(frags, i);
    lemma_model_prefix(frags, i + 1);
    lemma_model_lens_eq(frags);
    lemma_model_lens_eq(frags.take(i));
    lemma_model_lens_eq(frags.take(i + 1));
    assert(text_of(frags.take(i + 1)).len() == off2);
    assert(full.take(off2) == text_of(frags.take(i)) + frags[i].text());
    assert(full_ids.take(off2) == ids_of(frags.take(i)) + frags[i].ids());
    assert(full.subrange(off, off2) =~= frags[i].text()) by {
        assert forall|m: int| 0 <= m < frags[i].text().len() implies full.subrange(off, off2)[m]
            == frags[i].text()[m] by {
            assert(full[off + m] == full.take(off2)[off + m]);
        }
    }
    assert(full_ids.subrange(off, off2) =~= frags[i].ids()) by {
        assert forall|m: int| 0 <= m < frags[i].ids().len() implies full_ids.subrange(off, off2)[m]
            == frags[i].ids()[m] by {
            assert(full_ids[off + m] == full_ids.take(off2)[off + m]);
        }
    }
}

/// An ordered sequence of fragments composing one logical text. Immutable
/// once constructed, but for growth by `append`; every other operation
/// yields a new rope.
pub struct Rope {
    frags: Vec<Fragment>,
}

impl View for Rope {
    type V = RopeModel;

    closed spec fn view(&self) -> RopeModel {
        RopeModel { text: text_of(self.frags@), ids: ids_of(self.frags@) }
    }
}

impl Rope {
    /// Every fragment's identities fit in `usize` and the flattened text's
    /// length does too.
    pub closed spec fn wf(self) -> bool {
        &&& text_of(self.frags@).len() <= usize::MAX
        &&& forall|i: int| 0 <= i < self.frags@.len() ==> (#[trigger] self.frags@[i]).wf()
    }

    /// A well-formed rope has one identity for each byte of its text.
    pub proof fn lemma_model_lens(self)
        ensures
            self@.text.len() == self@.ids.len(),
            self.wf() ==> self@.text.len() <= usize::MAX,
    {
        lemma_model_lens_eq(self.frags@);
    }

    /// The empty rope: zero fragments, zero length.
    pub fn new() -> (r: Rope)
        ensures
            r.wf(),
            r@.text == Seq::<u8>::empty(),
            r@.ids == Seq::<usize>::empty(),
    {
        Rope { frags: Vec::new() }
    }

    /// A rope of one fragment holding `bytes`, whose byte at offset `i` is
    /// given the identity `base + i`.
    pub fn from_bytes(bytes: Vec<u8>, base: usize) -> (r: Rope)
        requires
            base + bytes@.len() <= usize::MAX,
        ensures
            r.wf(),
            r@.text == bytes@,
            r@.ids == id_run(base as int, bytes@.len()),
    {
        let ghost b = bytes@;
        let frag = Fragment { bytes, base };
        let mut frags: Vec<Fragment> = Vec::new();
        frags.push(frag);
        proof {
            assert(frags@.drop_last() =~= Seq::<Fragment>::empty());
            assert(text_of(Seq::<Fragment>::empty()) =~= Seq::<u8>::empty());
            assert(ids_of(Seq::<Fragment>::empty()) =~= Seq::<usize>::empty());
            assert(text_of(frags@) =~= b);
            assert(ids_of(frags@) =~= id_run(base as int, b.len()));
        }
        Rope { frags }
    }

    /// A rope of one fragment holding the UTF-8 bytes of `s`, with
    /// identities assigned consecutively from `base`.
    pub fn from_str(s: &str, base: usize) -> (r: Rope)
        requires
            base + s.spec_bytes().len() <= usize::MAX,
        ensures
            r.wf(),
            r@.text == s.spec_bytes(),
            r@.ids == id_run(base as int, s.spec_bytes().len()),
    {
        Rope::from_bytes(s.as_bytes_vec(), base)
    }

    /// Extends this rope with `other`'s fragments, in order. Existing bytes
    /// keep their identities; no byte is copied to new storage.
    pub fn append(&mut self, other: Rope)
        requires
            old(self).wf(),
            other.wf(),
            old(self)@.text.len() + other@.text.len() <= usize::MAX,
        ensures
            final(self).wf(),
            final(self)@.text == old(self)@.text + other@.text,
            final(self)@.ids == old(self)@.ids + other@.ids,
    {
        proof {
            lemma_model_concat(self.frags@, other.frags@);
        }
        let mut o = other;
        self.frags.append(&mut o.frags);
    }

    /// The length of the flattened text, in bytes: the sum of the fragment
    /// lengths.
    pub fn len(&self) -> (r: usize)
        requires
            self.wf(),
        ensures
            r == self@.text.len(),
    {
        let mut total: usize = 0;
        let mut i: usize = 0;
        while i < self.frags.len()
            invariant
                self.wf(),
                i <= self.frags@.len(),
                total == text_of(self.frags@.take(i as int)).len(),
            decreases self.frags@.len() - i,
        {
            proof {
                lemma_model_take_push(self.frags@, i as int);
                lemma_model_prefix(self.frags@, i + 1);
            }
            total = total + self.frags[i].bytes.len();
            i = i + 1;
        }
        proof {
            assert(self.frags@.take(self.frags@.len() as int) =~= self.frags@);
        }
        total
    }

    /// Whether the flattened text is empty.
    #[must_use]
    pub fn is_empty(&self) -> (r: bool)
        requires
            self.wf(),
        ensures
            r == (self@.text.len() == 0),
    {
        self.len() == 0
    }

    /// Materializes the flattened text: the fragments' bytes, concatenated
    /// in order.
    pub fn flatten(&self) -> (r: Vec<u8>)
        requires
            self.wf(),
        ensures
            r@ == self@.text,
    {
        let mut out: Vec<u8> = Vec::new();
        let mut i: usize = 0;
        while i < self.frags.len()
            invariant
                self.wf(),
                i <= self.frags@.len(),
                out@ == text_of(self.frags@.take(i as int)),
            decreases self.frags@.len() - i,
        {
            proof {
                lemma_model_take_push(self.frags@, i as int);
            }
            let mut piece = slice_to_vec(self.frags[i].bytes.as_slice());
            out.append(&mut piece);
            i = i + 1;
        }
        proof {
            assert(self.frags@.take(self.frags@.len() as int) =~= self.frags@);
        }
        out
    }

    /// The sub-rope covering the half-open byte range `[start, end)` of the
    /// flattened text; positions beyond the text clamp silently to its
    /// length. Each emitted fragment is a sub-view of an existing fragment,
    /// so every retained byte keeps its identity.
    #[verifier::loop_isolation(false)]
    pub fn slice(&self, start: usize, end: usize) -> (r: Rope)
        requires
            self.wf(),
            start <= end,
        ensures
            r.wf(),
            r@.text == self@.text.subrange(
                clamp(start as int, self@.text.len() as int),
                clamp(end as int, self@.text.len() as int),
            ),
            r@.ids == self@.ids.subrange(
                clamp(start as int, self@.text.len() as int),
                clamp(end as int, self@.text.len() as int),
            ),
    {
        proof {
            lemma_model_lens_eq(self.frags@);
        }
        let mut frags: Vec<Fragment> = Vec::new();
        let mut offset: usize = 0;
        let mut i: usize = 0;
        while i < self.frags.len()
            invariant
                i <= self.frags@.len(),
                offset == text_of(self.frags@.take(i as int)).len(),
                text_of(frags@) == text_of(self.frags@).subrange(
                    clamp(start as int, offset as int),
                    clamp(end as int, offset as int),
                ),
                ids_of(frags@) == ids_of(self.frags@).subrange(
                    clamp(start as int, offset as int),
                    clamp(end as int, offset as int),
                ),
                forall|j: int| 0 <= j < frags@.len() ==> (#[trigger] frags@[j]).wf(),
            decreases self.frags@.len() - i,
        {
            proof {
                lemma_model_take_push(self.frags@, i as int);
                lemma_model_prefix(self.frags@, i as int + 1);
                lemma_frag_window(self.frags@, i as int);
            }
            let flen = self.frags[i].bytes.len();
            let s_end = offset + flen;
            if s_end > start && offset < end {
                let a = if start > offset {
                    start - offset
                } else {
                    0
                };
                let b = if end - offset < flen {
                    end - offset
                } else {
                    flen
                };
                let piece = slice_to_vec(slice_subrange(self.frags[i].bytes.as_slice(), a, b));
                let nbase = self.frags[i].base + a;
                let ghost pre = frags@;
                frags.push(Fragment { bytes: piece, base: nbase });
                proof {
                    assert(frags@.drop_last() =~= pre);
                    assert(frags@.last().text() =~= self.frags@[i as int].text().subrange(
                        a as int,
                        b as int,
                    ));
                    assert(frags@.last().ids() =~= self.frags@[i as int].ids().subrange(
                        a as int,
                        b as int,
                    ));
                    assert(text_of(frags@) =~= text_of(self.frags@).subrange(
                        clamp(start as int, s_end as int),
                        clamp(end as int, s_end as int),
                    ));
                    assert(ids_of(frags@) =~= ids_of(self.frags@).subrange(
                        clamp(start as int, s_end as int),
                        clamp(end as int, s_end as int),
                    ));
                }
            } else {
                proof {
                    assert(text_of(frags@) =~= text_of(self.frags@).subrange(
                        clamp(start as int, s_end as int),
                        clamp(end as int, s_end as int),
                    ));
                    assert(ids_of(frags@) =~= ids_of(self.frags@).subrange(
                        clamp(start as int, s_end as int),
                        clamp(end as int, s_end as int),
                    ));
                }
            }
            offset = s_end;
            i = i + 1;
        }
        proof {
            assert(self.frags@.take(self.frags@.len() as int) =~= self.frags@);
        }
        Rope { frags }
    }

    /// A new rope with the same text and the same identities: the copy's
    /// bytes stand for the same stored characters.
    pub fn duplicate(&self) -> (r: Rope)
        requires
            self.wf(),
        ensures
            r.wf(),
            r@ == self@,
    {
        let mut frags: Vec<Fragment> = Vec::new();
        let mut i: usize = 0;
        while i < self.frags.len()
            invariant
                self.wf(),
                i <= self.frags@.len(),
                text_of(frags@) == text_of(self.frags@.take(i as int)),
                ids_of(frags@) == ids_of(self.frags@.take(i as int)),
                forall|j: int| 0 <= j < frags@.len() ==> (#[trigger] frags@[j]).wf(),
            decreases self.frags@.len() - i,
        {
            proof {
                lemma_model_take_push(self.frags@, i as int);
            }
            let ghost pre = frags@;
            let bytes = slice_to_vec(self.frags[i].bytes.as_slice());
            let base = self.frags[i].base;
            frags.push(Fragment { bytes, base });
            proof {
                assert(frags@.drop_last() =~= pre);
                assert(frags@.last().text() =~= self.frags@[i as int].text());
                assert(frags@.last().ids() =~= self.frags@[i as int].ids());
            }
            i = i + 1;
        }
        proof {
            assert(self.frags@.take(self.frags@.len() as int) =~= self.frags@);
            lemma_model_prefix(self.frags@, self.frags@.len() as int);
        }
        let r = Rope { frags };
        proof {
            assert(r@ =~= self@);
            assert(text_of(r.frags@).len() <= usize::MAX);
        }
        r
    }
}

/// The sequence produced by substituting `rep` for each of the ranges `rs`
/// of `t`, left to right from position `cursor`: the text between
/// consecutive ranges is retained, each range is replaced by `rep`, and the
/// tail after the last range is retained.
pub open spec fn splice<T>(t: Seq<T>, rs: Seq<(usize, usize)>, rep: Seq<T>, cursor: int) -> Seq<T>
    decreases rs.len(),
{
    if rs.len() == 0 {
        t.subrange(clamp(cursor, t.len() as int), t.len() as int)
    } else {
        t.subrange(clamp(cursor, t.len() as int), clamp(rs[0].0 as int, t.len() as int)) + rep
            + splice(t, rs.drop_first(), rep, rs[0].1 as int)
    }
}

/// The ranges `rs`, re-addressed to the text that remains after its first
/// `d` positions are consumed.
pub open spec fn shift_ranges(rs: Seq<(usize, usize)>, d: int) -> Seq<(usize, usize)> {
    Seq::new(rs.len(), |i: int| (((rs[i].0 - d) as usize), ((rs[i].1 - d) as usize)))
}

proof fn lemma_ordered_gap(rs: Seq<(usize, usize)>, i: int, j: int)
    requires
        forall|k: int|
            0 <= k < rs.len() - 1 ==> (#[trigger] rs[k]).1 <= rs[k + 1].0 && rs[k].0 < rs[k
                + 1].0,
        forall|k: int| 0 <= k < rs.len() ==> (#[trigger] rs[k]).0 <= rs[k].1,
        0 <= i < j < rs.len(),
    ensures
        rs[i].1 <= rs[j].0,
    decreases j - i,
{
    if j > i + 1 {
        lemma_ordered_gap(rs, i, j - 1);
    }
}

proof fn lemma_splice_shift<T>(t: Seq<T>, rs: Seq<(usize, usize)>, rep: Seq<T>, c: int, d: int)
    requires
        ranges_ordered(rs, t.len() as int),
        0 <= d <= c,
        d <= t.len(),
        rs.len() > 0 ==> c <= rs[0].0,
        forall|i: int| 0 <= i < rs.len() ==> d <= (#[trigger] rs[i]).0,
    ensures
        splice(t, rs, rep, c) == splice(t.skip(d), shift_ranges(rs, d), rep, c - d),
    decreases rs.len(),
{
    let n = t.len() as int;
    if rs.len() == 0 {
        assert(t.subrange(clamp(c, n), n) =~= t.skip(d).subrange(clamp(c - d, n - d), n - d));
    } else {
        let r0 = rs[0];
        let rest = rs.drop_first();
        assert(forall|i: int| 0 <= i < rest.len() ==> (#[trigger] rest[i]) == rs[i + 1]);
        assert(ranges_ordered(rest, n));
        assert(shift_ranges(rs, d).drop_first() =~= shift_ranges(rest, d));
        lemma_splice_shift(t, rest, rep, r0.1 as int, d);
        assert(t.subrange(clamp(c, n), clamp(r0.0 as int, n)) =~= t.skip(d).subrange(
            clamp(c - d, n - d),
            clamp(r0.0 - d, n - d),
        ));
    }
}

/// Substituting over ordered ranges is the repeated substitution of the
/// leftmost remaining match: the whole result is the text before the first
/// match, then the replacement, then the same substitution carried out
/// from the start of the unconsumed remainder of the text, over the
/// remaining matches re-addressed to that remainder.
pub proof fn lemma_splice_leftmost<T>(t: Seq<T>, rs: Seq<(usize, usize)>, rep: Seq<T>)
    requires
        rs.len() > 0,
        ranges_ordered(rs, t.len() as int),
    ensures
        splice(t, rs, rep, 0) == t.subrange(0, rs[0].0 as int) + rep + splice(
            t.skip(rs[0].1 as int),
            shift_ranges(rs.drop_first(), rs[0].1 as int),
            rep,
            0,
        ),
{
    assert(clamp(0, t.len() as int) == 0);
    assert(rs[0].0 <= t.len());
    let rest = rs.drop_first();
    assert(forall|i: int| 0 <= i < rest.len() ==> (#[trigger] rest[i]) == rs[i + 1]);
    assert forall|i: int| 0 <= i < rest.len() implies rs[0].1 <= (#[trigger] rest[i]).0 by {
        lemma_ordered_gap(rs, 0, i + 1);
    }
    lemma_splice_shift(t, rest, rep, rs[0].1 as int, rs[0].1 as int);
}

impl Rope {
    /// The byte range of the leftmost match of `re` in the flattened text,
    /// if any: the first of the pattern's successive non-overlapping
    /// matches.
    pub fn re_range(&self, re: &Pattern) -> (r: Option<(usize, usize)>)
        requires
            self.wf(),
        ensures
            r == first_range(match_ranges(re.text(), self@.text)),
            r matches Some(m) ==> m.0 <= m.1 <= self@.text.len(),
    {
        let flat = self.flatten();
        re.find_first(flat.as_slice())
    }

    /// The byte ranges of all successive non-overlapping matches of `re`
    /// in the flattened text, left to right.
    pub fn re_ranges(&self, re: &Pattern) -> (r: Vec<(usize, usize)>)
        requires
            self.wf(),
        ensures
            r@ == match_ranges(re.text(), self@.text),
            ranges_ordered(r@, self@.text.len() as int),
    {
        let flat = self.flatten();
        re.find_all(flat.as_slice())
    }

    /// The sub-rope under the leftmost match of `re`, if any; its bytes
    /// keep their identities.
    pub fn re_slice(&self, re: &Pattern) -> (r: Option<Rope>)
        requires
            self.wf(),
        ensures
            (r is Some) == (first_range(match_ranges(re.text(), self@.text)) is Some),
            r matches Some(s) ==> {
                &&& s.wf()
                &&& first_range(match_ranges(re.text(), self@.text)) matches Some(m)
                    && s@.text == self@.text.subrange(m.0 as int, m.1 as int)
                    && s@.ids == self@.ids.subrange(m.0 as int, m.1 as int)
            },
    {
        proof {
            self.lemma_model_lens();
        }
        match self.re_range(re) {
            Some((a, b)) => Some(self.slice(a, b)),
            None => None,
        }
    }

    /// The sub-ropes under all matches of `re`, left to right; their bytes
    /// keep their identities.
    pub fn re_slices(&self, re: &Pattern) -> (r: Vec<Rope>)
        requires
            self.wf(),
        ensures
            r@.len() == match_ranges(re.text(), self@.text).len(),
            forall|i: int|
                0 <= i < r@.len() ==> {
                    let m = match_ranges(re.text(), self@.text)[i];
                    &&& (#[trigger] r@[i]).wf()
                    &&& r@[i]@.text == self@.text.subrange(m.0 as int, m.1 as int)
                    &&& r@[i]@.ids == self@.ids.subrange(m.0 as int, m.1 as int)
                },
    {
        proof {
            self.lemma_model_lens();
        }
        let ranges = self.re_ranges(re);
        let mut out: Vec<Rope> = Vec::new();
        let mut k: usize = 0;
        while k < ranges.len()
            invariant
                self.wf(),
                k <= ranges@.len(),
                ranges@ == match_ranges(re.text(), self@.text),
                ranges_ordered(ranges@, self@.text.len() as int),
                self@.text.len() == self@.ids.len(),
                out@.len() == k,
                forall|i: int|
                    0 <= i < k ==> {
                        let m = ranges@[i];
                        &&& (#[trigger] out@[i]).wf()
                        &&& out@[i]@.text == self@.text.subrange(m.0 as int, m.1 as int)
                        &&& out@[i]@.ids == self@.ids.subrange(m.0 as int, m.1 as int)
                    },
            decreases ranges@.len() - k,
        {
            let range = ranges[k];
            out.push(self.slice(range.0, range.1));
            k = k + 1;
        }
        out
    }

    /// Substitutes a copy of `rep` for each of the byte ranges `rs` of this
    /// rope, left to right: the text between ranges is retained and keeps
    /// its identities; each copy of `rep` keeps `rep`'s identities.
    #[verifier::loop_isolation(false)]
    pub fn splice_ranges(&self, rs: &Vec<(usize, usize)>, rep: &Rope) -> (r: Rope)
        requires
            self.wf(),
            rep.wf(),
            ranges_ordered(rs@, self@.text.len() as int),
            self@.text.len() + rs@.len() * rep@.text.len() <= usize::MAX,
        ensures
            r.wf(),
            r@.text == splice(self@.text, rs@, rep@.text, 0),
            r@.ids == splice(self@.ids, rs@, rep@.ids, 0),
            r@.text.len() <= self@.text.len() + rs@.len() * rep@.text.len(),
    {
        proof {
            self.lemma_model_lens();
            rep.lemma_model_lens();
        }
        let ghost t = self@.text;
        let ghost tids = self@.ids;
        let ghost n = self@.text.len() as int;
        let mut out = Rope::new();
        let mut cursor: usize = 0;
        let mut k: usize = 0;
        proof {
            assert(rs@.skip(0) =~= rs@);
            assert(out@.text + splice(t, rs@, rep@.text, 0) =~= splice(t, rs@, rep@.text, 0));
            assert(out@.ids + splice(tids, rs@, rep@.ids, 0) =~= splice(tids, rs@, rep@.ids, 0));
        }
        while k < rs.len()
            invariant
                k <= rs@.len(),
                cursor <= n,
                k == 0 ==> cursor == 0,
                k > 0 ==> cursor == rs@[k - 1].1,
                out.wf(),
                out@.text.len() <= cursor + k * rep@.text.len(),
                splice(t, rs@, rep@.text, 0) == out@.text + splice(
                    t,
                    rs@.skip(k as int),
                    rep@.text,
                    cursor as int,
                ),
                splice(tids, rs@, rep@.ids, 0) == out@.ids + splice(
                    tids,
                    rs@.skip(k as int),
                    rep@.ids,
                    cursor as int,
                ),
            decreases rs@.len() - k,
        {
            let range = rs[k];
            let a = range.0;
            let b = range.1;
            proof {
                assert(cursor <= a);
                lemma_mul_inequality(k as int, rs@.len() as int, rep@.text.len() as int);
                lemma_mul_is_distributive_add_other_way(
                    rep@.text.len() as int,
                    k as int,
                    1,
                );
                lemma_mul_inequality(k as int + 1, rs@.len() as int, rep@.text.len() as int);
            }
            let gap = self.slice(cursor, a);
            let ghost out_pre = out@;
            out.append(gap);
            out.append(rep.duplicate());
            proof {
                let rest = rs@.skip(k as int);
                assert(rest[0] == rs@[k as int]);
                assert(rest.drop_first() =~= rs@.skip(k as int + 1));
                assert(splice(t, rest, rep@.text, cursor as int) == t.subrange(
                    clamp(cursor as int, n),
                    clamp(a as int, n),
                ) + rep@.text + splice(t, rs@.skip(k as int + 1), rep@.text, b as int));
                assert(splice(tids, rest, rep@.ids, cursor as int) == tids.subrange(
                    clamp(cursor as int, n),
                    clamp(a as int, n),
                ) + rep@.ids + splice(tids, rs@.skip(k as int + 1), rep@.ids, b as int));
                assert(out@.text =~= out_pre.text + t.subrange(
                    clamp(cursor as int, n),
                    clamp(a as int, n),
                ) + rep@.text);
                assert(out_pre.text + (t.subrange(clamp(cursor as int, n), clamp(a as int, n))
                    + rep@.text + splice(t, rs@.skip(k as int + 1), rep@.text, b as int)) =~= out@.text
                    + splice(t, rs@.skip(k as int + 1), rep@.text, b as int));
                assert(out_pre.ids + (tids.subrange(clamp(cursor as int, n), clamp(a as int, n))
                    + rep@.ids + splice(tids, rs@.skip(k as int + 1), rep@.ids, b as int)) =~= out@.ids
                    + splice(tids, rs@.skip(k as int + 1), rep@.ids, b as int));
            }
            cursor = b;
            k = k + 1;
        }
        let tail = self.slice(cursor, self.len());
        out.append(tail);
        proof {
            assert(rs@.skip(rs@.len() as int) =~= Seq::<(usize, usize)>::empty());
            assert(splice(t, rs@.skip(rs@.len() as int), rep@.text, cursor as int) == t.subrange(
                clamp(cursor as int, n),
                n,
            ));
            assert(splice(tids, rs@.skip(rs@.len() as int), rep@.ids, cursor as int)
                == tids.subrange(clamp(cursor as int, n), n));
        }
        out
    }

    /// If `re` matches, the result is the text before the leftmost match,
    /// then a copy of `rep`, then the text after that match; retained bytes
    /// and the copy of `rep` keep their identities. If `re` does not match,
    /// the result is a copy of this rope: same text, same identities.
    pub fn re_replace(&self, re: &Pattern, rep: &Rope) -> (r: Rope)
        requires
            self.wf(),
            rep.wf(),
            self@.text.len() + rep@.text.len() <= usize::MAX,
        ensures
            r.wf(),
            match first_range(match_ranges(re.text(), self@.text)) {
                Some(m) => {
                    &&& r@.text == self@.text.subrange(0, m.0 as int) + rep@.text
                        + self@.text.subrange(m.1 as int, self@.text.len() as int)
                    &&& r@.ids == self@.ids.subrange(0, m.0 as int) + rep@.ids
                        + self@.ids.subrange(m.1 as int, self@.ids.len() as int)
                },
                None => r@ == self@,
            },
    {
        proof {
            self.lemma_model_lens();
            rep.lemma_model_lens();
        }
        match self.re_range(re) {
            Some((a, b)) => {
                let mut out = self.slice(0, a);
                out.append(rep.duplicate());
                out.append(self.slice(b, self.len()));
                out
            },
            None => self.duplicate(),
        }
    }

    /// Substitutes a copy of `rep` for every match of `re`, left to right:
    /// the text between matches is retained with its identities, and each
    /// inserted copy of `rep` keeps `rep`'s identities.
    #[verifier::rlimit(30)]
    pub fn re_replaces(&self, re: &Pattern, rep: &Rope) -> (r: Rope)
        requires
            self.wf(),
            rep.wf(),
            self@.text.len() + (self@.text.len() + 1) * rep@.text.len() <= usize::MAX,
        ensures
            r.wf(),
            r@.text == splice(self@.text, match_ranges(re.text(), self@.text), rep@.text, 0),
            r@.ids == splice(self@.ids, match_ranges(re.text(), self@.text), rep@.ids, 0),
    {
        let ranges = self.re_ranges(re);
        proof {
            lemma_ranges_ordered_count(ranges@, self@.text.len() as int);
            lemma_mul_inequality(
                ranges@.len() as int,
                self@.text.len() as int + 1,
                rep@.text.len() as int,
            );
        }
        self.splice_ranges(&ranges, rep)
    }
}

/// The byte ranges of the newline characters of `t`, left to right: in
/// UTF-8 the byte 0x0a stands exactly where the character `'\n'` does and
/// never inside a multi-byte encoding.
pub open spec fn newline_ranges(t: Seq<u8>) -> Seq<(usize, usize)>
    decreases t.len(),
{
    if t.len() == 0 {
        Seq::empty()
    } else if t.last() == 10u8 {
        newline_ranges(t.drop_last()).push(((t.len() - 1) as usize, t.len() as usize))
    } else {
        newline_ranges(t.drop_last())
    }
}

proof fn lemma_newline_ranges_ordered(t: Seq<u8>)
    requires
        t.len() <= usize::MAX,
    ensures
        ranges_ordered(newline_ranges(t), t.len() as int),
        newline_ranges(t).len() <= t.len(),
        forall|i: int|
            0 <= i < newline_ranges(t).len() ==> (#[trigger] newline_ranges(t)[i]).1
                == newline_ranges(t)[i].0 + 1,
    decreases t.len(),
{
    if t.len() > 0 {
        lemma_newline_ranges_ordered(t.drop_last());
        let prev = newline_ranges(t.drop_last());
        let cur = newline_ranges(t);
        let n = t.len() as int;
        if t.last() == 10u8 {
            let p = (((t.len() - 1) as usize), (t.len() as usize));
            assert(cur == prev.push(p));
            assert forall|i: int| 0 <= i < cur.len() implies (#[trigger] cur[i]).0 <= cur[i].1
                <= n && cur[i].1 == cur[i].0 + 1 by {
                if i < prev.len() {
                    assert(cur[i] == prev[i]);
                } else {
                    assert(cur[i] == p);
                }
            }
            assert forall|i: int| 0 <= i < cur.len() - 1 implies (#[trigger] cur[i]).1 <= cur[i
                + 1].0 && cur[i].0 < cur[i + 1].0 by {
                if i + 1 < prev.len() {
                    assert(cur[i] == prev[i]);
                    assert(cur[i + 1] == prev[i + 1]);
                } else {
                    assert(cur[i] == prev[i]);
                    assert(cur[i + 1] == p);
                    assert(prev[i].1 <= n - 1);
                    assert(prev[i].1 == prev[i].0 + 1);
                }
            }
        } else {
            assert(cur == prev);
            assert forall|i: int| 0 <= i < cur.len() implies (#[trigger] cur[i]).0 <= cur[i].1
                <= n && cur[i].1 == cur[i].0 + 1 by {
                assert(prev[i].1 <= n - 1);
            }
        }
    }
}

impl Rope {
    /// The positions of the newline bytes of the flattened text, each as a
    /// one-byte range.
    #[verifier::loop_isolation(false)]
    fn newline_scan(flat: &Vec<u8>) -> (r: Vec<(usize, usize)>)
        ensures
            r@ == newline_ranges(flat@),
    {
        let mut r: Vec<(usize, usize)> = Vec::new();
        let mut i: usize = 0;
        while i < flat.len()
            invariant
                i <= flat@.len(),
                r@ == newline_ranges(flat@.take(i as int)),
            decreases flat@.len() - i,
        {
            proof {
                assert(flat@.take(i as int + 1).drop_last() =~= flat@.take(i as int));
                assert(flat@.take(i as int + 1).last() == flat@[i as int]);
            }
            if flat[i] == 0x0a {
                r.push((i, i + 1));
            }
            i = i + 1;
        }
        proof {
            assert(flat@.take(flat@.len() as int) =~= flat@);
        }
        r
    }

    /// Prepends a copy of `ind` once at the very start, and substitutes a
    /// newline followed by a copy of `ind` for every newline of the
    /// flattened text. Retained bytes and each copy of `ind` keep their
    /// identities; every inserted newline byte carries the identity
    /// `nl_base`.
    pub fn indent(&self, ind: &Rope, nl_base: usize) -> (r: Rope)
        requires
            self.wf(),
            ind.wf(),
            nl_base < usize::MAX,
            ind@.text.len() + 1 + self@.text.len() + self@.text.len() * (1 + ind@.text.len())
                <= usize::MAX,
        ensures
            r.wf(),
            r@.text == ind@.text + splice(
                self@.text,
                newline_ranges(self@.text),
                seq![10u8] + ind@.text,
                0,
            ),
            r@.ids == ind@.ids + splice(
                self@.ids,
                newline_ranges(self@.text),
                seq![nl_base] + ind@.ids,
                0,
            ),
    {
        proof {
            self.lemma_model_lens();
            ind.lemma_model_lens();
            lemma_newline_ranges_ordered(self@.text);
        }
        let mut rep = Rope::from_bytes(vec![0x0au8], nl_base);
        rep.append(ind.duplicate());
        proof {
            assert(rep@.text =~= seq![10u8] + ind@.text);
            assert(rep@.ids =~= seq![nl_base] + ind@.ids);
        }
        let flat = self.flatten();
        let nls = Rope::newline_scan(&flat);
        proof {
            lemma_mul_inequality(
                nls@.len() as int,
                self@.text.len() as int,
                rep@.text.len() as int,
            );
        }
        let body = self.splice_ranges(&nls, &rep);
        let mut out = ind.duplicate();
        out.append(body);
        out
    }
}

/// True of a byte that starts a UTF-8 encoded character, that is, of any
/// byte that is not a continuation byte.
pub open spec fn is_char_start(b: u8) -> bool {
    !vstd::utf8::is_continuation_byte(b)
}

/// How many characters `text` encodes: the number of bytes that start one.
pub open spec fn char_count(text: Seq<u8>) -> nat
    decreases text.len(),
{
    if text.len() == 0 {
        0
    } else {
        char_count(text.drop_last()) + if is_char_start(text.last()) {
            1 as nat
        } else {
            0 as nat
        }
    }
}

/// The identity of each character of a text, in order: of every byte that
/// starts a character, the identity recorded at its position.
pub open spec fn char_ids(text: Seq<u8>, ids: Seq<usize>) -> Seq<usize>
    decreases text.len(),
{
    if text.len() == 0 {
        Seq::empty()
    } else if is_char_start(text.last()) {
        char_ids(text.drop_last(), ids.drop_last()).push(ids.last())
    } else {
        char_ids(text.drop_last(), ids.drop_last())
    }
}

/// A rope yields one identity per character of its flattened text: the
/// identity sequence's length is the character count, not the byte count.
pub proof fn lemma_char_ids_count(text: Seq<u8>, ids: Seq<usize>)
    ensures
        char_ids(text, ids).len() == char_count(text),
    decreases text.len(),
{
    if text.len() > 0 {
        lemma_char_ids_count(text.drop_last(), ids.drop_last());
    }
}

proof fn lemma_char_count_concat(a: Seq<u8>, b: Seq<u8>)
    ensures
        char_count(a + b) == char_count(a) + char_count(b),
    decreases b.len(),
{
    if b.len() == 0 {
        assert(a + b =~= a);
    } else {
        lemma_char_count_concat(a, b.drop_last());
        assert((a + b).drop_last() =~= a + b.drop_last());
        assert((a + b).last() == b.last());
    }
}

proof fn lemma_char_count_scalar(s: u32)
    requires
        vstd::utf8::is_scalar(s),
    ensures
        char_count(vstd::utf8::encode_scalar(s)) == 1,
{
    reveal_with_fuel(char_count, 5);
    assert(((s & 0x7F) as u8) < 0x80) by (bit_vector);
    assert((0xC0u8 | ((s >> 6) & 0x1F) as u8) >= 0xC0) by (bit_vector);
    assert((0xE0u8 | ((s >> 12) & 0x0F) as u8) >= 0xC0) by (bit_vector);
    assert((0xF0u8 | ((s >> 18) & 0x7) as u8) >= 0xC0) by (bit_vector);
    assert(0x80u8 <= (0x80u8 | (s & 0x3F) as u8) <= 0xBF) by (bit_vector);
    assert(0x80u8 <= (0x80u8 | ((s >> 6) & 0x3F) as u8) <= 0xBF) by (bit_vector);
    assert(0x80u8 <= (0x80u8 | ((s >> 12) & 0x3F) as u8) <= 0xBF) by (bit_vector);
    let e = vstd::utf8::encode_scalar(s);
    if vstd::utf8::has_width_1_encoding(s) {
        assert(e.drop_last() =~= Seq::<u8>::empty());
    } else if vstd::utf8::has_width_2_encoding(s) {
        assert(e.drop_last().drop_last() =~= Seq::<u8>::empty());
    } else if vstd::utf8::has_width_3_encoding(s) {
        assert(e.drop_last().drop_last().drop_last() =~= Seq::<u8>::empty());
    } else {
        assert(e.drop_last().drop_last().drop_last().drop_last() =~= Seq::<u8>::empty());
    }
}

/// A text of `n` characters encodes to UTF-8 bytes of which exactly `n`
/// start a character: the rope's character count is the character count of
/// the text it was built from, whatever the byte count.
pub proof fn lemma_char_count_utf8(chars: Seq<char>)
    ensures
        char_count(vstd::utf8::encode_utf8(chars)) == chars.len(),
    decreases chars.len(),
{
    if chars.len() == 0 {
    } else {
        vstd::utf8::char_is_scalar(chars[0]);
        lemma_char_count_utf8(chars.drop_first());
        lemma_char_count_concat(
            vstd::utf8::encode_scalar(chars[0] as u32),
            vstd::utf8::encode_utf8(chars.drop_first()),
        );
        lemma_char_count_scalar(chars[0] as u32);
    }
}

proof fn lemma_char_ids_concat(t1: Seq<u8>, i1: Seq<usize>, t2: Seq<u8>, i2: Seq<usize>)
    requires
        t1.len() == i1.len(),
        t2.len() == i2.len(),
    ensures
        char_ids(t1 + t2, i1 + i2) == char_ids(t1, i1) + char_ids(t2, i2),
    decreases t2.len(),
{
    if t2.len() == 0 {
        assert(t1 + t2 =~= t1);
        assert(i1 + i2 =~= i1);
        assert(char_ids(t1, i1) + char_ids(t2, i2) =~= char_ids(t1, i1));
    } else {
        lemma_char_ids_concat(t1, i1, t2.drop_last(), i2.drop_last());
        assert((t1 + t2).drop_last() =~= t1 + t2.drop_last());
        assert((i1 + i2).drop_last() =~= i1 + i2.drop_last());
        assert((t1 + t2).last() == t2.last());
        assert((i1 + i2).last() == i2.last());
        if is_char_start(t2.last()) {
            assert(char_ids(t1, i1) + char_ids(t2.drop_last(), i2.drop_last()).push(i2.last())
                =~= (char_ids(t1, i1) + char_ids(t2.drop_last(), i2.drop_last())).push(i2.last()));
        }
    }
}

impl Rope {
    /// The identity of each character of the flattened text, in flattened
    /// order: found by walking the fragments and, within each, every byte
    /// that starts a character.
    #[verifier::loop_isolation(false)]
    pub fn addrs(&self) -> (r: Vec<usize>)
        requires
            self.wf(),
        ensures
            r@ == char_ids(self@.text, self@.ids),
    {
        proof {
            lemma_model_lens_eq(self.frags@);
        }
        let mut r: Vec<usize> = Vec::new();
        let mut i: usize = 0;
        while i < self.frags.len()
            invariant
                i <= self.frags@.len(),
                r@ == char_ids(
                    text_of(self.frags@.take(i as int)),
                    ids_of(self.frags@.take(i as int)),
                ),
            decreases self.frags@.len() - i,
        {
            let flen = self.frags[i].bytes.len();
            let base = self.frags[i].base;
            let ghost ft = self.frags@[i as int].text();
            let ghost fi = self.frags@[i as int].ids();
            let mut j: usize = 0;
            while j < flen
                invariant
                    j <= flen,
                    i < self.frags@.len(),
                    flen == ft.len(),
                    base == self.frags@[i as int].base,
                    ft == self.frags@[i as int].text(),
                    fi == self.frags@[i as int].ids(),
                    r@ == char_ids(
                        text_of(self.frags@.take(i as int)),
                        ids_of(self.frags@.take(i as int)),
                    ) + char_ids(ft.take(j as int), fi.take(j as int)),
                decreases flen - j,
            {
                let b = self.frags[i].bytes[j];
                proof {
                    assert(ft.take(j as int + 1).drop_last() =~= ft.take(j as int));
                    assert(fi.take(j as int + 1).drop_last() =~= fi.take(j as int));
                    assert(ft.take(j as int + 1).last() == b);
                    assert(fi.take(j as int + 1).last() == (base + j) as usize);
                }
                if b < 0x80 || b >= 0xc0 {
                    r.push(base + j);
                }
                j = j + 1;
            }
            proof {
                assert(ft.take(flen as int) =~= ft);
                assert(fi.take(flen as int) =~= fi);
                lemma_model_take_push(self.frags@, i as int);
                lemma_model_lens_eq(self.frags@.take(i as int));
                lemma_char_ids_concat(
                    text_of(self.frags@.take(i as int)),
                    ids_of(self.frags@.take(i as int)),
                    ft,
                    fi,
                );
            }
            i = i + 1;
        }
        proof {
            assert(self.frags@.take(self.frags@.len() as int) =~= self.frags@);
        }
        r
    }
}

/// Slicing a rope over its whole range, `[0, len)`, keeps the flattened
/// text and every character identity unchanged.
pub proof fn lemma_slice_whole(m: RopeModel)
    requires
        m.text.len() == m.ids.len(),
    ensures
        m.text.subrange(
            clamp(0, m.text.len() as int),
            clamp(m.text.len() as int, m.text.len() as int),
        ) == m.text,
        m.ids.subrange(
            clamp(0, m.text.len() as int),
            clamp(m.text.len() as int, m.text.len() as int),
        ) == m.ids,
{
    assert(m.text.subrange(0, m.text.len() as int) =~= m.text);
    assert(m.ids.subrange(0, m.text.len() as int) =~= m.ids);
}

/// Slicing is compositional: for `0 <= i <= j <= k <= len`, the slice over
/// `[i, k)` equals the slice over `[i, j)` followed by the slice over
/// `[j, k)`, in text and in identities alike.
pub proof fn lemma_slice_split(m: RopeModel, i: int, j: int, k: int)
    requires
        m.text.len() == m.ids.len(),
        0 <= i <= j <= k <= m.text.len(),
    ensures
        m.text.subrange(clamp(i, m.text.len() as int), clamp(k, m.text.len() as int))
            == m.text.subrange(i, j) + m.text.subrange(j, k),
        m.ids.subrange(clamp(i, m.text.len() as int), clamp(k, m.text.len() as int))
            == m.ids.subrange(i, j) + m.ids.subrange(j, k),
{
    assert(m.text.subrange(i, k) =~= m.text.subrange(i, j) + m.text.subrange(j, k));
    assert(m.ids.subrange(i, k) =~= m.ids.subrange(i, j) + m.ids.subrange(j, k));
}

impl Default for Rope {
    /// The empty rope.
    fn default() -> (r: Rope)
        ensures
            r.wf(),
            r@.text == Seq::<u8>::empty(),
            r@.ids == Seq::<usize>::empty(),
    {
        Rope::new()
    }
}

} // verus!
