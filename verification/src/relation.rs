//! A directed, many-to-many relation between source character identities
//! and derived character identities, kept as a forward index and an inverse
//! index that always agree: the edge `(a, b)` is recorded forward under `a`
//! exactly when it is recorded inversely under `b`. Edges are only ever
//! added, and adding an existing edge changes nothing.

use crate::rope::{char_ids, id_run};
use std::collections::{BTreeMap, BTreeSet};
use vstd::prelude::*;
use vstd::set_lib::lemma_len_union;
use vstd::string::StrSliceExecFns;
use vstd::string::StringSliceAdditionalSpecFns;

verus! {

broadcast use vstd::std_specs::btree::group_btree_axioms, vstd::laws_cmp::group_laws_cmp;

/// The edges from one source identity `a` to each of the identities `bs`.
pub open spec fn pairs_one_many(a: usize, bs: Seq<usize>) -> Set<(usize, usize)> {
    Set::new(|p: (usize, usize)| p.0 == a && bs.contains(p.1))
}

/// The edges from each of the identities `as_` to one derived identity `b`.
pub open spec fn pairs_many_one(as_: Seq<usize>, b: usize) -> Set<(usize, usize)> {
    Set::new(|p: (usize, usize)| as_.contains(p.0) && p.1 == b)
}

/// The full cartesian product of edges: from every identity of `as_` to
/// every identity of `bs`.
pub open spec fn pairs_product(as_: Seq<usize>, bs: Seq<usize>) -> Set<(usize, usize)> {
    Set::new(|p: (usize, usize)| as_.contains(p.0) && bs.contains(p.1))
}

/// The identity sequence of the text of `s` when its UTF-8 bytes are
/// stored consecutively with identities from `base`: one identity per
/// character.
pub open spec fn str_id_seq(s: Seq<char>, base: int) -> Seq<usize> {
    char_ids(
        vstd::utf8::encode_utf8(s),
        id_run(base, vstd::utf8::encode_utf8(s).len()),
    )
}

/// The forward and inverse indices of the provenance graph.
pub struct Relation {
    rel: BTreeMap<usize, BTreeSet<usize>>,
    inv: BTreeMap<usize, BTreeSet<usize>>,
}

impl Relation {
    spec fn fwd_has(self, a: usize, b: usize) -> bool {
        self.rel@.contains_key(a) && self.rel@[a]@.contains(b)
    }

    spec fn inv_has(self, b: usize, a: usize) -> bool {
        self.inv@.contains_key(b) && self.inv@[b]@.contains(a)
    }

    /// The recorded edges: `(a, b)` when `b` was recorded as derived from
    /// `a`.
    pub closed spec fn edges(self) -> Set<(usize, usize)> {
        Set::new(|p: (usize, usize)| self.fwd_has(p.0, p.1))
    }

    /// The set of derived identities recorded for source identity `a`.
    pub open spec fn forward_of(self, a: usize) -> Set<usize> {
        Set::new(|b: usize| self.edges().contains((a, b)))
    }

    /// The set of source identities recorded for derived identity `b`.
    pub open spec fn inverse_of(self, b: usize) -> Set<usize> {
        Set::new(|a: usize| self.edges().contains((a, b)))
    }

    /// The two indices agree edge for edge, and neither index keeps an
    /// entry with an empty set.
    pub closed spec fn wf(self) -> bool {
        &&& forall|a: usize, b: usize| #[trigger]
            self.fwd_has(a, b) <==> #[trigger] self.inv_has(b, a)
        &&& forall|a: usize| #[trigger]
            self.rel@.contains_key(a) ==> exists|b: usize| self.rel@[a]@.contains(b)
        &&& forall|b: usize| #[trigger]
            self.inv@.contains_key(b) ==> exists|a: usize| self.inv@[b]@.contains(a)
    }

    /// An empty relation: no edges.
    pub fn new() -> (r: Relation)
        ensures
            r.wf(),
            r.edges() == Set::<(usize, usize)>::empty(),
    {
        let r = Relation { rel: BTreeMap::new(), inv: BTreeMap::new() };
        proof {
            assert(r.edges() =~= Set::<(usize, usize)>::empty());
        }
        r
    }

    /// Records the edge `(a, b)`: afterward `b` is in the forward set of
    /// `a` and `a` is in the inverse set of `b`, and no other edge
    /// appears or disappears. Recording an existing edge changes nothing.
    pub fn add(&mut self, a: usize, b: usize)
        requires
            old(self).wf(),
        ensures
            final(self).wf(),
            final(self).edges() == old(self).edges().insert((a, b)),
            final(self).forward_of(a).contains(b),
            final(self).inverse_of(b).contains(a),
    {
        let mut fs = match self.rel.get(&a) {
            Some(s) => s.clone(),
            None => BTreeSet::new(),
        };
        fs.insert(b);
        self.rel.insert(a, fs);
        let mut is = match self.inv.get(&b) {
            Some(s) => s.clone(),
            None => BTreeSet::new(),
        };
        is.insert(a);
        self.inv.insert(b, is);
        proof {
            assert(self.rel@[a]@.contains(b));
            assert(self.inv@[b]@.contains(a));
            assert forall|x: usize, y: usize| #[trigger]
                self.fwd_has(x, y) <==> #[trigger] self.inv_has(y, x) by {
                if x == a && y == b {
                } else {
                    assert(self.fwd_has(x, y) == old(self).fwd_has(x, y));
                    assert(self.inv_has(y, x) == old(self).inv_has(y, x));
                }
            }
            assert forall|x: usize| #[trigger]
                self.rel@.contains_key(x) implies exists|y: usize| self.rel@[x]@.contains(y) by {
                if x == a {
                    assert(self.rel@[a]@.contains(b));
                } else {
                    assert(old(self).rel@.contains_key(x));
                    let y = choose|y: usize| old(self).rel@[x]@.contains(y);
                    assert(self.rel@[x]@.contains(y));
                }
            }
            assert forall|x: usize| #[trigger]
                self.inv@.contains_key(x) implies exists|y: usize| self.inv@[x]@.contains(y) by {
                if x == b {
                    assert(self.inv@[b]@.contains(a));
                } else {
                    assert(old(self).inv@.contains_key(x));
                    let y = choose|y: usize| old(self).inv@[x]@.contains(y);
                    assert(self.inv@[x]@.contains(y));
                }
            }
            assert(self.edges() =~= old(self).edges().insert((a, b)));
        }
    }

    /// Records an edge from `a` to each identity of `bs`.
    pub fn add_1_n(&mut self, a: usize, bs: &[usize])
        requires
            old(self).wf(),
        ensures
            final(self).wf(),
            final(self).edges() == old(self).edges().union(pairs_one_many(a, bs@)),
    {
        let mut i: usize = 0;
        while i < bs.len()
            invariant
                self.wf(),
                i <= bs@.len(),
                self.edges() == old(self).edges().union(pairs_one_many(a, bs@.take(i as int))),
            decreases bs@.len() - i,
        {
            self.add(a, bs[i]);
            proof {
                assert(bs@.take(i as int + 1).drop_last() =~= bs@.take(i as int));
                assert(bs@.take(i as int + 1).last() == bs@[i as int]);
                assert(old(self).edges().union(pairs_one_many(a, bs@.take(i as int))).insert(
                    (a, bs@[i as int]),
                ) =~= old(self).edges().union(pairs_one_many(a, bs@.take(i as int + 1))));
            }
            i = i + 1;
        }
        proof {
            assert(bs@.take(bs@.len() as int) =~= bs@);
        }
    }

    /// Records an edge from each identity of `as_` to `b`.
    pub fn add_n_1(&mut self, as_: &[usize], b: usize)
        requires
            old(self).wf(),
        ensures
            final(self).wf(),
            final(self).edges() == old(self).edges().union(pairs_many_one(as_@, b)),
    {
        let mut i: usize = 0;
        while i < as_.len()
            invariant
                self.wf(),
                i <= as_@.len(),
                self.edges() == old(self).edges().union(pairs_many_one(as_@.take(i as int), b)),
            decreases as_@.len() - i,
        {
            self.add(as_[i], b);
            proof {
                assert(as_@.take(i as int + 1).drop_last() =~= as_@.take(i as int));
                assert(as_@.take(i as int + 1).last() == as_@[i as int]);
                assert(old(self).edges().union(pairs_many_one(as_@.take(i as int), b)).insert(
                    (as_@[i as int], b),
                ) =~= old(self).edges().union(pairs_many_one(as_@.take(i as int + 1), b)));
            }
            i = i + 1;
        }
        proof {
            assert(as_@.take(as_@.len() as int) =~= as_@);
        }
    }

    /// Records the full cartesian product of edges: from every identity of
    /// `as_` to every identity of `bs`. This is deliberately coarse: it
    /// asserts that each of the source characters may have influenced each
    /// of the derived characters.
    pub fn add_n_n(&mut self, as_: &[usize], bs: &[usize])
        requires
            old(self).wf(),
        ensures
            final(self).wf(),
            final(self).edges() == old(self).edges().union(pairs_product(as_@, bs@)),
    {
        let mut i: usize = 0;
        while i < as_.len()
            invariant
                self.wf(),
                i <= as_@.len(),
                self.edges() == old(self).edges().union(
                    pairs_product(as_@.take(i as int), bs@),
                ),
            decreases as_@.len() - i,
        {
            self.add_1_n(as_[i], bs);
            proof {
                assert(as_@.take(i as int + 1).drop_last() =~= as_@.take(i as int));
                assert(as_@.take(i as int + 1).last() == as_@[i as int]);
                assert(old(self).edges().union(pairs_product(as_@.take(i as int), bs@)).union(
                    pairs_one_many(as_@[i as int], bs@),
                ) =~= old(self).edges().union(pairs_product(as_@.take(i as int + 1), bs@)));
            }
            i = i + 1;
        }
        proof {
            assert(as_@.take(as_@.len() as int) =~= as_@);
        }
    }

    /// Records the cartesian product of edges between the character
    /// identities of `a` (stored from `a_base`) and those of `b` (stored
    /// from `b_base`).
    pub fn add_str_str(&mut self, a: &str, a_base: usize, b: &str, b_base: usize)
        requires
            old(self).wf(),
            a_base + a.spec_bytes().len() <= usize::MAX,
            b_base + b.spec_bytes().len() <= usize::MAX,
        ensures
            final(self).wf(),
            final(self).edges() == old(self).edges().union(
                pairs_product(str_id_seq(a@, a_base as int), str_id_seq(b@, b_base as int)),
            ),
    {
        let av = str_addrs(a, a_base);
        let bv = str_addrs(b, b_base);
        self.add_n_n(av.as_slice(), bv.as_slice());
    }

    /// The derived identities recorded for `a`, or nothing when `a` has no
    /// recorded edge.
    pub fn rel(&self, a: usize) -> (r: Option<&BTreeSet<usize>>)
        requires
            self.wf(),
        ensures
            (r is Some) == (exists|b: usize| self.forward_of(a).contains(b)),
            r matches Some(s) ==> s@ == self.forward_of(a),
    {
        let r = self.rel.get(&a);
        proof {
            match r {
                Some(s) => {
                    assert(s@ =~= self.forward_of(a));
                    let b = choose|b: usize| self.rel@[a]@.contains(b);
                    assert(self.forward_of(a).contains(b));
                },
                None => {
                    assert forall|b: usize| !self.forward_of(a).contains(b) by {
                        assert(!self.fwd_has(a, b));
                    }
                },
            }
        }
        r
    }

    /// The source identities recorded for `b`, or nothing when `b` has no
    /// recorded edge.
    pub fn inv(&self, b: usize) -> (r: Option<&BTreeSet<usize>>)
        requires
            self.wf(),
        ensures
            (r is Some) == (exists|a: usize| self.inverse_of(b).contains(a)),
            r matches Some(s) ==> s@ == self.inverse_of(b),
    {
        let r = self.inv.get(&b);
        proof {
            match r {
                Some(s) => {
                    assert forall|a: usize| s@.contains(a) == self.inverse_of(b).contains(a) by {
                        assert(self.inv_has(b, a) <==> self.fwd_has(a, b));
                    }
                    assert(s@ =~= self.inverse_of(b));
                    let a = choose|a: usize| self.inv@[b]@.contains(a);
                    assert(self.inverse_of(b).contains(a));
                },
                None => {
                    assert forall|a: usize| !self.inverse_of(b).contains(a) by {
                        assert(!self.inv_has(b, a));
                        assert(!self.fwd_has(a, b));
                    }
                },
            }
        }
        r
    }

    /// Applies `f` to `s` and returns its output, recording every
    /// character identity of `s` (stored from `s_base`) as related forward
    /// to every character identity of the output (stored from `out_base`).
    /// When the output's identities would not fit in `usize`, no edge is
    /// recorded.
    pub fn track<F: Fn(&str) -> String>(
        &mut self,
        f: F,
        s: &str,
        s_base: usize,
        out_base: usize,
    ) -> (r: String)
        requires
            old(self).wf(),
            call_requires(f, (s,)),
            s_base + s.spec_bytes().len() <= usize::MAX,
        ensures
            final(self).wf(),
            call_ensures(f, (s,), r),
            if out_base + vstd::utf8::encode_utf8(r@).len() <= usize::MAX {
                final(self).edges() == old(self).edges().union(
                    pairs_product(
                        str_id_seq(s@, s_base as int),
                        str_id_seq(r@, out_base as int),
                    ),
                )
            } else {
                final(self).edges() == old(self).edges()
            },
    {
        let out = f(s);
        let out_bytes = out.as_str().as_bytes_vec();
        if out_bytes.len() <= usize::MAX - out_base {
            self.add_str_str(s, s_base, out.as_str(), out_base);
        }
        out
    }
}

proof fn lemma_len_disjoint_union<A>(s1: Set<A>, s2: Set<A>)
    requires
        s1.finite(),
        s2.finite(),
        s1.disjoint(s2),
    ensures
        s1.union(s2).finite(),
        s1.union(s2).len() == s1.len() + s2.len(),
    decreases s1.len(),
{
    if s1.is_empty() {
        assert(s1.union(s2) =~= s2);
    } else {
        let x = s1.choose();
        assert(s1.contains(x));
        assert(s1.remove(x).disjoint(s2));
        lemma_len_disjoint_union(s1.remove(x), s2);
        assert(s1.remove(x).union(s2) =~= s1.union(s2).remove(x));
        assert(s1.union(s2) =~= s1.union(s2).remove(x).insert(x));
        assert(!s1.union(s2).remove(x).contains(x));
    }
}

proof fn lemma_one_many_card(a: usize, bs: Seq<usize>)
    requires
        bs.no_duplicates(),
    ensures
        pairs_one_many(a, bs).finite(),
        pairs_one_many(a, bs).len() == bs.len(),
    decreases bs.len(),
{
    if bs.len() == 0 {
        assert(pairs_one_many(a, bs) =~= Set::<(usize, usize)>::empty());
    } else {
        let pre = bs.drop_last();
        lemma_one_many_card(a, pre);
        assert(!pre.contains(bs.last())) by {
            if pre.contains(bs.last()) {
                let i = choose|i: int| 0 <= i < pre.len() && pre[i] == bs.last();
                assert(bs[i] == bs[bs.len() - 1]);
            }
        }
        assert(pairs_one_many(a, bs) =~= pairs_one_many(a, pre).insert((a, bs.last()))) by {
            assert forall|p: (usize, usize)| pairs_one_many(a, bs).contains(p) implies
                pairs_one_many(a, pre).insert((a, bs.last())).contains(p) by {
                let i = choose|i: int| 0 <= i < bs.len() && bs[i] == p.1;
                if i < bs.len() - 1 {
                    assert(pre[i] == p.1);
                    assert(pre.contains(p.1));
                }
            }
            assert forall|p: (usize, usize)|
                pairs_one_many(a, pre).insert((a, bs.last())).contains(p) implies pairs_one_many(
                a,
                bs,
            ).contains(p) by {
                if pairs_one_many(a, pre).contains(p) {
                    let i = choose|i: int| 0 <= i < pre.len() && pre[i] == p.1;
                    assert(bs[i] == p.1);
                } else {
                    assert(bs[bs.len() - 1] == p.1);
                }
            }
        }
        assert(!pairs_one_many(a, pre).contains((a, bs.last())));
    }
}

proof fn lemma_product_card(as_: Seq<usize>, bs: Seq<usize>)
    requires
        as_.no_duplicates(),
        bs.no_duplicates(),
    ensures
        pairs_product(as_, bs).finite(),
        pairs_product(as_, bs).len() == as_.len() * bs.len(),
    decreases as_.len(),
{
    if as_.len() == 0 {
        assert(pairs_product(as_, bs) =~= Set::<(usize, usize)>::empty());
    } else {
        let pre = as_.drop_last();
        let a = as_.last();
        lemma_product_card(pre, bs);
        lemma_one_many_card(a, bs);
        assert(!pre.contains(a)) by {
            if pre.contains(a) {
                let i = choose|i: int| 0 <= i < pre.len() && pre[i] == a;
                assert(as_[i] == as_[as_.len() - 1]);
            }
        }
        assert(pairs_product(as_, bs) =~= pairs_product(pre, bs).union(pairs_one_many(a, bs)))
            by {
            assert forall|p: (usize, usize)| pairs_product(as_, bs).contains(p) implies
                pairs_product(pre, bs).union(pairs_one_many(a, bs)).contains(p) by {
                let i = choose|i: int| 0 <= i < as_.len() && as_[i] == p.0;
                if i < as_.len() - 1 {
                    assert(pre[i] == p.0);
                    assert(pre.contains(p.0));
                }
            }
            assert forall|p: (usize, usize)|
                pairs_product(pre, bs).union(pairs_one_many(a, bs)).contains(p) implies
                pairs_product(as_, bs).contains(p) by {
                if pairs_product(pre, bs).contains(p) {
                    let i = choose|i: int| 0 <= i < pre.len() && pre[i] == p.0;
                    assert(as_[i] == p.0);
                } else {
                    assert(as_[as_.len() - 1] == p.0);
                }
            }
        }
        assert(pairs_product(pre, bs).disjoint(pairs_one_many(a, bs))) by {
            assert forall|p: (usize, usize)|
                pairs_product(pre, bs).contains(p) && pairs_one_many(a, bs).contains(
                p,
            ) implies false by {
                assert(pre.contains(p.0) && p.0 == a);
            }
        }
        lemma_len_disjoint_union(pairs_product(pre, bs), pairs_one_many(a, bs));
        assert(pre.len() * bs.len() + bs.len() == as_.len() * bs.len()) by {
            vstd::arithmetic::mul::lemma_mul_is_distributive_add_other_way(
                bs.len() as int,
                pre.len() as int,
                1,
            );
        }
    }
}

/// Recording the full cartesian product of edges between identity sets
/// that have no duplicates and share no pair with the edges already
/// recorded grows the edge set by exactly `m * n` edges, for `m` source
/// and `n` derived identities; recording the same product again leaves
/// the edges unchanged.
pub proof fn lemma_cartesian_growth(e: Set<(usize, usize)>, as_: Seq<usize>, bs: Seq<usize>)
    requires
        e.finite(),
        as_.no_duplicates(),
        bs.no_duplicates(),
        forall|i: int, j: int|
            0 <= i < as_.len() && 0 <= j < bs.len() ==> !e.contains((as_[i], bs[j])),
    ensures
        e.union(pairs_product(as_, bs)).finite(),
        e.union(pairs_product(as_, bs)).len() == e.len() + as_.len() * bs.len(),
        e.union(pairs_product(as_, bs)).union(pairs_product(as_, bs)) == e.union(
            pairs_product(as_, bs),
        ),
{
    lemma_product_card(as_, bs);
    assert(e.disjoint(pairs_product(as_, bs))) by {
        assert forall|p: (usize, usize)|
            e.contains(p) && pairs_product(as_, bs).contains(p) implies false by {
            let i = choose|i: int| 0 <= i < as_.len() && as_[i] == p.0;
            let j = choose|j: int| 0 <= j < bs.len() && bs[j] == p.1;
            assert(!e.contains((as_[i], bs[j])));
        }
    }
    lemma_len_disjoint_union(e, pairs_product(as_, bs));
    assert(e.union(pairs_product(as_, bs)).union(pairs_product(as_, bs)) =~= e.union(
        pairs_product(as_, bs),
    ));
}

/// The identity, in order, of each character of `s` when its UTF-8 bytes
/// are stored consecutively with identities from `base`: the identity of
/// every byte that starts a character.
#[verifier::loop_isolation(false)]
pub fn str_addrs(s: &str, base: usize) -> (r: Vec<usize>)
    requires
        base + s.spec_bytes().len() <= usize::MAX,
    ensures
        r@ == str_id_seq(s@, base as int),
{
    let bytes = s.as_bytes_vec();
    let ghost t = bytes@;
    let ghost ids = id_run(base as int, t.len());
    let mut r: Vec<usize> = Vec::new();
    let mut i: usize = 0;
    while i < bytes.len()
        invariant
            i <= t.len(),
            r@ == char_ids(t.take(i as int), ids.take(i as int)),
        decreases t.len() - i,
    {
        proof {
            assert(t.take(i as int + 1).drop_last() =~= t.take(i as int));
            assert(ids.take(i as int + 1).drop_last() =~= ids.take(i as int));
            assert(t.take(i as int + 1).last() == t[i as int]);
            assert(ids.take(i as int + 1).last() == (base + i) as usize);
        }
        let b = bytes[i];
        if b < 0x80 || b >= 0xc0 {
            r.push(base + i);
        }
        i = i + 1;
    }
    proof {
        assert(t.take(t.len() as int) =~= t);
        assert(ids.take(t.len() as int) =~= ids);
    }
    r
}

} // verus!
