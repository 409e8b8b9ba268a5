//! The bounded top-k candidate store used by the searches, the
//! specification of what "the k nearest distances" means, and the laws that
//! make any two correct answers agree.

use vstd::prelude::*;

verus! {

use vstd::multiset::Multiset;

/// `kept` is a correct bounded top-`n` selection from `all`: it has
/// `min(n, all.len())` elements, it is a sub-multiset of `all`, and every
/// element of `all` left out is at least as large as every element kept.
pub open spec fn is_topk(kept: Seq<int>, all: Seq<int>, n: nat) -> bool {
    &&& kept.len() == if n <= all.len() {
        n as int
    } else {
        all.len() as int
    }
    &&& kept.to_multiset().subset_of(all.to_multiset())
    &&& forall|x: int|
        #[trigger] all.to_multiset().count(x) > kept.to_multiset().count(x) ==> (forall|y: int|
            #[trigger] kept.to_multiset().count(y) > 0 ==> y <= x)
}

/// Entry `i` of the candidate store `(es, ed)` also occurs in the store
/// `(os, od)`: same slot, same distance, at some common position.
pub open spec fn entry_from(es: Seq<int>, ed: Seq<int>, i: int, os: Seq<int>, od: Seq<int>) -> bool {
    exists|j: int| 0 <= j < os.len() && os[j] == es[i] && od[j] == ed[i]
}

/// Entry `i` of the candidate store `(es, ed)` either occurs in the store
/// `(os, od)` or is exactly the pair `(slot, dist)`.
pub open spec fn entry_ok(
    es: Seq<int>,
    ed: Seq<int>,
    i: int,
    os: Seq<int>,
    od: Seq<int>,
    slot: int,
    dist: int,
) -> bool {
    entry_from(es, ed, i, os, od) || (es[i] == slot && ed[i] == dist)
}

/// A candidate entry: an arena slot paired with its distance to the query.
/// Stored as two parallel vectors so the distances are directly a sequence.
pub struct Candidates {
    slots: Vec<usize>,
    dists: Vec<u128>,
}

impl Candidates {
    /// The kept distances, as mathematical integers.
    pub closed spec fn kept(&self) -> Seq<int> {
        self.dists@.map_values(|d: u128| d as int)
    }

    /// The kept arena slots, pointwise paired with `kept`.
    pub closed spec fn slots(&self) -> Seq<int> {
        self.slots@.map_values(|s: usize| s as int)
    }

    pub open spec fn wf(&self) -> bool {
        self.slots().len() == self.kept().len()
    }

    pub fn new() -> (r: Self)
        ensures
            r.wf(),
            r.kept() == Seq::<int>::empty(),
            r.slots() == Seq::<int>::empty(),
    {
        let r = Candidates { slots: Vec::new(), dists: Vec::new() };
        proof {
            assert(r.kept() =~= Seq::<int>::empty());
            assert(r.slots() =~= Seq::<int>::empty());
        }
        r
    }

    pub fn len(&self) -> (r: usize)
        ensures
            r == self.kept().len(),
    {
        self.dists.len()
    }

    /// Index of a maximal kept distance.
    fn max_index(&self) -> (r: usize)
        requires
            self.wf(),
            self.kept().len() > 0,
        ensures
            0 <= r < self.kept().len(),
            forall|j: int| 0 <= j < self.kept().len() ==> self.kept()[j] <= self.kept()[r as int],
    {
        let mut best: usize = 0;
        let mut i: usize = 1;
        while i < self.dists.len()
            invariant
                self.wf(),
                self.kept().len() > 0,
                i <= self.kept().len(),
                0 <= best < i,
                forall|j: int| 0 <= j < i ==> self.kept()[j] <= self.kept()[best as int],
            decreases self.kept().len() - i,
        {
            if self.dists[i] > self.dists[best] {
                best = i;
            }
            i = i + 1;
        }
        best
    }

    /// The maximal kept distance (the current worst retained candidate).
    pub fn max_dist(&self) -> (r: u128)
        requires
            self.wf(),
            self.kept().len() > 0,
        ensures
            self.kept().contains(r as int),
            forall|j: int| 0 <= j < self.kept().len() ==> self.kept()[j] <= r as int,
    {
        let mi = self.max_index();
        let d = self.dists[mi];
        proof {
            assert(self.kept().contains(d as int)) by {
                assert(self.kept()[mi as int] == d as int);
            }
        }
        d
    }

    /// The bounded max-heap discipline: if fewer than `n` candidates are
    /// kept, keep this one too; otherwise keep it only if it is strictly
    /// closer than the current worst, evicting that worst.
    pub fn offer(&mut self, slot: usize, dist: u128, n: usize)
        requires
            old(self).wf(),
            n >= 1,
            old(self).kept().len() <= n,
        ensures
            final(self).wf(),
            final(self).kept().len() == if old(self).kept().len() < n {
                old(self).kept().len() + 1
            } else {
                old(self).kept().len() + 0
            },
            // every kept entry is an old entry or the offered one
            forall|i: int|
                0 <= i < final(self).kept().len() ==> #[trigger] entry_ok(
                    final(self).slots(),
                    final(self).kept(),
                    i,
                    old(self).slots(),
                    old(self).kept(),
                    slot as int,
                    dist as int,
                ),
            // the exact multiset transformation, over distances and slots
            if old(self).kept().len() < n {
                &&& final(self).kept().to_multiset() == old(self).kept().to_multiset().insert(
                    dist as int,
                )
                &&& final(self).slots().to_multiset() == old(self).slots().to_multiset().insert(
                    slot as int,
                )
            } else {
                exists|j: int|
                    {
                        &&& 0 <= j < old(self).kept().len()
                        &&& (forall|y: int|
                            0 <= y < old(self).kept().len() ==> #[trigger] old(self).kept()[y]
                                <= old(self).kept()[j])
                        &&& (if dist < old(self).kept()[j] {
                            &&& final(self).kept().to_multiset() == old(self).kept().to_multiset()
                                .remove(old(self).kept()[j]).insert(dist as int)
                            &&& final(self).slots().to_multiset() == old(self).slots()
                                .to_multiset().remove(old(self).slots()[j]).insert(slot as int)
                        } else {
                            *final(self) == *old(self)
                        })
                    }
            },
    {
        if self.dists.len() < n {
            let ghost pre = *self;
            self.slots.push(slot);
            self.dists.push(dist);
            proof {
                broadcast use vstd::seq_lib::group_to_multiset_ensures;

                lemma_map_values_push(pre.dists@, dist, |d: u128| d as int);
                lemma_map_values_push(pre.slots@, slot, |s: usize| s as int);
                assert(self.kept() =~= pre.kept().push(dist as int));
                assert(self.slots() =~= pre.slots().push(slot as int));
                assert forall|i: int| 0 <= i < self.kept().len() implies #[trigger] entry_ok(
                    self.slots(),
                    self.kept(),
                    i,
                    pre.slots(),
                    pre.kept(),
                    slot as int,
                    dist as int,
                ) by {
                    if i < pre.kept().len() {
                        assert(pre.slots()[i] == self.slots()[i] && pre.kept()[i]
                            == self.kept()[i]);
                    }
                }
            }
        } else {
            let mi = self.max_index();
            let ghost m = self.kept()[mi as int];
            if dist < self.dists[mi] {
                let ghost pre = *self;
                self.slots.remove(mi);
                self.dists.remove(mi);
                let ghost mid = *self;
                self.slots.push(slot);
                self.dists.push(dist);
                proof {
                    broadcast use vstd::seq_lib::group_to_multiset_ensures;

                    lemma_map_values_remove(pre.dists@, mi as int, |d: u128| d as int);
                    lemma_map_values_remove(pre.slots@, mi as int, |s: usize| s as int);
                    lemma_map_values_push(mid.dists@, dist, |d: u128| d as int);
                    lemma_map_values_push(mid.slots@, slot, |s: usize| s as int);
                    assert(mid.kept() =~= pre.kept().remove(mi as int));
                    assert(mid.slots() =~= pre.slots().remove(mi as int));
                    assert(self.kept() =~= mid.kept().push(dist as int));
                    assert(self.slots() =~= mid.slots().push(slot as int));
                    assert(self.kept().to_multiset() == pre.kept().to_multiset().remove(m).insert(
                        dist as int,
                    ));
                    assert(self.slots().to_multiset() == pre.slots().to_multiset().remove(
                        pre.slots()[mi as int],
                    ).insert(slot as int));
                    assert(0 <= mi < pre.kept().len() && (forall|y: int|
                        0 <= y < pre.kept().len() ==> #[trigger] pre.kept()[y] <= pre.kept()[
                        mi as int]) && dist < pre.kept()[mi as int]);
                    assert forall|i: int| 0 <= i < self.kept().len() implies #[trigger] entry_ok(
                        self.slots(),
                        self.kept(),
                        i,
                        pre.slots(),
                        pre.kept(),
                        slot as int,
                        dist as int,
                    ) by {
                        if i < self.kept().len() - 1 {
                            if i < mi {
                                assert(pre.slots()[i] == self.slots()[i] && pre.kept()[i]
                                    == self.kept()[i]);
                            } else {
                                assert(pre.slots()[i + 1] == self.slots()[i] && pre.kept()[i + 1]
                                    == self.kept()[i]);
                            }
                        }
                    }
                }
            }
        }
    }

    /// Remove and return a maximal candidate (slot, distance).
    pub fn extract_max(&mut self) -> (r: (usize, u128))
        requires
            old(self).wf(),
            old(self).kept().len() > 0,
        ensures
            final(self).wf(),
            final(self).kept().len() == old(self).kept().len() - 1,
            // the returned pair was kept
            exists|j: int|
                0 <= j < old(self).kept().len() && old(self).slots()[j] == r.0 as int && old(
                    self,
                ).kept()[j] == r.1 as int,
            // it is a maximum
            forall|j: int| 0 <= j < old(self).kept().len() ==> old(self).kept()[j] <= r.1 as int,
            // the rest is kept unchanged
            final(self).kept().to_multiset() == old(self).kept().to_multiset().remove(r.1 as int),
            forall|i: int|
                0 <= i < final(self).kept().len() ==> #[trigger] entry_from(
                    final(self).slots(),
                    final(self).kept(),
                    i,
                    old(self).slots(),
                    old(self).kept(),
                ),
    {
        let mi = self.max_index();
        let s = self.slots[mi];
        let d = self.dists[mi];
        let ghost pre = *self;
        self.slots.remove(mi);
        self.dists.remove(mi);
        proof {
            broadcast use vstd::seq_lib::group_to_multiset_ensures;

            assert(pre.slots()[mi as int] == s as int && pre.kept()[mi as int] == d as int);
            lemma_map_values_remove(pre.dists@, mi as int, |x: u128| x as int);
            lemma_map_values_remove(pre.slots@, mi as int, |x: usize| x as int);
            assert(self.kept() =~= pre.kept().remove(mi as int));
            assert(self.slots() =~= pre.slots().remove(mi as int));
            assert forall|i: int| 0 <= i < self.kept().len() implies #[trigger] entry_from(
                self.slots(),
                self.kept(),
                i,
                pre.slots(),
                pre.kept(),
            ) by {
                if i < mi {
                    assert(pre.slots()[i] == self.slots()[i] && pre.kept()[i] == self.kept()[i]);
                } else {
                    assert(pre.slots()[i + 1] == self.slots()[i] && pre.kept()[i + 1]
                        == self.kept()[i]);
                }
            }
        }
        (s, d)
    }
}

/// Mapping a value over a pushed sequence pushes the mapped value.
pub proof fn lemma_map_values_push<A, B>(s: Seq<A>, x: A, f: spec_fn(A) -> B)
    ensures
        (s.push(x)).map_values(f) =~= s.map_values(f).push(f(x)),
{
}

/// Mapping a value over a sequence commutes with removal.
pub proof fn lemma_map_values_remove<A, B>(s: Seq<A>, i: int, f: spec_fn(A) -> B)
    requires
        0 <= i < s.len(),
    ensures
        (s.remove(i)).map_values(f) =~= s.map_values(f).remove(i),
{
    assert forall|j: int|
        0 <= j < s.len() - 1 implies (s.remove(i)).map_values(f)[j] == s.map_values(f).remove(
        i,
    )[j] by {
        if j < i {
        } else {
        }
    }
}

/// A sub-multiset of the same total size is the same multiset.
pub proof fn lemma_subset_equal_len<A>(a: Multiset<A>, b: Multiset<A>)
    requires
        a.subset_of(b),
        a.len() == b.len(),
    ensures
        a =~= b,
{
    broadcast use vstd::multiset::group_multiset_axioms;

    assert(b =~= a.add(b.sub(a)));
    vstd::multiset::axiom_len_add(a, b.sub(a));
    assert(b.sub(a).len() == 0);
    vstd::multiset::lemma_multiset_empty_len(b.sub(a));
    assert(b.sub(a) =~= Multiset::<A>::empty());
}

/// The induction step of every bounded top-k scan: offering one more
/// distance `d` to a correct top-k of `all` yields a correct top-k of
/// `all.push(d)`, whether `d` was admitted, evicted the worst, or was
/// discarded.
pub proof fn lemma_topk_step(kept: Seq<int>, all: Seq<int>, n: nat, d: int, kept2: Seq<int>)
    requires
        is_topk(kept, all, n),
        n >= 1,
        if kept.len() < n {
            kept2.to_multiset() == kept.to_multiset().insert(d)
        } else {
            exists|m: int|
                {
                    &&& #[trigger] kept.to_multiset().count(m) > 0
                    &&& (forall|y: int| #[trigger] kept.to_multiset().count(y) > 0 ==> y <= m)
                    &&& (if d < m {
                        kept2.to_multiset() == kept.to_multiset().remove(m).insert(d)
                    } else {
                        kept2.to_multiset() == kept.to_multiset()
                    })
                }
        },
    ensures
        is_topk(kept2, all.push(d), n),
{
    broadcast use vstd::seq_lib::group_to_multiset_ensures;
    broadcast use vstd::multiset::group_multiset_axioms;

    let k0 = kept.to_multiset();
    let k2 = kept2.to_multiset();
    let a0 = all.to_multiset();
    let a1 = all.push(d).to_multiset();
    assert(a1 =~= a0.insert(d));
    assert(kept.len() == k0.len());
    assert(kept2.len() == k2.len());
    assert(all.len() == a0.len());
    if kept.len() < n {
        // the store was not yet full, so it held everything seen so far
        assert(kept.len() == all.len());
        lemma_subset_equal_len(k0, a0);
        assert(k2 =~= a0.insert(d));
        assert(k2.len() == k0.len() + 1) by {
            vstd::multiset::lemma_insert_len(k0, d);
        }
        assert forall|x: int| #[trigger]
            a1.count(x) > k2.count(x) implies (forall|y: int|
            #[trigger] k2.count(y) > 0 ==> y <= x) by {
            assert(a1.count(x) == k2.count(x));
        }
        assert(is_topk(kept2, all.push(d), n));
    } else {
        assert(kept.len() == n);
        assert(all.len() >= n);
        let m = choose|m: int|
            {
                &&& #[trigger] kept.to_multiset().count(m) > 0
                &&& (forall|y: int| #[trigger] kept.to_multiset().count(y) > 0 ==> y <= m)
                &&& (if d < m {
                    kept2.to_multiset() == kept.to_multiset().remove(m).insert(d)
                } else {
                    kept2.to_multiset() == kept.to_multiset()
                })
            };
        if d < m {
            assert(k2 =~= k0.remove(m).insert(d));
            assert(k2.len() == k0.len()) by {
                assert(k0.remove(m).insert(m) =~= k0);
                vstd::multiset::lemma_insert_len(k0.remove(m), m);
                vstd::multiset::lemma_insert_len(k0.remove(m), d);
            }
            // sub-multiset: counts only moved from m to d
            assert forall|x: int| #[trigger] k2.count(x) <= a1.count(x) by {
                assert(k0.count(x) <= a0.count(x));
            }
            assert(k2.subset_of(a1));
            assert forall|x: int| #[trigger]
                a1.count(x) > k2.count(x) implies (forall|y: int|
                #[trigger] k2.count(y) > 0 ==> y <= x) by {
                assert forall|y: int| #[trigger] k2.count(y) > 0 implies y <= x by {
                    // y is the new candidate or an old kept one
                    if y != d {
                        assert(k0.count(y) > 0);
                    }
                    if x == m {
                        assert(y <= m);
                    } else if x == d {
                        assert(a0.count(d) > k0.count(d));
                    } else {
                        assert(a0.count(x) > k0.count(x));
                        assert(m <= x);
                    }
                }
            }
            assert(is_topk(kept2, all.push(d), n));
        } else {
            assert(k2 =~= k0);
            assert forall|x: int| #[trigger]
                a1.count(x) > k2.count(x) implies (forall|y: int|
                #[trigger] k2.count(y) > 0 ==> y <= x) by {
                assert forall|y: int| #[trigger] k2.count(y) > 0 implies y <= x by {
                    if x == d {
                        assert(y <= m);
                    } else {
                        assert(a0.count(x) > k0.count(x));
                    }
                }
            }
            assert(is_topk(kept2, all.push(d), n));
        }
    }
}

/// The k-set equivalence law: any two correct bounded top-`n` selections
/// from the same distances keep the same multiset of distances.  In
/// particular, a k-nearest search and a brute-force scan that both satisfy
/// `is_topk` must agree on their distances, up to order.
pub proof fn lemma_topk_unique(a: Seq<int>, b: Seq<int>, all: Seq<int>, n: nat)
    requires
        is_topk(a, all, n),
        is_topk(b, all, n),
    ensures
        a.to_multiset() == b.to_multiset(),
{
    broadcast use vstd::seq_lib::group_to_multiset_ensures;
    broadcast use vstd::multiset::group_multiset_axioms;

    let ma = a.to_multiset();
    let mb = b.to_multiset();
    let mall = all.to_multiset();
    assert(ma.len() == mb.len());
    if ma.subset_of(mb) {
        lemma_subset_equal_len(ma, mb);
    } else if mb.subset_of(ma) {
        lemma_subset_equal_len(mb, ma);
        assert(ma =~= mb);
    } else {
        let z = choose|z: int| ma.count(z) > mb.count(z);
        let x = choose|x: int| mb.count(x) > ma.count(x);
        assert(mall.count(x) >= mb.count(x));
        assert(mall.count(x) > ma.count(x));
        assert(ma.count(z) > 0);
        assert(z <= x);
        assert(mall.count(z) >= ma.count(z));
        assert(mall.count(z) > mb.count(z));
        assert(mb.count(x) > 0);
        assert(x <= z);
        assert(false);
    }
}

/// The nearest-neighbor law: a correct top-1 selection holds exactly the
/// minimum of all the distances.
pub proof fn lemma_top1_is_min(kept: Seq<int>, all: Seq<int>)
    requires
        is_topk(kept, all, 1),
        all.len() >= 1,
    ensures
        kept.len() == 1,
        all.contains(kept[0]),
        forall|j: int| 0 <= j < all.len() ==> kept[0] <= #[trigger] all[j],
{
    broadcast use vstd::seq_lib::group_to_multiset_ensures;

    assert(kept.to_multiset().count(kept[0]) > 0) by {
        assert(kept.contains(kept[0]));
    }
    assert(all.to_multiset().count(kept[0]) > 0);
    assert(all.contains(kept[0]));
    assert forall|j: int| 0 <= j < all.len() implies kept[0] <= #[trigger] all[j] by {
        let v = all[j];
        if all.to_multiset().count(v) > kept.to_multiset().count(v) {
            assert(kept[0] <= v);
        } else {
            assert(all.to_multiset().count(v) > 0) by {
                assert(all.contains(v));
            }
            assert(kept.to_multiset().count(v) > 0);
            assert(kept.contains(v));
            let i = choose|i: int| 0 <= i < kept.len() && kept[i] == v;
            assert(i == 0);
        }
    }
}

/// The sequence is sorted in descending order.
pub open spec fn sorted_desc(s: Seq<int>) -> bool {
    forall|i: int, j: int| #![trigger s[i], s[j]] 0 <= i <= j < s.len() ==> s[i] >= s[j]
}

/// The idempotence law: a descending-sorted sequence is determined by its
/// multiset, so two sorted answers with the same kept distances are
/// bit-identical.
pub proof fn lemma_sorted_desc_unique(a: Seq<int>, b: Seq<int>)
    requires
        sorted_desc(a),
        sorted_desc(b),
        a.to_multiset() == b.to_multiset(),
    ensures
        a == b,
    decreases a.len(),
{
    broadcast use vstd::seq_lib::group_to_multiset_ensures;

    vstd::seq_lib::to_multiset_len(a);
    vstd::seq_lib::to_multiset_len(b);
    assert(a.len() == b.len());
    if a.len() == 0 {
        assert(a =~= b);
    } else {
        assert(b.to_multiset().count(a[0]) > 0) by {
            assert(a.contains(a[0]));
        }
        assert(b.contains(a[0]));
        let jb = choose|j: int| 0 <= j < b.len() && b[j] == a[0];
        assert(b[0] >= a[0]);
        assert(a.to_multiset().count(b[0]) > 0) by {
            assert(b.contains(b[0]));
        }
        assert(a.contains(b[0]));
        let ja = choose|j: int| 0 <= j < a.len() && a[j] == b[0];
        assert(a[0] >= b[0]);
        let a1 = a.remove(0);
        let b1 = b.remove(0);
        assert(a1.to_multiset() == b1.to_multiset());
        assert(sorted_desc(a1)) by {
            assert forall|i: int, j: int|
                #![trigger a1[i], a1[j]]
                0 <= i <= j < a1.len() implies a1[i] >= a1[j] by {
                assert(a1[i] == a[i + 1] && a1[j] == a[j + 1]);
            }
        }
        assert(sorted_desc(b1)) by {
            assert forall|i: int, j: int|
                #![trigger b1[i], b1[j]]
                0 <= i <= j < b1.len() implies b1[i] >= b1[j] by {
                assert(b1[i] == b[i + 1] && b1[j] == b[j + 1]);
            }
        }
        lemma_sorted_desc_unique(a1, b1);
        assert(a =~= b) by {
            assert forall|i: int| 0 <= i < a.len() implies a[i] == b[i] by {
                if i > 0 {
                    assert(a[i] == a1[i - 1] && b[i] == b1[i - 1]);
                }
            }
        }
    }
}

/// Two descending-sorted correct bounded top-`n` selections from the same
/// distances are bit-identical: with `lemma_topk_unique` they keep the same
/// multiset, and a sorted sequence is determined by its multiset.  So any
/// two runs of a correct search — over the same tree or over trees holding
/// the same points — return the same distance sequence.
pub proof fn lemma_sorted_topk_unique(a: Seq<int>, b: Seq<int>, all: Seq<int>, n: nat)
    requires
        sorted_desc(a),
        sorted_desc(b),
        is_topk(a, all, n),
        is_topk(b, all, n),
    ensures
        a == b,
{
    lemma_topk_unique(a, b, all, n);
    lemma_sorted_desc_unique(a, b);
}

/// Mapping a function over two sequences that are permutations of each
/// other yields permutations: used to show that query answers depend only
/// on the set of stored points, not on insertion order.
pub proof fn lemma_map_values_multiset<A, B>(a: Seq<A>, b: Seq<A>, f: spec_fn(A) -> B)
    requires
        a.to_multiset() == b.to_multiset(),
    ensures
        a.map_values(f).to_multiset() == b.map_values(f).to_multiset(),
    decreases a.len(),
{
    broadcast use vstd::seq_lib::group_to_multiset_ensures;

    vstd::seq_lib::to_multiset_len(a);
    vstd::seq_lib::to_multiset_len(b);
    assert(a.len() == b.len());
    let am = a.map_values(f);
    let bm = b.map_values(f);
    if a.len() == 0 {
        assert(am =~= Seq::<B>::empty());
        assert(bm =~= Seq::<B>::empty());
    } else {
        let x = a[0];
        assert(b.to_multiset().count(x) > 0) by {
            assert(a.contains(x));
        }
        assert(b.contains(x));
        let j = choose|j: int| 0 <= j < b.len() && b[j] == x;
        let a1 = a.remove(0);
        let b1 = b.remove(j);
        assert(a1.to_multiset() == b1.to_multiset());
        lemma_map_values_multiset(a1, b1, f);
        lemma_map_values_remove(a, 0, f);
        lemma_map_values_remove(b, j, f);
        assert(am.remove(0).to_multiset() == am.to_multiset().remove(f(x))) by {
            assert(am[0] == f(x));
        }
        assert(bm.remove(j).to_multiset() == bm.to_multiset().remove(f(x))) by {
            assert(bm[j] == f(x));
        }
        assert(a1.map_values(f) =~= am.remove(0));
        assert(b1.map_values(f) =~= bm.remove(j));
        assert(am.to_multiset().count(f(x)) > 0) by {
            assert(am[0] == f(x));
            assert(am.contains(f(x)));
        }
        assert(bm.to_multiset().count(f(x)) > 0) by {
            assert(bm[j] == f(x));
            assert(bm.contains(f(x)));
        }
        assert(am.to_multiset() =~= bm.to_multiset()) by {
            broadcast use vstd::multiset::group_multiset_axioms;

            assert forall|v: B| am.to_multiset().count(v) == bm.to_multiset().count(v) by {
                assert(am.to_multiset().remove(f(x)).count(v) == bm.to_multiset().remove(
                    f(x),
                ).count(v));
            }
        }
    }
}

} // verus!
