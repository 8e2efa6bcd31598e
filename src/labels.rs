//! Label sets: the names and values that identify a log stream.
use vstd::prelude::*;

verus! {

/// A label pair as the contracts see it.
pub type LabelView = (Seq<char>, Seq<char>);

pub open spec fn pair_view(p: (String, String)) -> LabelView {
    (p.0@, p.1@)
}

pub open spec fn pairs_view(v: Seq<(String, String)>) -> Seq<LabelView> {
    v.map_values(|p: (String, String)| pair_view(p))
}

/// The label set that a list of pairs denotes when a later pair replaces an
/// earlier one with the same name.
pub open spec fn pairs_to_labels(v: Seq<LabelView>) -> Set<LabelView> {
    Set::new(|p: LabelView| exists|i: int| 0 <= i < v.len() && v[i] == p && #[trigger] last_of_name(v, i))
}

/// A set of label pairs in which no name occurs twice: a map from label
/// names to values. Two streams are the same stream when their label sets
/// are equal.
#[derive(Debug)]
pub struct Labels {
    pairs: Vec<(String, String)>,
}

impl View for Labels {
    type V = Set<LabelView>;

    closed spec fn view(&self) -> Set<LabelView> {
        pairs_view(self.pairs@).to_set()
    }
}

impl Labels {
    #[verifier::type_invariant]
    closed spec fn names_unique(&self) -> bool {
        forall|i: int, j: int|
            0 <= i < j < self.pairs@.len() ==> (#[trigger] self.pairs@[i]).0@ != (#[trigger] self.pairs@[j]).0@
    }

    /// The label set of `pairs`; where a name occurs more than once, the last
    /// value given for it stands.
    pub fn from_pairs(pairs: Vec<(String, String)>) -> (r: Labels)
        ensures
            r@ == pairs_to_labels(pairs_view(pairs@)),
    {
        let ghost src = pairs_view(pairs@);
        let mut kept: Vec<(String, String)> = Vec::new();
        let mut k: usize = pairs.len();
        proof {
            assert(kept_from(src, k as int, pairs_view(kept@)));
        }
        while k > 0
            invariant
                k <= pairs@.len(),
                src == pairs_view(pairs@),
                kept_from(src, k as int, pairs_view(kept@)),
            decreases k,
        {
            k = k - 1;
            let ghost before = pairs_view(kept@);
            let mut found = false;
            let mut m: usize = 0;
            while m < kept.len() && !found
                invariant
                    m <= kept@.len(),
                    before == pairs_view(kept@),
                    src == pairs_view(pairs@),
                    k < pairs@.len(),
                    found ==> exists|i: int| 0 <= i < before.len() && (#[trigger] before[i]).0 == src[k as int].0,
                    !found ==> forall|i: int| 0 <= i < m ==> (#[trigger] before[i]).0 != src[k as int].0,
                decreases kept@.len() - m + if found { 0int } else { 1int },
            {
                if kept[m].0 == pairs[k].0 {
                    proof {
                        assert(before[m as int].0 == src[k as int].0);
                    }
                    found = true;
                } else {
                    m = m + 1;
                }
            }
            proof {
                lemma_kept_from_step(src, k as int, before);
            }
            if !found {
                kept.push((pairs[k].0.clone(), pairs[k].1.clone()));
                proof {
                    assert(pairs_view(kept@) =~= before.push(src[k as int]));
                }
            }
        }
        proof {
            assert(pairs_view(kept@).to_set() =~= pairs_to_labels(src));
            assert forall|i: int, j: int| 0 <= i < j < kept@.len() implies
                (#[trigger] kept@[i]).0@ != (#[trigger] kept@[j]).0@ by {
                assert(pairs_view(kept@)[i].0 != pairs_view(kept@)[j].0);
            }
        }
        Labels { pairs: kept }
    }
}

impl Labels {
    /// Whether both sets hold the same pairs.
    pub fn same_as(&self, other: &Labels) -> (r: bool)
        ensures
            r == (self@ == other@),
    {
        let r = holds_all(&self.pairs, &other.pairs) && holds_all(&other.pairs, &self.pairs);
        proof {
            if !r && self@ == other@ {
                assert(self@.subset_of(other@));
                assert(other@.subset_of(self@));
            }
            if r {
                assert(self@ =~= other@);
            }
        }
        r
    }

    /// The pairs of the set, each name once, in no particular order.
    pub fn to_pairs(&self) -> (r: Vec<(String, String)>)
        ensures
            pairs_view(r@).to_set() == self@,
            forall|i: int, j: int|
                0 <= i < j < r@.len() ==> (#[trigger] r@[i]).0@ != (#[trigger] r@[j]).0@,
    {
        proof {
            use_type_invariant(self);
        }
        let r = copy_pairs(&self.pairs);
        proof {
            assert forall|i: int, j: int| 0 <= i < j < r@.len() implies
                (#[trigger] r@[i]).0@ != (#[trigger] r@[j]).0@ by {
                assert(pairs_view(r@).len() == r@.len());
                assert(pairs_view(self.pairs@).len() == self.pairs@.len());
                assert(pairs_view(r@)[i] == pairs_view(self.pairs@)[i]);
                assert(pairs_view(r@)[j] == pairs_view(self.pairs@)[j]);
                assert(self.pairs@[i].0@ != self.pairs@[j].0@);
            }
        }
        r
    }

    /// A copy of the set.
    pub fn duplicate(&self) -> (r: Labels)
        ensures
            r@ == self@,
    {
        proof {
            use_type_invariant(self);
        }
        let pairs = copy_pairs(&self.pairs);
        proof {
            assert forall|i: int, j: int| 0 <= i < j < pairs@.len() implies
                (#[trigger] pairs@[i]).0@ != (#[trigger] pairs@[j]).0@ by {
                assert(pairs_view(pairs@).len() == pairs@.len());
                assert(pairs_view(self.pairs@).len() == self.pairs@.len());
                assert(pairs_view(pairs@)[i] == pairs_view(self.pairs@)[i]);
                assert(pairs_view(pairs@)[j] == pairs_view(self.pairs@)[j]);
                assert(self.pairs@[i].0@ != self.pairs@[j].0@);
            }
        }
        Labels { pairs }
    }
}

impl PartialEq for Labels {
    fn eq(&self, other: &Labels) -> (r: bool) {
        self.same_as(other)
    }
}

impl vstd::std_specs::cmp::PartialEqSpecImpl for Labels {
    open spec fn obeys_eq_spec() -> bool {
        true
    }

    open spec fn eq_spec(&self, other: &Labels) -> bool {
        self@ == other@
    }
}

/// A copy of a list of pairs.
pub fn copy_pairs(v: &Vec<(String, String)>) -> (r: Vec<(String, String)>)
    ensures
        pairs_view(r@) == pairs_view(v@),
{
    let mut r: Vec<(String, String)> = Vec::new();
    let mut i: usize = 0;
    while i < v.len()
        invariant
            i <= v@.len(),
            pairs_view(r@) =~= pairs_view(v@).subrange(0, i as int),
        decreases v@.len() - i,
    {
        let ghost before = r@;
        let p = (v[i].0.clone(), v[i].1.clone());
        r.push(p);
        proof {
            assert(r@ == before.push(p));
            assert(pairs_view(r@) =~= pairs_view(before).push(pair_view(v@[i as int])));
        }
        i = i + 1;
    }
    proof {
        assert(pairs_view(v@).subrange(0, i as int) =~= pairs_view(v@));
    }
    r
}

/// Whether every pair of `a` is also in `b`.
fn holds_all(a: &Vec<(String, String)>, b: &Vec<(String, String)>) -> (r: bool)
    ensures
        r == pairs_view(a@).to_set().subset_of(pairs_view(b@).to_set()),
{
    let mut i: usize = 0;
    while i < a.len()
        invariant
            i <= a@.len(),
            forall|k: int| 0 <= k < i ==> pairs_view(b@).contains(#[trigger] pairs_view(a@)[k]),
        decreases a@.len() - i,
    {
        let mut found = false;
        let mut j: usize = 0;
        while j < b.len() && !found
            invariant
                j <= b@.len(),
                i < a@.len(),
                found ==> pairs_view(b@).contains(pairs_view(a@)[i as int]),
                !found ==> forall|k: int| 0 <= k < j ==> (#[trigger] pairs_view(b@)[k]) != pairs_view(a@)[i as int],
            decreases b@.len() - j + if found { 0int } else { 1int },
        {
            if b[j].0 == a[i].0 && b[j].1 == a[i].1 {
                proof {
                    assert(pairs_view(b@)[j as int] == pairs_view(a@)[i as int]);
                }
                found = true;
            } else {
                j = j + 1;
            }
        }
        if !found {
            proof {
                assert(pairs_view(a@).to_set().contains(pairs_view(a@)[i as int]));
                assert(!pairs_view(b@).contains(pairs_view(a@)[i as int]));
            }
            return false;
        }
        i = i + 1;
    }
    proof {
        assert forall|p: LabelView| pairs_view(a@).to_set().contains(p) implies pairs_view(b@).to_set().contains(p) by {
            let k = choose|k: int| 0 <= k < pairs_view(a@).len() && pairs_view(a@)[k] == p;
        }
    }
    true
}

/// Whether `src[i]` is the last pair of `src` with its name.
pub open spec fn last_of_name(src: Seq<LabelView>, i: int) -> bool {
    forall|j: int| i < j < src.len() ==> (#[trigger] src[j]).0 != src[i].0
}

/// `kept` holds, once each, the pairs of `src` from `k` on that no later
/// pair overrides.
spec fn kept_from(src: Seq<LabelView>, k: int, kept: Seq<LabelView>) -> bool {
    &&& 0 <= k <= src.len()
    &&& forall|i: int, j: int| 0 <= i < j < kept.len() ==> (#[trigger] kept[i]).0 != (#[trigger] kept[j]).0
    &&& forall|p: LabelView|
        kept.contains(p) <==> exists|i: int| k <= i < src.len() && src[i] == p && #[trigger] last_of_name(src, i)
    &&& forall|q: int| 0 <= q < kept.len() ==> exists|i: int| k <= i < src.len() && src[i].0 == (#[trigger] kept[q]).0
    &&& forall|i: int| k <= i < src.len() ==> exists|q: int| 0 <= q < kept.len() && kept[q].0 == (#[trigger] src[i]).0
}

proof fn lemma_kept_from_step(src: Seq<LabelView>, k: int, kept: Seq<LabelView>)
    requires
        0 <= k < src.len(),
        kept_from(src, k + 1, kept),
    ensures
        (exists|q: int| 0 <= q < kept.len() && (#[trigger] kept[q]).0 == src[k].0) ==> kept_from(src, k, kept),
        (forall|q: int| 0 <= q < kept.len() ==> (#[trigger] kept[q]).0 != src[k].0) ==> kept_from(
            src,
            k,
            kept.push(src[k]),
        ),
{
    if exists|q: int| 0 <= q < kept.len() && (#[trigger] kept[q]).0 == src[k].0 {
        let q = choose|q: int| 0 <= q < kept.len() && (#[trigger] kept[q]).0 == src[k].0;
        let i2 = choose|i: int| k + 1 <= i < src.len() && src[i].0 == (#[trigger] kept[q]).0;
        assert(!last_of_name(src, k));
        assert forall|p: LabelView|
            kept.contains(p) <==> exists|i: int| k <= i < src.len() && src[i] == p && #[trigger] last_of_name(src, i) by {
            if exists|i: int| k <= i < src.len() && src[i] == p && #[trigger] last_of_name(src, i) {
                let i = choose|i: int| k <= i < src.len() && src[i] == p && #[trigger] last_of_name(src, i);
                assert(i != k);
            }
        }
        assert forall|i: int| k <= i < src.len() implies exists|q: int| 0 <= q < kept.len() && kept[q].0 == (#[trigger] src[i]).0 by {
            if i == k {
                assert(kept[q].0 == src[i].0);
            }
        }
    }
    if forall|q: int| 0 <= q < kept.len() ==> (#[trigger] kept[q]).0 != src[k].0 {
        let r = kept.push(src[k]);
        assert(last_of_name(src, k)) by {
            assert forall|j: int| k < j < src.len() implies (#[trigger] src[j]).0 != src[k].0 by {
                let q = choose|q: int| 0 <= q < kept.len() && kept[q].0 == (#[trigger] src[j]).0;
            }
        }
        assert forall|p: LabelView|
            r.contains(p) <==> exists|i: int| k <= i < src.len() && src[i] == p && #[trigger] last_of_name(src, i) by {
            if r.contains(p) {
                let q = choose|q: int| 0 <= q < r.len() && r[q] == p;
                if q < kept.len() {
                    assert(kept[q] == p);
                    assert(kept.contains(p));
                } else {
                    assert(src[k] == p);
                }
            }
            if exists|i: int| k <= i < src.len() && src[i] == p && #[trigger] last_of_name(src, i) {
                let i = choose|i: int| k <= i < src.len() && src[i] == p && #[trigger] last_of_name(src, i);
                if i == k {
                    assert(r[kept.len() as int] == p);
                } else {
                    assert(kept.contains(p));
                    let q = choose|q: int| 0 <= q < kept.len() && kept[q] == p;
                    assert(r[q] == p);
                }
            }
        }
        assert forall|q: int| 0 <= q < r.len() implies exists|i: int| k <= i < src.len() && src[i].0 == (#[trigger] r[q]).0 by {
            if q < kept.len() {
                assert(r[q] == kept[q]);
            } else {
                assert(src[k].0 == r[q].0);
            }
        }
        assert forall|i: int| k <= i < src.len() implies exists|q: int| 0 <= q < r.len() && r[q].0 == (#[trigger] src[i]).0 by {
            if i == k {
                assert(r[kept.len() as int].0 == src[i].0);
            } else {
                let q = choose|q: int| 0 <= q < kept.len() && kept[q].0 == (#[trigger] src[i]).0;
                assert(r[q] == kept[q]);
            }
        }
        assert forall|i: int, j: int| 0 <= i < j < r.len() implies (#[trigger] r[i]).0 != (#[trigger] r[j]).0 by {
            if j == kept.len() {
                assert(r[i] == kept[i]);
            } else {
                assert(r[i] == kept[i] && r[j] == kept[j]);
            }
        }
    }
}

} // verus!
