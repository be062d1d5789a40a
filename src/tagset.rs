//! A set of tags held as a strictly sorted vector of byte strings.
use vstd::prelude::*;
use crate::order::{bytes_lt, compare_bytes, lemma_lt_irreflexive, lemma_lt_total, lemma_lt_transitive, strictly_sorted};

verus! {

/// The byte strings held by a vector of tags, in order.
pub open spec fn tags_view(v: Seq<Vec<u8>>) -> Seq<Seq<u8>> {
    v.map_values(|t: Vec<u8>| t@)
}

/// Two strictly sorted sequences that hold the same elements are equal: the
/// sorted form of a set is unique.
pub proof fn lemma_sorted_unique(a: Seq<Seq<u8>>, b: Seq<Seq<u8>>)
    requires
        strictly_sorted(a),
        strictly_sorted(b),
        a.to_set() == b.to_set(),
    ensures
        a == b,
    decreases a.len(),
{
    if a.len() == 0 {
        if b.len() > 0 {
            assert(b.to_set().contains(b[0]));
        }
        assert(a =~= b);
    } else {
        assert(a.to_set().contains(a[0]));
        assert(b.contains(a[0]));
        let j = choose|j: int| 0 <= j < b.len() && b[j] == a[0];
        assert(b.to_set().contains(b[0]));
        assert(a.contains(b[0]));
        let k = choose|k: int| 0 <= k < a.len() && a[k] == b[0];
        if j > 0 {
            if k > 0 {
                lemma_lt_total(a[0], a[k]);
            } else {
                lemma_lt_irreflexive(a[0]);
            }
        }
        assert(j == 0);
        let a1 = a.drop_first();
        let b1 = b.drop_first();
        assert forall|x: Seq<u8>| a1.to_set().contains(x) <==> b1.to_set().contains(x) by {
            if a1.contains(x) {
                let i = choose|i: int| 0 <= i < a1.len() && a1[i] == x;
                assert(a.contains(x)) by { assert(a[i + 1] == x); }
                assert(b.to_set().contains(x));
                let m = choose|m: int| 0 <= m < b.len() && b[m] == x;
                lemma_lt_irreflexive(x);
                assert(m != 0);
                assert(b1[m - 1] == x);
            }
            if b1.contains(x) {
                let i = choose|i: int| 0 <= i < b1.len() && b1[i] == x;
                assert(b.contains(x)) by { assert(b[i + 1] == x); }
                assert(a.to_set().contains(x));
                let m = choose|m: int| 0 <= m < a.len() && a[m] == x;
                lemma_lt_irreflexive(x);
                assert(m != 0);
                assert(a1[m - 1] == x);
            }
        }
        assert(a1.to_set() =~= b1.to_set());
        lemma_sorted_unique(a1, b1);
        assert(a =~= seq![a[0]] + a1);
        assert(b =~= seq![b[0]] + b1);
    }
}

/// Adds `t` to a sorted vector of tags, keeping it sorted; does nothing where
/// `t` is already there.
pub fn insert_sorted(tags: &mut Vec<Vec<u8>>, t: Vec<u8>)
    requires
        strictly_sorted(tags_view(old(tags)@)),
    ensures
        strictly_sorted(tags_view(final(tags)@)),
        tags_view(final(tags)@).to_set() == tags_view(old(tags)@).to_set().insert(t@),
{
    let ghost v = tags_view(tags@);
    let mut i: usize = 0;
    let mut found_greater = false;
    while !found_greater && i < tags.len()
        invariant
            tags_view(tags@) == v,
            strictly_sorted(v),
            0 <= i <= v.len(),
            forall|k: int| 0 <= k < i ==> bytes_lt(#[trigger] v[k], t@),
            found_greater ==> i < v.len() && bytes_lt(t@, v[i as int]),
        decreases v.len() - i + (if found_greater { 0int } else { 1int }),
    {
        let c = compare_bytes(tags[i].as_slice(), t.as_slice());
        if c == 0 {
            proof {
                assert(v[i as int] == t@);
                assert(v.to_set().insert(t@) =~= v.to_set());
            }
            return;
        }
        if c > 0 {
            found_greater = true;
        } else {
            i = i + 1;
        }
    }
    let ghost tv = t@;
    tags.insert(i, t);
    proof {
        let w = tags_view(tags@);
        assert(w =~= v.insert(i as int, tv));
        assert forall|p: int, q: int| 0 <= p < q < w.len() implies bytes_lt(#[trigger] w[p], #[trigger] w[q]) by {
            if q < i {
            } else if p < i && q == i {
            } else if p < i {
                if q - 1 > i {
                    lemma_lt_transitive(tv, v[i as int], v[q - 1]);
                }
                lemma_lt_transitive(v[p], tv, v[q - 1]);
            } else if p == i {
                if q - 1 > i {
                    lemma_lt_transitive(tv, v[i as int], v[q - 1]);
                }
            }
        }
        assert forall|x: Seq<u8>| w.contains(x) <==> v.contains(x) || x == tv by {
            if w.contains(x) {
                let m = choose|m: int| 0 <= m < w.len() && w[m] == x;
                if m < i {
                    assert(v[m] == x);
                } else if m > i {
                    assert(v[m - 1] == x);
                }
            }
            if v.contains(x) {
                let m = choose|m: int| 0 <= m < v.len() && v[m] == x;
                if m < i {
                    assert(w[m] == x);
                } else {
                    assert(w[m + 1] == x);
                }
            }
            if x == tv {
                assert(w[i as int] == x);
            }
        }
        assert(w.to_set() =~= v.to_set().insert(tv));
    }
}

/// Takes `t` out of a sorted vector of tags; does nothing where it is absent.
pub fn remove_sorted(tags: &mut Vec<Vec<u8>>, t: &[u8])
    requires
        strictly_sorted(tags_view(old(tags)@)),
    ensures
        strictly_sorted(tags_view(final(tags)@)),
        tags_view(final(tags)@).to_set() == tags_view(old(tags)@).to_set().remove(t@),
{
    let ghost v = tags_view(tags@);
    let mut i: usize = 0;
    while i < tags.len()
        invariant
            tags_view(tags@) == v,
            v == tags_view(old(tags)@),
            strictly_sorted(v),
            0 <= i <= v.len(),
            forall|k: int| 0 <= k < i ==> #[trigger] v[k] != t@,
        decreases v.len() - i,
    {
        let c = compare_bytes(tags[i].as_slice(), t);
        if c == 0 {
            assert(v[i as int] == t@);
            tags.remove(i);
            proof {
                let w = tags_view(tags@);
                assert(w =~= v.remove(i as int));
                assert forall|k: int| 0 <= k < v.len() && k != i implies #[trigger] v[k] != t@ by {
                    if k < i {
                        assert(bytes_lt(v[k], v[i as int]));
                    } else {
                        assert(bytes_lt(v[i as int], v[k]));
                    }
                    lemma_lt_irreflexive(t@);
                }
                assert forall|x: Seq<u8>| w.contains(x) <==> v.contains(x) && x != t@ by {
                    if w.contains(x) {
                        let m = choose|m: int| 0 <= m < w.len() && w[m] == x;
                        if m < i {
                            assert(v[m] == x);
                        } else {
                            assert(v[m + 1] == x);
                        }
                    }
                    if v.contains(x) && x != t@ {
                        let m = choose|m: int| 0 <= m < v.len() && v[m] == x;
                        if m < i {
                            assert(w[m] == x);
                        } else {
                            assert(m != i);
                            assert(w[m - 1] == x);
                        }
                    }
                }
                assert(w.to_set() =~= v.to_set().remove(t@));
            }
            return;
        }
        i = i + 1;
    }
    assert forall|x: Seq<u8>| v.contains(x) implies x != t@ by {
        let m = choose|m: int| 0 <= m < v.len() && v[m] == x;
    }
    assert(v.to_set().remove(t@) =~= v.to_set());
}

} // verus!
