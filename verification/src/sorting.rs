//! Ordering helpers: a strict "ranks before" relation per element type and a
//! verified insertion sort over it.

use vstd::multiset::Multiset;
use vstd::prelude::*;

verus! {

broadcast use vstd::seq_lib::group_to_multiset_ensures;

/// Element types with a strict ranking: `a.ranks_before(b)` means `a` must be
/// listed before `b`.
pub trait Ranked: Sized {
    spec fn ranks_before(&self, other: &Self) -> bool;

    fn ranks_before_exec(&self, other: &Self) -> (r: bool)
        ensures
            r == self.ranks_before(other),
    ;

    /// The ranking is a strict weak order: irreflexive, transitive, and
    /// whatever lies between two ranked elements ranks apart from one of them.
    proof fn lemma_strict(a: &Self, b: &Self, c: &Self)
        ensures
            !a.ranks_before(a),
            (a.ranks_before(b) && b.ranks_before(c)) ==> a.ranks_before(c),
            a.ranks_before(c) ==> a.ranks_before(b) || b.ranks_before(c),
    ;
}

/// Neither element ranks before the other.
pub open spec fn ties<T: Ranked>(a: T, b: T) -> bool {
    !a.ranks_before(&b) && !b.ranks_before(&a)
}

/// `r` is `v` rearranged: `r[k]` is `v[p[k]]`, each position of `v` used
/// once, and tied elements keep the order they had in `v`.
pub open spec fn stable_arrangement<T: Ranked>(v: Seq<T>, r: Seq<T>, p: Seq<int>) -> bool {
    &&& p.len() == r.len()
    &&& r.len() == v.len()
    &&& forall|k: int| 0 <= k < r.len() ==> 0 <= #[trigger] p[k] < v.len() && r[k] == v[p[k]]
    &&& forall|i: int, j: int| #![trigger p[i], p[j]] 0 <= i < j < r.len() ==> p[i] != p[j]
    &&& forall|i: int, j: int|
        #![trigger r[i], r[j]]
        0 <= i < j < r.len() && ties(r[i], r[j]) ==> p[i] < p[j]
}

/// No element ranks before one listed earlier.
pub open spec fn sorted_by_rank<T: Ranked>(s: Seq<T>) -> bool {
    forall|i: int, j: int| #![trigger s[i], s[j]] 0 <= i < j < s.len() ==> !s[j].ranks_before(&s[i])
}

/// Sorts by the ranking; elements that do not rank apart keep their relative
/// order.
pub fn sort_by_rank<T: Ranked>(v: Vec<T>) -> (r: Vec<T>)
    ensures
        sorted_by_rank(r@),
        r@.to_multiset() == v@.to_multiset(),
        r@.len() == v@.len(),
        exists|p: Seq<int>| stable_arrangement(v@, r@, p),
{
    let mut rest = v;
    let mut out: Vec<T> = Vec::new();
    let ghost orig = rest@;
    let ghost mut idx: Seq<int> = Seq::empty();
    assert(orig.subrange(0, orig.len() as int) =~= orig);
    while rest.len() > 0
        invariant
            sorted_by_rank(out@),
            out@.to_multiset().add(rest@.to_multiset()) == orig.to_multiset(),
            out@.len() <= orig.len(),
            rest@ == orig.subrange(out@.len() as int, orig.len() as int),
            idx.len() == out@.len(),
            forall|k: int|
                0 <= k < out@.len() ==> 0 <= #[trigger] idx[k] < out@.len() && out@[k]
                    == orig[idx[k]],
            forall|i: int, j: int| #![trigger idx[i], idx[j]] 0 <= i < j < out@.len() ==> idx[i] != idx[j],
            forall|i: int, j: int|
                #![trigger out@[i], out@[j]]
                0 <= i < j < out@.len() && ties(out@[i], out@[j]) ==> idx[i] < idx[j],
        decreases rest.len(),
    {
        let ghost before_rest = rest@;
        let ghost m = out@.len() as int;
        let x = rest.remove(0);
        proof {
            assert(x == orig[m]);
            assert(rest@ =~= orig.subrange(m + 1, orig.len() as int));
        }
        proof {
            assert(before_rest.remove(0).to_multiset() == before_rest.to_multiset().remove(x));
            assert(before_rest.to_multiset().count(x) > 0) by {
                assert(before_rest.contains(x));
            }
        }
        let n = out.len();
        let mut pos: usize = 0;
        while pos < n && !x.ranks_before_exec(&out[pos])
            invariant
                0 <= pos <= n,
                n == out@.len(),
                forall|k: int| 0 <= k < pos ==> !x.ranks_before(&out@[k]),
            decreases n - pos,
        {
            pos = pos + 1;
        }
        let ghost old_out = out@;
        let ghost old_idx = idx;
        out.insert(pos, x);
        proof {
            old_out.insert_ensures(pos as int, x);
            idx = old_idx.insert(pos as int, m);
            assert forall|k: int| 0 <= k < out@.len() implies 0 <= #[trigger] idx[k] < out@.len()
                && out@[k] == orig[idx[k]] by {
                if k < pos {
                    assert(idx[k] == old_idx[k]);
                } else if k > pos {
                    assert(idx[k] == old_idx[k - 1]);
                }
            }
            assert forall|i: int, j: int| #![trigger idx[i], idx[j]] 0 <= i < j < out@.len()
                implies idx[i] != idx[j] by {
                if i < pos && j < pos {
                    assert(idx[i] == old_idx[i] && idx[j] == old_idx[j]);
                } else if i < pos && j > pos {
                    assert(idx[i] == old_idx[i] && idx[j] == old_idx[j - 1]);
                } else if i > pos {
                    assert(idx[i] == old_idx[i - 1] && idx[j] == old_idx[j - 1]);
                } else if i == pos {
                    assert(idx[j] == old_idx[j - 1]);
                } else {
                    assert(idx[i] == old_idx[i]);
                }
            }
            assert forall|i: int, j: int|
                #![trigger out@[i], out@[j]]
                0 <= i < j < out@.len() && ties(out@[i], out@[j]) implies idx[i] < idx[j] by {
                if j < pos {
                    assert(out@[i] == old_out[i] && out@[j] == old_out[j]);
                    assert(idx[i] == old_idx[i] && idx[j] == old_idx[j]);
                } else if j == pos {
                    assert(idx[i] == old_idx[i]);
                } else if i == pos {
                    // x ranks before old_out[pos]; nothing after it ties with x
                    let y = old_out[j - 1];
                    let p = old_out[pos as int];
                    assert(out@[j] == y);
                    if j - 1 > pos {
                        assert(!y.ranks_before(&p));
                    }
                    T::lemma_strict(&x, &y, &p);
                } else if i < pos {
                    assert(out@[i] == old_out[i] && out@[j] == old_out[j - 1]);
                    assert(idx[i] == old_idx[i] && idx[j] == old_idx[j - 1]);
                } else {
                    assert(out@[i] == old_out[i - 1] && out@[j] == old_out[j - 1]);
                    assert(idx[i] == old_idx[i - 1] && idx[j] == old_idx[j - 1]);
                }
            }
            assert forall|i: int, j: int| #![trigger out@[i], out@[j]] 0 <= i < j < out@.len() implies !out@[j].ranks_before(&out@[i]) by {
                if j < pos {
                    assert(out@[i] == old_out[i]);
                    assert(out@[j] == old_out[j]);
                } else if j == pos {
                    assert(out@[i] == old_out[i]);
                } else if i == pos {
                    // j > pos: out[j] == old_out[j - 1]; x ranks before old_out[pos]
                    let y = old_out[j - 1];
                    assert(out@[j] == y);
                    if y.ranks_before(&x) {
                        let p = old_out[pos as int];
                        T::lemma_strict(&y, &x, &p);
                        if j - 1 > pos {
                            assert(!y.ranks_before(&p));
                        } else {
                            T::lemma_strict(&y, &y, &y);
                        }
                    }
                } else if i < pos {
                    assert(out@[i] == old_out[i]);
                    assert(out@[j] == old_out[j - 1]);
                } else {
                    assert(out@[i] == old_out[i - 1]);
                    assert(out@[j] == old_out[j - 1]);
                }
            }
            assert(out@.to_multiset() == old_out.to_multiset().insert(x));
            assert(out@.to_multiset().add(rest@.to_multiset()) =~= orig.to_multiset());
        }
    }
    proof {
        assert(rest@.to_multiset() =~= Multiset::empty());
        assert(out@.to_multiset() =~= orig.to_multiset());
        vstd::seq_lib::to_multiset_len(out@);
        vstd::seq_lib::to_multiset_len(orig);
        assert(stable_arrangement(orig, out@, idx));
    }
    out
}

/// Two orderings of the same elements: same length, each element of one is
/// in the other, and a list without repeats stays without repeats.
pub proof fn lemma_same_elements<T>(a: Seq<T>, b: Seq<T>)
    requires
        a.to_multiset() == b.to_multiset(),
    ensures
        a.len() == b.len(),
        forall|i: int| 0 <= i < a.len() ==> b.contains(#[trigger] a[i]),
        forall|i: int| 0 <= i < b.len() ==> a.contains(#[trigger] b[i]),
        a.no_duplicates() ==> b.no_duplicates(),
{
    vstd::seq_lib::to_multiset_len(a);
    vstd::seq_lib::to_multiset_len(b);
    assert forall|i: int| 0 <= i < a.len() implies b.contains(#[trigger] a[i]) by {
        vstd::seq_lib::to_multiset_contains(a, a[i]);
        vstd::seq_lib::to_multiset_contains(b, a[i]);
        assert(a.contains(a[i]));
    }
    assert forall|i: int| 0 <= i < b.len() implies a.contains(#[trigger] b[i]) by {
        vstd::seq_lib::to_multiset_contains(a, b[i]);
        vstd::seq_lib::to_multiset_contains(b, b[i]);
        assert(b.contains(b[i]));
    }
    if a.no_duplicates() {
        a.lemma_multiset_has_no_duplicates();
        b.lemma_multiset_has_no_duplicates_conv();
    }
}

} // verus!
