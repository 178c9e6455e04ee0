//! Canonical-path sets.
//!
//! A scan works with sets of canonical paths represented as `Vec<String>`
//! whose views are pairwise distinct. This module gives the spec-level
//! vocabulary (`path_views`, `views_distinct`, `spec_dedup`, `spec_diff`),
//! the executable deduplication and difference used by the reconciliation
//! engine, and the sequence lemmas the rest of the crate shares.

use vstd::prelude::*;
use vstd::seq_lib::*;

verus! {

/// The views of a sequence of path strings.
pub open spec fn path_views(v: Seq<String>) -> Seq<Seq<char>> {
    v.map_values(|s: String| s@)
}

/// Every value occurs at most once.
pub open spec fn views_distinct(ps: Seq<Seq<char>>) -> bool {
    forall|i: int, j: int| 0 <= i < j < ps.len() ==> ps[i] != ps[j]
}

/// `ps` with later duplicates dropped: each value keeps its first
/// occurrence's position.
pub open spec fn spec_dedup(ps: Seq<Seq<char>>) -> Seq<Seq<char>>
    decreases ps.len(),
{
    if ps.len() == 0 {
        Seq::empty()
    } else {
        let rest = spec_dedup(ps.drop_last());
        if rest.contains(ps.last()) {
            rest
        } else {
            rest.push(ps.last())
        }
    }
}

/// The elements of `a` that do not occur in `b`, in `a`'s order.
pub open spec fn spec_diff(a: Seq<Seq<char>>, b: Seq<Seq<char>>) -> Seq<Seq<char>> {
    a.filter(|p: Seq<char>| !b.contains(p))
}

/// Deduplication keeps exactly the values of the input, each once.
pub proof fn lemma_dedup(ps: Seq<Seq<char>>)
    ensures
        views_distinct(spec_dedup(ps)),
        forall|p: Seq<char>| #[trigger] spec_dedup(ps).contains(p) <==> ps.contains(p),
    decreases ps.len(),
{
    if ps.len() == 0 {
    } else {
        let rest = ps.drop_last();
        lemma_dedup(rest);
        let dr = spec_dedup(rest);
        let d = spec_dedup(ps);
        assert forall|p: Seq<char>| #[trigger] ps.contains(p) implies d.contains(p) by {
            let i = choose|i: int| 0 <= i < ps.len() && ps[i] == p;
            if i < ps.len() - 1 {
                assert(rest[i] == p);
                assert(rest.contains(p));
                assert(spec_dedup(rest).contains(p));
                let j = choose|j: int| 0 <= j < dr.len() && dr[j] == p;
                assert(d[j] == p);
            } else {
                assert(p == ps.last());
                if dr.contains(ps.last()) {
                    assert(d.contains(p));
                } else {
                    assert(d.last() == p);
                    assert(d[d.len() - 1] == p);
                }
            }
        }
        assert forall|p: Seq<char>| #[trigger] d.contains(p) implies ps.contains(p) by {
            let i = choose|i: int| 0 <= i < d.len() && d[i] == p;
            if i < dr.len() {
                assert(dr[i] == p);
                assert(spec_dedup(rest).contains(p));
                assert(rest.contains(p));
                let j = choose|j: int| 0 <= j < rest.len() && rest[j] == p;
                assert(ps[j] == p);
            } else {
                assert(p == ps.last());
                assert(ps[ps.len() - 1] == p);
            }
        }
    }
}

/// Whatever `filter` keeps is an element of the original that satisfies the
/// predicate.
pub proof fn lemma_filter_in_original<A>(s: Seq<A>, pred: spec_fn(A) -> bool)
    ensures
        forall|x: A| #[trigger] s.filter(pred).contains(x) ==> s.contains(x) && pred(x),
    decreases s.len(),
{
    reveal(Seq::filter);
    if s.len() == 0 {
    } else {
        let rest = s.drop_last();
        lemma_filter_in_original(rest, pred);
        assert forall|x: A| #[trigger] s.filter(pred).contains(x) implies s.contains(x) && pred(
            x,
        ) by {
            if rest.filter(pred).contains(x) {
                let j = choose|j: int| 0 <= j < rest.len() && rest[j] == x;
                assert(s[j] == x);
            } else {
                assert(x == s.last());
                assert(s[s.len() - 1] == x);
            }
        }
    }
}

/// Filtering a sequence of pairwise distinct values keeps them pairwise
/// distinct.
pub proof fn lemma_filter_distinct<A>(s: Seq<A>, pred: spec_fn(A) -> bool)
    requires
        forall|i: int, j: int| 0 <= i < j < s.len() ==> s[i] != s[j],
    ensures
        forall|i: int, j: int|
            0 <= i < j < s.filter(pred).len() ==> s.filter(pred)[i] != s.filter(pred)[j],
    decreases s.len(),
{
    reveal(Seq::filter);
    if s.len() == 0 {
    } else {
        let rest = s.drop_last();
        assert(forall|i: int, j: int| 0 <= i < j < rest.len() ==> rest[i] != rest[j]);
        lemma_filter_distinct(rest, pred);
        lemma_filter_in_original(rest, pred);
        if pred(s.last()) {
            let fr = rest.filter(pred);
            assert(s.filter(pred) == fr.push(s.last()));
            assert forall|i: int, j: int|
                0 <= i < j < s.filter(pred).len() implies s.filter(pred)[i] != s.filter(
                pred,
            )[j] by {
                if j < fr.len() {
                } else {
                    assert(s.filter(pred)[j] == s.last());
                    assert(fr.contains(fr[i]));
                    let k = choose|k: int| 0 <= k < rest.len() && rest[k] == fr[i];
                    assert(s[k] == fr[i]);
                    assert(s[s.len() - 1] == s.last());
                }
            }
        }
    }
}

/// Filtering preserves any property of index-ordered pairs.
pub proof fn lemma_filter_pairwise<A>(
    s: Seq<A>,
    pred: spec_fn(A) -> bool,
    r: spec_fn(A, A) -> bool,
)
    requires
        forall|i: int, j: int| 0 <= i < j < s.len() ==> r(#[trigger] s[i], #[trigger] s[j]),
    ensures
        forall|i: int, j: int|
            0 <= i < j < s.filter(pred).len() ==> r(
                #[trigger] s.filter(pred)[i],
                #[trigger] s.filter(pred)[j],
            ),
    decreases s.len(),
{
    reveal(Seq::filter);
    if s.len() == 0 {
    } else {
        let rest = s.drop_last();
        assert(forall|i: int, j: int|
            0 <= i < j < rest.len() ==> r(#[trigger] rest[i], #[trigger] rest[j]));
        lemma_filter_pairwise(rest, pred, r);
        lemma_filter_in_original(rest, pred);
        if pred(s.last()) {
            let f = s.filter(pred);
            let fr = rest.filter(pred);
            assert(f == fr.push(s.last()));
            assert forall|i: int, j: int| 0 <= i < j < f.len() implies r(f[i], f[j]) by {
                if j < fr.len() {
                    assert(f[i] == fr[i] && f[j] == fr[j]);
                } else {
                    assert(f[j] == s.last());
                    assert(f[i] == fr[i]);
                    assert(fr.contains(fr[i]));
                    let a = choose|a: int| 0 <= a < rest.len() && rest[a] == fr[i];
                    assert(s[a] == fr[i]);
                    assert(s[s.len() - 1] == s.last());
                    assert(r(s[a], s[s.len() - 1]));
                }
            }
        }
    }
}

/// Two predicates that agree on the elements of `s` filter `s` identically.
pub proof fn lemma_filter_congruent<A>(s: Seq<A>, p: spec_fn(A) -> bool, q: spec_fn(A) -> bool)
    requires
        forall|x: A| s.contains(x) ==> (p(x) <==> q(x)),
    ensures
        s.filter(p) == s.filter(q),
    decreases s.len(),
{
    reveal(Seq::filter);
    if s.len() == 0 {
    } else {
        let rest = s.drop_last();
        assert forall|x: A| rest.contains(x) implies (p(x) <==> q(x)) by {
            let j = choose|j: int| 0 <= j < rest.len() && rest[j] == x;
            assert(s[j] == x);
            assert(s.contains(x));
        }
        lemma_filter_congruent(rest, p, q);
        assert(s.contains(s.last())) by {
            assert(s[s.len() - 1] == s.last());
        }
    }
}

/// A filter whose predicate holds of every element keeps the sequence
/// unchanged.
pub proof fn lemma_filter_all<A>(s: Seq<A>, p: spec_fn(A) -> bool)
    requires
        forall|x: A| s.contains(x) ==> p(x),
    ensures
        s.filter(p) == s,
    decreases s.len(),
{
    reveal(Seq::filter);
    if s.len() == 0 {
        assert(s.filter(p) =~= s);
    } else {
        let rest = s.drop_last();
        assert forall|x: A| rest.contains(x) implies p(x) by {
            let j = choose|j: int| 0 <= j < rest.len() && rest[j] == x;
            assert(s[j] == x);
            assert(s.contains(x));
        }
        lemma_filter_all(rest, p);
        assert(s.contains(s.last())) by {
            assert(s[s.len() - 1] == s.last());
        }
        assert(s.filter(p) == rest.push(s.last()));
        assert(rest.push(s.last()) =~= s);
    }
}

/// A path lies in a difference exactly when it lies in the first set and
/// not in the second.
pub proof fn lemma_diff_membership(a: Seq<Seq<char>>, b: Seq<Seq<char>>)
    ensures
        forall|p: Seq<char>|
            #[trigger] spec_diff(a, b).contains(p) <==> a.contains(p) && !b.contains(p),
{
    let pred = |p: Seq<char>| !b.contains(p);
    lemma_filter_in_original(a, pred);
    assert forall|p: Seq<char>|
        #[trigger] spec_diff(a, b).contains(p) <==> a.contains(p) && !b.contains(p) by {
        if a.contains(p) && !b.contains(p) {
            let i = choose|i: int| 0 <= i < a.len() && a[i] == p;
            a.lemma_filter_contains(pred, i);
        }
    }
}

/// A filter whose predicate holds of no element keeps nothing.
pub proof fn lemma_filter_none<A>(s: Seq<A>, p: spec_fn(A) -> bool)
    requires
        forall|x: A| s.contains(x) ==> !p(x),
    ensures
        s.filter(p) == Seq::<A>::empty(),
    decreases s.len(),
{
    reveal(Seq::filter);
    if s.len() == 0 {
        assert(s.filter(p) =~= Seq::<A>::empty());
    } else {
        let rest = s.drop_last();
        assert forall|x: A| rest.contains(x) implies !p(x) by {
            let j = choose|j: int| 0 <= j < rest.len() && rest[j] == x;
            assert(s[j] == x);
            assert(s.contains(x));
        }
        lemma_filter_none(rest, p);
        assert(s.contains(s.last())) by {
            assert(s[s.len() - 1] == s.last());
        }
    }
}

/// Whether a path with view `p@` occurs in `v`.
pub fn contains_string(v: &Vec<String>, p: &String) -> (r: bool)
    ensures
        r == path_views(v@).contains(p@),
{
    let mut j: usize = 0;
    while j < v.len()
        invariant
            j <= v@.len(),
            forall|k: int| 0 <= k < j ==> v@[k]@ != p@,
        decreases v@.len() - j,
    {
        if v[j] == *p {
            assert(path_views(v@)[j as int] == p@);
            return true;
        }
        j = j + 1;
    }
    proof {
        assert forall|k: int| 0 <= k < path_views(v@).len() implies path_views(v@)[k] != p@ by {
            assert(path_views(v@)[k] == v@[k]@);
        }
    }
    false
}

/// The walked paths with duplicates dropped: multiple link paths may resolve
/// to the same canonical file, which must enter the catalog once.
pub fn dedup_paths(walked: &Vec<String>) -> (r: Vec<String>)
    ensures
        path_views(r@) == spec_dedup(path_views(walked@)),
        views_distinct(path_views(r@)),
        forall|p: Seq<char>|
            #[trigger] path_views(r@).contains(p) <==> path_views(walked@).contains(p),
{
    let ghost pw = path_views(walked@);
    let mut out: Vec<String> = Vec::new();
    let mut i: usize = 0;
    proof {
        assert(path_views(out@) =~= spec_dedup(pw.take(0)));
    }
    while i < walked.len()
        invariant
            i <= walked@.len(),
            pw == path_views(walked@),
            path_views(out@) == spec_dedup(pw.take(i as int)),
        decreases walked@.len() - i,
    {
        let ghost pre = path_views(out@);
        let present = contains_string(&out, &walked[i]);
        if !present {
            out.push(walked[i].clone());
            proof {
                assert(path_views(out@) =~= pre.push(pw[i as int]));
            }
        }
        proof {
            assert(pw.take(i + 1).drop_last() =~= pw.take(i as int));
            assert(pw.take(i + 1).last() == pw[i as int]);
            assert(pw[i as int] == walked@[i as int]@);
            assert(path_views(out@) == spec_dedup(pw.take(i + 1)));
        }
        i = i + 1;
    }
    proof {
        assert(pw.take(walked@.len() as int) =~= pw);
        lemma_dedup(pw);
    }
    out
}

/// The paths of `a` that do not occur in `b`, in `a`'s order.
pub fn diff_paths(a: &Vec<String>, b: &Vec<String>) -> (r: Vec<String>)
    ensures
        path_views(r@) == spec_diff(path_views(a@), path_views(b@)),
{
    let ghost pa = path_views(a@);
    let ghost pb = path_views(b@);
    let ghost pred = |p: Seq<char>| !pb.contains(p);
    let mut out: Vec<String> = Vec::new();
    let mut i: usize = 0;
    proof {
        reveal(Seq::filter);
        assert(path_views(out@) =~= pa.take(0).filter(pred));
    }
    while i < a.len()
        invariant
            i <= a@.len(),
            pa == path_views(a@),
            pb == path_views(b@),
            pred == (|p: Seq<char>| !pb.contains(p)),
            path_views(out@) == pa.take(i as int).filter(pred),
        decreases a@.len() - i,
    {
        let ghost pre = path_views(out@);
        let present = contains_string(b, &a[i]);
        if !present {
            out.push(a[i].clone());
            proof {
                assert(path_views(out@) =~= pre.push(pa[i as int]));
            }
        }
        proof {
            reveal(Seq::filter);
            assert(pa.take(i + 1).drop_last() =~= pa.take(i as int));
            assert(pa.take(i + 1).last() == pa[i as int]);
            assert(pa[i as int] == a@[i as int]@);
            assert(path_views(out@) == pa.take(i + 1).filter(pred));
        }
        i = i + 1;
    }
    proof {
        assert(pa.take(a@.len() as int) =~= pa);
    }
    out
}

} // verus!
