//! Text in lexicographic order (the order of `String`'s `Ord`: by code
//! point, a proper prefix first), and vectors of texts kept sorted.
use vstd::prelude::*;
use crate::text::views;

verus! {

broadcast use vstd::seq_lib::to_multiset_insert;

/// `a` comes strictly before `b`.
pub open spec fn seq_lt(a: Seq<char>, b: Seq<char>) -> bool
    decreases a.len(),
{
    if a.len() == 0 {
        b.len() > 0
    } else if b.len() == 0 {
        false
    } else if a[0] == b[0] {
        seq_lt(a.drop_first(), b.drop_first())
    } else {
        (a[0] as int) < (b[0] as int)
    }
}

pub proof fn lemma_lt_irreflexive(a: Seq<char>)
    ensures
        !seq_lt(a, a),
    decreases a.len(),
{
    if a.len() > 0 {
        lemma_lt_irreflexive(a.drop_first());
    }
}

pub proof fn lemma_lt_asymmetric(a: Seq<char>, b: Seq<char>)
    ensures
        !(seq_lt(a, b) && seq_lt(b, a)),
    decreases a.len(),
{
    if a.len() > 0 && b.len() > 0 && a[0] == b[0] {
        lemma_lt_asymmetric(a.drop_first(), b.drop_first());
    }
}

pub proof fn lemma_lt_transitive(a: Seq<char>, b: Seq<char>, c: Seq<char>)
    requires
        seq_lt(a, b),
        seq_lt(b, c),
    ensures
        seq_lt(a, c),
    decreases a.len(),
{
    if a.len() > 0 && b.len() > 0 && c.len() > 0 && a[0] == b[0] && b[0] == c[0] {
        lemma_lt_transitive(a.drop_first(), b.drop_first(), c.drop_first());
    }
}

/// Two different texts are ordered one way or the other.
pub proof fn lemma_lt_total(a: Seq<char>, b: Seq<char>)
    ensures
        a == b || seq_lt(a, b) || seq_lt(b, a),
    decreases a.len(),
{
    if a.len() == 0 || b.len() == 0 {
        if a.len() == 0 && b.len() == 0 {
            assert(a =~= b);
        }
    } else if a[0] == b[0] {
        lemma_lt_total(a.drop_first(), b.drop_first());
        if a.drop_first() == b.drop_first() {
            assert(a =~= seq![a[0]] + a.drop_first());
            assert(b =~= seq![b[0]] + b.drop_first());
        }
    } else {
        assert((a[0] as int) != (b[0] as int));
    }
}

/// Whether `a` comes strictly before `b`.
pub fn chars_lt(a: &[char], b: &[char]) -> (r: bool)
    ensures
        r == seq_lt(a@, b@),
{
    let mut i: usize = 0;
    assert(a@.skip(0) =~= a@);
    assert(b@.skip(0) =~= b@);
    while i < a.len() && i < b.len() && a[i] == b[i]
        invariant
            i <= a@.len(),
            i <= b@.len(),
            seq_lt(a@, b@) == seq_lt(a@.skip(i as int), b@.skip(i as int)),
        decreases a.len() - i,
    {
        assert(a@.skip(i as int).drop_first() =~= a@.skip(i + 1));
        assert(b@.skip(i as int).drop_first() =~= b@.skip(i + 1));
        i += 1;
    }
    if i == a.len() {
        i < b.len()
    } else if i == b.len() {
        false
    } else {
        a[i] < b[i]
    }
}

/// In order, equal neighbours allowed.
pub open spec fn sorted(s: Seq<Seq<char>>) -> bool {
    forall|i: int, j: int| 0 <= i < j < s.len() ==> !seq_lt(#[trigger] s[j], #[trigger] s[i])
}

/// In strictly increasing order (so without repetitions).
pub open spec fn strictly_sorted(s: Seq<Seq<char>>) -> bool {
    forall|i: int, j: int| 0 <= i < j < s.len() ==> seq_lt(#[trigger] s[i], #[trigger] s[j])
}

/// The first index whose text does not come before `x`.
fn lower_bound(v: &Vec<Vec<char>>, x: &[char]) -> (p: usize)
    ensures
        p <= v@.len(),
        forall|i: int| 0 <= i < p ==> seq_lt(#[trigger] views(v@)[i], x@),
        p < v@.len() ==> !seq_lt(views(v@)[p as int], x@),
{
    let mut p: usize = 0;
    while p < v.len() && chars_lt(v[p].as_slice(), x)
        invariant
            p <= v@.len(),
            forall|i: int| 0 <= i < p ==> seq_lt(#[trigger] views(v@)[i], x@),
        decreases v.len() - p,
    {
        p += 1;
    }
    p
}

/// Inserts `x` at its place in a sorted vector (after equal texts).
pub fn insert_sorted(v: &mut Vec<Vec<char>>, x: Vec<char>)
    requires
        sorted(views(old(v)@)),
    ensures
        sorted(views(final(v)@)),
        views(final(v)@).to_multiset() == views(old(v)@).to_multiset().insert(x@),
{
    let ghost old_views = views(v@);
    let mut p: usize = 0;
    while p < v.len() && !chars_lt(x.as_slice(), v[p].as_slice())
        invariant
            p <= v@.len(),
            views(v@) == old_views,
            forall|i: int| 0 <= i < p ==> !seq_lt(x@, #[trigger] views(v@)[i]),
        decreases v.len() - p,
    {
        p += 1;
    }
    let ghost xv = x@;
    v.insert(p, x);
    assert(views(v@) =~= old_views.insert(p as int, xv));
    assert forall|i: int, j: int| 0 <= i < j < views(v@).len() implies !seq_lt(
        #[trigger] views(v@)[j],
        #[trigger] views(v@)[i],
    ) by {
        let s = views(v@);
        if j == p {
            assert(s[i] == old_views[i]);
            lemma_lt_total(xv, s[i]);
            lemma_lt_asymmetric(xv, s[i]);
        } else if i == p {
            assert(s[j] == old_views[j - 1]);
            if p < old_views.len() {
                assert(seq_lt(xv, old_views[p as int]));
                if j - 1 > p {
                    assert(!seq_lt(old_views[j - 1], old_views[p as int]));
                    lemma_lt_total(old_views[j - 1], old_views[p as int]);
                    if old_views[j - 1] != old_views[p as int] {
                        lemma_lt_transitive(xv, old_views[p as int], old_views[j - 1]);
                    }
                }
                lemma_lt_asymmetric(xv, s[j]);
            }
        } else if i < p && j < p {
            assert(s[i] == old_views[i] && s[j] == old_views[j]);
        } else if i < p {
            assert(s[i] == old_views[i] && s[j] == old_views[j - 1]);
        } else {
            assert(s[i] == old_views[i - 1] && s[j] == old_views[j - 1]);
        }
    }
}

/// Inserts `x` at its place in a strictly sorted vector unless it is
/// already there, as `BTreeSet::insert` does.
pub fn insert_unique(v: &mut Vec<Vec<char>>, x: Vec<char>)
    requires
        strictly_sorted(views(old(v)@)),
    ensures
        strictly_sorted(views(final(v)@)),
        views(final(v)@).to_set() == views(old(v)@).to_set().insert(x@),
{
    let ghost old_views = views(v@);
    let p = lower_bound(v, x.as_slice());
    if p < v.len() && crate::text::chars_eq(v[p].as_slice(), x.as_slice()) {
        assert(old_views.to_set().insert(x@) =~= old_views.to_set()) by {
            assert(old_views[p as int] == x@);
            assert(old_views.contains(x@));
        }
        return;
    }
    let ghost xv = x@;
    v.insert(p, x);
    assert(views(v@) =~= old_views.insert(p as int, xv));
    assert forall|i: int, j: int| 0 <= i < j < views(v@).len() implies seq_lt(
        #[trigger] views(v@)[i],
        #[trigger] views(v@)[j],
    ) by {
        let s = views(v@);
        if i == p {
            assert(s[j] == old_views[j - 1]);
            lemma_lt_total(xv, old_views[p as int]);
            if j - 1 > p {
                lemma_lt_transitive(xv, old_views[p as int], old_views[j - 1]);
            }
        } else if j == p {
            assert(s[i] == old_views[i]);
        } else if i < p && j < p {
            assert(s[i] == old_views[i] && s[j] == old_views[j]);
        } else if i < p {
            assert(s[i] == old_views[i] && s[j] == old_views[j - 1]);
        } else {
            assert(s[i] == old_views[i - 1] && s[j] == old_views[j - 1]);
        }
    }
    let ghost nv = views(v@);
    assert forall|e: Seq<char>| nv.contains(e) implies old_views.contains(e) || e == xv by {
        let k = choose|k: int| 0 <= k < nv.len() && nv[k] == e;
        if k < p {
            assert(old_views[k] == e);
        } else if k > p {
            assert(old_views[k - 1] == e);
        }
    }
    assert forall|e: Seq<char>| old_views.contains(e) implies nv.contains(e) by {
        let k = choose|k: int| 0 <= k < old_views.len() && old_views[k] == e;
        if k < p {
            assert(nv[k] == e);
        } else {
            assert(nv[k + 1] == e);
        }
    }
    assert(nv[p as int] == xv);
    assert(nv.to_set() =~= old_views.to_set().insert(xv));
}

} // verus!
