//! Strictly increasing sequences of vertices: sorting the keys of a graph
//! and finding a vertex among them.

use vstd::prelude::*;

verus! {

/// Each element is smaller than all that follow it.
pub open spec fn increasing(s: Seq<usize>) -> bool {
    forall|i: int, j: int| 0 <= i < j < s.len() ==> s[i] < s[j]
}

/// `s` lists exactly the elements of `set`, in increasing order.
pub open spec fn lists(s: Seq<usize>, set: Set<usize>) -> bool {
    &&& increasing(s)
    &&& forall|x: usize| s.contains(x) <==> set.contains(x)
}

/// The elements of a finite set in increasing order.
pub open spec fn ascending(set: Set<usize>) -> Seq<usize> {
    choose|s: Seq<usize>| lists(s, set)
}

/// A sequence with one more element at its end holds that element and
/// what it held before.
pub proof fn lemma_push_contains(s: Seq<usize>, x: usize, y: usize)
    ensures
        s.push(x).contains(y) <==> (s.contains(y) || y == x),
{
    if s.contains(y) {
        let i = choose|i: int| 0 <= i < s.len() && s[i] == y;
        assert(s.push(x)[i] == y);
    }
    if y == x {
        assert(s.push(x)[s.len() as int] == y);
    }
    if s.push(x).contains(y) {
        let i = choose|i: int| 0 <= i < s.push(x).len() && s.push(x)[i] == y;
        if i < s.len() {
            assert(s[i] == y);
        }
    }
}

/// A set has at most one increasing listing.
pub proof fn lemma_increasing_unique(a: Seq<usize>, b: Seq<usize>)
    requires
        increasing(a),
        increasing(b),
        forall|x: usize| a.contains(x) <==> b.contains(x),
    ensures
        a == b,
    decreases a.len(),
{
    if a.len() == 0 {
        if b.len() > 0 {
            assert(b.contains(b[0]));
        }
        assert(a =~= b);
    } else {
        let la = a.last();
        assert(a.contains(la));
        assert(b.contains(la));
        let lb = b.last();
        assert(b.contains(lb));
        assert(a.contains(lb));
        let i = choose|i: int| 0 <= i < b.len() && b[i] == la;
        let j = choose|j: int| 0 <= j < a.len() && a[j] == lb;
        assert(la == lb);
        let a0 = a.drop_last();
        let b0 = b.drop_last();
        assert forall|x: usize| a0.contains(x) <==> b0.contains(x) by {
            if a0.contains(x) {
                let k = choose|k: int| 0 <= k < a0.len() && a0[k] == x;
                assert(a[k] == x);
                assert(a.contains(x));
                let m = choose|m: int| 0 <= m < b.len() && b[m] == x;
                assert(m != b.len() - 1);
                assert(b0[m] == x);
            }
            if b0.contains(x) {
                let k = choose|k: int| 0 <= k < b0.len() && b0[k] == x;
                assert(b[k] == x);
                assert(b.contains(x));
                let m = choose|m: int| 0 <= m < a.len() && a[m] == x;
                assert(m != a.len() - 1);
                assert(a0[m] == x);
            }
        }
        lemma_increasing_unique(a0, b0);
        assert(a =~= a0.push(la));
        assert(b =~= b0.push(lb));
    }
}

/// The increasing sequence `s` with `x` put in its place.
pub open spec fn with_element(s: Seq<usize>, x: usize) -> Seq<usize>
    decreases s.len(),
{
    if s.len() == 0 {
        seq![x]
    } else if s.last() < x {
        s.push(x)
    } else {
        with_element(s.drop_last(), x).push(s.last())
    }
}

/// Putting a new element in its place lists the set with that element.
pub proof fn lemma_with_element(s: Seq<usize>, set: Set<usize>, x: usize)
    requires
        lists(s, set),
        !set.contains(x),
    ensures
        lists(with_element(s, x), set.insert(x)),
        with_element(s, x).len() == s.len() + 1,
        s.len() > 0 && x < s.last() ==> with_element(s, x).last() == s.last(),
        s.len() > 0 && s.last() < x ==> with_element(s, x).last() == x,
    decreases s.len(),
{
    let r = with_element(s, x);
    if s.len() == 0 {
        assert forall|y: usize| r.contains(y) <==> set.insert(x).contains(y) by {
            if y == x {
                assert(r[0] == y);
            }
            if set.contains(y) {
                assert(s.contains(y));
            }
        }
    } else if s.last() < x {
        assert forall|y: usize| r.contains(y) <==> set.insert(x).contains(y) by {
            lemma_push_contains(s, x, y);
        }
    } else {
        let s0 = s.drop_last();
        let l = s.last();
        assert(s.contains(l));
        assert(l != x);
        let set0 = set.remove(l);
        assert forall|y: usize| s0.contains(y) <==> set0.contains(y) by {
            if s0.contains(y) {
                let k = choose|k: int| 0 <= k < s0.len() && s0[k] == y;
                assert(s[k] == y);
                assert(s.contains(y));
            }
            if set0.contains(y) {
                assert(s.contains(y));
                let k = choose|k: int| 0 <= k < s.len() && s[k] == y;
                assert(s0[k] == y);
            }
        }
        lemma_with_element(s0, set0, x);
        let r0 = with_element(s0, x);
        assert(r == r0.push(l));
        assert forall|i: int, j: int| 0 <= i < j < r.len() implies r[i] < r[j] by {
            if j == r.len() - 1 {
                assert(r0.contains(r0[i]));
                if r0[i] != x {
                    assert(s0.contains(r0[i]));
                    let k = choose|k: int| 0 <= k < s0.len() && s0[k] == r0[i];
                    assert(s[k] < s[s.len() - 1]);
                }
            }
        }
        assert forall|y: usize| r.contains(y) <==> set.insert(x).contains(y) by {
            lemma_push_contains(r0, l, y);
        }
    }
}

/// Every finite set has an increasing listing.
pub proof fn lemma_ascending_exists(set: Set<usize>)
    requires
        set.finite(),
    ensures
        lists(ascending(set), set),
        ascending(set).len() == set.len(),
    decreases set.len(),
{
    if set.len() == 0 {
        let e = Seq::<usize>::empty();
        assert forall|x: usize| e.contains(x) <==> set.contains(x) by {
            if set.contains(x) {
                assert(set.len() > 0);
            }
        }
        assert(lists(e, set));
        lemma_increasing_unique(e, ascending(set));
    } else {
        let x = set.choose();
        let rest = set.remove(x);
        lemma_ascending_exists(rest);
        lemma_with_element(ascending(rest), rest, x);
        assert(rest.insert(x) =~= set);
        let s = with_element(ascending(rest), x);
        assert(lists(s, set));
        lemma_increasing_unique(s, ascending(set));
    }
}

/// Whatever lists a set in increasing order is its ascending listing.
pub proof fn lemma_ascending(s: Seq<usize>, set: Set<usize>)
    requires
        lists(s, set),
    ensures
        s == ascending(set),
        s.no_duplicates(),
{
    lemma_increasing_unique(s, ascending(set));
}

/// Merges two increasing vectors that share no element.
fn merge(a: &Vec<usize>, b: &Vec<usize>) -> (r: Vec<usize>)
    requires
        increasing(a@),
        increasing(b@),
        forall|i: int, j: int| 0 <= i < a@.len() && 0 <= j < b@.len() ==> a@[i] != b@[j],
    ensures
        increasing(r@),
        r@.len() == a@.len() + b@.len(),
        forall|x: usize| r@.contains(x) <==> a@.contains(x) || b@.contains(x),
{
    let mut r: Vec<usize> = Vec::new();
    let mut i: usize = 0;
    let mut j: usize = 0;
    while i < a.len() || j < b.len()
        invariant
            i <= a@.len(),
            j <= b@.len(),
            r@.len() == i + j,
            increasing(a@),
            increasing(b@),
            forall|p: int, q: int| 0 <= p < a@.len() && 0 <= q < b@.len() ==> a@[p] != b@[q],
            increasing(r@),
            forall|k: int| 0 <= k < r@.len() && i < a@.len() ==> r@[k] < a@[i as int],
            forall|k: int| 0 <= k < r@.len() && j < b@.len() ==> r@[k] < b@[j as int],
            forall|k: int|
                0 <= k < r@.len() ==> a@.subrange(0, i as int).contains(#[trigger] r@[k])
                    || b@.subrange(0, j as int).contains(r@[k]),
            forall|p: int| 0 <= p < i ==> r@.contains(#[trigger] a@[p]),
            forall|q: int| 0 <= q < j ==> r@.contains(#[trigger] b@[q]),
        decreases a@.len() - i + b@.len() - j,
    {
        let ghost r0 = r@;
        let take_a = j >= b.len() || (i < a.len() && a[i] < b[j]);
        let x = if take_a {
            a[i]
        } else {
            b[j]
        };
        r.push(x);
        proof {
            assert forall|k: int| 0 <= k < r0.len() implies r@[k] == r0[k] by {}
            assert forall|p: int| 0 <= p < i implies r@.contains(#[trigger] a@[p]) by {
                let k = choose|k: int| 0 <= k < r0.len() && r0[k] == a@[p];
                assert(r@[k] == a@[p]);
            }
            assert forall|q: int| 0 <= q < j implies r@.contains(#[trigger] b@[q]) by {
                let k = choose|k: int| 0 <= k < r0.len() && r0[k] == b@[q];
                assert(r@[k] == b@[q]);
            }
            assert(r@[r0.len() as int] == x);
            let i1 = if take_a { i + 1 } else { i as int };
            let j1 = if take_a { j as int } else { j + 1 };
            assert forall|k: int| 0 <= k < r@.len() implies a@.subrange(0, i1).contains(
                #[trigger] r@[k],
            ) || b@.subrange(0, j1).contains(r@[k]) by {
                if k < r0.len() {
                    if a@.subrange(0, i as int).contains(r0[k]) {
                        let p = choose|p: int|
                            0 <= p < a@.subrange(0, i as int).len() && a@.subrange(0, i as int)[p]
                                == r0[k];
                        assert(a@.subrange(0, i1)[p] == r0[k]);
                    } else {
                        let q = choose|q: int|
                            0 <= q < b@.subrange(0, j as int).len() && b@.subrange(0, j as int)[q]
                                == r0[k];
                        assert(b@.subrange(0, j1)[q] == r0[k]);
                    }
                } else {
                    if take_a {
                        assert(a@.subrange(0, i1)[i as int] == x);
                    } else {
                        assert(b@.subrange(0, j1)[j as int] == x);
                    }
                }
            }
        }
        if take_a {
            i += 1;
        } else {
            j += 1;
        }
    }
    proof {
        assert(a@.subrange(0, i as int) =~= a@);
        assert(b@.subrange(0, j as int) =~= b@);
        assert forall|x: usize| r@.contains(x) <==> a@.contains(x) || b@.contains(x) by {
            if r@.contains(x) {
                let k = choose|k: int| 0 <= k < r@.len() && r@[k] == x;
                assert(a@.subrange(0, i as int).contains(r@[k]) || b@.subrange(
                    0,
                    j as int,
                ).contains(r@[k]));
            }
            if a@.contains(x) {
                let p = choose|p: int| 0 <= p < a@.len() && a@[p] == x;
                assert(r@.contains(a@[p]));
            }
            if b@.contains(x) {
                let q = choose|q: int| 0 <= q < b@.len() && b@[q] == x;
                assert(r@.contains(b@[q]));
            }
        }
    }
    r
}

/// Sorts the elements `v[lo..hi]` of a vector without repetitions.
fn sort_range(v: &Vec<usize>, lo: usize, hi: usize) -> (r: Vec<usize>)
    requires
        lo <= hi <= v@.len(),
        v@.no_duplicates(),
    ensures
        increasing(r@),
        r@.len() == hi - lo,
        forall|x: usize| r@.contains(x) <==> v@.subrange(lo as int, hi as int).contains(x),
    decreases hi - lo,
{
    let ghost part = v@.subrange(lo as int, hi as int);
    let mut r: Vec<usize> = Vec::new();
    if hi - lo == 0 {
        proof {
            assert forall|x: usize| r@.contains(x) <==> part.contains(x) by {
                if part.contains(x) {
                    let k = choose|k: int| 0 <= k < part.len() && part[k] == x;
                }
                if r@.contains(x) {
                    let k = choose|k: int| 0 <= k < r@.len() && r@[k] == x;
                }
            }
        }
        r
    } else if hi - lo == 1 {
        r.push(v[lo]);
        proof {
            assert(r@[0] == part[0]);
            assert forall|x: usize| r@.contains(x) <==> part.contains(x) by {
                if part.contains(x) {
                    let k = choose|k: int| 0 <= k < part.len() && part[k] == x;
                    assert(r@[0] == x);
                }
                if r@.contains(x) {
                    let k = choose|k: int| 0 <= k < r@.len() && r@[k] == x;
                    assert(part[0] == x);
                }
            }
        }
        r
    } else {
        let mid = lo + (hi - lo) / 2;
        let a = sort_range(v, lo, mid);
        let b = sort_range(v, mid, hi);
        let ghost pa = v@.subrange(lo as int, mid as int);
        let ghost pb = v@.subrange(mid as int, hi as int);
        proof {
            assert forall|i: int, j: int| 0 <= i < a@.len() && 0 <= j < b@.len() implies a@[i]
                != b@[j] by {
                assert(a@.contains(a@[i]));
                assert(b@.contains(b@[j]));
                let p = choose|p: int| 0 <= p < pa.len() && pa[p] == a@[i];
                let q = choose|q: int| 0 <= q < pb.len() && pb[q] == b@[j];
                assert(v@[lo + p] == a@[i]);
                assert(v@[mid + q] == b@[j]);
            }
        }
        let r = merge(&a, &b);
        proof {
            assert forall|x: usize| r@.contains(x) <==> part.contains(x) by {
                if a@.contains(x) {
                    let p = choose|p: int| 0 <= p < pa.len() && pa[p] == x;
                    assert(part[p] == x);
                }
                if b@.contains(x) {
                    let q = choose|q: int| 0 <= q < pb.len() && pb[q] == x;
                    assert(part[mid - lo + q] == x);
                }
                if part.contains(x) {
                    let k = choose|k: int| 0 <= k < part.len() && part[k] == x;
                    if k < mid - lo {
                        assert(pa[k] == x);
                        assert(pa.contains(x));
                    } else {
                        assert(pb[k - (mid - lo)] == x);
                        assert(pb.contains(x));
                    }
                }
            }
        }
        r
    }
}

/// Sorts a vector without repetitions into increasing order.
pub fn sort_distinct(v: &Vec<usize>) -> (r: Vec<usize>)
    requires
        v@.no_duplicates(),
    ensures
        lists(r@, v@.to_set()),
        r@ == ascending(v@.to_set()),
        r@.len() == v@.len(),
{
    let r = sort_range(v, 0, v.len());
    proof {
        assert(v@.subrange(0, v@.len() as int) =~= v@);
        assert forall|x: usize| r@.contains(x) <==> v@.to_set().contains(x) by {}
        lemma_ascending(r@, v@.to_set());
    }
    r
}

/// Finds the place of `x` in an increasing vector by bisection.
pub fn position(s: &Vec<usize>, x: usize) -> (r: Option<usize>)
    requires
        increasing(s@),
    ensures
        match r {
            Some(i) => i < s@.len() && s@[i as int] == x,
            None => !s@.contains(x),
        },
{
    let mut lo: usize = 0;
    let mut hi: usize = s.len();
    while lo < hi
        invariant
            lo <= hi <= s@.len(),
            increasing(s@),
            forall|k: int| 0 <= k < lo ==> s@[k] < x,
            forall|k: int| hi <= k < s@.len() ==> s@[k] > x,
        decreases hi - lo,
    {
        let mid = lo + (hi - lo) / 2;
        let y = s[mid];
        if y == x {
            return Some(mid);
        } else if y < x {
            lo = mid + 1;
        } else {
            hi = mid;
        }
    }
    proof {
        if s@.contains(x) {
            let k = choose|k: int| 0 <= k < s@.len() && s@[k] == x;
            assert(false);
        }
    }
    None
}

} // verus!
