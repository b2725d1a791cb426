//! Ordered lists.

use vstd::prelude::*;

verus! {

/// Whether a list of numbers is in order, with nothing in it twice.
pub open spec fn rising(v: Seq<usize>) -> bool {
    forall|i: int, j: int| 0 <= i < j < v.len() ==> v[i] < v[j]
}

/// Sorts a list and drops what is there twice.
pub fn sorted_set(v: &[usize]) -> (r: Vec<usize>)
    ensures
        rising(r@),
        forall|x: usize| r@.contains(x) <==> v@.contains(x),
{
    let mut r: Vec<usize> = Vec::new();
    let mut i: usize = 0;
    while i < v.len()
        invariant
            i <= v@.len(),
            rising(r@),
            forall|x: usize| r@.contains(x) <==> v@.take(i as int).contains(x),
        decreases v@.len() - i,
    {
        let x: usize = v[i];
        let mut p: usize = 0;
        while p < r.len() && r[p] < x
            invariant
                p <= r@.len(),
                rising(r@),
                forall|k: int| 0 <= k < p ==> r@[k] < x,
            decreases r@.len() - p,
        {
            p = p + 1;
        }
        let ghost was = r@;
        let ghost short = v@.take(i as int);
        let ghost long = v@.take(i + 1);
        proof {
            assert(long =~= short.push(x));
            assert forall|y: usize| long.contains(y) <==> (short.contains(y) || y == x) by {
                if short.contains(y) {
                    let k = choose|k: int| 0 <= k < short.len() && short[k] == y;
                    assert(long[k] == y);
                }
                assert(long[i as int] == x);
            }
        }
        if p == r.len() || r[p] != x {
            r.insert(p, x);
            proof {
                let now = r@;
                assert(now =~= was.insert(p as int, x));
                assert forall|a: int, b: int| 0 <= a < b < now.len() implies now[a] < now[b] by {
                    let oa = if a < p {
                        a
                    } else {
                        a - 1
                    };
                    let ob = if b < p {
                        b
                    } else {
                        b - 1
                    };
                    if a != p {
                        assert(now[a] == was[oa]);
                    }
                    if b != p {
                        assert(now[b] == was[ob]);
                    }
                    if a == p && p < was.len() {
                        assert(was[p as int] <= was[ob]);
                    }
                }
                assert forall|y: usize| now.contains(y) <==> (was.contains(y) || y == x) by {
                    if was.contains(y) {
                        let k = choose|k: int| 0 <= k < was.len() && was[k] == y;
                        assert(now[if k < p {
                            k
                        } else {
                            k + 1
                        }] == y);
                    }
                    assert(now[p as int] == x);
                    if now.contains(y) {
                        let k = choose|k: int| 0 <= k < now.len() && now[k] == y;
                        if k != p {
                            assert(was[if k < p {
                                k
                            } else {
                                k - 1
                            }] == y);
                        }
                    }
                }
            }
        } else {
            assert(was[p as int] == x);
        }
        i = i + 1;
    }
    assert(v@.take(i as int) =~= v@);
    r
}

/// Whether a list of ids is in order, with none in it twice.
pub open spec fn ordered(v: Seq<u32>) -> bool {
    forall|i: int, j: int| 0 <= i < j < v.len() ==> v[i] < v[j]
}

/// How many of the first `n` ids of `a` are also in `b`.
pub open spec fn common(a: Seq<u32>, b: Seq<u32>, n: int) -> int
    decreases n,
{
    if n <= 0 {
        0
    } else {
        common(a, b, n - 1) + if b.contains(a[n - 1]) {
            1int
        } else {
            0
        }
    }
}

/// How many ids two ordered lists share.
pub fn shared(a: &[u32], b: &[u32]) -> (hit: usize)
    requires
        ordered(a@),
        ordered(b@),
    ensures
        hit == common(a@, b@, a@.len() as int),
        hit <= a@.len(),
        hit <= b@.len(),
{
    let mut i: usize = 0;
    let mut j: usize = 0;
    let mut hit: usize = 0;
    while i < a.len() && j < b.len()
        invariant
            i <= a@.len(),
            j <= b@.len(),
            ordered(a@),
            ordered(b@),
            hit == common(a@, b@, i as int),
            hit <= i,
            hit <= j,
            forall|k: int, m: int| 0 <= k < j && i <= m < a@.len() ==> b@[k] < a@[m],
            forall|k: int, m: int| 0 <= k < i && j <= m < b@.len() ==> a@[k] < b@[m],
        decreases a@.len() - i + b@.len() - j,
    {
        if a[i] < b[j] {
            assert(!b@.contains(a@[i as int])) by {
                assert forall|k: int| 0 <= k < b@.len() implies b@[k] != a@[i as int] by {
                    if k >= j {
                        assert(b@[j as int] <= b@[k]);
                    }
                }
            }
            i = i + 1;
        } else if b[j] < a[i] {
            j = j + 1;
        } else {
            assert(b@.contains(a@[i as int]));
            hit = hit + 1;
            i = i + 1;
            j = j + 1;
        }
    }
    proof {
        lemma_rest_apart(a@, b@, i as int, j as int);
    }
    hit
}

/// Where one list is used up, nothing more is shared.
proof fn lemma_rest_apart(a: Seq<u32>, b: Seq<u32>, i: int, j: int)
    requires
        0 <= i <= a.len(),
        0 <= j <= b.len(),
        i == a.len() || j == b.len(),
        forall|k: int, m: int| 0 <= k < j && i <= m < a.len() ==> b[k] < a[m],
    ensures
        common(a, b, a.len() as int) == common(a, b, i),
{
    if i < a.len() {
        lemma_none_left(a, b, i, a.len() as int);
    }
}

proof fn lemma_none_left(a: Seq<u32>, b: Seq<u32>, i: int, n: int)
    requires
        0 <= i <= n <= a.len(),
        forall|k: int, m: int| 0 <= k < b.len() && i <= m < a.len() ==> b[k] < a[m],
    ensures
        common(a, b, n) == common(a, b, i),
    decreases n - i,
{
    if i < n {
        lemma_none_left(a, b, i, n - 1);
        if b.contains(a[n - 1]) {
            let k = choose|k: int| 0 <= k < b.len() && b[k] == a[n - 1];
            assert(b[k] < a[n - 1]);
        }
    }
}

/// A list shares all of itself with itself, and nothing with an empty one.
pub proof fn law_overlap_extremes(a: Seq<u32>, n: int)
    requires
        0 <= n <= a.len(),
    ensures
        common(a, a, n) == n,
        common(a, seq![], n) == 0,
    decreases n,
{
    if n > 0 {
        law_overlap_extremes(a, n - 1);
        assert(a.contains(a[n - 1]));
    }
}

proof fn lemma_common_is_intersection(a: Seq<u32>, b: Seq<u32>, n: int)
    requires
        ordered(a),
        0 <= n <= a.len(),
    ensures
        a.take(n).to_set().intersect(b.to_set()).finite(),
        common(a, b, n) == a.take(n).to_set().intersect(b.to_set()).len(),
    decreases n,
{
    let now = a.take(n).to_set().intersect(b.to_set());
    if n == 0 {
        assert(now =~= Set::empty());
    } else {
        lemma_common_is_intersection(a, b, n - 1);
        let was = a.take(n - 1).to_set().intersect(b.to_set());
        let x = a[n - 1];
        assert(a.take(n) =~= a.take(n - 1).push(x));
        let short = a.take(n - 1);
        let long = a.take(n);
        assert(!short.contains(x)) by {
            assert forall|k: int| 0 <= k < short.len() implies short[k] != x by {
                assert(a[k] < a[n - 1]);
            }
        }
        assert forall|y: u32| long.to_set().contains(y) <==> (short.to_set().contains(y) || y
            == x) by {
            if short.contains(y) {
                let k = choose|k: int| 0 <= k < short.len() && short[k] == y;
                assert(long[k] == y);
            }
            assert(long[n - 1] == x);
            if long.contains(y) {
                let k = choose|k: int| 0 <= k < long.len() && long[k] == y;
                if k < n - 1 {
                    assert(short[k] == y);
                }
            }
        }
        if b.contains(x) {
            assert(now =~= was.insert(x));
            assert(!was.contains(x));
        } else {
            assert(now =~= was);
        }
    }
}

/// What two ordered lists share does not depend on which comes first: it is the
/// size of what the two sets of ids have in common.
pub proof fn law_overlap_is_symmetric(a: Seq<u32>, b: Seq<u32>)
    requires
        ordered(a),
        ordered(b),
    ensures
        common(a, b, a.len() as int) == a.to_set().intersect(b.to_set()).len(),
        common(a, b, a.len() as int) == common(b, a, b.len() as int),
{
    lemma_common_is_intersection(a, b, a.len() as int);
    lemma_common_is_intersection(b, a, b.len() as int);
    assert(a.take(a.len() as int) =~= a);
    assert(b.take(b.len() as int) =~= b);
    assert(a.to_set().intersect(b.to_set()) =~= b.to_set().intersect(a.to_set()));
}

/// What two ordered lists share is what they have in common as sets, and what
/// they hold between them is what either holds.
pub proof fn law_overlap_is_what_is_common(a: Seq<u32>, b: Seq<u32>)
    requires
        ordered(a),
        ordered(b),
    ensures
        common(a, b, a.len() as int) == a.to_set().intersect(b.to_set()).len(),
        a.len() + b.len() - common(a, b, a.len() as int) == a.to_set().union(b.to_set()).len(),
{
    lemma_common_is_intersection(a, b, a.len() as int);
    assert(a.take(a.len() as int) =~= a);
    assert forall|i: int, j: int| 0 <= i < a.len() && 0 <= j < a.len() && i != j implies a[i]
        != a[j] by {
        if i < j {
            assert(a[i] < a[j]);
        } else {
            assert(a[j] < a[i]);
        }
    }
    assert forall|i: int, j: int| 0 <= i < b.len() && 0 <= j < b.len() && i != j implies b[i]
        != b[j] by {
        if i < j {
            assert(b[i] < b[j]);
        } else {
            assert(b[j] < b[i]);
        }
    }
    a.unique_seq_to_set();
    b.unique_seq_to_set();
    vstd::set_lib::lemma_set_intersect_union_lens(a.to_set(), b.to_set());
}

} // verus!
