//! Every combination of two lists.

use vstd::prelude::*;

verus! {

/// Every pair, the second thing varying faster.
pub open spec fn pairs_of<A, B>(a: Seq<A>, b: Seq<B>) -> Seq<(A, B)> {
    Seq::new(
        a.len() * b.len(),
        |k: int| (a[k / b.len() as int], b[k % b.len() as int]),
    )
}

/// Every pair, the second thing varying faster.
pub fn pairs<A: Copy, B: Copy>(a: &[A], b: &[B]) -> (out: Vec<(A, B)>)
    ensures
        out@ == pairs_of(a@, b@),
{
    let n: usize = b.len();
    let mut out: Vec<(A, B)> = Vec::new();
    let mut i: usize = 0;
    while i < a.len()
        invariant
            n == b@.len(),
            i <= a@.len(),
            out@.len() == i * n,
            forall|k: int|
                0 <= k < out@.len() ==> #[trigger] out@[k] == (a@[k / n as int], b@[k % n as int]),
        decreases a@.len() - i,
    {
        let mut j: usize = 0;
        while j < n
            invariant
                n == b@.len(),
                i < a@.len(),
                j <= n,
                out@.len() == i * n + j,
                forall|k: int|
                    0 <= k < out@.len() ==> #[trigger] out@[k] == (
                        a@[k / n as int],
                        b@[k % n as int],
                    ),
            decreases n - j,
        {
            proof {
                vstd::arithmetic::div_mod::lemma_fundamental_div_mod_converse(
                    i * n + j,
                    n as int,
                    i as int,
                    j as int,
                );
            }
            out.push((a[i], b[j]));
            j = j + 1;
        }
        proof {
            assert(i * n + n == (i + 1) * n) by (nonlinear_arith);
        }
        i = i + 1;
    }
    proof {
        assert(out@ =~= pairs_of(a@, b@));
    }
    out
}

/// Every combination is there.
pub proof fn law_every_pair_is_there<A, B>(a: Seq<A>, b: Seq<B>, i: int, j: int)
    requires
        0 <= i < a.len(),
        0 <= j < b.len(),
    ensures
        0 <= i * b.len() + j < pairs_of(a, b).len(),
        pairs_of(a, b)[i * b.len() + j] == (a[i], b[j]),
{
    let n = b.len() as int;
    let m = a.len() as int;
    assert(i * n >= 0 && i * n + n <= m * n) by (nonlinear_arith)
        requires
            0 <= i < m,
            n >= 0,
    ;
    vstd::arithmetic::div_mod::lemma_fundamental_div_mod_converse(i * n + j, n, i, j);
}

} // verus!
