//! Addressing against persistence: the arms, and how well experts keep domains
//! apart.

use vstd::prelude::*;

use crate::activity::Activity;
use crate::load::spread;
use crate::load::spread_of;
use crate::load::sum;
use crate::load::total;

verus! {

/// What an arm is called.
pub open spec fn arm_label(node: bool, memory: bool, addressing: bool, ladder: bool) -> Seq<char> {
    if node {
        "single ladder node    (nonlinear local write, no backprop)"@
    } else if !memory {
        "current token only     (order-1 through our own head)"@
    } else if addressing && ladder {
        "rotation + ladder      (candidate A)"@
    } else if addressing {
        "rotation + decay       (ladder removed)"@
    } else if ladder {
        "identity + ladder      (what DESIGN.md died as)"@
    } else {
        "identity + decay       (decaying bag of codes)"@
    }
}

/// What an arm is called.
pub fn arm_name(node: bool, memory: bool, addressing: bool, ladder: bool) -> (s: &'static str)
    ensures
        s@ == arm_label(node, memory, addressing, ladder),
{
    if node {
        "single ladder node    (nonlinear local write, no backprop)"
    } else if !memory {
        "current token only     (order-1 through our own head)"
    } else if addressing && ladder {
        "rotation + ladder      (candidate A)"
    } else if addressing {
        "rotation + decay       (ladder removed)"
    } else if ladder {
        "identity + ladder      (what DESIGN.md died as)"
    } else {
        "identity + decay       (decaying bag of codes)"
    }
}

/// The weights of a single associative node.
pub fn node_parameters(vocab: usize, in_dim: usize) -> (n: usize)
    requires
        vocab * in_dim <= usize::MAX,
    ensures
        n == vocab * in_dim,
{
    vocab * in_dim
}

/// Whether a head has to be built anew: it is to be consolidated or routed.
pub fn rebuilds(rungs: Option<usize>, experts: usize) -> (b: bool)
    ensures
        b == (rungs is Some || experts != 1),
{
    rungs.is_some() || experts != 1
}

/// The domain that an expert saw most of.
#[derive(Clone, Copy, Debug, PartialEq, Eq, Structural)]
pub struct Purity {
    /// How often it saw that domain.
    pub most: u64,
    /// How often it saw any.
    pub of: u64,
}

/// What an expert saw.
pub open spec fn saw(joint: &Activity, e: int) -> Seq<u64> {
    Seq::new(joint.width() as nat, |c: int| joint.at(e, c) as u64)
}

/// The share of its main domain, for each of the first experts that was used.
pub open spec fn purities_upto(joint: &Activity, n: int) -> Seq<Purity>
    decreases n,
{
    if n <= 0 {
        Seq::empty()
    } else {
        let rest = purities_upto(joint, n - 1);
        let row = saw(joint, n - 1);
        if total(row) > 0 {
            rest.push(Purity { most: spread_of(row).2, of: total(row) as u64 })
        } else {
            rest
        }
    }
}

/// The share of its main domain, for each expert that was used.
pub fn purities(joint: &Activity) -> (v: Vec<Purity>)
    requires
        joint.wf(),
    ensures
        v@ == purities_upto(joint, joint.height()),
{
    let n: usize = joint.rows();
    let mut v: Vec<Purity> = Vec::new();
    let mut e: usize = 0;
    while e < n
        invariant
            joint.wf(),
            n == joint.height(),
            e <= n,
            v@ == purities_upto(joint, e as int),
        decreases n - e,
    {
        let row: &[u64] = joint.row(e);
        proof {
            assert(row@ =~= saw(joint, e as int));
        }
        let of: u64 = sum(row);
        if of > 0 {
            v.push(Purity { most: spread(row).2, of });
        }
        e = e + 1;
    }
    v
}

/// Every expert that was used is told once, in order: how often it saw the domain
/// it saw most of, out of how often it saw any. Others are not told.
pub proof fn law_used_experts_are_told(joint: &Activity, n: int, e: int) -> (k: int)
    requires
        0 <= e < n,
        total(saw(joint, e)) > 0,
    ensures
        0 <= k < purities_upto(joint, n).len() <= n,
        purities_upto(joint, n)[k].of == total(saw(joint, e)) as u64,
        forall|c: int|
            0 <= c < saw(joint, e).len() ==> #[trigger] saw(joint, e)[c] <= purities_upto(
                joint,
                n,
            )[k].most,
        saw(joint, e).contains(purities_upto(joint, n)[k].most),
    decreases n,
{
    let rest = purities_upto(joint, n - 1);
    let all = purities_upto(joint, n);
    lemma_told_bound(joint, n);
    if e == n - 1 {
        let row = saw(joint, e);
        assert forall|c: int| 0 <= c < row.len() implies #[trigger] row[c] <= spread_of(row).2 by {
            crate::load::law_spread_is_ordered(row, c);
        }
        let sides = crate::load::law_the_middle_is_in_the_middle(row);
        assert(all[all.len() - 1] == (Purity { most: spread_of(row).2, of: total(row) as u64 }));
        all.len() - 1
    } else {
        let k = law_used_experts_are_told(joint, n - 1, e);
        assert(all[k] == rest[k]);
        k
    }
}

proof fn lemma_told_bound(joint: &Activity, n: int)
    ensures
        n >= 0 ==> purities_upto(joint, n).len() <= n,
    decreases n,
{
    if n > 0 {
        lemma_told_bound(joint, n - 1);
    }
}

/// Where no expert was used none is told.
pub proof fn law_unused_experts_are_not_told(joint: &Activity, n: int)
    requires
        forall|e: int| 0 <= e < n ==> total(#[trigger] saw(joint, e)) == 0,
    ensures
        purities_upto(joint, n).len() == 0,
    decreases n,
{
    if n > 0 {
        law_unused_experts_are_not_told(joint, n - 1);
        assert(total(saw(joint, n - 1)) == 0);
    }
}

} // verus!
