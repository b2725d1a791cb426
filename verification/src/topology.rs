//! The sweep of the topology bench.

use vstd::prelude::*;

use crate::grid::law_every_pair_is_there;
use crate::grid::pairs;
use crate::grid::pairs_of;

verus! {

/// One network to measure.
#[derive(Debug)]
pub struct Job<E> {
    /// The exponent of its contacts.
    pub exponent: E,
    /// Contacts for each node.
    pub contacts: usize,
    /// Nodes.
    pub size: usize,
}

/// The counts of contacts other than one.
pub open spec fn several(contacts: Seq<usize>) -> Seq<usize>
    decreases contacts.len(),
{
    if contacts.len() == 0 {
        Seq::empty()
    } else if contacts.last() != 1 {
        several(contacts.drop_last()).push(contacts.last())
    } else {
        several(contacts.drop_last())
    }
}

/// Every exponent at every size with one contact, then every other count of
/// contacts at every size with the critical exponent.
pub open spec fn jobs_of<E>(
    exponents: Seq<E>,
    sizes: Seq<usize>,
    contacts: Seq<usize>,
    critical: E,
) -> Seq<Job<E>> {
    pairs_of(exponents, sizes).map_values(
        |p: (E, usize)| Job { exponent: p.0, contacts: 1, size: p.1 },
    ) + pairs_of(several(contacts), sizes).map_values(
        |p: (usize, usize)| Job { exponent: critical, contacts: p.0, size: p.1 },
    )
}

/// The networks to measure.
pub fn jobs<E: Copy>(exponents: &[E], sizes: &[usize], contacts: &[usize], critical: E) -> (out: Vec<
    Job<E>,
>)
    ensures
        out@ == jobs_of(exponents@, sizes@, contacts@, critical),
{
    let single: Vec<(E, usize)> = pairs(exponents, sizes);
    let mut counts: Vec<usize> = Vec::new();
    let mut k: usize = 0;
    while k < contacts.len()
        invariant
            k <= contacts@.len(),
            counts@ == several(contacts@.take(k as int)),
        decreases contacts@.len() - k,
    {
        proof {
            assert(contacts@.take(k + 1).drop_last() =~= contacts@.take(k as int));
        }
        if contacts[k] != 1 {
            counts.push(contacts[k]);
        }
        k = k + 1;
    }
    proof {
        assert(contacts@.take(k as int) =~= contacts@);
    }
    let many: Vec<(usize, usize)> = pairs(counts.as_slice(), sizes);
    let ghost all = jobs_of(exponents@, sizes@, contacts@, critical);
    let mut out: Vec<Job<E>> = Vec::new();
    let mut i: usize = 0;
    while i < single.len()
        invariant
            i <= single@.len(),
            single@ == pairs_of(exponents@, sizes@),
            all == jobs_of(exponents@, sizes@, contacts@, critical),
            out@.len() == i,
            forall|j: int| 0 <= j < i ==> out@[j] == all[j],
        decreases single@.len() - i,
    {
        let p: (E, usize) = single[i];
        out.push(Job { exponent: p.0, contacts: 1, size: p.1 });
        i = i + 1;
    }
    let mut j: usize = 0;
    while j < many.len()
        invariant
            j <= many@.len(),
            single@ == pairs_of(exponents@, sizes@),
            many@ == pairs_of(several(contacts@), sizes@),
            all == jobs_of(exponents@, sizes@, contacts@, critical),
            out@.len() == single@.len() + j,
            forall|k: int| 0 <= k < out@.len() ==> out@[k] == all[k],
        decreases many@.len() - j,
    {
        let p: (usize, usize) = many[j];
        out.push(Job { exponent: critical, contacts: p.0, size: p.1 });
        j = j + 1;
    }
    proof {
        assert(out@ =~= all);
    }
    out
}

/// Every cell of the first table has a network: the one of an exponent and a size
/// stands where it is looked for.
pub proof fn law_every_cell_has_a_job<E>(
    exponents: Seq<E>,
    sizes: Seq<usize>,
    contacts: Seq<usize>,
    critical: E,
    i: int,
    j: int,
)
    requires
        0 <= i < exponents.len(),
        0 <= j < sizes.len(),
    ensures
        0 <= i * sizes.len() + j < jobs_of(exponents, sizes, contacts, critical).len(),
        jobs_of(exponents, sizes, contacts, critical)[i * sizes.len() + j] == (Job {
            exponent: exponents[i],
            contacts: 1,
            size: sizes[j],
        }),
{
    law_every_pair_is_there(exponents, sizes, i, j);
}

/// The counts of contacts in the second table are all that were asked for but
/// one, in their order.
pub proof fn law_several_leaves_out_one(contacts: Seq<usize>)
    ensures
        several(contacts) == contacts.filter(|c: usize| c != 1),
    decreases contacts.len(),
{
    reveal(Seq::filter);
    if contacts.len() > 0 {
        law_several_leaves_out_one(contacts.drop_last());
    }
}

/// Every cell of the second table has a network too, after those of the first;
/// and there are no others.
pub proof fn law_every_other_cell_has_a_job<E>(
    exponents: Seq<E>,
    sizes: Seq<usize>,
    contacts: Seq<usize>,
    critical: E,
    i: int,
    j: int,
)
    requires
        0 <= i < several(contacts).len(),
        0 <= j < sizes.len(),
    ensures
        jobs_of(exponents, sizes, contacts, critical).len() == (exponents.len() + several(
            contacts,
        ).len()) * sizes.len(),
        jobs_of(exponents, sizes, contacts, critical)[exponents.len() * sizes.len() + i
            * sizes.len() + j] == (Job {
            exponent: critical,
            contacts: several(contacts)[i],
            size: sizes[j],
        }),
{
    law_every_pair_is_there(several(contacts), sizes, i, j);
    let (a, b, c) = (exponents.len() as int, several(contacts).len() as int, sizes.len() as int);
    assert((a + b) * c == a * c + b * c && a * c >= 0) by (nonlinear_arith)
        requires
            a >= 0,
            c >= 0,
    ;
}

} // verus!
