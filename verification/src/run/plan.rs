//! What a run measures: its lags, its yardsticks, its bands.

use vstd::arithmetic::power::pow;
use vstd::prelude::*;

use crate::rank::as_ints;
use crate::rank::rank_ids;
use crate::rank::ranking;
use crate::run::markov::power;
use crate::run::needles::prompt_of;
use crate::sorted::rising;
use crate::sorted::sorted_set;

verus! {

/// The lags that straddle the two scales a cursor on a grid can express.
pub open spec fn is_lag(lag: int, side: int) -> bool {
    lag == 1 || lag == 2 || lag == 3 || lag == 4 || lag == 6 || lag == 8 || lag == 12 || lag == 16
        || lag == side || lag == side + 1 || lag == 2 * side || lag == 4 * side
}

/// The lags at which a token is looked for, in order and each once.
pub fn lags(side: usize) -> (v: Vec<usize>)
    requires
        4 * side < usize::MAX,
    ensures
        rising(v@),
        forall|x: usize| v@.contains(x) <==> is_lag(x as int, side as int),
{
    let mut all: Vec<usize> = vec![1, 2, 3, 4, 6, 8, 12, 16];
    all.push(side);
    all.push(side + 1);
    all.push(2 * side);
    all.push(4 * side);
    proof {
        let s = all@;
        assert forall|x: usize| s.contains(x) <==> is_lag(x as int, side as int) by {
            if is_lag(x as int, side as int) {
                assert(s[0] == 1 && s[1] == 2 && s[2] == 3 && s[3] == 4 && s[4] == 6 && s[5] == 8
                    && s[6] == 12 && s[7] == 16 && s[8] == side && s[9] == side + 1 && s[10] == 2
                    * side && s[11] == 4 * side);
            }
            if s.contains(x) {
                let k = choose|k: int| 0 <= k < s.len() && s[k] == x;
                assert(0 <= k < 12);
            }
        }
    }
    sorted_set(all.as_slice())
}

/// How many cells a yardstick may have.
pub const CELL_BUDGET: usize = 0x800_0000;

/// Whether a table over `k` tokens at a time fits the budget.
pub open spec fn fits(vocab: int, k: int) -> bool {
    pow(vocab, k as nat) <= CELL_BUDGET
}

/// Whether a table over `k` tokens at a time fits the budget.
pub fn affords(vocab: usize, k: usize) -> (b: bool)
    ensures
        b == fits(vocab as int, k as int),
{
    match power(vocab, k) {
        Some(cells) => cells <= CELL_BUDGET,
        None => false,
    }
}

/// The orders of the counting coders that fit the budget.
pub open spec fn orders_of(vocab: int, order: int) -> Seq<int> {
    let low = if fits(vocab, 2) {
        seq![1int]
    } else {
        Seq::empty()
    };
    if fits(vocab, order + 1) {
        low.push(order)
    } else {
        low
    }
}

/// The orders of the counting coders that fit the budget: one, and the source's
/// own.
pub fn coder_orders(vocab: usize, order: usize) -> (v: Vec<usize>)
    requires
        order < usize::MAX,
    ensures
        as_ints(v@) == orders_of(vocab as int, order as int),
{
    let mut v: Vec<usize> = Vec::new();
    if affords(vocab, 2) {
        v.push(1);
    }
    if affords(vocab, order + 1) {
        v.push(order);
    }
    proof {
        assert(as_ints(v@) =~= orders_of(vocab as int, order as int));
    }
    v
}

/// The slot of the coder of an order: the last one, where the source's own order
/// is one; none where it did not fit.
pub fn coder_slot(orders: &[usize], k: usize) -> (slot: Option<usize>)
    ensures
        match slot {
            Some(i) => {
                &&& i < orders@.len()
                &&& orders@[i as int] == k
                &&& forall|j: int| i < j < orders@.len() ==> orders@[j] != k
            },
            None => !orders@.contains(k),
        },
{
    let mut i: usize = orders.len();
    while i > 0
        invariant
            i <= orders@.len(),
            forall|j: int| i <= j < orders@.len() ==> orders@[j] != k,
        decreases i,
    {
        i = i - 1;
        if orders[i] == k {
            return Some(i);
        }
    }
    None
}

/// Where the tokens of a run come from.
#[derive(Clone, Copy, Debug, PartialEq, Eq, Structural)]
pub enum SourceKind {
    /// A chain.
    Chain,
    /// A corpus.
    Corpus,
}

/// Why the tokens of a run cannot come from where they should.
#[derive(Clone, Copy, Debug, PartialEq, Eq, Structural)]
pub enum SourceError {
    /// A corpus needs a tokenizer and a tokenizer a corpus.
    Halved,
    /// Needles are for the chain.
    Needles,
    /// Domains are for the chain.
    Domains,
}

/// Where the tokens of a run come from.
pub fn source_kind(corpus: bool, tokenizer: bool, needles: usize, domains: usize) -> (r: Result<
    SourceKind,
    SourceError,
>)
    ensures
        r == if corpus != tokenizer {
            Err(SourceError::Halved)
        } else if !corpus {
            Ok(SourceKind::Chain)
        } else if needles > 0 {
            Err(SourceError::Needles)
        } else if domains > 1 {
            Err(SourceError::Domains)
        } else {
            Ok::<SourceKind, SourceError>(SourceKind::Corpus)
        },
{
    if corpus != tokenizer {
        return Err(SourceError::Halved);
    }
    if !corpus {
        return Ok(SourceKind::Chain);
    }
    if needles > 0 {
        return Err(SourceError::Needles);
    }
    if domains > 1 {
        return Err(SourceError::Domains);
    }
    Ok(SourceKind::Corpus)
}

/// How long ago the needles of a band were taught.
#[derive(Clone, Copy, Debug, PartialEq, Eq, Structural)]
pub enum Age {
    /// The oldest third.
    Oldest,
    /// What is between.
    Middle,
    /// The newest third.
    Newest,
}

/// A band of needles, from its first to the one after its last.
#[derive(Clone, Copy, Debug, PartialEq, Eq, Structural)]
pub struct Band {
    /// How long ago they were taught.
    pub age: Age,
    /// The first.
    pub from: usize,
    /// The one after the last.
    pub to: usize,
}

/// How many needles are in the oldest band and in the newest.
pub open spec fn third_of(paired: int) -> int {
    if paired / 3 < 1 {
        1
    } else {
        paired / 3
    }
}

/// Where the newest band begins.
pub open spec fn newest_from(paired: int) -> int {
    if paired < third_of(paired) {
        0
    } else {
        paired - third_of(paired)
    }
}

/// The bands of needles that have something in them.
pub open spec fn bands_of(paired: int) -> Seq<Band> {
    let t = third_of(paired);
    let n = newest_from(paired);
    let a = seq![Band { age: Age::Oldest, from: 0, to: t as usize }];
    let b = if t < n {
        a.push(Band { age: Age::Middle, from: t as usize, to: n as usize })
    } else {
        a
    };
    if n < paired {
        b.push(Band { age: Age::Newest, from: n as usize, to: paired as usize })
    } else {
        b
    }
}

/// The bands of `paired` needles, oldest first. Of one needle the oldest band and
/// the newest are the same.
pub fn bands(paired: usize) -> (v: Vec<Band>)
    requires
        paired >= 1,
    ensures
        v@ == bands_of(paired as int),
{
    let t: usize = if paired / 3 < 1 {
        1
    } else {
        paired / 3
    };
    let n: usize = paired - t;
    let mut v: Vec<Band> = Vec::new();
    v.push(Band { age: Age::Oldest, from: 0, to: t });
    if t < n {
        v.push(Band { age: Age::Middle, from: t, to: n });
    }
    if n < paired {
        v.push(Band { age: Age::Newest, from: n, to: paired });
    }
    proof {
        assert(v@ =~= bands_of(paired as int));
    }
    v
}

/// Of two needles or more, every one is in exactly one band.
pub proof fn law_bands_tile(paired: int, k: int)
    requires
        2 <= paired <= usize::MAX,
        0 <= k < bands_of(paired).len(),
    ensures
        bands_of(paired)[0].from == 0,
        bands_of(paired).last().to == paired,
        bands_of(paired)[k].from < bands_of(paired)[k].to,
        k > 0 ==> bands_of(paired)[k].from == bands_of(paired)[k - 1].to,
{
}

/// The needles from the one taught longest ago to the one taught last.
pub fn oldest_first(distances: &[u64]) -> (order: Vec<usize>)
    ensures
        as_ints(order@) == ranking(distances@, 0),
{
    rank_ids(distances, 0)
}

/// The needles that share a needle's second key symbol.
pub open spec fn confusable_of(n: int, symbols: int, i: int) -> Seq<int>
    decreases n,
{
    if n <= 0 {
        Seq::empty()
    } else if (n - 1) % symbols == i % symbols {
        confusable_of(n - 1, symbols, i).push(n - 1)
    } else {
        confusable_of(n - 1, symbols, i)
    }
}

/// The needles among `n` that share a needle's second key symbol, itself
/// included.
pub fn confusable(n: usize, symbols: usize, i: usize) -> (group: Vec<usize>)
    requires
        symbols >= 1,
    ensures
        as_ints(group@) == confusable_of(n as int, symbols as int, i as int),
{
    let mut group: Vec<usize> = Vec::new();
    let mut j: usize = 0;
    proof {
        assert(as_ints(group@) =~= confusable_of(0, symbols as int, i as int));
    }
    while j < n
        invariant
            symbols >= 1,
            j <= n,
            as_ints(group@) == confusable_of(j as int, symbols as int, i as int),
        decreases n - j,
    {
        let ghost before = group@;
        if j % symbols == i % symbols {
            group.push(j);
            proof {
                assert(as_ints(group@) =~= as_ints(before).push(j as int));
            }
        }
        j = j + 1;
    }
    group
}

/// A needle is in its own group.
pub proof fn law_a_needle_is_in_its_group(n: int, symbols: int, i: int)
    requires
        symbols >= 1,
        0 <= i < n,
    ensures
        confusable_of(n, symbols, i).contains(i),
    decreases n,
{
    let all = confusable_of(n, symbols, i);
    if i == n - 1 {
        assert(all[all.len() - 1] == i);
    } else {
        law_a_needle_is_in_its_group(n - 1, symbols, i);
        let rest = confusable_of(n - 1, symbols, i);
        let k = choose|k: int| 0 <= k < rest.len() && rest[k] == i;
        assert(all[k] == i);
    }
}

/// Of three needles or more there are three bands: the oldest and the newest hold
/// a third each, rounded down, and the middle what is left.
pub proof fn law_bands_are_thirds(paired: int)
    requires
        3 <= paired <= usize::MAX,
    ensures
        bands_of(paired).len() == 3,
        bands_of(paired)[0].age == Age::Oldest,
        bands_of(paired)[1].age == Age::Middle,
        bands_of(paired)[2].age == Age::Newest,
        3 * (bands_of(paired)[0].to - bands_of(paired)[0].from) <= paired,
        paired < 3 * (bands_of(paired)[0].to - bands_of(paired)[0].from) + 3,
        bands_of(paired)[2].to - bands_of(paired)[2].from == bands_of(paired)[0].to
            - bands_of(paired)[0].from,
{
}

/// Needles can be confused where they share the second symbol of their keys, with
/// all that do and with no others; they are listed in order.
pub proof fn law_confusable_needles_share_a_symbol(n: int, symbols: int, i: int, j: int)
    requires
        symbols >= 2,
        0 <= i,
        0 <= j,
    ensures
        confusable_of(n, symbols, i).contains(j) <==> j < n && prompt_of(symbols, j)[1]
            == prompt_of(symbols, i)[1],
        forall|a: int, b: int|
            0 <= a < b < confusable_of(n, symbols, i).len() ==> confusable_of(n, symbols, i)[a]
                < confusable_of(n, symbols, i)[b],
        forall|a: int|
            0 <= a < confusable_of(n, symbols, i).len() ==> 0 <= #[trigger] confusable_of(
                n,
                symbols,
                i,
            )[a] < n,
    decreases n,
{
    if n > 0 {
        law_confusable_needles_share_a_symbol(n - 1, symbols, i, j);
        let rest = confusable_of(n - 1, symbols, i);
        let all = confusable_of(n, symbols, i);
        if (n - 1) % symbols == i % symbols {
            assert(all[all.len() - 1] == n - 1);
            if rest.contains(j) {
                let k = choose|k: int| 0 <= k < rest.len() && rest[k] == j;
                assert(all[k] == j);
            }
            if all.contains(j) && j != n - 1 {
                let k = choose|k: int| 0 <= k < all.len() && all[k] == j;
                assert(rest[k] == j);
            }
        }
    }
}

/// What is affordable at one order is so at every lower one, and for every smaller
/// alphabet.
pub proof fn law_less_is_affordable(vocab: int, fewer: int, k: int, lower: int)
    requires
        1 <= fewer <= vocab,
        0 <= lower <= k,
        fits(vocab, k),
    ensures
        fits(vocab, lower),
        fits(fewer, k),
        fits(1, k),
        pow(vocab, k as nat) <= 134217728,
{
    vstd::arithmetic::power::lemma_pow_increases(vocab as nat, lower as nat, k as nat);
    lemma_pow_base(fewer, vocab, k as nat);
    lemma_pow_base(1, vocab, k as nat);
}

proof fn lemma_pow_base(a: int, b: int, k: nat)
    requires
        0 <= a <= b,
    ensures
        0 <= pow(a, k) <= pow(b, k),
    decreases k,
{
    reveal(pow);
    if k > 0 {
        lemma_pow_base(a, b, (k - 1) as nat);
        let (x, y) = (pow(a, (k - 1) as nat), pow(b, (k - 1) as nat));
        assert(0 <= a * x <= b * y) by (nonlinear_arith)
            requires
                0 <= a <= b,
                0 <= x <= y,
        ;
    }
}

/// Lags within a row do not depend on how long a row is, and the others lead to the
/// same place one, two and four rows on, or to the one after it in the next row.
pub proof fn law_lags_are_short_or_whole_rows(side: int, other: int, lag: int)
    requires
        1 <= side,
        1 <= other,
    ensures
        lag < side && lag < other ==> (is_lag(lag, side) <==> is_lag(lag, other)),
        is_lag(lag, side) && lag > 16 ==> side <= lag <= 4 * side,
        forall|rows: int|
            1 <= rows && #[trigger] (rows * side) > 16 && rows * side != side + 1 ==> (is_lag(
                rows * side,
                side,
            ) <==> rows == 1 || rows == 2 || rows == 4),
        is_lag(side + 1, side),
        is_lag(lag, side) ==> 1 <= lag,
{
    assert forall|rows: int|
        1 <= rows && #[trigger] (rows * side) > 16 && rows * side != side + 1 implies (is_lag(
        rows * side,
        side,
    ) <==> rows == 1 || rows == 2 || rows == 4) by {
        if rows * side == 1 * side || rows * side == 2 * side || rows * side == 4 * side {
            assert(rows == 1 || rows == 2 || rows == 4) by (nonlinear_arith)
                requires
                    side >= 1,
                    rows * side == 1 * side || rows * side == 2 * side || rows * side == 4 * side,
            ;
        }
    }
}

} // verus!
