//! Needles in a haystack: what is taught, where, and how it is asked for.

use vstd::prelude::*;

verus! {

/// Symbol layout for the lost-in-the-middle test.
///
/// A needle is a prompt followed by a value. With a key of its own each needle
/// is an order-1 task. With `P` key symbols shared by `P * P` needles the value
/// is fixed by a pair of them, so knowing the last token alone leaves `P`
/// values open.
pub struct Needles {
    /// Symbols taken off the top of the vocabulary.
    pub reserved: usize,
    /// Prompt for each needle. The last token is the scored slot.
    pub prompt: Vec<Vec<u32>>,
    /// Value for each needle.
    pub value: Vec<u32>,
}

/// How many needles there are.
pub open spec fn needle_count(count: int, key_symbols: int) -> int {
    if count == 0 {
        0
    } else if key_symbols < 2 {
        count
    } else {
        key_symbols * key_symbols
    }
}

/// How many symbols they take.
pub open spec fn symbols_reserved(count: int, key_symbols: int) -> int {
    if count == 0 {
        0
    } else if key_symbols < 2 {
        2 * count
    } else {
        key_symbols + key_symbols * key_symbols
    }
}

/// The prompt of a needle.
pub open spec fn prompt_of(key_symbols: int, i: int) -> Seq<int> {
    if key_symbols < 2 {
        seq![2 * i]
    } else {
        seq![i / key_symbols, i % key_symbols]
    }
}

/// The value of a needle.
pub open spec fn value_of(key_symbols: int, i: int) -> int {
    if key_symbols < 2 {
        2 * i + 1
    } else {
        key_symbols + i
    }
}

/// Tokens as integers.
pub open spec fn ints(v: Seq<u32>) -> Seq<int> {
    v.map_values(|x: u32| x as int)
}

impl Needles {
    /// Every needle has a prompt, and all prompts are equally long.
    pub open spec fn wf(&self) -> bool {
        &&& self.prompt@.len() == self.value@.len()
        &&& forall|i: int|
            0 <= i < self.prompt@.len() ==> (#[trigger] self.prompt@[i])@.len()
                == self.prompt@[0]@.len()
        &&& self.prompt@.len() > 0 ==> 1 <= self.prompt@[0]@.len() <= 2
    }

    /// Tokens one teaching repetition occupies.
    pub open spec fn width(&self) -> int {
        (if self.prompt@.len() == 0 {
            0int
        } else {
            self.prompt@[0]@.len() as int
        }) + 1
    }

    /// Lays out the symbols; `key_symbols` below two gives each needle a key of
    /// its own, and otherwise there is a needle for every pair of keys.
    pub fn plan(count: usize, key_symbols: usize) -> (p: Self)
        requires
            symbols_reserved(count as int, key_symbols as int) <= u32::MAX,
        ensures
            p.wf(),
            p.reserved == symbols_reserved(count as int, key_symbols as int),
            p.value@.len() == needle_count(count as int, key_symbols as int),
            forall|i: int|
                0 <= i < p.value@.len() ==> ints((#[trigger] p.prompt@[i])@) == prompt_of(
                    key_symbols as int,
                    i,
                ),
            forall|i: int|
                0 <= i < p.value@.len() ==> #[trigger] p.value@[i] == value_of(
                    key_symbols as int,
                    i,
                ),
    {
        if count == 0 {
            return Needles { reserved: 0, prompt: Vec::new(), value: Vec::new() };
        }
        let mut prompt: Vec<Vec<u32>> = Vec::new();
        let mut value: Vec<u32> = Vec::new();
        let mut i: usize = 0;
        if key_symbols < 2 {
            while i < count
                invariant
                    i <= count,
                    2 * count <= u32::MAX,
                    key_symbols < 2,
                    prompt@.len() == i,
                    value@.len() == i,
                    forall|j: int| 0 <= j < i ==> (#[trigger] prompt@[j])@.len() == 1,
                    forall|j: int|
                        0 <= j < i ==> ints((#[trigger] prompt@[j])@) == prompt_of(
                            key_symbols as int,
                            j,
                        ),
                    forall|j: int|
                        0 <= j < i ==> #[trigger] value@[j] == value_of(key_symbols as int, j),
                decreases count - i,
            {
                let mut key: Vec<u32> = Vec::new();
                key.push(2 * i as u32);
                assert(ints(key@) =~= prompt_of(key_symbols as int, i as int));
                prompt.push(key);
                value.push(2 * i as u32 + 1);
                i = i + 1;
            }
            return Needles { reserved: 2 * count, prompt, value };
        }
        let p: usize = key_symbols;
        proof {
            assert(p * p >= 0) by (nonlinear_arith);
        }
        let n: usize = p * p;
        while i < n
            invariant
                i <= n,
                p == key_symbols,
                p >= 2,
                n == p * p,
                p + n <= u32::MAX,
                prompt@.len() == i,
                value@.len() == i,
                forall|j: int| 0 <= j < i ==> (#[trigger] prompt@[j])@.len() == 2,
                forall|j: int|
                    0 <= j < i ==> ints((#[trigger] prompt@[j])@) == prompt_of(
                        key_symbols as int,
                        j,
                    ),
                forall|j: int|
                    0 <= j < i ==> #[trigger] value@[j] == value_of(key_symbols as int, j),
            decreases n - i,
        {
            let mut key: Vec<u32> = Vec::new();
            key.push((i / p) as u32);
            key.push((i % p) as u32);
            proof {
                vstd::arithmetic::div_mod::lemma_div_is_ordered_by_denominator(i as int, 1, p as int);
            }
            assert(ints(key@) =~= prompt_of(key_symbols as int, i as int));
            prompt.push(key);
            value.push((p + i) as u32);
            i = i + 1;
        }
        Needles { reserved: p + n, prompt, value }
    }

    /// How many needles there are.
    pub fn len(&self) -> (n: usize)
        requires
            self.wf(),
        ensures
            n == self.value@.len(),
    {
        self.value.len()
    }

    /// Tokens one teaching repetition occupies.
    pub fn stride(&self) -> (n: usize)
        requires
            self.wf(),
        ensures
            n == self.width(),
            1 <= n <= 3,
            self.value@.len() > 0 ==> n >= 2,
    {
        if self.prompt.len() == 0 {
            1
        } else {
            self.prompt[0].len() + 1
        }
    }
}

/// The symbols of a layout lie below the number reserved, and no value is also
/// a key.
pub proof fn law_needle_symbols_are_reserved(count: int, key_symbols: int, i: int, j: int, o: int)
    requires
        0 <= count,
        0 <= key_symbols,
        0 <= i < needle_count(count, key_symbols),
        0 <= j < needle_count(count, key_symbols),
        0 <= o < prompt_of(key_symbols, i).len(),
    ensures
        0 <= prompt_of(key_symbols, i)[o] < symbols_reserved(count, key_symbols),
        0 <= value_of(key_symbols, i) < symbols_reserved(count, key_symbols),
        prompt_of(key_symbols, i)[o] != value_of(key_symbols, j),
{
    if key_symbols >= 2 {
        let p = key_symbols;
        assert(0 <= i / p < p) by (nonlinear_arith)
            requires
                0 <= i < p * p,
                p > 0,
        ;
        vstd::arithmetic::div_mod::lemma_mod_pos_bound(i, p);
    }
}

/// No two needles share a prompt, and no two share a value.
pub proof fn law_needles_are_distinct(key_symbols: int, i: int, j: int)
    requires
        0 <= key_symbols,
        0 <= i,
        0 <= j,
        i != j,
    ensures
        prompt_of(key_symbols, i) != prompt_of(key_symbols, j),
        value_of(key_symbols, i) != value_of(key_symbols, j),
{
    if key_symbols >= 2 {
        let p = key_symbols;
        if prompt_of(p, i) == prompt_of(p, j) {
            assert(prompt_of(p, i)[0] == i / p && prompt_of(p, j)[0] == j / p);
            assert(prompt_of(p, i)[1] == i % p && prompt_of(p, j)[1] == j % p);
            vstd::arithmetic::div_mod::lemma_fundamental_div_mod(i, p);
            vstd::arithmetic::div_mod::lemma_fundamental_div_mod(j, p);
        }
    } else {
        assert(prompt_of(key_symbols, i)[0] == 2 * i);
        assert(prompt_of(key_symbols, j)[0] == 2 * j);
    }
}

/// With paired keys, every first symbol goes with every second one: a second
/// symbol alone leaves as many values open as there are key symbols.
pub proof fn law_last_symbol_leaves_values_open(key_symbols: int, a: int, b: int)
    requires
        2 <= key_symbols,
        0 <= a < key_symbols,
        0 <= b < key_symbols,
    ensures
        0 <= a * key_symbols + b < key_symbols * key_symbols,
        prompt_of(key_symbols, a * key_symbols + b) == seq![a, b],
        value_of(key_symbols, a * key_symbols + b) == key_symbols + a * key_symbols + b,
{
    let p = key_symbols;
    let i = a * p + b;
    assert(0 <= i < p * p) by (nonlinear_arith)
        requires
            0 <= a < p,
            0 <= b < p,
            i == a * p + b,
    ;
    vstd::arithmetic::div_mod::lemma_fundamental_div_mod_converse(i, p, a, b);
    assert(prompt_of(p, i) =~= seq![a, b]);
}

/// The order that swapping each place, from the last down to the second, with
/// one drawn at or below it gives; `k` places are left to do.
pub open spec fn swaps(v: Seq<int>, draws: Seq<usize>, k: int) -> Seq<int>
    decreases k,
{
    if k < 1 {
        v
    } else {
        let d = draws[draws.len() - k] as int;
        swaps(v.update(k, v[d]).update(d, v[k]), draws, k - 1)
    }
}

/// The numbers below `n` in order.
pub open spec fn counting(n: nat) -> Seq<int> {
    Seq::new(n, |i: int| i)
}

/// The order of `n` things that some draws shuffle them to.
pub open spec fn shuffle(n: nat, draws: Seq<usize>) -> Seq<int> {
    swaps(counting(n), draws, n - 1)
}

/// Indices as integers.
pub open spec fn places(v: Seq<usize>) -> Seq<int> {
    v.map_values(|x: usize| x as int)
}

/// Whether `v` lists every number below its length once.
pub open spec fn is_permutation(v: Seq<int>) -> bool {
    &&& v.no_duplicates()
    &&& forall|k: int| 0 <= k < v.len() ==> 0 <= #[trigger] v[k] < v.len()
}

/// Shuffles `n` things. The draw for place `k`, from the last down to the
/// second, lies at or below `k`.
pub fn shuffled(n: usize, draws: &[usize]) -> (v: Vec<usize>)
    requires
        n == 0 || draws@.len() == n - 1,
        forall|j: int| 0 <= j < draws@.len() ==> #[trigger] draws@[j] <= n - 1 - j,
    ensures
        places(v@) == shuffle(n as nat, draws@),
        v@.len() == n,
        is_permutation(places(v@)),
{
    let mut v: Vec<usize> = Vec::new();
    let mut i: usize = 0;
    while i < n
        invariant
            i <= n,
            v@.len() == i,
            forall|j: int| 0 <= j < i ==> v@[j] == j,
        decreases n - i,
    {
        v.push(i);
        i = i + 1;
    }
    assert(places(v@) =~= counting(n as nat));
    if n < 2 {
        return v;
    }
    let mut k: usize = n - 1;
    while k >= 1
        invariant
            k <= n - 1,
            n >= 2,
            v@.len() == n,
            draws@.len() == n - 1,
            forall|j: int| 0 <= j < draws@.len() ==> #[trigger] draws@[j] <= n - 1 - j,
            swaps(places(v@), draws@, k as int) == shuffle(n as nat, draws@),
            is_permutation(places(v@)),
        decreases k,
    {
        let d: usize = draws[n - 1 - k];
        let x: usize = v[k];
        let y: usize = v[d];
        let ghost was = places(v@);
        v.set(k, y);
        v.set(d, x);
        proof {
            let now = places(v@);
            assert(now =~= was.update(k as int, was[d as int]).update(d as int, was[k as int]));
            assert forall|a: int, b: int|
                0 <= a < now.len() && 0 <= b < now.len() && a != b implies now[a] != now[b] by {
                let oa = if a == d {
                    k as int
                } else if a == k {
                    d as int
                } else {
                    a
                };
                let ob = if b == d {
                    k as int
                } else if b == k {
                    d as int
                } else {
                    b
                };
                assert(now[a] == was[oa] && now[b] == was[ob]);
                assert(oa != ob);
            }
            assert forall|j: int| 0 <= j < now.len() implies 0 <= #[trigger] now[j] < now.len() by {
                let o = if j == d {
                    k as int
                } else if j == k {
                    d as int
                } else {
                    j
                };
                assert(now[j] == was[o]);
            }
        }
        k = k - 1;
    }
    v
}

/// No symbol is taken off the vocabulary in vain: each is part of a prompt or is
/// a value of some needle, and where there is a needle for every pair of keys
/// there are as many as pairs.
pub proof fn law_every_reserved_symbol_is_used(
    count: int,
    key_symbols: int,
    symbol: int,
) -> (i: int)
    requires
        0 <= count,
        0 <= key_symbols,
        0 <= symbol < symbols_reserved(count, key_symbols),
    ensures
        0 <= i < needle_count(count, key_symbols),
        prompt_of(key_symbols, i).contains(symbol) || value_of(key_symbols, i) == symbol,
        key_symbols < 2 ==> prompt_of(key_symbols, i).len() == 1,
        key_symbols >= 2 ==> prompt_of(key_symbols, i).len() == 2,
{
    if key_symbols < 2 {
        let i = symbol / 2;
        assert(prompt_of(key_symbols, i)[0] == 2 * i);
        if symbol % 2 == 0 {
            assert(prompt_of(key_symbols, i)[0] == symbol);
        }
        i
    } else {
        let p = key_symbols;
        if symbol < p {
            vstd::arithmetic::div_mod::lemma_small_mod(symbol as nat, p as nat);
            assert(prompt_of(p, symbol)[1] == symbol);
            assert(p <= p * p) by (nonlinear_arith)
                requires
                    p >= 1,
            ;
            symbol
        } else {
            symbol - p
        }
    }
}

/// There are as many needles as asked for, or one for every pair of keys: each
/// needle has a pair of its own and each pair a needle, so there are no more of
/// them than pairs.
pub proof fn law_every_pair_of_keys_has_a_needle(count: int, key_symbols: int, i: int)
    requires
        0 < count,
        2 <= key_symbols,
        0 <= i,
    ensures
        i < needle_count(count, key_symbols) <==> 0 <= prompt_of(key_symbols, i)[0] < key_symbols,
        0 <= prompt_of(key_symbols, i)[1] < key_symbols,
        needle_count(count, 0) == count,
        needle_count(count, 1) == count,
        needle_count(0, key_symbols) == 0,
{
    let p = key_symbols;
    vstd::arithmetic::div_mod::lemma_fundamental_div_mod(i, p);
    vstd::arithmetic::div_mod::lemma_mod_pos_bound(i, p);
    let q = i / p;
    vstd::arithmetic::div_mod::lemma_div_pos_is_pos(i, p);
    if q < p {
        assert(p * q + p <= p * p) by (nonlinear_arith)
            requires
                q + 1 <= p,
                p >= 1,
        ;
    } else {
        assert(p * q >= p * p) by (nonlinear_arith)
            requires
                q >= p,
                p >= 1,
        ;
    }
}

/// Swapping places from `k` down leaves the places above `k` alone.
proof fn lemma_swaps_stay(v: Seq<int>, draws: Seq<usize>, k: int, i: int)
    requires
        k < i < v.len(),
        k < v.len(),
        k <= draws.len(),
        forall|j: int| 0 <= j < draws.len() ==> #[trigger] draws[j] <= draws.len() - j,
    ensures
        swaps(v, draws, k).len() == v.len(),
        swaps(v, draws, k)[i] == v[i],
    decreases k,
{
    if k >= 1 {
        let d = draws[draws.len() - k] as int;
        lemma_swaps_stay(v.update(k, v[d]).update(d, v[k]), draws, k - 1, i);
    }
}

proof fn lemma_swaps_differ(v: Seq<int>, a: Seq<usize>, b: Seq<usize>, k: int, j: int)
    requires
        v.no_duplicates(),
        a.len() == b.len(),
        a.len() == v.len() - 1,
        0 <= k < v.len(),
        forall|j: int| 0 <= j < a.len() ==> #[trigger] a[j] <= a.len() - j,
        forall|j: int| 0 <= j < b.len() ==> #[trigger] b[j] <= b.len() - j,
        a.len() - k <= j < a.len(),
        a[j] != b[j],
    ensures
        swaps(v, a, k) != swaps(v, b, k),
    decreases k,
{
    let c = a[a.len() - k] as int;
    let d = b[b.len() - k] as int;
    let x = v.update(k, v[c]).update(c, v[k]);
    let y = v.update(k, v[d]).update(d, v[k]);
    assert(a[a.len() - k] <= k && b[b.len() - k] <= k);
    lemma_swaps_stay(x, a, k - 1, k);
    lemma_swaps_stay(y, b, k - 1, k);
    if c != d {
        assert(x[k] == v[c] && y[k] == v[d]);
        assert(v[c] != v[d]);
    } else {
        assert forall|p: int, q: int|
            0 <= p < x.len() && 0 <= q < x.len() && p != q implies x[p] != x[q] by {
            let op = if p == c {
                k
            } else if p == k {
                c
            } else {
                p
            };
            let oq = if q == c {
                k
            } else if q == k {
                c
            } else {
                q
            };
            assert(x[p] == v[op] && x[q] == v[oq] && op != oq);
        }
        lemma_swaps_differ(x, a, b, k - 1, j);
    }
}

/// Different draws shuffle to different orders, so that where all draws are
/// equally likely all orders are: there are as many of either.
pub proof fn law_shuffles_favour_no_order(n: nat, a: Seq<usize>, b: Seq<usize>)
    requires
        n >= 1,
        a.len() == n - 1,
        b.len() == n - 1,
        forall|j: int| 0 <= j < a.len() ==> #[trigger] a[j] <= n - 1 - j,
        forall|j: int| 0 <= j < b.len() ==> #[trigger] b[j] <= n - 1 - j,
        a != b,
    ensures
        shuffle(n, a) != shuffle(n, b),
{
    if forall|j: int| 0 <= j < a.len() ==> a[j] == b[j] {
        assert(a =~= b);
    }
    let j = choose|j: int| 0 <= j < a.len() && a[j] != b[j];
    lemma_swaps_differ(counting(n), a, b, n - 1, j);
}

} // verus!
