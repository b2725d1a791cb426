//! The protocol of a stream that cycles through domains.

use vstd::prelude::*;

verus! {

/// The domain of a position.
pub open spec fn domain_at(i: int, span: int, domains: int) -> int {
    (i / span) % domains
}

/// How often the cycle was completed before a position.
pub open spec fn visit_at(i: int, span: int, domains: int) -> int {
    i / (span * domains)
}

/// How many tokens at each end of a visit are looked at.
pub open spec fn probe_len(span: int) -> int {
    if span / 50 < 1 {
        1
    } else if span / 50 > 64 {
        64
    } else {
        span / 50
    }
}

/// Which part of a visit a position is in.
#[derive(Clone, Copy, Debug, PartialEq, Eq, Structural)]
pub enum Part {
    /// The first tokens after coming back.
    Reentry,
    /// The last tokens before leaving.
    Settled,
    /// What is between them.
    Between,
}

/// Which part of a visit a position is in.
pub open spec fn part_at(i: int, span: int) -> Part {
    if i % span < probe_len(span) {
        Part::Reentry
    } else if i % span >= span - probe_len(span) {
        Part::Settled
    } else {
        Part::Between
    }
}

/// Whether a position is in the opening fifth of its visit.
pub open spec fn opens_at(i: int, span: int) -> bool {
    i % span < span / 5
}

/// How many rows a table by visit needs for a stream of `tokens`.
pub open spec fn rows_for(tokens: int, span: int, domains: int) -> int {
    visit_at(tokens, span, domains) + 1
}

/// Whether a domain may be exchanged at a position.
pub open spec fn swaps_at(i: int, at: int, swapped: bool, span: int) -> bool {
    !swapped && i >= at && i % span == 0
}

/// A stream that spends `span` tokens in each of `domains` domains in turn.
#[derive(Clone, Copy, Debug)]
pub struct Cycle {
    span: usize,
    domains: usize,
    around: usize,
}

impl Cycle {
    /// Tokens in a visit.
    pub closed spec fn len(&self) -> int {
        self.span as int
    }

    /// Domains in the cycle.
    pub closed spec fn count(&self) -> int {
        self.domains as int
    }

    /// Both are at least one.
    pub closed spec fn wf(&self) -> bool {
        &&& self.span >= 1
        &&& self.domains >= 1
        &&& self.around == self.span * self.domains
        &&& self.around >= 1
    }

    /// A cycle; a span or a number of domains of zero counts as one.
    pub fn new(span: usize, domains: usize) -> (c: Self)
        requires
            span * domains <= usize::MAX,
        ensures
            c.wf(),
            c.len() == if span == 0 {
                1
            } else {
                span as int
            },
            c.count() == if domains == 0 {
                1
            } else {
                domains as int
            },
    {
        let s: usize = if span == 0 {
            1
        } else {
            span
        };
        let d: usize = if domains == 0 {
            1
        } else {
            domains
        };
        proof {
            assert(1 * d == d && s * 1 == s) by (nonlinear_arith);
            assert(s * d >= 1) by (nonlinear_arith)
                requires
                    s >= 1,
                    d >= 1,
            ;
        }
        Cycle { span: s, domains: d, around: s * d }
    }

    /// Tokens in a visit.
    pub fn span(&self) -> (n: usize)
        requires
            self.wf(),
        ensures
            n == self.len(),
            n >= 1,
    {
        self.span
    }

    /// Domains in the cycle.
    pub fn domains(&self) -> (n: usize)
        requires
            self.wf(),
        ensures
            n == self.count(),
            n >= 1,
    {
        self.domains
    }

    /// The domain of a position.
    pub fn domain(&self, i: usize) -> (d: usize)
        requires
            self.wf(),
        ensures
            d == domain_at(i as int, self.len(), self.count()),
            d < self.count(),
    {
        (i / self.span) % self.domains
    }

    /// How often the cycle was completed before a position.
    pub fn visit(&self, i: usize) -> (v: usize)
        requires
            self.wf(),
        ensures
            v == visit_at(i as int, self.len(), self.count()),
    {
        i / self.around
    }

    /// How far into its visit a position is.
    pub fn within(&self, i: usize) -> (w: usize)
        requires
            self.wf(),
        ensures
            w == i as int % self.len(),
            w < self.len(),
    {
        i % self.span
    }

    /// How many tokens at each end of a visit are looked at. Few on purpose: if
    /// relearning takes fifty tokens, a longer probe would measure the relearned
    /// state.
    pub fn probe(&self) -> (p: usize)
        requires
            self.wf(),
        ensures
            p == probe_len(self.len()),
            1 <= p <= 64,
            p <= self.len(),
    {
        let p: usize = self.span / 50;
        if p < 1 {
            1
        } else if p > 64 {
            64
        } else {
            p
        }
    }

    /// Which part of its visit a position is in.
    pub fn part(&self, i: usize) -> (p: Part)
        requires
            self.wf(),
        ensures
            p == part_at(i as int, self.len()),
    {
        let w: usize = self.within(i);
        let probe: usize = self.probe();
        if w < probe {
            Part::Reentry
        } else if w >= self.span - probe {
            Part::Settled
        } else {
            Part::Between
        }
    }

    /// How many rows a table by visit needs for a stream of `tokens`.
    pub fn visits(&self, tokens: usize) -> (n: usize)
        requires
            self.wf(),
            tokens < usize::MAX,
        ensures
            n == rows_for(tokens as int, self.len(), self.count()),
    {
        proof {
            assert(tokens as int / self.around as int <= tokens) by (nonlinear_arith)
                requires
                    self.around >= 1,
                    tokens >= 0,
            ;
        }
        tokens / self.around + 1
    }

    /// Whether a position is in the opening fifth of its visit.
    pub fn opening(&self, i: usize) -> (b: bool)
        requires
            self.wf(),
        ensures
            b == opens_at(i as int, self.len()),
    {
        self.within(i) < self.span / 5
    }

    /// Whether a domain may be exchanged at a position: not before `at`, and
    /// only where a visit begins, so the new one gets a whole visit.
    pub fn may_swap(&self, i: usize, at: usize, swapped: bool) -> (b: bool)
        requires
            self.wf(),
        ensures
            b == swaps_at(i as int, at as int, swapped, self.len()),
    {
        !swapped && i >= at && i % self.span == 0
    }
}

/// How long the two ends of a visit are that are looked at: a fiftieth of it, but
/// at least one token and no more than sixty-four.
pub proof fn law_probes_are_short(span: int)
    requires
        1 <= span,
    ensures
        1 <= probe_len(span) <= 64,
        probe_len(span) == 1 || 50 * probe_len(span) <= span,
        probe_len(span) == 64 || span < 50 * (probe_len(span) + 1),
{
}

/// A position is looked at as re-entry where so few steps back lead out of the
/// visit, and as settled where so few steps on lead into the next one; the rest
/// of the visit is neither.
pub proof fn law_ends_of_a_visit_are_looked_at(i: int, span: int)
    requires
        0 <= i,
        2 * probe_len(span) <= span,
    ensures
        part_at(i, span) == Part::Reentry <==> (i - probe_len(span)) / span < i / span,
        part_at(i, span) == Part::Settled <==> (i + probe_len(span)) / span > i / span,
{
    let p = probe_len(span);
    let q = i / span;
    let w = i % span;
    vstd::arithmetic::div_mod::lemma_fundamental_div_mod(i, span);
    vstd::arithmetic::div_mod::lemma_mod_pos_bound(i, span);
    assert(span * q == q * span) by (nonlinear_arith);
    assert((q + 1) * span == q * span + span && (q - 1) * span == q * span - span)
        by (nonlinear_arith);
    if w < p {
        vstd::arithmetic::div_mod::lemma_fundamental_div_mod_converse(
            i - p,
            span,
            q - 1,
            w - p + span,
        );
    } else {
        vstd::arithmetic::div_mod::lemma_fundamental_div_mod_converse(i - p, span, q, w - p);
    }
    if w + p >= span {
        vstd::arithmetic::div_mod::lemma_fundamental_div_mod_converse(
            i + p,
            span,
            q + 1,
            w + p - span,
        );
    } else {
        vstd::arithmetic::div_mod::lemma_fundamental_div_mod_converse(i + p, span, q, w + p);
    }
}

/// How many of the first `n` positions are in a part of their visit.
pub open spec fn count_part(part: Part, span: int, n: int) -> int
    decreases n,
{
    if n <= 0 {
        0
    } else {
        count_part(part, span, n - 1) + if part_at(n - 1, span) == part {
            1int
        } else {
            0
        }
    }
}

proof fn lemma_count_parts(span: int, n: int)
    requires
        0 <= n <= span,
        2 * probe_len(span) <= span,
    ensures
        ({
            let p = probe_len(span);
            &&& count_part(Part::Reentry, span, n) == if n < p {
                n
            } else {
                p
            }
            &&& count_part(Part::Settled, span, n) == if n < span - p {
                0
            } else {
                n - (span - p)
            }
        }),
    decreases n,
{
    if n > 0 {
        lemma_count_parts(span, n - 1);
        vstd::arithmetic::div_mod::lemma_small_mod((n - 1) as nat, span as nat);
    }
}

/// The two ends of a visit that are looked at are equally long, and a whole visit
/// holds exactly that many positions of either.
pub proof fn law_ends_are_equally_long(span: int)
    requires
        2 * probe_len(span) <= span,
    ensures
        count_part(Part::Reentry, span, span) == probe_len(span),
        count_part(Part::Settled, span, span) == probe_len(span),
{
    lemma_count_parts(span, span);
}

/// The opening of a visit is its first fifth: the positions that five of them, as
/// far in as they are, still fit into the visit.
pub proof fn law_openings_are_a_fifth(i: int, span: int)
    requires
        0 <= i,
        1 <= span,
    ensures
        opens_at(i, span) <==> 5 * (i - (i / span) * span + 1) <= span,
{
    vstd::arithmetic::div_mod::lemma_fundamental_div_mod(i, span);
    assert(span * (i / span) == (i / span) * span) by (nonlinear_arith);
}

/// A table by visit has no more rows than the stream asks for: the last one is for
/// the cycle that the end of the stream falls in.
pub proof fn law_no_row_is_spare(tokens: int, span: int, domains: int)
    requires
        1 <= span,
        1 <= domains,
        0 <= tokens,
    ensures
        (rows_for(tokens, span, domains) - 1) * (span * domains) <= tokens,
        tokens < rows_for(tokens, span, domains) * (span * domains),
{
    let m = span * domains;
    let q = tokens / m;
    assert(m >= 1) by (nonlinear_arith)
        requires
            span >= 1,
            domains >= 1,
            m == span * domains,
    ;
    vstd::arithmetic::div_mod::lemma_fundamental_div_mod(tokens, m);
    vstd::arithmetic::div_mod::lemma_mod_pos_bound(tokens, m);
    assert(m * q == q * m && (q + 1) * m == q * m + m) by (nonlinear_arith);
}

/// A domain is exchanged once, where the first visit begins that is not before
/// `at`: in any span of positions from there on exactly one begins a visit.
pub proof fn law_swaps_open_a_visit(i: int, at: int, span: int) -> (first: int)
    requires
        1 <= span,
        0 <= at,
        at <= i < at + span,
    ensures
        at <= first < at + span,
        swaps_at(i, at, false, span) <==> i == first,
        first == (first / span) * span,
        !swaps_at(i, at, true, span),
        !swaps_at(i - span, at, false, span),
{
    let q = (at + span - 1) / span;
    let r = (at + span - 1) % span;
    vstd::arithmetic::div_mod::lemma_fundamental_div_mod(at + span - 1, span);
    vstd::arithmetic::div_mod::lemma_mod_pos_bound(at + span - 1, span);
    assert(span * q == q * span) by (nonlinear_arith);
    let first = q * span;
    vstd::arithmetic::div_mod::lemma_fundamental_div_mod_converse(first, span, q, 0);
    if i > first {
        vstd::arithmetic::div_mod::lemma_fundamental_div_mod_converse(i, span, q, i - first);
    } else if i < first {
        assert((q - 1) * span == q * span - span) by (nonlinear_arith);
        vstd::arithmetic::div_mod::lemma_fundamental_div_mod_converse(
            i,
            span,
            q - 1,
            i - first + span,
        );
    }
    first
}

/// Every position of a stream has a row in a table by visit.
pub proof fn law_visits_suffice(i: int, tokens: int, span: int, domains: int)
    requires
        1 <= span,
        1 <= domains,
        0 <= i < tokens,
    ensures
        0 <= visit_at(i, span, domains) < rows_for(tokens, span, domains),
{
    assert(span * domains >= 1) by (nonlinear_arith)
        requires
            span >= 1,
            domains >= 1,
    ;
    vstd::arithmetic::div_mod::lemma_div_is_ordered(i, tokens, span * domains);
    vstd::arithmetic::div_mod::lemma_div_pos_is_pos(i, span * domains);
}

/// A position is given by how often the cycle was completed, the domain and how
/// far into the visit it is.
pub proof fn law_position_decomposes(i: int, span: int, domains: int)
    requires
        1 <= span,
        1 <= domains,
        0 <= i,
    ensures
        i == visit_at(i, span, domains) * (span * domains) + domain_at(i, span, domains) * span + i
            % span,
        0 <= domain_at(i, span, domains) < domains,
        0 <= i % span < span,
{
    let q = i / span;
    vstd::arithmetic::div_mod::lemma_fundamental_div_mod(i, span);
    vstd::arithmetic::div_mod::lemma_fundamental_div_mod(q, domains);
    vstd::arithmetic::div_mod::lemma_mod_pos_bound(q, domains);
    vstd::arithmetic::div_mod::lemma_mod_pos_bound(i, span);
    vstd::arithmetic::div_mod::lemma_div_denominator(i, span, domains);
    let v = q / domains;
    let d = q % domains;
    assert(span * (domains * v + d) == v * (span * domains) + d * span) by (nonlinear_arith);
}

/// A whole cycle later the stream is at the same point of the same domain, one
/// visit on.
pub proof fn law_domains_come_back(i: int, span: int, domains: int)
    requires
        1 <= span,
        1 <= domains,
        0 <= i,
    ensures
        domain_at(i + span * domains, span, domains) == domain_at(i, span, domains),
        (i + span * domains) % span == i % span,
        visit_at(i + span * domains, span, domains) == visit_at(i, span, domains) + 1,
{
    let q = i / span;
    let r = i % span;
    vstd::arithmetic::div_mod::lemma_fundamental_div_mod(i, span);
    vstd::arithmetic::div_mod::lemma_mod_pos_bound(i, span);
    assert(i + span * domains == (q + domains) * span + r) by (nonlinear_arith)
        requires
            i == span * q + r,
    ;
    vstd::arithmetic::div_mod::lemma_fundamental_div_mod_converse(
        i + span * domains,
        span,
        q + domains,
        r,
    );
    vstd::arithmetic::div_mod::lemma_mod_add_multiples_vanish(q, domains);
    let m = span * domains;
    assert(m >= 1) by (nonlinear_arith)
        requires
            span >= 1,
            domains >= 1,
            m == span * domains,
    ;
    vstd::arithmetic::div_mod::lemma_fundamental_div_mod(i, m);
    vstd::arithmetic::div_mod::lemma_mod_pos_bound(i, m);
    assert(i + m == (i / m + 1) * m + i % m) by (nonlinear_arith)
        requires
            i == m * (i / m) + i % m,
    ;
    vstd::arithmetic::div_mod::lemma_fundamental_div_mod_converse(i + m, m, i / m + 1, i % m);
}

/// Whether a position is in the last tenth of a stream.
pub open spec fn is_tail(i: int, n: int) -> bool {
    i * 10 >= n * 9
}

/// Whether a position is in the last tenth of a stream.
pub fn in_tail(i: usize, n: usize) -> (b: bool)
    ensures
        b == is_tail(i as int, n as int),
{
    i as u128 * 10 >= n as u128 * 9
}

/// How many positions the last tenth of a stream counts for, at least one.
pub open spec fn tail_len(n: int) -> int {
    if n - n * 9 / 10 < 1 {
        1
    } else {
        n - n * 9 / 10
    }
}

/// How many positions the last tenth of a stream counts for, at least one.
pub fn tail_count(n: usize) -> (m: usize)
    ensures
        m == tail_len(n as int),
        m >= 1,
{
    let m: usize = n - (n as u128 * 9 / 10) as usize;
    if m < 1 {
        1
    } else {
        m
    }
}

/// Where a stream can be cut in ten, the last tenth is as long as it counts for:
/// it is everything from nine tenths on.
pub proof fn law_tail_is_a_tenth(i: int, n: int)
    requires
        n % 10 == 0,
        10 <= n,
    ensures
        is_tail(i, n) <==> i >= n - tail_len(n),
{
}

/// The last tenth is where no more than a tenth of the stream is left, and it
/// counts for a tenth of the stream, rounded up.
pub proof fn law_tail_is_what_is_left(i: int, n: int)
    requires
        0 <= i < n,
    ensures
        is_tail(i, n) <==> 10 * (n - i) <= n,
        n <= 10 * tail_len(n) < n + 10,
{
}

/// The tenth of a stream that a position falls in.
pub open spec fn decile_of(i: int, n: int) -> int {
    i * 10 / n
}

/// The tenth of a stream that a position falls in.
pub fn decile(i: usize, n: usize) -> (d: usize)
    requires
        i < n,
    ensures
        d == decile_of(i as int, n as int),
        d < 10,
{
    proof {
        assert((i as int * 10) / (n as int) < 10) by (nonlinear_arith)
            requires
                0 <= i < n,
        ;
        assert((i as int * 10) / (n as int) >= 0) by (nonlinear_arith)
            requires
                0 <= i < n,
        ;
    }
    ((i as u128 * 10) / (n as u128)) as usize
}

/// The ten parts of a stream follow one another and are equally long: a position
/// is in the one whose bounds it lies between.
pub proof fn law_deciles_are_even(i: int, n: int, k: int)
    requires
        0 <= i < n,
    ensures
        decile_of(i, n) == k <==> k * n <= 10 * i < (k + 1) * n,
{
    let q = i * 10 / n;
    vstd::arithmetic::div_mod::lemma_fundamental_div_mod(i * 10, n);
    vstd::arithmetic::div_mod::lemma_mod_pos_bound(i * 10, n);
    assert(n * q == q * n && (q + 1) * n == q * n + n && (k + 1) * n == k * n + n)
        by (nonlinear_arith);
    if k < q {
        assert((k + 1) * n <= q * n) by (nonlinear_arith)
            requires
                k + 1 <= q,
                n > 0,
        ;
    } else if k > q {
        assert((q + 1) * n <= k * n) by (nonlinear_arith)
            requires
                q + 1 <= k,
                n > 0,
        ;
    }
}

/// The last tenth is the last of the ten.
pub proof fn law_tail_is_the_last_decile(i: int, n: int)
    requires
        0 <= i < n,
    ensures
        is_tail(i, n) == (decile_of(i, n) == 9),
{
    let q = i * 10 / n;
    vstd::arithmetic::div_mod::lemma_fundamental_div_mod(i * 10, n);
    vstd::arithmetic::div_mod::lemma_mod_pos_bound(i * 10, n);
    if q >= 9 {
        assert(n * q >= n * 9) by (nonlinear_arith)
            requires
                q >= 9,
                n > 0,
        ;
        assert(q < 10) by (nonlinear_arith)
            requires
                n * q <= i * 10,
                i < n,
                n > 0,
        ;
    } else {
        assert(n * q + n <= n * 9) by (nonlinear_arith)
            requires
                q + 1 <= 9,
                n > 0,
        ;
    }
}

/// How far apart the alphabets of neighbouring domains start.
pub open spec fn alphabet_stride(vocab: int, domains: int) -> int {
    if vocab / domains < 1 {
        1
    } else {
        vocab / domains
    }
}

/// How far apart the alphabets of neighbouring domains start.
pub fn stride(vocab: usize, domains: usize) -> (s: usize)
    requires
        domains >= 1,
    ensures
        s == alphabet_stride(vocab as int, domains as int),
        s >= 1,
{
    let s: usize = vocab / domains;
    if s < 1 {
        1
    } else {
        s
    }
}

/// The alphabets start as far apart as the vocabulary allows them to: so many
/// steps for each domain fit into it, and one more each would not.
pub proof fn law_alphabets_are_spread(vocab: int, domains: int)
    requires
        1 <= domains,
        0 <= vocab,
    ensures
        alphabet_stride(vocab, domains) >= 1,
        domains <= vocab ==> domains * alphabet_stride(vocab, domains) <= vocab,
        vocab < domains * (alphabet_stride(vocab, domains) + 1),
{
    let q = vocab / domains;
    vstd::arithmetic::div_mod::lemma_fundamental_div_mod(vocab, domains);
    vstd::arithmetic::div_mod::lemma_mod_pos_bound(vocab, domains);
    assert(domains * (q + 1) == domains * q + domains) by (nonlinear_arith);
    if q < 1 {
        assert(domains * q <= 0) by (nonlinear_arith)
            requires
                q <= 0,
                domains >= 1,
        ;
        assert(domains * 2 == 2 * domains) by (nonlinear_arith);
    }
}

/// The width of a domain's alphabet.
pub open spec fn width_of(asked: int, vocab: int) -> int {
    if asked < 2 {
        2
    } else if asked > vocab {
        vocab
    } else {
        asked
    }
}

/// No other width that an alphabet can have is closer to the one asked for.
pub proof fn law_widths_are_as_asked(asked: int, vocab: int, other: int)
    requires
        2 <= other <= vocab,
    ensures
        2 <= width_of(asked, vocab) <= vocab,
        asked <= width_of(asked, vocab) ==> width_of(asked, vocab) <= other || other < asked,
        asked >= width_of(asked, vocab) ==> width_of(asked, vocab) >= other || other > asked,
{
}

/// The width of a domain's alphabet: as asked, but at least two and no more
/// than there are tokens.
pub fn window_width(asked: usize, vocab: usize) -> (w: usize)
    requires
        vocab >= 2,
    ensures
        w == width_of(asked as int, vocab as int),
        2 <= w <= vocab,
{
    if asked < 2 {
        2
    } else if asked > vocab {
        vocab
    } else {
        asked
    }
}

/// The token that a domain's own symbol stands for: the alphabets are windows
/// that slide over the vocabulary and wrap around.
pub open spec fn placed(symbol: int, offset: int, vocab: int) -> int {
    (symbol + offset) % vocab
}

/// The token that a domain's own symbol stands for.
pub open spec fn symbol_in(symbol: int, domain: int, stride: int, vocab: int) -> int {
    placed(symbol, domain * stride, vocab)
}

/// The first domain's symbols are the tokens themselves, and each domain's are a
/// stride further on than those of the one before, around the end of the
/// vocabulary.
pub proof fn law_alphabets_slide(symbol: int, domain: int, stride: int, vocab: int)
    requires
        0 <= symbol < vocab,
        0 <= domain,
        0 <= stride,
    ensures
        symbol_in(symbol, 0, stride, vocab) == symbol,
        symbol_in(symbol, domain + 1, stride, vocab) == symbol_in(
            symbol + stride,
            domain,
            stride,
            vocab,
        ),
        0 <= symbol_in(symbol, domain, stride, vocab) < vocab,
        symbol_in(symbol + vocab, domain, stride, vocab) == symbol_in(
            symbol,
            domain,
            stride,
            vocab,
        ),
{
    assert(0 * stride == 0 && (domain + 1) * stride == domain * stride + stride)
        by (nonlinear_arith);
    vstd::arithmetic::div_mod::lemma_small_mod(symbol as nat, vocab as nat);
    vstd::arithmetic::div_mod::lemma_mod_pos_bound(symbol + domain * stride, vocab);
    vstd::arithmetic::div_mod::lemma_mod_add_multiples_vanish(symbol + domain * stride, vocab);
}

/// The token that a domain's own symbol stands for.
pub fn place_symbol(symbol: u32, domain: usize, stride: usize, vocab: usize) -> (t: u32)
    requires
        1 <= vocab <= u32::MAX,
        symbol + domain * stride <= usize::MAX,
    ensures
        t == symbol_in(symbol as int, domain as int, stride as int, vocab as int),
        t < vocab,
{
    proof {
        assert(0 <= domain * stride) by (nonlinear_arith);
    }
    ((symbol as usize + domain * stride) % vocab) as u32
}

/// Two symbols of one domain never stand for the same token.
pub proof fn law_alphabets_do_not_fold(a: int, b: int, offset: int, vocab: int)
    requires
        0 <= a < vocab,
        0 <= b < vocab,
        0 <= offset,
        placed(a, offset, vocab) == placed(b, offset, vocab),
    ensures
        a == b,
{
    vstd::arithmetic::div_mod::lemma_mod_equivalence(a + offset, b + offset, vocab);
    let d = a - b;
    assert((a + offset) - (b + offset) == d);
    if d != 0 {
        if d > 0 {
            vstd::arithmetic::div_mod::lemma_small_mod(d as nat, vocab as nat);
        } else {
            vstd::arithmetic::div_mod::lemma_mod_add_multiples_vanish(d, vocab);
            vstd::arithmetic::div_mod::lemma_small_mod((d + vocab) as nat, vocab as nat);
        }
    }
}

} // verus!
