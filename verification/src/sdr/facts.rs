//! Relational facts, and the stream that holds them domain by domain.

use vstd::prelude::*;

use crate::sdr::graph::fact_of;
use crate::sdr::graph::Edge;

verus! {

/// Whether the domains have entities of their own or share them.
#[derive(Clone, Copy, Debug, PartialEq, Eq, Structural)]
pub enum StreamMode {
    /// Disjoint domains over a common backbone.
    ModeA,
    /// The same entities in every domain, with other meanings.
    ModeB,
}

/// Whether two texts are the same.
pub(crate) fn same(a: &str, b: &str) -> (r: bool)
    ensures
        r == (a@ == b@),
{
    let n: usize = a.unicode_len();
    if n != b.unicode_len() {
        return false;
    }
    let mut i: usize = 0;
    while i < n
        invariant
            n == a@.len(),
            n == b@.len(),
            i <= n,
            a@.take(i as int) == b@.take(i as int),
        decreases n - i,
    {
        if a.get_char(i) != b.get_char(i) {
            return false;
        }
        proof {
            assert(a@.take(i + 1) =~= a@.take(i as int).push(a@[i as int]));
            assert(b@.take(i + 1) =~= b@.take(i as int).push(b@[i as int]));
        }
        i = i + 1;
    }
    proof {
        assert(a@.take(n as int) =~= a@);
        assert(b@.take(n as int) =~= b@);
    }
    true
}

/// A letter of ASCII in lower case; any other character as it is.
pub open spec fn ascii_lower(c: char) -> char {
    if 'A' <= c <= 'Z' {
        (c as u32 + 32) as char
    } else {
        c
    }
}

/// What `str::to_lowercase` makes of a text that is not all ASCII.
pub uninterp spec fn lower_text(text: Seq<char>) -> Seq<char>;

/// A text in lower case.
pub open spec fn lowered(text: Seq<char>) -> Seq<char> {
    if vstd::utf8::is_ascii_chars(text) {
        text.map_values(|c: char| ascii_lower(c))
    } else {
        lower_text(text)
    }
}

/// `str::to_lowercase`: the text in lower case by the rules of Unicode, which do
/// not depend on a locale. Of a text that is all ASCII the result is stated, the
/// letters `A` to `Z` become `a` to `z`; of any other it is only named.
#[verifier::external_body]
fn to_lower(text: &str) -> (r: String)
    ensures
        vstd::utf8::is_ascii_chars(text@) ==> r@ == text@.map_values(|c: char| ascii_lower(c)),
        !vstd::utf8::is_ascii_chars(text@) ==> r@ == lower_text(text@),
{
    text.to_lowercase()
}

impl StreamMode {
    /// Which mode a name in lower case means.
    pub open spec fn named(text: Seq<char>) -> StreamMode {
        if text == "b"@ || text == "mode_b"@ || text == "modeb"@ {
            StreamMode::ModeB
        } else {
            StreamMode::ModeA
        }
    }

    /// Which mode a name in lower case means: anything that does not ask for the
    /// shared entities means disjoint domains.
    pub fn from_lower(text: &str) -> (m: Self)
        ensures
            m == StreamMode::named(text@),
    {
        if same(text, "b") || same(text, "mode_b") || same(text, "modeb") {
            StreamMode::ModeB
        } else {
            StreamMode::ModeA
        }
    }

    /// Which mode a name means, in whatever case it is written.
    pub fn from_str(text: &str) -> (m: Self)
        ensures
            m == StreamMode::named(lowered(text@)),
    {
        let lower: String = to_lower(text);
        StreamMode::from_lower(lower.as_str())
    }

    /// What the mode is called in print.
    pub fn name(&self) -> (s: &'static str)
        ensures
            s@ == match *self {
                StreamMode::ModeA => "Mode A (Orthogonal Domains)"@,
                StreamMode::ModeB => "Mode B (Shared-Entity Semantic Collision)"@,
            },
    {
        match self {
            StreamMode::ModeA => "Mode A (Orthogonal Domains)",
            StreamMode::ModeB => "Mode B (Shared-Entity Semantic Collision)",
        }
    }
}

/// A fact of one domain: an entity and a relation lead to a target.
#[derive(Clone, Copy, Debug, PartialEq, Eq, Structural)]
pub struct RelationalFact {
    /// The domain that holds the fact.
    pub domain: usize,
    /// What the fact is about.
    pub entity: usize,
    /// What is asked of it.
    pub relation: usize,
    /// The answer.
    pub target: usize,
    /// 0 for a hub, 1 for the middle, 2 for the tail.
    pub rank_tier: usize,
}

/// Why a stream cannot be laid out.
#[derive(Clone, Copy, Debug, PartialEq, Eq)]
pub enum Refusal {
    /// There has to be a domain.
    Domains,
    /// A domain has at least three facts.
    Facts,
    /// A visit has at least the three tokens of a fact.
    Span,
    /// There has to be a round.
    Rounds,
    /// The vocabulary is smaller than the tokens needed.
    Vocab {
        /// How many tokens are needed, if a machine can count to it.
        needed: Option<usize>,
    },
}

/// How many tokens are entities, relations or targets.
pub open spec fn allotted(mode: StreamMode, domains: int, facts: int) -> int {
    match mode {
        StreamMode::ModeA => entity_count(domains, facts) + 2 + 2 * domains,
        StreamMode::ModeB => 2 * shared_count(facts) + 4 + domains * shared_count(facts),
    }
}

/// How many tokens a stream needs: those, and above them one cue per domain.
pub open spec fn needed(mode: StreamMode, domains: int, facts: int) -> int {
    allotted(mode, domains, facts) + domains
}

/// How many entities disjoint domains have between them.
pub open spec fn entity_count(domains: int, facts: int) -> int {
    if domains * facts < 128 {
        128
    } else {
        domains * facts
    }
}

/// How many entities the domains share where they share them.
pub open spec fn shared_count(facts: int) -> int {
    if facts < 32 {
        32
    } else {
        facts
    }
}

/// A number, if a machine can count to it.
pub open spec fn countable(n: int) -> Option<usize> {
    if n <= usize::MAX {
        Some(n as usize)
    } else {
        None
    }
}

/// How many tokens a stream needs, if a machine can count to it.
pub fn tokens_needed(mode: StreamMode, domains: usize, facts: usize) -> (n: Option<usize>)
    ensures
        n == countable(needed(mode, domains as int, facts as int)),
{
    let per: u128 = match mode {
        StreamMode::ModeA => facts as u128,
        StreamMode::ModeB => if facts < 32 {
            32
        } else {
            facts as u128
        },
    };
    proof {
        let m = 0xffff_ffff_ffff_ffffint;
        assert(0 <= domains * per <= m * m) by (nonlinear_arith)
            requires
                0 <= domains <= m,
                0 <= per <= m,
        ;
    }
    let p: u128 = domains as u128 * per;
    if p > usize::MAX as u128 {
        return None;
    }
    let n: u128 = match mode {
        StreamMode::ModeA => (if p < 128 {
            128
        } else {
            p
        }) + 2 + 3 * (domains as u128),
        StreamMode::ModeB => 2 * per + 4 + p + domains as u128,
    };
    if n > usize::MAX as u128 {
        None
    } else {
        Some(n as usize)
    }
}

/// Why a stream cannot be laid out, if it cannot.
pub open spec fn refusal(
    mode: StreamMode,
    domains: int,
    facts: int,
    span: int,
    rounds: int,
    vocab: int,
) -> Option<Refusal> {
    if domains < 1 {
        Some(Refusal::Domains)
    } else if facts < 3 {
        Some(Refusal::Facts)
    } else if span < 3 {
        Some(Refusal::Span)
    } else if rounds < 1 {
        Some(Refusal::Rounds)
    } else if vocab < needed(mode, domains, facts) {
        Some(Refusal::Vocab { needed: countable(needed(mode, domains, facts)) })
    } else {
        None
    }
}

/// The cues of the domains, from the top of the vocabulary down.
pub open spec fn cues_of(domains: int, vocab: int) -> Seq<usize> {
    Seq::new(domains as nat, |d: int| (vocab - 1 - d) as usize)
}

/// A stream of facts, domain by domain.
#[derive(Clone, Debug)]
pub struct RelationalFactStream {
    /// Whether the domains share their entities.
    pub mode: StreamMode,
    /// How many domains there are.
    pub domains: usize,
    /// How many facts a domain is asked about.
    pub facts_per_domain: usize,
    /// Tokens in a visit.
    pub span_tokens: usize,
    /// How often the domains are gone through.
    pub rounds: usize,
    /// How many tokens there are.
    pub vocab: usize,
    /// What each domain is asked.
    pub facts: Vec<Vec<RelationalFact>>,
    /// What each domain shows.
    pub walks: Vec<Vec<RelationalFact>>,
    /// What each domain shows first.
    pub prefixes: Vec<Vec<usize>>,
    /// One token per domain, shown where its walk begins.
    pub cues: Vec<usize>,
    /// The edges between hubs, which all disjoint domains have in common; none
    /// where no domain is laid out yet, or the domains share everything.
    pub backbone: Vec<Edge>,
}

impl RelationalFact {
    /// The fact is of a domain, and all its tokens are below `n`.
    pub open spec fn is_within(&self, domain: int, n: int) -> bool {
        &&& self.domain == domain
        &&& self.entity < n
        &&& self.relation < n
        &&& self.target < n
    }
}

/// The facts are of a domain, and all their tokens are below `n`.
pub open spec fn all_within(facts: Seq<RelationalFact>, domain: int, n: int) -> bool {
    forall|k: int| 0 <= k < facts.len() ==> (#[trigger] facts[k]).is_within(domain, n)
}

/// The facts of a domain that are about hubs alone are edges of the backbone.
pub open spec fn on_backbone(facts: Seq<RelationalFact>, domain: int, backbone: Seq<Edge>) -> bool {
    forall|k: int|
        0 <= k < facts.len() && (#[trigger] facts[k]).rank_tier == 0 ==> is_hub_fact(
            facts[k],
            domain,
            backbone,
        )
}

/// A fact is an edge of the backbone.
pub open spec fn is_hub_fact(f: RelationalFact, domain: int, backbone: Seq<Edge>) -> bool {
    exists|j: int|
        0 <= j < backbone.len() && f == fact_of(domain as usize, #[trigger] backbone[j])
}

/// No two edges leave the same entity under the same relation.
pub open spec fn one_each(edges: Seq<Edge>) -> bool {
    forall|i: int, j: int|
        0 <= i < j < edges.len() ==> (#[trigger] edges[i]).entity != (#[trigger] edges[j]).entity
            || edges[i].relation != edges[j].relation
}

impl RelationalFactStream {
    /// How many tokens are entities, relations or targets.
    pub open spec fn tokens(&self) -> int {
        allotted(self.mode, self.domains as int, self.facts_per_domain as int)
    }

    /// A domain that was laid out is asked as many facts as it should be, shows
    /// as many as a visit has room for, and speaks of none but the tokens set
    /// aside for facts.
    pub open spec fn laid_out(&self, d: int) -> bool {
        &&& self.facts@[d]@.len() == self.facts_per_domain
        &&& self.walks@[d]@.len() == self.span_tokens as int / 3
        &&& all_within(self.facts@[d]@, d, self.tokens())
        &&& all_within(self.walks@[d]@, d, self.tokens())
        &&& self.mode == StreamMode::ModeA ==> {
            &&& on_backbone(self.facts@[d]@, d, self.backbone@)
            &&& on_backbone(self.walks@[d]@, d, self.backbone@)
        }
    }

    /// The parts agree on how many domains were laid out.
    pub open spec fn wf(&self) -> bool {
        &&& refusal(
            self.mode,
            self.domains as int,
            self.facts_per_domain as int,
            self.span_tokens as int,
            self.rounds as int,
            self.vocab as int,
        ) is None
        &&& self.facts@.len() == self.walks@.len()
        &&& self.facts@.len() == self.prefixes@.len()
        &&& self.facts@.len() <= self.domains
        &&& self.cues@ == cues_of(self.domains as int, self.vocab as int)
        &&& one_each(self.backbone@)
        &&& forall|d: int| 0 <= d < self.facts@.len() ==> #[trigger] self.laid_out(d)
    }

    /// A stream with no domain laid out yet.
    pub fn new(
        mode: StreamMode,
        domains: usize,
        facts_per_domain: usize,
        span_tokens: usize,
        rounds: usize,
        vocab: usize,
    ) -> (r: Result<Self, Refusal>)
        ensures
            match refusal(
                mode,
                domains as int,
                facts_per_domain as int,
                span_tokens as int,
                rounds as int,
                vocab as int,
            ) {
                Some(e) => r == Err::<Self, Refusal>(e),
                None => {
                    &&& r is Ok
                    &&& r->Ok_0.wf()
                    &&& r->Ok_0.mode == mode
                    &&& r->Ok_0.domains == domains
                    &&& r->Ok_0.facts_per_domain == facts_per_domain
                    &&& r->Ok_0.span_tokens == span_tokens
                    &&& r->Ok_0.rounds == rounds
                    &&& r->Ok_0.vocab == vocab
                    &&& r->Ok_0.facts@.len() == 0
                    &&& r->Ok_0.backbone@.len() == 0
                },
            },
    {
        if domains == 0 {
            return Err(Refusal::Domains);
        }
        if facts_per_domain < 3 {
            return Err(Refusal::Facts);
        }
        if span_tokens < 3 {
            return Err(Refusal::Span);
        }
        if rounds == 0 {
            return Err(Refusal::Rounds);
        }
        let needed: Option<usize> = tokens_needed(mode, domains, facts_per_domain);
        let fits: bool = match needed {
            Some(n) => n <= vocab,
            None => false,
        };
        if !fits {
            return Err(Refusal::Vocab { needed });
        }
        proof {
            law_cues_exist(mode, domains as int, facts_per_domain as int);
        }
        let mut cues: Vec<usize> = Vec::new();
        let mut d: usize = 0;
        while d < domains
            invariant
                d <= domains,
                domains <= vocab,
                cues@ == cues_of(d as int, vocab as int),
            decreases domains - d,
        {
            cues.push(vocab - 1 - d);
            proof {
                assert(cues@ =~= cues_of(d + 1, vocab as int));
            }
            d = d + 1;
        }
        Ok(
            RelationalFactStream {
                mode,
                domains,
                facts_per_domain,
                span_tokens,
                rounds,
                vocab,
                facts: Vec::new(),
                walks: Vec::new(),
                prefixes: Vec::new(),
                cues,
                backbone: Vec::new(),
            },
        )
    }

    /// How many facts a domain's walk shows.
    pub fn walk_steps(&self) -> (n: usize)
        requires
            self.wf(),
        ensures
            n == self.span_tokens as int / 3,
            n >= 1,
    {
        self.span_tokens / 3
    }

    /// Lays the next domain out.
    pub(crate) fn add_domain(
        &mut self,
        facts: Vec<RelationalFact>,
        walk: Vec<RelationalFact>,
        prefix: Vec<usize>,
    )
        requires
            old(self).wf(),
            old(self).facts@.len() < old(self).domains,
            facts@.len() == old(self).facts_per_domain,
            walk@.len() == old(self).span_tokens as int / 3,
            all_within(facts@, old(self).facts@.len() as int, old(self).tokens()),
            all_within(walk@, old(self).facts@.len() as int, old(self).tokens()),
            old(self).mode == StreamMode::ModeA ==> {
                let d = old(self).facts@.len() as int;
                &&& on_backbone(facts@, d, old(self).backbone@)
                &&& on_backbone(walk@, d, old(self).backbone@)
            },
        ensures
            final(self).wf(),
            final(self).facts@ == old(self).facts@.push(facts),
            final(self).walks@ == old(self).walks@.push(walk),
            final(self).prefixes@ == old(self).prefixes@.push(prefix),
            final(self).same_terms(old(self)),
            final(self).backbone@ == old(self).backbone@,
    {
        self.facts.push(facts);
        self.walks.push(walk);
        self.prefixes.push(prefix);
        proof {
            assert forall|d: int| 0 <= d < self.facts@.len() implies #[trigger] self.laid_out(d) by {
                if d < old(self).facts@.len() {
                    assert(old(self).laid_out(d));
                }
            }
        }
    }

    /// Whether two streams differ in nothing but what was laid out.
    pub open spec fn same_terms(&self, other: &Self) -> bool {
        &&& self.mode == other.mode
        &&& self.domains == other.domains
        &&& self.facts_per_domain == other.facts_per_domain
        &&& self.span_tokens == other.span_tokens
        &&& self.rounds == other.rounds
        &&& self.vocab == other.vocab
        &&& self.cues@ == other.cues@
    }
}

/// There is a token for every domain's cue.
pub proof fn law_cues_exist(mode: StreamMode, domains: int, facts: int)
    requires
        1 <= domains,
        3 <= facts,
    ensures
        domains < needed(mode, domains, facts),
{
    assert(domains * facts >= domains) by (nonlinear_arith)
        requires
            1 <= domains,
            3 <= facts,
    ;
    let s = shared_count(facts);
    assert(domains * s >= domains) by (nonlinear_arith)
        requires
            1 <= domains,
            32 <= s,
    ;
}

/// Every domain has a cue of its own, and a cue never stands for anything else:
/// it is above every token that an entity, a relation or a target has in what
/// any domain is asked or shows.
pub proof fn law_cues_stand_apart(s: RelationalFactStream, a: int, d: int, k: int)
    requires
        s.wf(),
        0 <= a < s.domains,
        0 <= d < s.facts@.len(),
    ensures
        s.cues@.len() == s.domains,
        s.cues@.no_duplicates(),
        s.cues@[a] < s.vocab,
        0 <= k < s.facts@[d]@.len() ==> s.facts@[d]@[k].is_within(d, s.cues@[a] as int),
        0 <= k < s.walks@[d]@.len() ==> s.walks@[d]@[k].is_within(d, s.cues@[a] as int),
{
    assert(s.laid_out(d));
    if 0 <= k < s.facts@[d]@.len() {
        assert(s.facts@[d]@[k].is_within(d, s.tokens()));
    }
    if 0 <= k < s.walks@[d]@.len() {
        assert(s.walks@[d]@[k].is_within(d, s.tokens()));
    }
}

/// The hub edges are the same in all disjoint domains: what one domain is asked
/// or shows of the hubs is an edge of the backbone, and an entity and a relation
/// have the same target wherever they come up.
pub proof fn law_backbone_is_shared(
    s: RelationalFactStream,
    a: int,
    f: RelationalFact,
    b: int,
    g: RelationalFact,
)
    requires
        s.wf(),
        s.mode == StreamMode::ModeA,
        0 <= a < s.facts@.len(),
        0 <= b < s.facts@.len(),
        s.facts@[a]@.contains(f) || s.walks@[a]@.contains(f),
        s.facts@[b]@.contains(g) || s.walks@[b]@.contains(g),
        f.rank_tier == 0,
        g.rank_tier == 0,
    ensures
        is_hub_fact(f, a, s.backbone@),
        is_hub_fact(g, b, s.backbone@),
        f.entity == g.entity && f.relation == g.relation ==> f.target == g.target,
{
    assert(s.laid_out(a));
    assert(s.laid_out(b));
    lemma_hub_fact(s, a, f);
    lemma_hub_fact(s, b, g);
    let i = choose|i: int|
        0 <= i < s.backbone@.len() && f == fact_of(a as usize, #[trigger] s.backbone@[i]);
    let j = choose|j: int|
        0 <= j < s.backbone@.len() && g == fact_of(b as usize, #[trigger] s.backbone@[j]);
    if i < j {
        assert(s.backbone@[i].entity != s.backbone@[j].entity || s.backbone@[i].relation
            != s.backbone@[j].relation);
    } else if j < i {
        assert(s.backbone@[j].entity != s.backbone@[i].entity || s.backbone@[j].relation
            != s.backbone@[i].relation);
    }
}

proof fn lemma_hub_fact(s: RelationalFactStream, d: int, f: RelationalFact)
    requires
        s.wf(),
        s.mode == StreamMode::ModeA,
        0 <= d < s.facts@.len(),
        s.facts@[d]@.contains(f) || s.walks@[d]@.contains(f),
        f.rank_tier == 0,
    ensures
        is_hub_fact(f, d, s.backbone@),
{
    assert(s.laid_out(d));
    if s.facts@[d]@.contains(f) {
        let k = choose|k: int| 0 <= k < s.facts@[d]@.len() && s.facts@[d]@[k] == f;
        assert(is_hub_fact(s.facts@[d]@[k], d, s.backbone@));
    } else {
        let k = choose|k: int| 0 <= k < s.walks@[d]@.len() && s.walks@[d]@[k] == f;
        assert(is_hub_fact(s.walks@[d]@[k], d, s.backbone@));
    }
}

/// The tokens set aside are just enough. Disjoint domains have an entity for every
/// fact, a hundred and twenty-eight at least, two relations for all and two for
/// each domain; domains that share their entities have one for every fact of a
/// domain, thirty-two at least, four relations, and as many targets as entities
/// for all and for each domain.
pub proof fn law_tokens_are_just_enough(domains: int, facts: int)
    requires
        1 <= domains,
        3 <= facts,
    ensures
        entity_count(domains, facts) >= domains * facts,
        entity_count(domains, facts) >= 128,
        entity_count(domains, facts) == 128 || entity_count(domains, facts) == domains * facts,
        shared_count(facts) >= facts,
        shared_count(facts) >= 32,
        shared_count(facts) == 32 || shared_count(facts) == facts,
        allotted(StreamMode::ModeA, domains, facts) - 2 * (domains + 1) == entity_count(
            domains,
            facts,
        ),
        allotted(StreamMode::ModeB, domains, facts) - 4 == (domains + 2) * shared_count(facts),
        needed(StreamMode::ModeA, domains, facts) - allotted(StreamMode::ModeA, domains, facts)
            == domains,
        needed(StreamMode::ModeB, domains, facts) - allotted(StreamMode::ModeB, domains, facts)
            == domains,
{
    let n = shared_count(facts);
    assert((domains + 2) * n == domains * n + 2 * n) by (nonlinear_arith);
}

/// A stream is refused for the first of its terms that is wanting, and not where
/// none is: any domain, three facts, three tokens in a visit, any round, and as
/// many tokens as it needs. More of anything but domains and facts never hurts.
pub proof fn law_streams_are_refused_for_a_reason(
    mode: StreamMode,
    domains: int,
    facts: int,
    span: int,
    rounds: int,
    vocab: int,
    more: int,
)
    requires
        0 <= more,
    ensures
        refusal(mode, 0, facts, span, rounds, vocab) == Some(Refusal::Domains),
        domains >= 1 ==> refusal(mode, domains, 2, span, rounds, vocab) == Some(Refusal::Facts),
        domains >= 1 && facts >= 3 ==> refusal(mode, domains, facts, 2, rounds, vocab) == Some(
            Refusal::Span,
        ),
        domains >= 1 && facts >= 3 && span >= 3 ==> refusal(mode, domains, facts, span, 0, vocab)
            == Some(Refusal::Rounds),
        domains >= 1 && facts >= 3 && span >= 3 && rounds >= 1 ==> {
            let enough = needed(mode, domains, facts);
            &&& refusal(mode, domains, facts, span, rounds, enough) is None
            &&& refusal(mode, domains, facts, span, rounds, enough - 1) is Some
        },
        refusal(mode, domains, facts, span, rounds, vocab) is None ==> refusal(
            mode,
            domains,
            facts,
            span + more,
            rounds + more,
            vocab + more,
        ) is None,
        refusal(mode, domains, facts, span, rounds, vocab) is None ==> domains >= 1 && facts >= 3
            && span >= 3 && rounds >= 1,
{
}

/// The cues count down from the last token of the vocabulary.
pub proof fn law_cues_count_down(domains: int, vocab: int, d: int)
    requires
        0 <= d < domains <= vocab <= usize::MAX,
    ensures
        cues_of(domains, vocab).len() == domains,
        cues_of(domains, vocab)[0] == vocab - 1,
        d > 0 ==> cues_of(domains, vocab)[d] == cues_of(domains, vocab)[d - 1] - 1,
{
}

} // verus!
