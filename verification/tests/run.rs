use annp::cycle::{decile, in_tail, place_symbol, stride, tail_count, window_width, Cycle, Part};
use annp::load::{half_mass, leaders, measure, spread};
use annp::run::coder::{CountingCoder, OracleCoder};
use annp::run::haystack::{Haystack, Straw};
use annp::run::markov::{power, Fanout, MarkovSource};
use annp::run::needles::{shuffled, Needles};
use annp::run::plan::{
    affords, bands, coder_orders, coder_slot, confusable, lags, oldest_first, source_kind, Age,
    SourceError, SourceKind,
};
use annp::run::trails::{jaccard, Trail, Trails};

struct Draws(u64);

impl Draws {
    fn next(&mut self) -> u64 {
        self.0 ^= self.0 << 13;
        self.0 ^= self.0 >> 7;
        self.0 ^= self.0 << 17;
        self.0
    }

    fn below(&mut self, n: u64) -> u64 {
        self.next() % n
    }
}

fn source(vocab: usize, order: usize, fanout: usize, draws: &mut Draws) -> MarkovSource {
    let contexts = power(vocab, order).expect("a table that fits");
    let rows: Vec<Vec<u32>> = (0..contexts)
        .map(|_| {
            let mut row = Fanout::new();
            while row.len() < fanout {
                row.offer(draws.below(vocab as u64) as u32);
            }
            row.into_vec()
        })
        .collect();
    MarkovSource::new(vocab, order, fanout, rows)
}

#[test]
fn the_source_only_emits_successors_of_its_current_context() {
    let mut draws = Draws(3);
    let mut source = source(16, 2, 3, &mut draws);
    let mut stream = Draws(4);
    for _ in 0..5_000 {
        let context = source.context();
        let allowed = source.successors(context).to_vec();
        let next = source.next(stream.below(3) as usize);
        assert!(
            allowed.contains(&next),
            "context {context} -> {next} is not an edge"
        );
    }
}

#[test]
fn a_higher_order_source_is_not_predictable_from_one_token() {
    let vocab = 16usize;
    let mut draws = Draws(5);
    let source = source(vocab, 2, 3, &mut draws);
    let mut context_dependent = 0;
    for token in 0..vocab {
        let futures: Vec<Vec<u32>> = (0..vocab)
            .map(|earlier| {
                let mut s = source.successors(earlier * vocab + token).to_vec();
                s.sort_unstable();
                s
            })
            .collect();
        if futures.iter().any(|f| *f != futures[0]) {
            context_dependent += 1;
        }
    }
    assert!(
        context_dependent > vocab / 2,
        "only {context_dependent} of {vocab} tokens have context-dependent futures"
    );
}

#[test]
fn the_order_k_coder_beats_the_order_1_coder_on_a_higher_order_source() {
    let vocab = 16usize;
    let mut draws = Draws(7);
    let mut source = source(vocab, 2, 3, &mut draws);
    let mut stream = Draws(8);
    let mut c1 = CountingCoder::new(vocab, 1).expect("a small table");
    let mut c2 = CountingCoder::new(vocab, 2).expect("a small table");
    let (mut n1, mut n2) = (0.0, 0.0);
    for i in 0..60_000 {
        let t = source.next(stream.below(3) as usize);
        let (a, b) = (c1.observe(t), c2.observe(t));
        if i >= 40_000 {
            n1 -= (a.num as f64 / a.den as f64).ln();
            n2 -= (b.num as f64 / b.den as f64).ln();
        }
    }
    assert!(
        n2 < n1 * 0.8,
        "order-2 coder {n2} did not clearly beat order-1 {n1}"
    );
}

#[test]
fn a_context_is_the_last_tokens() {
    let mut draws = Draws(11);
    let mut s = source(5, 2, 2, &mut draws);
    let a = s.next(0) as usize;
    let b = s.next(1) as usize;
    assert_eq!(s.context(), a * 5 + b);
    assert_eq!(s.contexts(), 25);
    assert_eq!(s.shift(3 * 5 + 4, 2), 4 * 5 + 2);
}

#[test]
fn the_first_guess_is_uniform() {
    let mut c = CountingCoder::new(4, 1).expect("a small table");
    let first = c.observe(2);
    assert_eq!(first.num as f64 / first.den as f64, 0.25);
    assert!(CountingCoder::new(16, 64).is_none());
}

#[test]
fn an_oracle_learns_from_what_it_decoded() {
    let mut o = OracleCoder::new(3, 2);
    for _ in 0..20 {
        let odds = o.observe(1, &[0, 2], 0, 2);
        assert_eq!(odds.len(), 2);
    }
    assert_eq!(o.accuracy(0), (20, 20));
    assert_eq!(o.accuracy(1), (0, 20));
}

#[test]
fn needles_share_their_second_symbol() {
    let p = Needles::plan(9, 3);
    assert_eq!(p.len(), 9);
    assert_eq!(p.stride(), 3);
    assert_eq!(p.prompt[4], vec![1, 1]);
    assert_eq!(p.prompt[7][1], p.prompt[4][1]);
    let single = Needles::plan(3, 0);
    assert_eq!(single.stride(), 2);
}

#[test]
fn a_shuffle_keeps_everything() {
    let v = shuffled(5, &[0, 3, 1, 0]);
    let mut sorted = v.clone();
    sorted.sort_unstable();
    assert_eq!(sorted, vec![0, 1, 2, 3, 4]);
}

#[test]
fn questions_line_up_with_their_lessons() {
    let plan = Needles::plan(4, 2);
    let stride = plan.stride();
    let body = 200;
    let base = 10u32;
    let straw = Straw {
        base,
        body,
        repeats: 2,
        layout: vec![2, 0, 3, 1],
        order: vec![1, 3, 0, 2],
        plan,
    };
    let h = Haystack::build(&straw);
    assert_eq!(h.asked.len(), 4);
    for (at, n) in &h.asked {
        let last = *straw.plan.prompt[*n].last().unwrap();
        assert_eq!(h.forced[at], base + last);
        assert_eq!(h.forced[&(at + 1)], base + straw.plan.value[h.answer[*n]]);
        assert!(*at >= body && *at < body + 4 * stride);
    }
    // Half are asked for their own value, the others for another foil's.
    let own: Vec<usize> = (0..4).filter(|i| !h.foil[*i]).collect();
    assert!(own.iter().all(|i| h.answer[*i] == *i));
    let mut answers = h.answer.clone();
    answers.sort_unstable();
    assert_eq!(answers, vec![0, 1, 2, 3]);
}

#[test]
fn a_lone_foil_is_asked_for_another_value() {
    for n in [2, 3] {
        let straw = Straw {
            base: 10,
            body: 100,
            repeats: 1,
            layout: (0..n).rev().collect(),
            order: (0..n).collect(),
            plan: Needles::plan(n, 1),
        };
        let h = Haystack::build(&straw);
        for i in 0..n {
            assert_eq!(h.answer[i] != i, h.foil[i]);
        }
        assert_eq!(h.foil.iter().filter(|f| **f).count(), 1);
    }
}

#[test]
fn overlap_is_shared_over_all() {
    let o = jaccard(&[1, 2, 3], &[2, 3, 9]);
    assert_eq!((o.hit, o.union), (2, 4));
    let none = jaccard(&[], &[]);
    assert_eq!((none.hit, none.union), (0, 0));
}

#[test]
fn a_token_is_compared_with_its_last_trail() {
    let mut t = Trails::new();
    t.push(Trail { position: 1, token: 7, nodes: vec![1, 2] });
    t.push(Trail { position: 2, token: 8, nodes: vec![2, 3] });
    t.push(Trail { position: 3, token: 7, nodes: vec![4] });
    let c = t.compare(5, 7, &[4, 5]);
    let same = c.same.expect("seen before");
    assert_eq!((same.hit, same.union), (1, 2));
    assert!(c.other.is_some());
    assert!(t.compare(5, 9, &[4]).same.is_none());
    // Another token's trail may be from later on.
    let mut ahead = Trails::new();
    ahead.push(Trail { position: 3, token: 7, nodes: vec![1] });
    ahead.push(Trail { position: 9, token: 8, nodes: vec![1, 2] });
    let c = ahead.compare(6, 7, &[1]);
    let other = c.other.expect("another token");
    assert_eq!((other.hit, other.union), (1, 2));
}

#[test]
fn lags_are_in_order_and_each_once() {
    assert_eq!(lags(8), vec![1, 2, 3, 4, 6, 8, 9, 12, 16, 32]);
    assert_eq!(lags(32), vec![1, 2, 3, 4, 6, 8, 12, 16, 32, 33, 64, 128]);
}

#[test]
fn yardsticks_have_a_budget() {
    assert!(affords(16, 3));
    assert!(affords(512, 3));
    assert!(!affords(513, 3));
    assert!(!affords(4096, 64));
    assert_eq!(coder_orders(16, 2), vec![1, 2]);
    assert_eq!(coder_orders(4096, 2), vec![1]);
    assert_eq!(coder_orders(16, 1), vec![1, 1]);
    assert_eq!(coder_slot(&[1, 1], 1), Some(1));
    assert_eq!(coder_slot(&[1, 2], 1), Some(0));
    assert_eq!(coder_slot(&[1], 2), None);
}

#[test]
fn a_corpus_needs_a_tokenizer() {
    assert_eq!(source_kind(false, false, 3, 4), Ok(SourceKind::Chain));
    assert_eq!(source_kind(true, true, 0, 1), Ok(SourceKind::Corpus));
    assert_eq!(source_kind(true, false, 0, 1), Err(SourceError::Halved));
    assert_eq!(source_kind(false, true, 0, 1), Err(SourceError::Halved));
    assert_eq!(source_kind(true, true, 1, 1), Err(SourceError::Needles));
    assert_eq!(source_kind(true, true, 0, 2), Err(SourceError::Domains));
}

#[test]
fn bands_hold_every_needle_once() {
    let v = bands(7);
    let ends: Vec<(usize, usize)> = v.iter().map(|b| (b.from, b.to)).collect();
    assert_eq!(ends, vec![(0, 2), (2, 5), (5, 7)]);
    let two = bands(2);
    assert_eq!(two.len(), 2);
    assert_eq!(two[1].age, Age::Newest);
    let one = bands(1);
    assert_eq!((one[0].to, one[1].from), (1, 0));
}

#[test]
fn needles_are_told_oldest_first() {
    assert_eq!(oldest_first(&[5, 9, 5, 1]), vec![1, 0, 2, 3]);
    assert_eq!(confusable(7, 3, 4), vec![1, 4]);
}

#[test]
fn a_cycle_knows_where_it_is() {
    let c = Cycle::new(100, 3);
    assert_eq!((c.domain(0), c.domain(99), c.domain(100), c.domain(300)), (0, 0, 1, 0));
    assert_eq!((c.visit(299), c.visit(300)), (0, 1));
    assert_eq!(c.within(250), 50);
    assert_eq!(c.probe(), 2);
    assert_eq!(c.part(101), Part::Reentry);
    assert_eq!(c.part(102), Part::Between);
    assert_eq!(c.part(198), Part::Settled);
    assert_eq!(c.visits(600), 3);
    assert!(c.opening(119) && !c.opening(120));
    assert!(c.may_swap(200, 150, false));
    assert!(!c.may_swap(201, 150, false) && !c.may_swap(200, 250, false));
    let one = Cycle::new(0, 0);
    assert_eq!((one.span(), one.domains()), (1, 1));
    assert_eq!(Cycle::new(10_000, 1).probe(), 64);
}

#[test]
fn the_last_tenth_is_the_last_decile() {
    assert_eq!(decile(0, 50), 0);
    assert_eq!(decile(49, 50), 9);
    for i in 0..50 {
        assert_eq!(in_tail(i, 50), decile(i, 50) == 9);
    }
    assert_eq!(tail_count(50), 5);
    assert_eq!(tail_count(0), 1);
}

#[test]
fn alphabets_slide_over_the_vocabulary() {
    assert_eq!(stride(256, 8), 32);
    assert_eq!(stride(3, 8), 1);
    assert_eq!(window_width(64, 256), 64);
    assert_eq!(window_width(1, 256), 2);
    assert_eq!(window_width(999, 256), 256);
    assert_eq!(place_symbol(40, 7, 32, 256), 8);
}

#[test]
fn load_tells_the_busiest() {
    let counts = [0u64, 4, 1, 0, 5, 0, 0, 0, 0, 0];
    let l = measure(&counts);
    assert_eq!((l.idle, l.total, l.busiest, l.top_tenth), (7, 10, 5, 5));
    assert_eq!(leaders(&counts, 2), 9);
    assert_eq!(half_mass(&counts), 1);
    assert_eq!(half_mass(&[1, 1, 1, 1]), 2);
    assert_eq!(half_mass(&[0, 0]), 2);
    assert_eq!(spread(&[3, 1, 2, 9]), (1, 3, 9));
    assert_eq!(spread(&[]), (0, 0, 0));
}
