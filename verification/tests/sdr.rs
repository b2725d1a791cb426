use annp::activity::Activity;
use annp::grid::pairs;
use annp::load::{half_mass, leaders};
use annp::sdr::bank::{
    active_cells, arm_named, base_arms, facts_per_cycle, ArmKind, BankShape, Sizes,
};
use annp::sdr::collision::{prefix, walk_of, Shared};
use annp::sdr::facts::{
    tokens_needed, Refusal, RelationalFact, RelationalFactStream, StreamMode,
};
use annp::sdr::graph::{Edge, Layout};
use annp::sdr::schedule::{readings, round_ends, status, Probe, Reading, Schedule, Trial};
use annp::sdr::source::{exposures, target_growth, Recall};
use annp::sdr::tally::{budgets, domain_of, episode, Answer, ProbeTally};
use annp::sdr::walk::{domain_edges, probe_facts, Walk};

struct Draws(u64);

impl Draws {
    fn below(&mut self, n: usize) -> usize {
        self.0 ^= self.0 << 13;
        self.0 ^= self.0 >> 7;
        self.0 ^= self.0 << 17;
        (self.0 % n as u64) as usize
    }

    fn many(&mut self, count: usize, n: usize) -> Vec<usize> {
        (0..count).map(|_| self.below(n)).collect()
    }
}

fn mode_a(domains: usize, facts: usize, span: usize, vocab: usize, wide: bool) -> RelationalFactStream {
    let mut draws = Draws(20260817);
    let mut stream =
        RelationalFactStream::new(StreamMode::ModeA, domains, facts, span, 3, vocab).unwrap();
    let total = (domains * facts).max(128);
    let hubs = ((total as f64) * 0.10).round() as usize;
    let l = Layout::new(domains, facts, hubs);
    let hub = l.hub_edges(&draws.many(2 * hubs, hubs));
    for d in 0..domains {
        let mid = l.mid_edges(d, &draws.many(l.leaves, hubs));
        let tail = l.tail_edges(d, wide, &draws.many(l.leaves, l.pool(wide)));
        let entry = l.entry_edges(d, &draws.many(hubs, l.leaves));
        let mut walk = Walk::new(d, 0, domain_edges(&hub, &entry, &mid, &tail));
        for _ in 0..stream.walk_steps() {
            let n = walk.choices();
            walk.step(draws.below(n));
        }
        stream.add_graph(&l, &hub, &entry, &mid, &tail, walk);
    }
    stream
}

fn mode_b(domains: usize, facts: usize, span: usize, overlap: usize) -> RelationalFactStream {
    let mut draws = Draws(20260817);
    let mut stream =
        RelationalFactStream::new(StreamMode::ModeB, domains, facts, span, 3, 512).unwrap();
    let shared = Shared::new(domains, facts, 6, 10, overlap);
    for _ in 0..domains {
        let picks = draws.many(stream.walk_steps(), facts);
        stream.add_shared(&shared, &picks);
    }
    stream
}

#[test]
fn zipf_graph_stream_generation_mode_a() {
    let stream = mode_a(4, 20, 200, 512, false);
    assert_eq!(stream.facts.len(), 4);
    assert_eq!(stream.facts[0].len(), 20);
    assert_eq!(stream.walks.len(), 4);
    assert_eq!(stream.walks[0].len(), 200 / 3);
}

#[test]
fn zipf_graph_stream_generation_mode_b() {
    let stream = mode_b(4, 32, 200, 0);
    assert_eq!(stream.facts.len(), 4);
    assert_eq!(stream.facts[0].len(), 32);
    assert_eq!(stream.walks.len(), 4);
    assert_eq!(stream.prefixes.len(), 4);
    assert_eq!(stream.prefixes[0].len(), 16);
}

#[test]
fn a_walk_goes_on_where_it_ended() {
    let stream = mode_a(3, 30, 600, 512, false);
    let mut below_the_hubs = 0;
    for walk in &stream.walks {
        assert_eq!(walk[0].entity, 0);
        for pair in walk.windows(2) {
            assert_eq!(pair[1].entity, pair[0].target);
        }
        below_the_hubs += walk.iter().filter(|f| f.rank_tier == 2).count();
    }
    assert!(below_the_hubs > 0);
}

#[test]
fn an_entity_and_a_relation_have_one_target() {
    let stream = mode_a(3, 30, 3000, 512, true);
    for walk in &stream.walks {
        for a in walk {
            for b in walk {
                if a.entity == b.entity && a.relation == b.relation {
                    assert_eq!(a.target, b.target);
                }
            }
        }
    }
}

#[test]
fn a_pick_of_itself_is_moved_on() {
    let l = Layout::new(2, 64, 4);
    assert_eq!((l.entities, l.leaves, l.pool(false), l.pool(true)), (128, 62, 62, 124));
    let hub = l.hub_edges(&[0, 0, 1, 1, 2, 2, 3, 3]);
    let targets: Vec<usize> = hub.iter().map(|e| e.target).collect();
    assert_eq!(targets, vec![1, 2, 1, 2, 1, 2, 1, 2]);
    assert_eq!((hub[5].entity, hub[5].relation), (2, 129));
    let own: Vec<usize> = (0..62).collect();
    let tail = l.tail_edges(1, false, &own);
    assert_eq!((tail[0].entity, tail[0].target), (66, 67));
    assert_eq!((tail[61].entity, tail[61].target), (127, 66));
    assert_eq!(tail[0].relation, 128 + 2 + 2 + 1);
}

#[test]
fn a_stream_is_refused_with_its_reason() {
    let new = |domains, facts, span, rounds, vocab| {
        RelationalFactStream::new(StreamMode::ModeA, domains, facts, span, rounds, vocab)
            .map(|s| s.cues)
    };
    assert_eq!(new(0, 20, 200, 3, 512), Err(Refusal::Domains));
    assert_eq!(new(4, 2, 200, 3, 512), Err(Refusal::Facts));
    assert_eq!(new(4, 20, 2, 3, 512), Err(Refusal::Span));
    assert_eq!(new(4, 20, 200, 0, 512), Err(Refusal::Rounds));
    // 128 entities, ten relations, four cues.
    assert_eq!(new(4, 20, 200, 3, 141), Err(Refusal::Vocab { needed: Some(142) }));
    assert_eq!(new(4, 20, 200, 3, 142), Ok(vec![141, 140, 139, 138]));
    assert_eq!(new(1, 3, 200, 3, 132), Err(Refusal::Vocab { needed: Some(133) }));
    assert_eq!(tokens_needed(StreamMode::ModeB, 4, 32), Some(200));
    assert_eq!(tokens_needed(StreamMode::ModeA, usize::MAX, usize::MAX), None);
}

#[test]
fn modes_are_named_in_any_case() {
    for name in ["b", "B", "mode_b", "Mode_B", "MODEB"] {
        assert_eq!(StreamMode::from_str(name), StreamMode::ModeB);
    }
    for name in ["a", "", "bb", "modeß"] {
        assert_eq!(StreamMode::from_str(name), StreamMode::ModeA);
    }
    assert_eq!(StreamMode::from_lower("B"), StreamMode::ModeA);
    assert_eq!(StreamMode::ModeA.name(), "Mode A (Orthogonal Domains)");
    assert_eq!(StreamMode::ModeB.name(), "Mode B (Shared-Entity Semantic Collision)");
}

#[test]
fn domains_mean_other_things_by_the_same() {
    let stream = mode_b(3, 40, 300, 0);
    for (a, b) in stream.facts[0].iter().zip(&stream.facts[2]) {
        assert_eq!((a.entity, a.relation), (b.entity, b.relation));
        assert_ne!(a.target, b.target);
    }
    let f = stream.facts[1][10];
    assert_eq!((f.entity, f.relation, f.rank_tier), (10, 42, 1));
    assert_eq!(f.target, 84 + 40 + (10 * 7 + 13 + 31) % 40);
    let same = mode_b(3, 40, 300, 1000);
    for (a, b) in same.facts[0].iter().zip(&same.facts[2]) {
        assert_eq!(a.target, b.target);
    }
    let growth = target_growth(&stream.facts);
    assert_eq!(growth[2].union, growth[0].own + growth[1].own + growth[2].own);
    let flat = target_growth(&same.facts);
    assert_eq!(flat[2].union, flat[0].own);
}

#[test]
fn domains_have_as_many_facts_as_asked_for() {
    let small = mode_b(4, 10, 200, 0);
    assert!(small.facts.iter().all(|f| f.len() == 10));
    assert!(small.walks.iter().flatten().all(|f| f.entity < 10));
    // Few hubs: the tail makes up for what they leave open.
    let one = mode_a(1, 100, 300, 512, false);
    let tiers = [0, 1, 2].map(|t| one.facts[0].iter().filter(|f| f.rank_tier == t).count());
    assert_eq!(tiers, [26, 33, 41]);
    let three = mode_a(4, 20, 200, 512, false);
    let tiers = [0, 1, 2].map(|t| three.facts[0].iter().filter(|f| f.rank_tier == t).count());
    assert_eq!(tiers, [6, 6, 8]);
    let edge = an_edge();
    let asked = probe_facts(0, 5, &[edge; 9], &[edge; 1], &[edge; 1]);
    assert_eq!(asked.len(), 5);
}

fn an_edge() -> Edge {
    Edge { entity: 0, relation: 1, target: 2, rank_tier: 0 }
}

#[test]
fn cues_are_above_every_other_token() {
    for stream in [mode_a(3, 30, 300, 139, false), mode_b(3, 40, 300, 500)] {
        let top = stream
            .facts
            .iter()
            .chain(&stream.walks)
            .flatten()
            .map(|f| f.entity.max(f.relation).max(f.target))
            .max()
            .unwrap();
        assert!(stream.cues.iter().all(|c| *c > top && *c < stream.vocab));
        assert_eq!(stream.cues.len(), 3);
    }
}

#[test]
fn all_domains_have_the_same_backbone() {
    let stream = mode_a(3, 30, 900, 512, false);
    assert_eq!(stream.backbone.len(), 26);
    let hubs = |facts: &[RelationalFact]| -> Vec<(usize, usize, usize)> {
        facts
            .iter()
            .filter(|f| f.rank_tier == 0)
            .map(|f| (f.entity, f.relation, f.target))
            .collect()
    };
    let asked = hubs(&stream.facts[0]);
    assert_eq!(asked.len(), 10);
    assert!(stream.facts.iter().all(|f| hubs(f) == asked));
    let all: Vec<(usize, usize, usize)> =
        stream.backbone.iter().map(|e| (e.entity, e.relation, e.target)).collect();
    assert!(stream.walks.iter().flat_map(|w| hubs(w)).all(|h| all.contains(&h)));
    // In all three domains an entity and a relation have one target.
    let shown: Vec<&RelationalFact> = stream.walks.iter().flatten().collect();
    for a in &shown {
        for b in &shown {
            if (a.entity, a.relation) == (b.entity, b.relation) {
                assert_eq!(a.target, b.target);
            }
        }
    }
    assert!(mode_b(2, 32, 30, 0).backbone.is_empty());
}

#[test]
fn the_overlap_is_the_share_of_common_facts() {
    for (facts, overlap, expected) in [(32, 500, 16), (40, 250, 10), (10, 999, 9), (40, 0, 0)] {
        let stream = mode_b(2, facts, 30, overlap);
        let common = stream.facts[0]
            .iter()
            .zip(&stream.facts[1])
            .filter(|(a, b)| a.target == b.target)
            .count();
        assert_eq!(common, expected);
    }
    // The mixed order: with a hundred facts, the sixtieth comes before the second.
    let s = Shared::new(2, 100, 10, 30, 20);
    let a = s.domain_facts(0);
    let b = s.domain_facts(1);
    let common: Vec<usize> =
        (0..100).filter(|e| a[*e].target == b[*e].target).collect();
    assert_eq!(common, vec![0, 59]);
}

#[test]
fn a_prefix_is_cut_at_sixteen_tokens() {
    let fact = RelationalFact { domain: 0, entity: 1, relation: 2, target: 3, rank_tier: 0 };
    assert_eq!(prefix(&[fact, fact]), vec![1, 2, 3, 1, 2, 3]);
    let long = prefix(&walk_of(&[fact], &[0; 9]));
    assert_eq!(long.len(), 16);
    assert_eq!(long[15], 1);
}

#[test]
fn a_probe_is_told_tier_by_tier() {
    let mut t = ProbeTally::new();
    assert_eq!((t.overall().hits, t.overall().of), (0, 1));
    for (rank_tier, predicted, correct) in [(0, 5, true), (0, 6, false), (2, 5, true), (7, 8, false)] {
        t.note(Answer { rank_tier, predicted, correct });
    }
    assert_eq!((t.overall().hits, t.overall().of), (2, 4));
    assert_eq!((t.tier(0).hits, t.tier(0).of), (1, 2));
    // The middle was not asked for.
    assert_eq!((t.tier(1).hits, t.tier(1).of), (2, 4));
    assert_eq!((t.tier(2).hits, t.tier(2).of), (1, 2));
    assert_eq!(t.specific(), 2);
    assert_eq!(t.distinct(), 3);
}

#[test]
fn an_episode_shows_the_cue_and_fillers() {
    assert_eq!(episode(99, 0), vec![99]);
    assert_eq!(episode(99, 10), vec![99, 0, 1, 2, 3, 4, 5, 6, 7, 0, 1]);
    // Of the domain an episode shows the cue alone.
    assert_eq!(episode(98, 10)[1..], episode(99, 10)[1..]);
    assert_eq!(budgets(), vec![5, 10, 20, 50, 200]);
    assert_eq!(domain_of(&[]), 0);
    assert_eq!(domain_of(&mode_b(2, 32, 30, 0).facts[1]), 1);
}

fn sizes() -> Sizes {
    Sizes {
        m_in: 8,
        d_input: 32,
        d_sdr: 512,
        k_active: 16,
        experts: 1,
        edge_nodes: 0,
        topo_nodes: 0,
        rotate: false,
        tensor_d2: 0,
        tensor_k2: 2,
        tensor_split: 0,
    }
}

#[test]
fn experts_share_out_rungs_and_budget() {
    let s = Sizes { experts: 3, ..sizes() };
    match s.shape(ArmKind::<u8>::Plain) {
        BankShape::Experts { groups, width, active } => {
            assert_eq!(groups, vec![(0, 2), (2, 5), (5, 8)]);
            assert_eq!((width, active), (170, 5));
        }
        other => panic!("not experts: {other:?}"),
    }
    match sizes().shape(ArmKind::<u8>::Ladder8) {
        BankShape::Experts { groups, width, active } => {
            assert_eq!(groups, vec![(0, 8)]);
            assert_eq!((width, active), (512, 16));
        }
        other => panic!("not experts: {other:?}"),
    }
}

#[test]
fn an_arm_has_its_shape() {
    let edge = Sizes { edge_nodes: 4, topo_nodes: 4, ..sizes() };
    assert!(matches!(edge.shape(ArmKind::<u8>::Plain), BankShape::Edge));
    assert!(matches!(
        edge.shape(ArmKind::<u8>::Linear),
        BankShape::Linear { rungs: 8, dim: 256 }
    ));
    assert!(matches!(
        edge.shape(ArmKind::<u8>::LinearFast),
        BankShape::Linear { rungs: 1, dim: 32 }
    ));
    // One rung is enough where no code is split.
    let one = Sizes { m_in: 1, rotate: true, tensor_d2: 16, ..edge };
    assert!(matches!(one.shape(ArmKind::<u8>::Plain), BankShape::Edge));
    assert!(matches!(
        Sizes { edge_nodes: 0, topo_nodes: 0, ..one }.shape(ArmKind::<u8>::Linear),
        BankShape::Linear { rungs: 1, dim: 32 }
    ));
    let topo = Sizes { topo_nodes: 4, ..sizes() };
    assert!(matches!(topo.shape(ArmKind::ProximalEwc { lambda: 1u8 }), BankShape::Topo));
    let rotate = Sizes { rotate: true, tensor_split: 99, ..sizes() };
    assert!(matches!(
        rotate.shape(ArmKind::<u8>::Plain),
        BankShape::Rotate { split: 7, content: 224, context: 32 }
    ));
    let tensor = Sizes { tensor_d2: 16, ..sizes() };
    assert!(matches!(
        tensor.shape(ArmKind::<u8>::Plain),
        BankShape::Tensor { split: 4, d1: 32, d2: 16, k1: 8, k2: 2, cells: 512, .. }
    ));
}

#[test]
fn pairs_of_columns_have_cells_of_their_own() {
    assert_eq!(active_cells(&[0, 3], &[1, 2], 4, 5), vec![1, 2, 16, 17]);
    assert_eq!(active_cells(&[], &[1], 4, 5), Vec::<usize>::new());
    assert_eq!(facts_per_cycle(4, 2000), 2664);
    assert_eq!(facts_per_cycle(4, 2), 1);
}

#[test]
fn arms_have_names() {
    let arms = base_arms::<u8>();
    let short: Vec<&str> = arms.iter().map(|a| a.short_name()).collect();
    assert_eq!(short, vec!["ladder_8", "ladder_4", "ladder_2", "plain_m1", "linear", "linear_fast"]);
    assert_eq!(arms[0].name(), Some("Ladder-8 (m=8)"));
    assert_eq!(arms[0].rungs(), Some(8));
    assert_eq!(arms[3].rungs(), None);
    let ewc = ArmKind::ProximalEwc { lambda: 3u8 };
    assert!(ewc.is_penalty() && !arms[3].is_penalty());
    assert_eq!(ewc.name(), None);
    assert_eq!(arm_named::<u8>("plain"), ArmKind::Plain);
    assert_eq!(arm_named::<u8>("ladder8"), ArmKind::Ladder8);
    assert_eq!(arm_named::<u8>("anything"), ArmKind::Ladder4);
}

#[test]
fn every_round_goes_through_all_domains() {
    let schedule = Schedule {
        rounds: 3,
        domains: 2,
        arrival: 1,
        retire_after: 0,
        gap: 4,
        mix: false,
    };
    let mut trial = Trial::new(schedule);
    let mut visits = Vec::new();
    while let Some(v) = trial.next() {
        visits.push(v);
    }
    assert_eq!(visits.len(), 6);
    let order: Vec<(usize, usize)> = visits.iter().map(|v| (v.round, v.domain)).collect();
    assert_eq!(order, vec![(1, 0), (1, 1), (2, 0), (2, 1), (3, 0), (3, 1)]);
    // The second domain comes in the second round.
    let train: Vec<bool> = visits.iter().map(|v| v.train).collect();
    assert_eq!(train, vec![true, false, true, true, true, true]);
    let restore: Vec<bool> = visits.iter().map(|v| v.restore).collect();
    assert_eq!(restore, vec![false, false, true, false, true, true]);
    assert_eq!(visits[1].probe, Probe::Episode { gap: 4 });
    assert!(!visits[1].cue && visits[0].cue);
    // An episode displaces the context even where none can be put back.
    assert!(visits.iter().all(|v| v.displaces));
    let mut still = Trial::new(Schedule { gap: 0, ..schedule });
    assert!(!still.next().unwrap().displaces);
    assert_eq!(visits[5].probe, Probe::FewShot { salt: 301 });
    assert!(trial.next().is_none());
}

#[test]
fn halves_take_turns() {
    let s = Schedule {
        rounds: 9,
        domains: 4,
        arrival: 0,
        retire_after: 5,
        gap: 0,
        mix: true,
    };
    assert!(s.trains(5, 1) && !s.trains(5, 2));
    assert!(!s.trains(6, 1) && s.trains(6, 2));
    let mut trial = Trial::new(s);
    let gaps: Vec<Probe> = (0..4).map(|_| trial.next().unwrap().probe).collect();
    assert_eq!(
        gaps,
        [16, 64, 256, 1].map(|gap| Probe::Episode { gap }).to_vec()
    );
}

#[test]
fn delays_are_counted_from_the_end_of_the_first_walk() {
    let lens = [100usize, 8, 6, 3];
    assert_eq!(readings(&lens, 0), vec![Reading { after: 100, delay: 0 }]);
    let first: Vec<(usize, usize)> = readings(&lens, 1).iter().map(|r| (r.after, r.delay)).collect();
    assert_eq!(first, vec![(2, 6), (4, 12), (6, 18), (8, 24)]);
    let second: Vec<(usize, usize)> = readings(&lens, 2).iter().map(|r| (r.after, r.delay)).collect();
    assert_eq!(second, vec![(1, 27), (3, 33), (4, 36), (6, 42)]);
    // A short walk is still followed by a probe.
    let short: Vec<usize> = readings(&lens, 3).iter().map(|r| r.after).collect();
    assert_eq!(short, vec![1, 2, 3]);
}

#[test]
fn forgetting_is_told_from_the_ends_of_a_round() {
    let rounds = [1usize, 1, 1, 2, 2];
    let delays = [0usize, 9, 9, 0, 4];
    assert_eq!(round_ends(&rounds, &delays, 1), Some((0, 2)));
    assert_eq!(round_ends(&rounds, &delays, 2), Some((3, 4)));
    assert_eq!(round_ends(&rounds, &delays, 3), None);
}

#[test]
fn a_summary_warns_of_the_worst_first() {
    assert_eq!(status(true, true, true, true), "WARN: eta boundary");
    assert_eq!(status(false, true, true, true), "WARN: lambda=0 won");
    assert_eq!(status(false, true, false, true), "ALERT: Intransigence");
    assert_eq!(status(false, true, false, false), "OK");
}

#[test]
fn activity_is_counted_by_row_and_column() {
    let mut a = Activity::new(2, 4);
    a.note(0, &[1, 3]);
    a.note(0, &[1, 2]);
    a.note(1, &[1, 1]);
    assert_eq!(a.row(0), &[0, 2, 1, 1]);
    assert_eq!(a.row(1), &[0, 2, 0, 0]);
    assert_eq!(a.pooled(), &[0, 4, 1, 1]);
    assert_eq!(leaders(a.pooled(), 2), 5);
    assert_eq!(half_mass(a.pooled()), 1);
}

#[test]
fn a_code_is_compared_with_the_last_and_a_far_one() {
    let mut r = Recall::new();
    let first = r.note(vec![1, 2, 3]);
    assert_eq!((first.of, first.last, first.far), (3, None, None));
    for _ in 0..98 {
        assert_eq!(r.note(vec![7]).far, None);
    }
    let near = r.note(vec![7, 1]);
    assert_eq!((near.last, near.far), (Some(1), None));
    let far = r.note(vec![3, 2, 9]);
    assert_eq!((far.last, far.far), (Some(0), Some(2)));
    r.clear();
    assert_eq!(r.note(vec![3]).last, None);
}

#[test]
fn exposures_are_counted_by_tier() {
    let fact = |entity, rank_tier| RelationalFact {
        domain: 0,
        entity,
        relation: 9,
        target: 0,
        rank_tier,
    };
    let facts = [fact(1, 0), fact(2, 2), fact(3, 2)];
    let walk = [fact(1, 0), fact(3, 2), fact(3, 2)];
    let mut tail = vec![50];
    exposures(&facts, &walk, 2, &mut tail);
    assert_eq!(tail, vec![50, 0, 2]);
}

#[test]
fn grids_vary_the_second_thing_faster() {
    assert_eq!(
        pairs(&['a', 'b'], &[1, 2, 3]),
        vec![('a', 1), ('a', 2), ('a', 3), ('b', 1), ('b', 2), ('b', 3)]
    );
}
