use annp::edge::growth::{class_for, visit_stretch, ClassTrack, Growth};
use annp::edge::slices::{Shape, Slices};
use annp::edge::store::ClassStore;
use annp::edge::tally::Tally;
use annp::edge::Ring;
use annp::probe::Displaced;
use annp::routing::Routing;
use annp::topo;

fn draws(n: usize, below: usize) -> Vec<usize> {
    (0..n).map(|k| (k * 7 + 3) % below).collect()
}

#[test]
fn hash_class_ignores_the_stream_entirely() {
    let a = class_for(true, 4, 7, 8, 0);
    for class_now in 0..8 {
        assert_eq!(
            a,
            class_for(true, 4, 7, 8, class_now),
            "a hashed class must not track context"
        );
    }
    assert_eq!(a, (4 * 31 + 7 * 131) % 8);
    assert_eq!(class_for(false, 4, 7, 8, 5), 5);
}

fn shape(n_edges: usize) -> Shape {
    Shape {
        n_edges,
        d: 16,
        vocab: 64,
        share_edge: false,
        class_readout: true,
    }
}

#[test]
fn expanding_capacity_leaves_every_existing_weight_untouched() {
    let ring = Ring::new(16, 2, &draws(32, 8));
    let ne = ring.n_edges();
    let mut m: Slices<f64> = Slices::new(shape(ne), 4, 1, 0.0, 1.0);
    for (i, w) in m.edge_mem.as_mut_slice().iter_mut().enumerate() {
        *w = i as f64;
    }
    for (i, w) in m.readout.as_mut_slice().iter_mut().enumerate() {
        *w = -(i as f64);
    }
    let blk = 16 * 16;
    let old_classes = m.classes;
    let edge_before = m.edge_mem.as_slice().to_vec();
    let read_before = m.readout.as_slice().to_vec();

    m.expand_classes(4, 0.0, 1.0);

    for c in 0..old_classes {
        for e in 0..ne {
            let b = (c * ne + e) * blk;
            assert_eq!(m.edge_base(e, c), b);
            assert_eq!(
                &edge_before[b..b + blk],
                &m.edge_mem.as_slice()[b..b + blk],
                "edge slice (class {c}, edge {e}) moved or changed"
            );
        }
    }
    assert_eq!(
        &read_before[..],
        &m.readout.as_slice()[..old_classes * 64 * 16],
        "an existing readout slice changed under expansion"
    );
    assert_eq!(m.classes, 8);
    assert!(m.readout_scale.as_slice()[4..].iter().all(|k| *k == 1.0));
    assert!(m.proto.as_slice()[4 * 16..].iter().all(|w| *w == 0.0));
}

#[test]
fn every_slot_belongs_to_one_class() {
    let m: Slices<u8> = Slices::new(shape(5), 3, 1, 0, 1);
    let mut seen = Vec::new();
    for c in 0..3 {
        for e in 0..5 {
            let s = m.slot(e, c);
            assert_eq!(m.class_of_slot(s), c);
            seen.push(s);
        }
        assert_eq!(m.rbase(c), c * 64 * 16);
    }
    seen.sort_unstable();
    assert_eq!(seen, (0..15).collect::<Vec<_>>());
}

#[test]
fn shared_edges_have_one_slot() {
    let shared = Shape {
        share_edge: true,
        class_readout: false,
        ..shape(5)
    };
    let m: Slices<u8> = Slices::new(shared, 3, 1, 0, 1);
    assert_eq!(m.slot(4, 0), m.slot(4, 2));
    assert_eq!(m.rbase(2), 0);
}

#[test]
fn runs_of_a_store_stand_apart() {
    let mut s: ClassStore<u32> = ClassStore::new(2, 3, 9);
    s.as_mut_slice()[4] = 1;
    s.expand(1, 5);
    assert_eq!(s.as_slice(), &[9, 9, 9, 9, 1, 9, 5, 5, 5]);
    assert_eq!((s.classes(), s.stride(), s.offset(2)), (3, 3, 6));
}

#[test]
fn a_ring_numbers_its_edges_in_order() {
    let ring = Ring::new(8, 1, &[3; 8]);
    // Two neighbours and one shortcut four steps on.
    assert_eq!(ring.n_edges(), 24);
    assert_eq!(ring.nodes(), 8);
    assert_eq!(ring.degree(0), 3);
    assert_eq!(ring.follow(0, 0), (0, 7));
    assert_eq!(ring.follow(0, 1), (1, 1));
    assert_eq!(ring.follow(0, 2), (2, 4));
    assert_eq!(ring.follow(7, 2), (23, 3));
    // A shortcut to a neighbour is not there twice.
    let tight = Ring::new(8, 1, &[0; 8]);
    assert_eq!(tight.n_edges(), 16);
}

#[test]
fn the_topological_ring_has_the_same_edges() {
    let ring = topo::Ring::new(6, 2, &draws(12, 3));
    assert_eq!(ring.len(), 6);
    for node in 0..6 {
        let e = ring.out_edges(node);
        assert_eq!(&e[..2], &[(node + 5) % 6, (node + 1) % 6]);
        assert!(e.iter().all(|t| *t != node && *t < 6));
    }
}

#[test]
fn a_class_is_opened_after_a_run_of_novelty() {
    let mut g = Growth::new(1, 2, 4, 3);
    for _ in 0..63 {
        g.tick();
    }
    assert!(!g.consider(true, 0).open);
    g.tick();
    assert!(!g.consider(true, 0).open);
    assert!(!g.consider(false, 0).open);
    assert!(!g.consider(true, 0).open);
    assert!(!g.consider(true, 0).open);
    let m = g.consider(true, 600);
    assert!(m.open && !m.expand);
    assert_eq!(g.n_active, 2);
    assert_eq!(g.opened_in, [0, 0, 1, 0]);
    // Out of storage: some is appended with the class that needs it.
    let m = g.consider(false, 0);
    assert!(!m.expand && !m.open);
    assert_eq!((g.classes, g.novel_run), (2, 0));
    for _ in 0..2 {
        let m = g.consider(true, 0);
        assert!(!m.expand && !m.open);
    }
    let m = g.consider(true, 0);
    assert!(m.expand && m.open);
    assert_eq!((g.classes, g.n_active), (3, 3));
    // At the limit nothing more is appended.
    for _ in 0..6 {
        g.consider(true, 0);
    }
    assert_eq!((g.classes, g.n_active), (4, 4));
    let mut full = Growth::new(9, 2, 0, 0);
    for _ in 0..70 {
        full.tick();
    }
    assert_eq!(full.n_active, 2);
    assert!(!full.consider(true, 0).open);
    assert_eq!(full.tick(), 71);
}

#[test]
fn domains_are_only_measured() {
    let mut told = Growth::new(1, 2, 4, 2);
    let mut untold = Growth::new(1, 2, 4, 2);
    let (mut here, mut there) = (Tally::new(), Tally::new());
    for i in 0..400 {
        here.set_domain(i / 50 % 3);
        assert_eq!(told.tick(), untold.tick());
        let novel = i >= 220 && i % 7 < 3;
        let (a, b) = (
            told.consider(novel, here.visit_step()),
            untold.consider(novel, there.visit_step()),
        );
        assert_eq!(a, b);
        told.note_moves(&[0], &[1]);
        here.record(a.open as usize);
        there.record(a.open as usize);
    }
    assert_eq!((told.n_active, told.classes), (untold.n_active, untold.classes));
    assert_eq!(told.n_active, 4);
    // The openings are only counted elsewhere.
    assert_ne!(told.opened_in, untold.opened_in);
}

#[test]
fn moved_contexts_are_counted() {
    let mut g = Growth::new(1, 4, 0, 0);
    g.note_moves(&[0, 0, 1], &[0, 2, 2]);
    assert_eq!((g.checked, g.steals), (3, 2));
    let mut t = ClassTrack::new();
    for c in [1, 1, 2, 1] {
        t.note(c);
    }
    assert_eq!((t.steps, t.switches), (4, 2));
    assert_eq!(
        [0u64, 99, 100, 499, 500, 1999, 2000].map(visit_stretch),
        [0, 0, 1, 1, 2, 2, 3]
    );
}

#[test]
fn writes_are_told_by_domain_and_class() {
    let mut t = Tally::new();
    t.set_domain(0);
    for c in [2, 2, 2, 1] {
        t.record(c);
    }
    t.set_domain(1);
    assert_eq!((t.cur_domain(), t.visit_step()), (1, 0));
    for c in [2, 2, 0] {
        t.record(c);
    }
    assert_eq!(t.homes(), vec![Some(2), Some(2)]);
    assert_eq!(t.writes(0, 2), 3);
    // Both domains share their home, so five of the seven writes are shared.
    assert_eq!(t.class_collision(), (2, 2));
    assert_eq!(t.collision_stats(), (1, 5, 7));
    let i = t.intrusion_stats();
    assert_eq!((i.away, i.all), (2, 7));
    assert_eq!(i.all_in, [7, 0, 0, 0]);
    assert_eq!(t.domain_class_matrix(2, 3), vec![vec![0, 1, 3], vec![1, 0, 2]]);
}

#[test]
fn a_fact_is_consistent_where_it_was_learned() {
    let mut r = Routing::new();
    r.note_consistency(1, 2, Some(5));
    r.learn(1, 2, 5);
    r.note_consistency(1, 2, Some(5));
    r.note_consistency(1, 2, Some(6));
    r.note_consistency(1, 2, None);
    assert_eq!(r.consistency(), (1, 3));
}

#[test]
fn what_a_probe_displaces_comes_back() {
    let mut state = vec![1.0, 2.0];
    let displaced = Displaced::borrow(&mut state, vec![9.0]);
    assert_eq!(state, vec![9.0]);
    displaced.give_back(&mut state);
    assert_eq!(state, vec![1.0, 2.0]);
}
