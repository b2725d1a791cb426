use annp::activity::Activity;
use annp::baseline::{self, input_cell};
use annp::grow::{band_name, band_of, ranks, token_counts, Bigrams, OnlineEwc, ZipfChain};
use annp::head::{charged_decile, HeadShape, Usage};
use annp::next::{arm_name, node_parameters, purities, rebuilds};
use annp::rank::{rank_ids, Entry, RankQueue};
use annp::sorted::{shared, sorted_set};
use annp::topology::jobs;
use annp::window::Window;

#[test]
fn a_chain_gives_tokens_of_its_window() {
    let mut c = ZipfChain::new(4, 6, 8);
    assert_eq!(c.next(0), 6);
    assert_eq!(c.next(1), 7);
    assert_eq!(c.next(2), 0);
    assert_eq!(c.next(99), 1);
    assert_eq!(c.state(), 3);
}

#[test]
fn pairs_of_tokens_are_counted() {
    let stream = [0u32, 1, 1, 2, 0, 1];
    assert_eq!(token_counts(&stream, 4), vec![2, 3, 1, 0]);
    let b = Bigrams::count(&stream, 3);
    assert_eq!(b.first, vec![2, 2, 1]);
    assert_eq!(b.second, vec![1, 3, 1]);
    assert_eq!(b.joint, vec![0, 2, 0, 0, 1, 1, 1, 0, 0]);
    for a in 0..3 {
        assert_eq!(b.joint[a * 3..(a + 1) * 3].iter().sum::<u64>(), b.first[a]);
    }
}

#[test]
fn tokens_are_ranked_from_one() {
    assert_eq!(ranks(&[5, 9, 0, 9]), vec![3, 1, 4, 2]);
    assert_eq!(rank_ids(&[5, 9, 0, 9], 1), vec![1, 3, 0]);
    assert_eq!(
        [1usize, 4, 5, 16, 17, 64, 65].map(band_of),
        [0, 0, 1, 1, 2, 2, 3]
    );
    assert_eq!(band_name(3), "rank 65+");
}

#[test]
fn the_penalty_holds_three_tables() {
    let e = OnlineEwc { vocab: 256, d: 32, lambdas: 4 };
    assert_eq!(e.parameters(), 8192);
    assert_eq!(e.state_held(), 24576);
    assert_eq!(e.cost(), 131072);
}

#[test]
fn a_head_shares_out_its_units() {
    let mut h = HeadShape::routed(64, 12, 100, 4).expect("an even split");
    assert_eq!(h.group(0), (0, 3));
    assert_eq!(h.group(3), (9, 12));
    assert_eq!(h.parameters(), 12 * 64 + 12 + 100 * 12 + 100);
    assert_eq!(h.gate_width(), 64);
    h.set_gate_width(32);
    assert_eq!((h.gate_width(), h.in_dim(), h.hidden(), h.vocab(), h.experts()), (32, 64, 12, 100, 4));
    assert!(HeadShape::routed(64, 12, 100, 5).is_none());
    assert!(HeadShape::routed(0, 12, 100, 4).is_none());
    assert!(HeadShape::routed(64, 12, 100, 0).is_none());
    let mut u = Usage::new(3);
    for e in [2, 2, 0] {
        u.note(e);
    }
    assert_eq!(u.counts, vec![1, 0, 2]);
    assert_eq!(u.most_used(), vec![2, 0, 1]);
    assert_eq!((charged_decile(4), charged_decile(10)), (4, 9));
}

#[test]
fn inputs_come_from_the_tokens_of_the_window() {
    let mut w: Window<u32> = Window::new(2);
    assert_eq!(input_cell(&w, 4, 10, 0), None);
    w.push(5);
    w.push(7);
    w.push(9);
    assert_eq!(input_cell(&w, 4, 10, 3), Some(31));
    assert_eq!(input_cell(&w, 4, 10, 4), Some(36));
    assert_eq!(input_cell(&w, 4, 10, 8), None);
    assert_eq!(baseline::parameters(10, 4, 100), 140);
    assert_eq!((baseline::tail_count(205), baseline::tail_count(3)), (20, 1));
}

#[test]
fn a_window_forgets_the_oldest() {
    let mut w: Window<u32> = Window::new(3);
    for x in 0..5 {
        w.push(x);
    }
    assert_eq!(w.len(), 3);
    assert_eq!((*w.get(0), w.back(1), w.back(3), w.back(4)), (2, Some(&4), Some(&2), None));
    w.clear();
    assert_eq!(w.len(), 0);
}

#[test]
fn experts_are_as_pure_as_their_main_domain() {
    let mut joint = Activity::new(3, 2);
    for (e, d) in [(0, 0), (0, 0), (0, 1), (2, 1)] {
        joint.note(e, &[d]);
    }
    let v: Vec<(u64, u64)> = purities(&joint).iter().map(|p| (p.most, p.of)).collect();
    assert_eq!(v, vec![(2, 3), (1, 1)]);
}

#[test]
fn arms_of_the_two_by_two_have_names() {
    assert_eq!(arm_name(false, true, true, true), "rotation + ladder      (candidate A)");
    assert_eq!(arm_name(false, true, true, false), "rotation + decay       (ladder removed)");
    assert_eq!(arm_name(false, true, false, true), "identity + ladder      (what DESIGN.md died as)");
    assert_eq!(arm_name(false, true, false, false), "identity + decay       (decaying bag of codes)");
    assert_eq!(arm_name(false, false, true, true), "current token only     (order-1 through our own head)");
    assert!(arm_name(true, false, true, true).starts_with("single ladder node"));
    assert_eq!(node_parameters(100, 8), 800);
    assert!(rebuilds(Some(4), 1) && rebuilds(None, 2) && !rebuilds(None, 1));
}

#[test]
fn a_sweep_lists_every_network_once() {
    let v = jobs(&[0.0, 1.0], &[64, 128, 256], &[1, 2, 4], 1.0);
    assert_eq!(v.len(), 6 + 6);
    assert_eq!((v[4].exponent, v[4].contacts, v[4].size), (1.0, 1, 128));
    assert_eq!((v[6].exponent, v[6].contacts, v[6].size), (1.0, 2, 64));
    assert_eq!((v[11].exponent, v[11].contacts, v[11].size), (1.0, 4, 256));
}

#[test]
fn a_queue_gives_the_leader_first() {
    let mut q = RankQueue::new();
    for (key, at) in [(3u64, 0usize), (9, 1), (9, 2), (1, 3)] {
        q.push(Entry { key, at, mate: 0, extent: 0 });
    }
    let order: Vec<usize> = (0..4).map(|_| q.pop().unwrap().at).collect();
    assert_eq!(order, vec![1, 2, 0, 3]);
    assert!(q.pop().is_none());
    assert_eq!(q.len(), 0);
}

#[test]
fn lists_are_sorted_and_intersected() {
    assert_eq!(sorted_set(&[4, 1, 4, 2]), vec![1, 2, 4]);
    assert_eq!(shared(&[1, 3, 5], &[2, 3, 5, 8]), 2);
    assert_eq!(shared(&[1], &[]), 0);
}
